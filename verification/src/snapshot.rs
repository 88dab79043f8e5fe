//! Workspaces that are packed and unpacked: the size cap, what goes into an
//! archive under which name, which entries of an archive may be unpacked, and how
//! a restore ends.

use vstd::prelude::*;

use crate::error::{ApiError, ErrorView};
use crate::number::{decimal, u64_decimal};
use crate::order::{arrange, arranged, key_views, order_of, KeyView, SortKey};
use crate::path::{
    dotdot, is_absolute, is_absolute_text, is_dotdot, is_prefix, is_within, law_relative_joins, parts_of,
    path_parts, relative_of, relative_to,
};
use crate::safe_path::{go_up, lexical, no_dotdot};
use crate::text::{concat2, concat3, str_eq, texts};

verus! {

// --- size --------------------------------------------------------------------

/// What a directory entry is, links not followed.
#[derive(Debug, Clone, Copy, PartialEq, Eq, Structural)]
pub enum EntryKind {
    /// A file, or anything that is neither a directory nor a link.
    File,
    /// A directory.
    Dir,
    /// A symbolic link.
    Symlink,
}

/// An entry of a workspace, at any depth: what it is and its own size, a link's
/// being that of the link.
#[derive(Debug, Clone, Copy)]
pub struct WalkEntry {
    /// What the entry is.
    pub kind: EntryKind,
    /// The size in bytes.
    pub size: u64,
}

/// The bytes of all entries but directories.
pub open spec fn total_size(entries: Seq<WalkEntry>) -> nat
    decreases entries.len(),
{
    if entries.len() == 0 {
        0
    } else {
        total_size(entries.drop_last()) + if entries.last().kind == EntryKind::Dir {
            0
        } else {
            entries.last().size as nat
        }
    }
}

proof fn lemma_size_step(entries: Seq<WalkEntry>, i: int)
    requires
        0 <= i < entries.len(),
    ensures
        total_size(entries.take(i + 1)) == total_size(entries.take(i)) + if entries[i].kind
            == EntryKind::Dir {
            0
        } else {
            entries[i].size as nat
        },
{
    assert(entries.take(i + 1).drop_last() =~= entries.take(i));
}

proof fn lemma_size_grows(entries: Seq<WalkEntry>, i: int)
    requires
        0 <= i <= entries.len(),
    ensures
        total_size(entries.take(i)) <= total_size(entries),
    decreases entries.len() - i,
{
    if i < entries.len() {
        lemma_size_step(entries, i);
        lemma_size_grows(entries, i + 1);
    } else {
        assert(entries.take(i) =~= entries);
    }
}

/// The bytes of a workspace, where they can be counted at all.
pub fn workspace_size(entries: &Vec<WalkEntry>) -> (r: Option<u64>)
    ensures
        match r {
            Some(n) => n == total_size(entries@),
            None => total_size(entries@) > u64::MAX,
        },
{
    let mut total: u64 = 0;
    let mut i: usize = 0;
    while i < entries.len()
        invariant
            i <= entries@.len(),
            total == total_size(entries@.take(i as int)),
        decreases entries@.len() - i,
    {
        proof {
            lemma_size_step(entries@, i as int);
            lemma_size_grows(entries@, i as int + 1);
        }
        if entries[i].kind != EntryKind::Dir {
            match total.checked_add(entries[i].size) {
                Some(n) => {
                    total = n;
                },
                None => {
                    return None;
                },
            }
        }
        i += 1;
    }
    assert(entries@.take(entries@.len() as int) =~= entries@);
    Some(total)
}

/// The refusal of a workspace that is too large.
pub open spec fn too_large() -> ErrorView {
    ErrorView { status: 413, detail: "workspace exceeds MAX_WORKSPACE_BYTES"@ }
}

/// Whether a workspace may be packed: its bytes are at most `cap`.
pub fn check_size(entries: &Vec<WalkEntry>, cap: u64) -> (r: Result<(), ApiError>)
    ensures
        match r {
            Ok(_) => total_size(entries@) <= cap,
            Err(e) => total_size(entries@) > cap && e@ == too_large(),
        },
{
    let fits = match workspace_size(entries) {
        Some(n) => n <= cap,
        None => false,
    };
    if fits {
        Ok(())
    } else {
        Err(ApiError::PayloadTooLarge("workspace exceeds MAX_WORKSPACE_BYTES".to_owned()))
    }
}

// --- packing -----------------------------------------------------------------

/// What paths are ordered by: their parts.
pub open spec fn path_keys(paths: Seq<Seq<char>>) -> Seq<KeyView> {
    paths.map_values(|p: Seq<char>| KeyView { major: 0, minor: 0, parts: parts_of(p) })
}

/// The paths in the order in which they are packed.
pub open spec fn packed_order(paths: Seq<Seq<char>>) -> Seq<Seq<char>> {
    arranged(paths, order_of(path_keys(paths)))
}

/// The name of a path in the archive: as seen from the workspace.
pub open spec fn archive_name(path: Seq<char>, base: Seq<char>) -> Seq<char> {
    match relative_of(path, base) {
        Some(rel) => rel,
        None => path,
    }
}

/// A path of the workspace and its name in the archive.
#[derive(Debug)]
pub struct ArchiveEntry {
    /// The path.
    pub path: String,
    /// The name.
    pub name: String,
}

/// The paths and names of entries.
pub open spec fn entry_views(v: Seq<ArchiveEntry>) -> Seq<(Seq<char>, Seq<char>)> {
    v.map_values(|e: ArchiveEntry| (e.path@, e.name@))
}

/// The paths with their keys.
pub(crate) fn keys_of_paths(paths: &Vec<String>) -> (r: Vec<SortKey>)
    ensures
        key_views(r@) == path_keys(texts(paths@)),
        r@.len() == paths@.len(),
{
    let mut keys: Vec<SortKey> = Vec::new();
    let mut i: usize = 0;
    while i < paths.len()
        invariant
            i <= paths@.len(),
            keys@.len() == i,
            key_views(keys@) == path_keys(texts(paths@).take(i as int)),
        decreases paths@.len() - i,
    {
        let ghost k0 = key_views(keys@);
        let parts = path_parts(paths[i].as_str());
        let key = SortKey { major: 0, minor: 0, parts };
        let ghost kv = key@;
        keys.push(key);
        proof {
            assert(key_views(keys@) =~= k0.push(kv));
            assert(key_views(keys@) =~= path_keys(texts(paths@).take(i as int + 1)));
        }
        i += 1;
    }
    assert(texts(paths@).take(paths@.len() as int) =~= texts(paths@));
    keys
}

/// The entries of an archive of the workspace `base`: the paths in order, each
/// under its name as seen from the workspace.
pub fn archive_entries(paths: &Vec<String>, base: &str) -> (r: Vec<ArchiveEntry>)
    ensures
        entry_views(r@) == packed_order(texts(paths@)).map_values(
            |p: Seq<char>| (p, archive_name(p, base@)),
        ),
{
    let keys = keys_of_paths(paths);
    let rows = arrange(paths, &keys);
    let ghost ordered = texts(rows@);
    let ghost f = |p: Seq<char>| (p, archive_name(p, base@));
    let mut r: Vec<ArchiveEntry> = Vec::new();
    let mut i: usize = 0;
    while i < rows.len()
        invariant
            i <= rows@.len(),
            ordered == texts(rows@),
            f == (|p: Seq<char>| (p, archive_name(p, base@))),
            entry_views(r@) == ordered.take(i as int).map_values(f),
        decreases rows@.len() - i,
    {
        let ghost r0 = entry_views(r@);
        let path = rows[i].clone();
        let name = match relative_to(path.as_str(), base) {
            Some(n) => n,
            None => path.clone(),
        };
        assert(ordered[i as int] == path@);
        let ghost v = (path@, name@);
        r.push(ArchiveEntry { path, name });
        proof {
            assert(entry_views(r@) =~= r0.push(v));
            assert(ordered.take(i as int + 1) =~= ordered.take(i as int).push(ordered[i as int]));
            assert(ordered.take(i as int + 1).map_values(f) =~= ordered.take(i as int).map_values(
                f,
            ).push(f(ordered[i as int])));
        }
        i += 1;
    }
    assert(ordered.take(ordered.len() as int) =~= ordered);
    r
}

// --- unpacking ---------------------------------------------------------------

/// The way from `start` over the parts `steps`, followed by their text alone,
/// is at or under `base` at every point.
pub open spec fn keeps_below(
    base: Seq<Seq<char>>,
    start: Seq<Seq<char>>,
    steps: Seq<Seq<char>>,
) -> bool {
    forall|k: int|
        0 <= k <= steps.len() ==> base.is_prefix_of(lexical(start, #[trigger] steps.take(k)))
}

/// Whether `rel`, looked at from `base` by its text alone, is a path at or under
/// `base` that no `..` leads above `base` on the way. An absolute path is not.
pub open spec fn stays_within(base: Seq<char>, rel: Seq<char>) -> bool {
    &&& !is_absolute_text(rel)
    &&& keeps_below(parts_of(base), parts_of(base), parts_of(rel))
}

/// The parts of the directory in which a link of an archive lies, with every
/// `..` resolved.
pub open spec fn link_dir(base: Seq<char>, name: Seq<char>) -> Seq<Seq<char>> {
    let up = if parts_of(name).len() > 0 {
        parts_of(name).drop_last()
    } else {
        seq![]
    };
    if is_absolute_text(name) {
        lexical(seq![], up)
    } else {
        lexical(parts_of(base), up)
    }
}

/// Whether the target of the link `name` is, by its text alone, a path at or
/// under `base` that no `..` leads above `base` on the way. The target is looked
/// at from the directory of the link, as the operating system does. An absolute
/// target is not.
pub open spec fn target_within(base: Seq<char>, name: Seq<char>, target: Seq<char>) -> bool {
    &&& !is_absolute_text(target)
    &&& is_absolute_text(name) ==> is_absolute_text(base)
    &&& keeps_below(parts_of(base), link_dir(base, name), parts_of(target))
}

/// Whether an entry of an archive may be unpacked.
pub open spec fn entry_confined(
    name: Seq<char>,
    link: Option<Seq<char>>,
    base: Seq<char>,
) -> bool {
    &&& stays_within(base, name)
    &&& match link {
        Some(target) => target_within(base, name, target),
        None => true,
    }
}

/// The parts that are reached from `start` by the parts of a path.
fn follow(start: Vec<String>, steps: &Vec<String>) -> (r: Vec<String>)
    ensures
        texts(r@) == lexical(texts(start@), texts(steps@)),
{
    let mut done = start;
    let ghost todo = texts(steps@);
    let mut i: usize = 0;
    assert(todo.skip(0) =~= todo);
    while i < steps.len()
        invariant
            i <= steps@.len(),
            todo == texts(steps@),
            lexical(texts(start@), todo) == lexical(texts(done@), todo.skip(i as int)),
        decreases steps@.len() - i,
    {
        let ghost d0 = texts(done@);
        proof {
            assert(todo.skip(i as int)[0] == steps@[i as int]@);
            assert(todo.skip(i as int).drop_first() =~= todo.skip(i as int + 1));
        }
        if is_dotdot(steps[i].as_str()) {
            let _last = done.pop();
            assert(texts(done@) =~= go_up(d0));
        } else {
            done.push(steps[i].clone());
            assert(texts(done@) =~= d0.push(steps@[i as int]@));
        }
        i += 1;
    }
    assert(todo.skip(todo.len() as int) =~= seq![]);
    done
}

/// Whether the way from `start` over `steps` is at or under `base` at every
/// point.
fn walks_below(base: &Vec<String>, start: Vec<String>, steps: &Vec<String>) -> (r: bool)
    ensures
        r == keeps_below(texts(base@), texts(start@), texts(steps@)),
{
    let ghost from = texts(start@);
    let ghost todo = texts(steps@);
    let mut done = start;
    let mut i: usize = 0;
    assert(todo.take(0) =~= seq![]);
    if !is_prefix(base, &done) {
        assert(!texts(base@).is_prefix_of(lexical(from, todo.take(0))));
        return false;
    }
    while i < steps.len()
        invariant
            i <= steps@.len(),
            from == texts(start@),
            todo == texts(steps@),
            texts(done@) == lexical(from, todo.take(i as int)),
            forall|k: int|
                0 <= k <= i ==> texts(base@).is_prefix_of(lexical(from, #[trigger] todo.take(k))),
        decreases steps@.len() - i,
    {
        let ghost d0 = texts(done@);
        proof {
            assert(todo.take(i as int + 1) =~= todo.take(i as int) + seq![todo[i as int]]);
            lemma_lexical_append(from, todo.take(i as int), seq![todo[i as int]]);
            reveal_with_fuel(lexical, 2);
            assert(seq![todo[i as int]].drop_first() =~= seq![]);
            assert(todo[i as int] == steps@[i as int]@);
        }
        if is_dotdot(steps[i].as_str()) {
            let _last = done.pop();
            assert(texts(done@) =~= go_up(d0));
        } else {
            done.push(steps[i].clone());
            assert(texts(done@) =~= d0.push(todo[i as int]));
        }
        i += 1;
        if !is_prefix(base, &done) {
            assert(!texts(base@).is_prefix_of(lexical(from, todo.take(i as int))));
            return false;
        }
    }
    true
}

/// Whether `rel`, looked at from `base` by its text alone, is a path at or under
/// `base` that no `..` leads above `base` on the way.
pub fn lexically_within(base: &str, rel: &str) -> (r: bool)
    ensures
        r == stays_within(base@, rel@),
{
    if is_absolute(rel) {
        return false;
    }
    let b = path_parts(base);
    let start = path_parts(base);
    let steps = path_parts(rel);
    walks_below(&b, start, &steps)
}

/// Whether the target of a link is, by its text alone, a path at or under `base`
/// that no `..` leads above `base` on the way.
pub fn link_within(base: &str, link_name: &str, target: &str) -> (r: bool)
    ensures
        r == target_within(base@, link_name@, target@),
{
    if is_absolute(target) || (is_absolute(link_name) && !is_absolute(base)) {
        return false;
    }
    let mut up = path_parts(link_name);
    assert(texts(up@).len() == up@.len());
    let ghost all = texts(up@);
    if up.len() > 0 {
        let _own = up.pop();
        assert(texts(up@) =~= all.drop_last());
    } else {
        assert(texts(up@) =~= seq![]);
    }
    let start: Vec<String> = if is_absolute(link_name) {
        Vec::new()
    } else {
        path_parts(base)
    };
    assert(is_absolute_text(link_name@) ==> texts(start@) =~= seq![]);
    let dir = follow(start, &up);
    let b = path_parts(base);
    let steps = path_parts(target);
    walks_below(&b, dir, &steps)
}

/// Whether an entry of an archive may be unpacked: its path stays under `base`,
/// and so does the target of a link.
pub fn confine_entry(name: &str, link: Option<&str>, base: &str) -> (r: bool)
    ensures
        r == entry_confined(name@, crate::text::opt_str(link), base@),
{
    if !lexically_within(base, name) {
        return false;
    }
    match link {
        Some(target) => link_within(base, name, target),
        None => true,
    }
}

/// The check before an entry is unpacked, with the error that ends the restore.
pub fn check_entry(name: &str, link: Option<&str>, base: &str) -> (r: Result<(), String>)
    ensures
        match r {
            Ok(_) => entry_confined(name@, crate::text::opt_str(link), base@),
            Err(m) => !entry_confined(name@, crate::text::opt_str(link), base@) && m@
                == "restore archive entry escapes workspace: "@ + name@,
        },
{
    if confine_entry(name, link, base) {
        Ok(())
    } else {
        Err(concat2("restore archive entry escapes workspace: ", name))
    }
}

proof fn lemma_lexical_append(done: Seq<Seq<char>>, a: Seq<Seq<char>>, b: Seq<Seq<char>>)
    ensures
        lexical(done, a + b) == lexical(lexical(done, a), b),
    decreases a.len(),
{
    if a.len() == 0 {
        assert(a + b =~= b);
    } else {
        assert((a + b)[0] == a[0]);
        assert((a + b).drop_first() =~= a.drop_first() + b);
        if a[0] == dotdot() {
            lemma_lexical_append(go_up(done), a.drop_first(), b);
        } else {
            lemma_lexical_append(done.push(a[0]), a.drop_first(), b);
        }
    }
}

proof fn lemma_lexical_plain(done: Seq<Seq<char>>, a: Seq<Seq<char>>)
    requires
        no_dotdot(a),
    ensures
        lexical(done, a) == done + a,
    decreases a.len(),
{
    if a.len() == 0 {
        assert(done + a =~= done);
    } else {
        assert(a[0] != dotdot());
        assert forall|i: int| 0 <= i < a.drop_first().len() implies #[trigger] a.drop_first()[i]
            != dotdot() by {
            assert(a[i + 1] != dotdot());
        }
        lemma_lexical_plain(done.push(a[0]), a.drop_first());
        assert(done.push(a[0]) + a.drop_first() =~= done + a);
    }
}

/// Where there are no links, an entry that may be unpacked lands in the
/// workspace, and so does all that lies on the way: the path that the operating
/// system reaches from the root over the workspace and the parts of the name has
/// the workspace's path in front.
pub proof fn law_entry_lands_inside(
    base: Seq<char>,
    name: Seq<char>,
    link: Option<Seq<char>>,
    k: int,
)
    requires
        no_dotdot(parts_of(base)),
        entry_confined(name, link, base),
        0 <= k <= parts_of(name).len(),
    ensures
        parts_of(base).is_prefix_of(lexical(seq![], parts_of(base) + parts_of(name).take(k))),
{
    let b = parts_of(base);
    lemma_lexical_append(seq![], b, parts_of(name).take(k));
    lemma_lexical_plain(seq![], b);
    assert(Seq::<Seq<char>>::empty() + b =~= b);
}

/// Where there are no other links, a link that may be unpacked leads into the
/// workspace: the path that the operating system reaches over the workspace, the
/// directory of the link and the target has the workspace's path in front.
pub proof fn law_link_leads_inside(base: Seq<char>, name: Seq<char>, target: Seq<char>)
    requires
        no_dotdot(parts_of(base)),
        entry_confined(name, Some(target), base),
        parts_of(name).len() > 0,
    ensures
        parts_of(base).is_prefix_of(
            lexical(seq![], parts_of(base) + parts_of(name).drop_last() + parts_of(target)),
        ),
{
    let b = parts_of(base);
    let up = parts_of(name).drop_last();
    let t = parts_of(target);
    lemma_lexical_append(seq![], b + up, t);
    lemma_lexical_append(seq![], b, up);
    lemma_lexical_plain(seq![], b);
    assert(Seq::<Seq<char>>::empty() + b =~= b);
    assert(t.take(t.len() as int) =~= t);
}

/// A name without `..` always stays within.
pub proof fn law_plain_names_stay(base: Seq<char>, name: Seq<char>)
    requires
        !is_absolute_text(name),
        no_dotdot(parts_of(name)),
    ensures
        stays_within(base, name),
{
    let (b, n) = (parts_of(base), parts_of(name));
    assert forall|k: int| 0 <= k <= n.len() implies b.is_prefix_of(
        lexical(b, #[trigger] n.take(k)),
    ) by {
        assert forall|i: int| 0 <= i < n.take(k).len() implies #[trigger] n.take(k)[i]
            != dotdot() by {
            assert(n[i] != dotdot());
        }
        lemma_lexical_plain(b, n.take(k));
        assert((b + n.take(k)).take(b.len() as int) =~= b);
    }
}

proof fn lemma_step(from: Seq<Seq<char>>, steps: Seq<Seq<char>>, k: int)
    requires
        0 <= k < steps.len(),
    ensures
        lexical(from, steps.take(k + 1)) == if steps[k] == dotdot() {
            go_up(lexical(from, steps.take(k)))
        } else {
            lexical(from, steps.take(k)).push(steps[k])
        },
{
    reveal_with_fuel(lexical, 2);
    assert(steps.take(k + 1) =~= steps.take(k) + seq![steps[k]]);
    lemma_lexical_append(from, steps.take(k), seq![steps[k]]);
    assert(seq![steps[k]].drop_first() =~= seq![]);
}

proof fn lemma_way_moves(
    b: Seq<Seq<char>>,
    c: Seq<Seq<char>>,
    x: Seq<Seq<char>>,
    steps: Seq<Seq<char>>,
    k: int,
)
    requires
        b.len() > 0,
        keeps_below(b, b + x, steps),
        0 <= k <= steps.len(),
    ensures
        b.is_prefix_of(lexical(b + x, steps.take(k))),
        lexical(c + x, steps.take(k)) == c + lexical(b + x, steps.take(k)).skip(b.len() as int),
    decreases k,
{
    let here = lexical(b + x, steps.take(k));
    let n = b.len() as int;
    assert(b.is_prefix_of(here));
    if k == 0 {
        assert(steps.take(0) =~= seq![]);
        assert((b + x).skip(n) =~= x);
    } else {
        lemma_way_moves(b, c, x, steps, k - 1);
        lemma_step(b + x, steps, k - 1);
        lemma_step(c + x, steps, k - 1);
        let before = lexical(b + x, steps.take(k - 1));
        if steps[k - 1] == dotdot() {
            assert(before.len() > n);
            assert(go_up(c + before.skip(n)) =~= c + go_up(before).skip(n));
        } else {
            let part = steps[k - 1];
            assert((c + before.skip(n)).push(part) =~= c + before.push(part).skip(n));
        }
    }
}

/// What is packed can be unpacked, in this workspace and in any other: the name
/// under which a path of a workspace is packed is the way from the workspace to
/// it, and an entry of that name may be unpacked; so may a link whose target
/// stays in the workspace.
pub proof fn law_archive_comes_back(
    path: Seq<char>,
    link: Option<Seq<char>>,
    base: Seq<char>,
    other: Seq<char>,
)
    requires
        parts_of(base).len() > 0,
        is_within(path, base),
        no_dotdot(parts_of(path)),
        link matches Some(target) ==> target_within(base, archive_name(path, base), target),
    ensures
        parts_of(base) + parts_of(archive_name(path, base)) == parts_of(path),
        entry_confined(archive_name(path, base), link, other),
{
    let name = archive_name(path, base);
    let (b, c, n) = (parts_of(base), parts_of(other), parts_of(name));
    law_relative_joins(path, base);
    assert forall|i: int| 0 <= i < n.len() implies #[trigger] n[i] != dotdot() by {
        assert(parts_of(path)[b.len() + i] == n[i]);
    }
    law_plain_names_stay(other, name);
    match link {
        Some(target) => {
            let t = parts_of(target);
            let up = if n.len() > 0 {
                n.drop_last()
            } else {
                seq![]
            };
            assert forall|i: int| 0 <= i < up.len() implies #[trigger] up[i] != dotdot() by {
                assert(n[i] != dotdot());
            }
            lemma_lexical_plain(b, up);
            lemma_lexical_plain(c, up);
            assert forall|k: int| 0 <= k <= t.len() implies c.is_prefix_of(
                lexical(link_dir(other, name), #[trigger] t.take(k)),
            ) by {
                lemma_way_moves(b, c, up, t, k);
                let rest = lexical(b + up, t.take(k)).skip(b.len() as int);
                assert((c + rest).take(c.len() as int) =~= c);
            }
        },
        None => {},
    }
}

// --- restoring ---------------------------------------------------------------

/// The answer to a restore.
#[derive(Debug)]
pub struct RestoreResponse {
    /// Whether the workspace was restored.
    pub restored: bool,
    /// How many compressed bytes came in.
    pub bytes: u64,
    /// Why the workspace was not restored.
    pub skipped: Option<&'static str>,
}

/// The answer to a restore.
pub struct RestoreView {
    /// Whether the workspace was restored.
    pub restored: bool,
    /// How many compressed bytes came in.
    pub bytes: u64,
    /// Why the workspace was not restored.
    pub skipped: Option<Seq<char>>,
}

impl View for RestoreResponse {
    type V = RestoreView;

    open spec fn view(&self) -> RestoreView {
        RestoreView {
            restored: self.restored,
            bytes: self.bytes,
            skipped: match self.skipped {
                Some(s) => Some(s@),
                None => None,
            },
        }
    }
}

/// Whether a workspace holds anything of its user's: an entry other than the
/// runtime's own directory.
pub open spec fn holds_user_data(names: Seq<Seq<char>>) -> bool {
    exists|i: int| 0 <= i < names.len() && #[trigger] names[i] != ".open-websandbox"@
}

/// Whether a workspace, given the names of its entries, holds anything of its
/// user's; one that cannot be listed does not.
pub fn workspace_non_empty(names: Option<&Vec<String>>) -> (r: bool)
    ensures
        r == match names {
            Some(v) => holds_user_data(texts(v@)),
            None => false,
        },
{
    match names {
        Some(v) => {
            let mut i: usize = 0;
            while i < v.len()
                invariant
                    names == Some(v),
                    i <= v@.len(),
                    forall|k: int| 0 <= k < i ==> #[trigger] texts(v@)[k] == ".open-websandbox"@,
                decreases v@.len() - i,
            {
                if !str_eq(v[i].as_str(), ".open-websandbox") {
                    assert(texts(v@)[i as int] != ".open-websandbox"@);
                    return true;
                }
                i += 1;
            }
            false
        },
        None => false,
    }
}

/// The answer where a workspace is not restored because it holds user data.
pub fn skip_restore() -> (r: RestoreResponse)
    ensures
        r@ == (RestoreView { restored: false, bytes: 0, skipped: Some("workspace-non-empty"@) }),
{
    RestoreResponse { restored: false, bytes: 0, skipped: Some("workspace-non-empty") }
}

/// Counts the compressed bytes of a restore.
#[derive(Debug)]
pub struct RestoreMeter {
    received: u64,
    cap: u64,
}

/// The sum of two counts, or the largest there is.
pub open spec fn capped_sum(a: u64, b: u64) -> u64 {
    if a + b > u64::MAX {
        u64::MAX
    } else {
        (a + b) as u64
    }
}

impl RestoreMeter {
    /// How many bytes came in.
    pub closed spec fn count(&self) -> u64 {
        self.received
    }

    /// The most bytes that may come in.
    pub closed spec fn limit(&self) -> u64 {
        self.cap
    }

    /// Whether too many bytes came in.
    pub open spec fn exceeded(&self) -> bool {
        self.count() > self.limit()
    }

    /// A meter that has counted nothing.
    pub fn new(cap: u64) -> (r: Self)
        ensures
            r.count() == 0,
            r.limit() == cap,
            !r.exceeded(),
    {
        RestoreMeter { received: 0, cap }
    }

    /// Counts a piece; the answer tells whether it may be handed on.
    pub fn take_in(&mut self, len: u64) -> (r: bool)
        ensures
            final(self).limit() == old(self).limit(),
            final(self).count() == capped_sum(old(self).count(), len),
            r == !final(self).exceeded(),
    {
        self.received = self.received.saturating_add(len);
        self.received <= self.cap
    }

    /// How many bytes came in.
    pub fn received(&self) -> (r: u64)
        ensures
            r == self.count(),
    {
        self.received
    }

    /// Whether too many bytes came in.
    pub fn is_exceeded(&self) -> (r: bool)
        ensures
            r == self.exceeded(),
    {
        self.received > self.cap
    }
}

/// The count of a meter after pieces of the given lengths.
pub open spec fn counted(start: u64, lens: Seq<u64>) -> u64
    decreases lens.len(),
{
    if lens.len() == 0 {
        start
    } else {
        capped_sum(counted(start, lens.drop_last()), lens.last())
    }
}

/// The sum of lengths.
pub open spec fn sum_of(lens: Seq<u64>) -> nat
    decreases lens.len(),
{
    if lens.len() == 0 {
        0
    } else {
        sum_of(lens.drop_last()) + lens.last() as nat
    }
}

/// Below the largest count a meter shows the sum of the lengths, and a limit
/// below that is exceeded exactly where the sum exceeds it.
pub proof fn law_meter_counts(lens: Seq<u64>, cap: u64)
    ensures
        sum_of(lens) <= u64::MAX ==> counted(0, lens) == sum_of(lens),
        cap < u64::MAX ==> (counted(0, lens) > cap <==> sum_of(lens) > cap),
{
    lemma_counted(lens);
}

proof fn lemma_counted(lens: Seq<u64>)
    ensures
        counted(0, lens) == if sum_of(lens) <= u64::MAX {
            sum_of(lens)
        } else {
            u64::MAX as nat
        },
    decreases lens.len(),
{
    if lens.len() > 0 {
        lemma_counted(lens.drop_last());
    }
}

/// How a stage of a restore ended.
#[derive(Debug)]
pub enum Stage {
    /// It finished.
    Done,
    /// It failed with this message.
    Failed(String),
    /// Its task was lost, with this message.
    Lost(String),
}

/// How a stage of a restore ended.
pub enum StageView {
    /// It finished.
    Done,
    /// It failed with this message.
    Failed(Seq<char>),
    /// Its task was lost, with this message.
    Lost(Seq<char>),
}

impl View for Stage {
    type V = StageView;

    open spec fn view(&self) -> StageView {
        match *self {
            Stage::Done => StageView::Done,
            Stage::Failed(m) => StageView::Failed(m@),
            Stage::Lost(m) => StageView::Lost(m@),
        }
    }
}

/// How a restore ends: too many bytes, a failed body, a failed decoder and a
/// failed extractor are errors, in this order.
pub open spec fn restore_end(
    received: u64,
    cap: u64,
    body_error: Option<Seq<char>>,
    decode: StageView,
    extract: StageView,
) -> Result<RestoreView, ErrorView> {
    let internal = |m: Seq<char>| crate::error::internal(m);
    if received > cap {
        Err(
            ErrorView {
                status: 413,
                detail: "restore stream exceeds MAX_WORKSPACE_BYTES ("@ + decimal(cap as nat)
                    + ")"@,
            },
        )
    } else if body_error is Some {
        Err(internal("restore stream read failed: "@ + body_error->0))
    } else {
        match decode {
            StageView::Failed(m) => Err(internal("restore pipeline failed (zstd decode): "@ + m)),
            StageView::Lost(m) => Err(internal("restore decode task join failed: "@ + m)),
            StageView::Done => match extract {
                StageView::Failed(m) => Err(
                    internal("restore pipeline failed (tar extract): "@ + m),
                ),
                StageView::Lost(m) => Err(internal("restore extract task join failed: "@ + m)),
                StageView::Done => Ok(
                    RestoreView { restored: true, bytes: received, skipped: None },
                ),
            },
        }
    }
}

/// How a restore ends. Where the decoder did not finish, what is said of the
/// extractor does not matter.
pub fn restore_outcome(
    meter: &RestoreMeter,
    body_error: Option<&str>,
    decode: &Stage,
    extract: &Stage,
) -> (r: Result<RestoreResponse, ApiError>)
    ensures
        crate::text::view_result(r) == restore_end(
            meter.count(),
            meter.limit(),
            crate::text::opt_str(body_error),
            decode@,
            extract@,
        ),
{
    if meter.received > meter.cap {
        let n = u64_decimal(meter.cap);
        return Err(
            ApiError::PayloadTooLarge(
                concat3("restore stream exceeds MAX_WORKSPACE_BYTES (", n.as_str(), ")"),
            ),
        );
    }
    if let Some(m) = body_error {
        return Err(ApiError::Internal(concat2("restore stream read failed: ", m)));
    }
    match decode {
        Stage::Failed(m) => {
            return Err(
                ApiError::Internal(
                    concat2("restore pipeline failed (zstd decode): ", m.as_str()),
                ),
            );
        },
        Stage::Lost(m) => {
            return Err(
                ApiError::Internal(concat2("restore decode task join failed: ", m.as_str())),
            );
        },
        Stage::Done => {},
    }
    match extract {
        Stage::Failed(m) => Err(
            ApiError::Internal(concat2("restore pipeline failed (tar extract): ", m.as_str())),
        ),
        Stage::Lost(m) => Err(
            ApiError::Internal(concat2("restore extract task join failed: ", m.as_str())),
        ),
        Stage::Done => Ok(
            RestoreResponse { restored: true, bytes: meter.received, skipped: None },
        ),
    }
}

/// A restore is reported as done only where every stage finished and the bytes
/// were within the cap.
pub proof fn law_no_silent_restore(
    received: u64,
    cap: u64,
    body_error: Option<Seq<char>>,
    decode: StageView,
    extract: StageView,
)
    ensures
        restore_end(received, cap, body_error, decode, extract) is Ok <==> (received <= cap
            && body_error is None && decode is Done && extract is Done),
{
}

/// A path comes before another by the parts of both.
pub open spec fn path_before(a: Seq<char>, b: Seq<char>) -> bool {
    crate::order::texts_lt(parts_of(a), parts_of(b))
}

/// Paths are packed each once, in the order of their parts.
pub proof fn law_packed_order(paths: Seq<Seq<char>>)
    ensures
        packed_order(paths).len() == paths.len(),
        packed_order(paths).to_multiset() == paths.to_multiset(),
        forall|x: int, y: int|
            0 <= x < y < paths.len() ==> !path_before(
                #[trigger] packed_order(paths)[y],
                #[trigger] packed_order(paths)[x],
            ),
{
    let keys = path_keys(paths);
    crate::order::law_arranged(paths, keys);
    crate::order::law_order_exists(keys);
    let order = order_of(keys);
    assert forall|x: int, y: int| 0 <= x < y < paths.len() implies !path_before(
        #[trigger] packed_order(paths)[y],
        #[trigger] packed_order(paths)[x],
    ) by {
        assert(order.to_set().contains(order[x]) && order.to_set().contains(order[y]));
        let (a, b) = (keys[order[x]], keys[order[y]]);
        crate::order::law_key_order(a, b);
        crate::order::law_key_order(b, a);
        crate::order::lemma_key_irreflexive(a);
        if crate::order::key_lt(b, a) && crate::order::key_lt(a, b) {
            crate::order::lemma_key_transitive(a, b, a);
        }
    }
}

/// A path of the workspace is packed under the way from the workspace to it.
pub proof fn law_archive_name(base: Seq<char>, path: Seq<char>, parts: Seq<Seq<char>>)
    requires
        crate::path::proper_parts(parts),
    ensures
        archive_name(
            crate::path::joined(base, crate::path::relative_path(parts)),
            base,
        ) == crate::path::relative_path(parts),
        !is_within(path, base) ==> archive_name(path, base) == path,
{
    crate::path::law_seen_from(base, parts);
}

/// The bytes of entries are counted once each, those of directories not at all.
pub proof fn law_sizes_add_up(x: Seq<WalkEntry>, e: WalkEntry, y: Seq<WalkEntry>)
    ensures
        total_size(x + seq![e] + y) == total_size(x) + total_size(y) + if e.kind == EntryKind::Dir {
            0
        } else {
            e.size as nat
        },
        total_size(Seq::<WalkEntry>::empty()) == 0,
    decreases y.len(),
{
    let all = x + seq![e] + y;
    if y.len() == 0 {
        assert(all.drop_last() =~= x);
        assert(all.last() == e);
    } else {
        law_sizes_add_up(x, e, y.drop_last());
        assert(all.drop_last() =~= x + seq![e] + y.drop_last());
        assert(all.last() == y.last());
    }
}

// --- how deep a way goes -----------------------------------------------------

/// How far a way leads down in all: each `..` goes one up, any other part one
/// down.
pub open spec fn depth(steps: Seq<Seq<char>>) -> int
    decreases steps.len(),
{
    if steps.len() == 0 {
        0
    } else {
        depth(steps.drop_last()) + if steps.last() == dotdot() {
            -1
        } else {
            1int
        }
    }
}

/// A way that starts `from` parts deep never comes above the start.
pub open spec fn never_above(from: int, steps: Seq<Seq<char>>) -> bool {
    forall|k: int| 0 <= k <= steps.len() ==> from + depth(#[trigger] steps.take(k)) >= 0
}

proof fn lemma_depth_at(
    base: Seq<Seq<char>>,
    x: Seq<Seq<char>>,
    steps: Seq<Seq<char>>,
    k: int,
)
    requires
        base.len() > 0,
        0 <= k <= steps.len(),
        forall|j: int| 0 <= j < k ==> x.len() + depth(#[trigger] steps.take(j)) >= 0,
    ensures
        lexical(base + x, steps.take(k)).len() == base.len() + x.len() + depth(steps.take(k)),
        x.len() + depth(steps.take(k)) >= 0 ==> base.is_prefix_of(
            lexical(base + x, steps.take(k)),
        ),
    decreases k,
{
    if k == 0 {
        assert(steps.take(0) =~= seq![]);
        assert(base.is_prefix_of(base + x));
    } else {
        lemma_depth_at(base, x, steps, k - 1);
        lemma_step(base + x, steps, k - 1);
        assert(steps.take(k).drop_last() =~= steps.take(k - 1));
        assert(steps.take(k).last() == steps[k - 1]);
        assert(x.len() + depth(steps.take(k - 1)) >= 0);
        let before = lexical(base + x, steps.take(k - 1));
        let after = lexical(base + x, steps.take(k));
        assert(base.is_prefix_of(before));
        if x.len() + depth(steps.take(k)) >= 0 {
            assert(base =~= before.take(base.len() as int));
            assert(base =~= after.take(base.len() as int));
        }
    }
}

proof fn lemma_keeps_below(base: Seq<Seq<char>>, x: Seq<Seq<char>>, steps: Seq<Seq<char>>)
    requires
        base.len() > 0,
    ensures
        keeps_below(base, base + x, steps) <==> never_above(x.len() as int, steps),
{
    if never_above(x.len() as int, steps) {
        assert forall|k: int| 0 <= k <= steps.len() implies base.is_prefix_of(
            lexical(base + x, #[trigger] steps.take(k)),
        ) by {
            lemma_depth_at(base, x, steps, k);
        }
    } else {
        let k = choose|k: int|
            0 <= k <= steps.len() && x.len() + depth(#[trigger] steps.take(k)) < 0;
        let first = lemma_first_above(x.len() as int, steps, k);
        lemma_depth_at(base, x, steps, first);
        assert(!base.is_prefix_of(lexical(base + x, steps.take(first))));
    }
}

proof fn lemma_first_above(from: int, steps: Seq<Seq<char>>, k: int) -> (first: int)
    requires
        0 <= k <= steps.len(),
        from + depth(steps.take(k)) < 0,
    ensures
        0 <= first <= k,
        from + depth(steps.take(first)) < 0,
        forall|j: int| 0 <= j < first ==> from + depth(#[trigger] steps.take(j)) >= 0,
    decreases k,
{
    if exists|j: int| 0 <= j < k && from + depth(#[trigger] steps.take(j)) < 0 {
        let j = choose|j: int| 0 <= j < k && from + depth(#[trigger] steps.take(j)) < 0;
        lemma_first_above(from, steps, j)
    } else {
        k
    }
}

/// An entry may be unpacked exactly where its name is relative and at no point
/// on the way have more `..` come than other parts.
pub proof fn law_entry_allowed(base: Seq<char>, name: Seq<char>)
    requires
        parts_of(base).len() > 0,
    ensures
        stays_within(base, name) <==> !is_absolute_text(name) && never_above(0, parts_of(name)),
        entry_confined(name, None, base) <==> stays_within(base, name),
{
    let b = parts_of(base);
    let none = Seq::<Seq<char>>::empty();
    assert(b + none =~= b);
    lemma_keeps_below(b, none, parts_of(name));
}

/// A link may be unpacked exactly where its name may and its target is relative
/// and, from the directory in which the link lies, never leads above the
/// workspace.
pub proof fn law_link_allowed(base: Seq<char>, name: Seq<char>, target: Seq<char>)
    requires
        parts_of(base).len() > 0,
        parts_of(name).len() > 0,
    ensures
        entry_confined(name, Some(target), base) <==> {
            &&& entry_confined(name, None, base)
            &&& !is_absolute_text(target)
            &&& never_above(depth(parts_of(name).drop_last()), parts_of(target))
        },
{
    let b = parts_of(base);
    let parts = parts_of(name);
    let up = parts.drop_last();
    let none = Seq::<Seq<char>>::empty();
    assert(b + none =~= b);
    law_entry_allowed(base, name);
    if entry_confined(name, None, base) {
        let n = up.len() as int;
        assert(up =~= parts.take(n));
        assert forall|j: int| 0 <= j < n implies none.len() + depth(#[trigger] parts.take(j))
            >= 0 by {
            assert(0 + depth(parts.take(j)) >= 0);
        }
        lemma_depth_at(b, none, parts, n);
        assert(0 + depth(parts.take(n)) >= 0);
        let dir = link_dir(base, name);
        assert(dir == lexical(b + none, parts.take(n)));
        let x = dir.skip(b.len() as int);
        assert(b =~= dir.take(b.len() as int));
        assert(dir =~= b + x);
        lemma_keeps_below(b, x, parts_of(target));
    }
}

/// A restore that took in too much is a 413, any other that failed a 500, which
/// says what failed and why; one that succeeded reports the bytes that came in.
pub proof fn law_restore_report(
    received: u64,
    cap: u64,
    body_error: Option<Seq<char>>,
    decode: StageView,
    extract: StageView,
    m: Seq<char>,
)
    ensures
        match restore_end(received, cap, body_error, decode, extract) {
            Ok(r) => r.restored && r.bytes == received && r.skipped is None,
            Err(e) => if received > cap {
                e.status == 413
            } else {
                e.status == 500
            },
        },
        received <= cap ==> restore_end(received, cap, Some(m), decode, extract) == Err::<
            RestoreView,
            ErrorView,
        >(crate::error::internal("restore stream read failed: "@ + m)),
        received <= cap ==> restore_end(received, cap, None, StageView::Failed(m), extract)
            == Err::<RestoreView, ErrorView>(
            crate::error::internal("restore pipeline failed (zstd decode): "@ + m),
        ),
        received <= cap ==> restore_end(received, cap, None, StageView::Done, StageView::Failed(m))
            == Err::<RestoreView, ErrorView>(
            crate::error::internal("restore pipeline failed (tar extract): "@ + m),
        ),
{
}

/// The runtime's own directory is no user data; any other entry is.
pub proof fn law_user_data(names: Seq<Seq<char>>, name: Seq<char>)
    ensures
        !holds_user_data(seq![]),
        holds_user_data(names.push(name)) <==> holds_user_data(names) || name
            != ".open-websandbox"@,
{
    let all = names.push(name);
    if holds_user_data(names) {
        let i = choose|i: int|
            0 <= i < names.len() && #[trigger] names[i] != ".open-websandbox"@;
        assert(all[i] == names[i]);
    }
    assert(all[names.len() as int] == name);
    if holds_user_data(all) && name == ".open-websandbox"@ {
        let i = choose|i: int| 0 <= i < all.len() && #[trigger] all[i] != ".open-websandbox"@;
        assert(names[i] == all[i]);
    }
}

/// A workspace that is too large is a 413. A meter is exceeded by the first byte
/// above its limit, and stays exceeded.
pub proof fn law_too_large(meter: RestoreMeter, len: u64)
    ensures
        too_large().status == 413,
        too_large().detail == "workspace exceeds MAX_WORKSPACE_BYTES"@,
        meter.exceeded() <==> meter.count() > meter.limit(),
        meter.exceeded() ==> capped_sum(meter.count(), len) > meter.limit(),
        meter.count() + len <= u64::MAX ==> capped_sum(meter.count(), len) == meter.count() + len,
{
}

} // verus!
