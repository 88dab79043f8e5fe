//! Searching the workspace: by the text of lines, by shell patterns, and the
//! candidates for searches by name.

use vstd::prelude::*;

use crate::error::{bad_request, not_found, ApiError, ErrorView};
use crate::find::{replace_all, replace_text};
use crate::fnmatch::{fnmatch_all, matches_pattern};
use crate::order::{
    arrange, arranged, at_most, key_views, one_part, order_of, page, page_of, views, KeyView, Row,
    SortKey,
};
use crate::outside::{
    from_utf8_lossy, regex_error, regex_error_of, regex_escape, regex_escaped, regex_match_of,
    regex_matches, utf8_lossy,
};
use crate::path::{
    file_name, file_name_of, is_absolute, is_absolute_text, join_path, joined, parent, parent_of,
    parts_of, path_parts, relative_of, relative_to,
};
use crate::snapshot::{keys_of_paths, packed_order};
use crate::text::{concat2, lines, lines_of, opt_str, split, split_on, str_eq, texts};

verus! {

// --- requests ----------------------------------------------------------------

/// The parameters of a search by the text of lines.
#[derive(Debug)]
pub struct GrepQuery {
    /// The text or regular expression.
    pub query: String,
    /// Where to search.
    pub path: Option<String>,
    /// Whether `query` is a regular expression; it is where nothing is said.
    pub regex: Option<bool>,
    /// Whether case does not matter.
    pub case_insensitive: Option<bool>,
    /// A shell pattern for the names of files.
    pub include_names: Option<String>,
    /// The most matches to return.
    pub max_results: Option<usize>,
}

/// The parameters of a search by shell pattern.
#[derive(Debug)]
pub struct GlobQuery {
    /// The shell pattern.
    pub pattern: String,
    /// Where to search.
    pub path: Option<String>,
    /// `file`, `directory` or `any`.
    pub kind: Option<String>,
    /// The most matches to return.
    pub max_results: Option<usize>,
}

/// How many results a request may have: 50 where it does not say, at least one
/// and at most 500.
pub open spec fn result_cap(given: Option<usize>) -> int {
    match given {
        None => 50,
        Some(n) => if n < 1 {
            1
        } else if n > 500 {
            500
        } else {
            n as int
        },
    }
}

/// The refusal of a search for lines in what is not there.
pub fn check_search_path(found: bool) -> (r: Result<(), ApiError>)
    ensures
        match r {
            Ok(_) => found,
            Err(e) => !found && e@ == not_found("Search path not found"@),
        },
{
    if found {
        Ok(())
    } else {
        Err(ApiError::NotFound("Search path not found".to_owned()))
    }
}

/// How many results a request may have.
pub fn max_results(given: Option<usize>) -> (r: usize)
    ensures
        r == result_cap(given),
        1 <= r <= 500,
{
    match given {
        None => 50,
        Some(n) => if n < 1 {
            1
        } else if n > 500 {
            500
        } else {
            n
        },
    }
}

// --- lines -------------------------------------------------------------------

/// The files of a directory in which lines are searched: those whose name
/// matches the pattern, ordered by path.
pub open spec fn searched_files(paths: Seq<Seq<char>>, pattern: Option<Seq<char>>) -> Seq<Seq<char>> {
    packed_order(included(paths, pattern))
}

/// The name of a path, or nothing at all.
pub open spec fn name_or_empty(path: Seq<char>) -> Seq<char> {
    match file_name_of(path) {
        Some(n) => n,
        None => seq![],
    }
}

/// The paths whose name matches the pattern.
pub open spec fn included(paths: Seq<Seq<char>>, pattern: Option<Seq<char>>) -> Seq<Seq<char>> {
    match pattern {
        Some(p) => paths.filter(|x: Seq<char>| matches_pattern(name_or_empty(x), p)),
        None => paths,
    }
}

/// The names of paths.
fn names_of(paths: &Vec<String>) -> (r: Vec<String>)
    ensures
        r@.len() == paths@.len(),
        forall|i: int| 0 <= i < paths@.len() ==> (#[trigger] r@[i])@ == name_or_empty(paths@[i]@),
{
    let mut r: Vec<String> = Vec::new();
    let mut i: usize = 0;
    while i < paths.len()
        invariant
            i <= paths@.len(),
            r@.len() == i,
            forall|k: int| 0 <= k < i ==> (#[trigger] r@[k])@ == name_or_empty(paths@[k]@),
        decreases paths@.len() - i,
    {
        let name = match file_name(paths[i].as_str()) {
            Some(n) => n,
            None => String::new(),
        };
        assert(name@ =~= name_or_empty(paths@[i as int]@));
        r.push(name);
        i += 1;
    }
    r
}

/// The paths whose name matches the pattern.
fn keep_included(paths: &Vec<String>, pattern: &str) -> (r: Vec<String>)
    ensures
        texts(r@) == included(texts(paths@), Some(pattern@)),
{
    let names = names_of(paths);
    let flags = fnmatch_all(&names, pattern);
    let ghost all = texts(paths@);
    let ghost f = |x: Seq<char>| matches_pattern(name_or_empty(x), pattern@);
    let mut r: Vec<String> = Vec::new();
    let mut i: usize = 0;
    proof {
        reveal(Seq::filter);
        assert(texts(r@) =~= all.take(0).filter(f));
    }
    while i < paths.len()
        invariant
            i <= paths@.len(),
            all == texts(paths@),
            f == (|x: Seq<char>| matches_pattern(name_or_empty(x), pattern@)),
            names@.len() == paths@.len(),
            flags@.len() == paths@.len(),
            forall|k: int|
                0 <= k < paths@.len() ==> (#[trigger] names@[k])@ == name_or_empty(paths@[k]@),
            forall|k: int|
                0 <= k < paths@.len() ==> #[trigger] flags@[k] == matches_pattern(
                    names@[k]@,
                    pattern@,
                ),
            texts(r@) == all.take(i as int).filter(f),
        decreases paths@.len() - i,
    {
        let ghost r0 = texts(r@);
        proof {
            assert(all[i as int] == paths@[i as int]@);
            assert(names@[i as int]@ == name_or_empty(paths@[i as int]@));
            assert(all.take(i as int + 1) =~= all.take(i as int).push(all[i as int]));
            all.take(i as int).lemma_filter_push(all[i as int], f);
        }
        if flags[i] {
            r.push(paths[i].clone());
            assert(texts(r@) =~= r0.push(all[i as int]));
        }
        i += 1;
    }
    assert(all.take(all.len() as int) =~= all);
    r
}

/// The files of a directory in which lines are searched.
pub fn walk_files(paths: &Vec<String>, pattern: Option<&str>) -> (r: Vec<String>)
    ensures
        texts(r@) == searched_files(texts(paths@), opt_str(pattern)),
{
    match pattern {
        Some(p) => {
            let kept = keep_included(paths, p);
            let keys = keys_of_paths(&kept);
            arrange(&kept, &keys)
        },
        None => {
            let keys = keys_of_paths(paths);
            arrange(paths, &keys)
        },
    }
}

/// A line that matches.
#[derive(Debug)]
pub struct GrepMatch {
    /// The file.
    pub file: String,
    /// The number of the line, from 1.
    pub line: usize,
    /// The line.
    pub content: String,
}

/// A line that matches.
pub struct GrepHit {
    /// The file.
    pub file: Seq<char>,
    /// The number of the line, from 1.
    pub line: int,
    /// The line.
    pub content: Seq<char>,
}

impl View for GrepMatch {
    type V = GrepHit;

    open spec fn view(&self) -> GrepHit {
        GrepHit { file: self.file@, line: self.line as int, content: self.content@ }
    }
}

/// The views of matches.
pub open spec fn hits(v: Seq<GrepMatch>) -> Seq<GrepHit> {
    v.map_values(|m: GrepMatch| m@)
}

/// The regular expression of a search.
pub open spec fn search_pattern(query: Seq<char>, regex: bool) -> Seq<char> {
    if regex {
        query
    } else {
        regex_escaped(query)
    }
}

/// The lines, of the first `n`, that match.
pub open spec fn line_hits(
    file: Seq<char>,
    all: Seq<Seq<char>>,
    pattern: Seq<char>,
    ci: bool,
    n: nat,
) -> Seq<GrepHit>
    decreases n,
{
    if n == 0 {
        seq![]
    } else {
        let rest = line_hits(file, all, pattern, ci, (n - 1) as nat);
        if regex_match_of(pattern, ci, all[n - 1]) {
            rest.push(GrepHit { file, line: n as int, content: all[n - 1] })
        } else {
            rest
        }
    }
}

/// The lines of a file that match.
pub open spec fn file_hits(file: Seq<char>, bytes: Seq<u8>, pattern: Seq<char>, ci: bool) -> Seq<
    GrepHit,
> {
    let all = lines_of(utf8_lossy(bytes));
    line_hits(file, all, pattern, ci, all.len())
}

/// A search through files, one after the other.
#[derive(Debug)]
pub struct Grep {
    pattern: String,
    case_insensitive: bool,
    max: usize,
    found: Vec<GrepMatch>,
}

impl Grep {
    /// The regular expression.
    pub closed spec fn source(&self) -> Seq<char> {
        self.pattern@
    }

    /// Whether case does not matter.
    pub closed spec fn ignores_case(&self) -> bool {
        self.case_insensitive
    }

    /// The most matches that are collected.
    pub closed spec fn limit(&self) -> nat {
        self.max as nat
    }

    /// The matches so far.
    pub closed spec fn matched(&self) -> Seq<GrepHit> {
        hits(self.found@)
    }

    #[verifier::type_invariant]
    spec fn sound(self) -> bool {
        regex_error_of(self.pattern@, self.case_insensitive) is None
    }

    /// A search for `query`, which is taken as it stands or as a regular
    /// expression.
    pub fn new(query: &str, regex: bool, case_insensitive: bool, max: usize) -> (r: Result<
        Grep,
        ApiError,
    >)
        ensures
            match regex_error_of(search_pattern(query@, regex), case_insensitive) {
                None => r is Ok && ({
                    let g = r->Ok_0;
                    &&& g.source() == search_pattern(query@, regex)
                    &&& g.ignores_case() == case_insensitive
                    &&& g.limit() == max
                    &&& g.matched() == Seq::<GrepHit>::empty()
                }),
                Some(e) => r is Err && r->Err_0@ == bad_request("Invalid regex: "@ + e),
            },
    {
        let pattern = if regex {
            query.to_owned()
        } else {
            regex_escape(query)
        };
        match regex_error(pattern.as_str(), case_insensitive) {
            None => {
                let g = Grep { pattern, case_insensitive, max, found: Vec::new() };
                assert(g.matched() =~= Seq::<GrepHit>::empty());
                Ok(g)
            },
            Some(e) => Err(ApiError::BadRequest(concat2("Invalid regex: ", e.as_str()))),
        }
    }

    /// Searches one file; the answer tells whether enough was found.
    pub fn scan(&mut self, file: &str, bytes: &[u8]) -> (r: bool)
        requires
            old(self).matched().len() <= old(self).limit(),
        ensures
            final(self).source() == old(self).source(),
            final(self).ignores_case() == old(self).ignores_case(),
            final(self).limit() == old(self).limit(),
            final(self).matched() == at_most(
                old(self).matched() + file_hits(
                    file@,
                    bytes@,
                    old(self).source(),
                    old(self).ignores_case(),
                ),
                old(self).limit(),
            ),
            r == (final(self).matched().len() >= final(self).limit()),
    {
        proof {
            use_type_invariant(&*self);
        }
        let text = from_utf8_lossy(bytes);
        let rows = lines(text.as_str());
        let flags = regex_matches(self.pattern.as_str(), self.case_insensitive, &rows);
        let more = collect_hits(file, rows, &flags, Ghost(self.pattern@), Ghost(self.case_insensitive));
        let ghost found0 = hits(self.found@);
        let ghost add = hits(more@);
        let max: usize = self.max;
        let mut found: Vec<GrepMatch> = Vec::new();
        std::mem::swap(&mut found, &mut self.found);
        let full = append_upto(&mut found, more, max);
        std::mem::swap(&mut found, &mut self.found);
        full
    }

    /// Whether enough was found.
    pub fn truncated(&self) -> (r: bool)
        ensures
            r == (self.matched().len() >= self.limit()),
    {
        self.found.len() >= self.max
    }

    /// The matches.
    pub fn into_matches(self) -> (r: Vec<GrepMatch>)
        ensures
            hits(r@) == self.matched(),
    {
        self.found
    }
}

/// Appends rows up to a limit; the answer tells whether it is reached.
fn append_upto(found: &mut Vec<GrepMatch>, more: Vec<GrepMatch>, max: usize) -> (r: bool)
    requires
        old(found)@.len() <= max,
    ensures
        hits(final(found)@) == at_most(hits(old(found)@) + hits(more@), max as nat),
        r == (final(found)@.len() >= max),
{
    let ghost start = hits(found@);
    let ghost add = hits(more@);
    let mut more = more;
    let room: usize = max - found.len();
    if more.len() > room {
        more.truncate(room);
    }
    let ghost kept = hits(more@);
    assert(kept =~= at_most(add, room as nat));
    let ghost m0 = more@;
    let ghost f0 = found@;
    found.append(&mut more);
    proof {
        assert(found@ =~= f0 + m0);
        assert(hits(found@) =~= start + kept);
        assert(start + kept =~= at_most(start + add, max as nat));
    }
    found.len() >= max
}

/// The lines whose flag is set.
fn collect_hits(
    file: &str,
    rows: Vec<String>,
    flags: &Vec<bool>,
    Ghost(pattern): Ghost<Seq<char>>,
    Ghost(ci): Ghost<bool>,
) -> (r: Vec<GrepMatch>)
    requires
        flags@.len() == rows@.len(),
        forall|i: int|
            0 <= i < rows@.len() ==> #[trigger] flags@[i] == regex_match_of(
                pattern,
                ci,
                rows@[i]@,
            ),
    ensures
        hits(r@) == line_hits(file@, texts(rows@), pattern, ci, rows@.len()),
{
    let mut r: Vec<GrepMatch> = Vec::new();
    let ghost all = texts(rows@);
    let mut i: usize = 0;
    assert(hits(r@) =~= line_hits(file@, all, pattern, ci, 0));
    while i < rows.len()
        invariant
            i <= rows@.len(),
            all == texts(rows@),
            flags@.len() == rows@.len(),
            forall|k: int|
                0 <= k < rows@.len() ==> #[trigger] flags@[k] == regex_match_of(
                    pattern,
                    ci,
                    rows@[k]@,
                ),
            hits(r@) == line_hits(file@, all, pattern, ci, i as nat),
        decreases rows@.len() - i,
    {
        let ghost r0 = hits(r@);
        assert(all[i as int] == rows@[i as int]@);
        if flags[i] {
            let m = GrepMatch { file: file.to_owned(), line: i + 1, content: rows[i].clone() };
            let ghost v = m@;
            r.push(m);
            assert(hits(r@) =~= r0.push(v));
        }
        i += 1;
    }
    r
}

/// The matches of several files, in their order, each with its contents.
pub open spec fn all_hits(files: Seq<(Seq<char>, Seq<u8>)>, pattern: Seq<char>, ci: bool) -> Seq<
    GrepHit,
>
    decreases files.len(),
{
    if files.len() == 0 {
        seq![]
    } else {
        all_hits(files.drop_last(), pattern, ci) + file_hits(
            files.last().0,
            files.last().1,
            pattern,
            ci,
        )
    }
}

/// What a search has found after several files.
pub open spec fn found_after(
    files: Seq<(Seq<char>, Seq<u8>)>,
    pattern: Seq<char>,
    ci: bool,
    max: nat,
) -> Seq<GrepHit>
    decreases files.len(),
{
    if files.len() == 0 {
        seq![]
    } else {
        at_most(
            found_after(files.drop_last(), pattern, ci, max) + file_hits(
                files.last().0,
                files.last().1,
                pattern,
                ci,
            ),
            max,
        )
    }
}

/// However many files are searched, what is found is the first matches of all of
/// them, and nothing is left out before the limit is reached.
pub proof fn law_grep_collects_first(
    files: Seq<(Seq<char>, Seq<u8>)>,
    pattern: Seq<char>,
    ci: bool,
    max: nat,
)
    ensures
        found_after(files, pattern, ci, max) == at_most(all_hits(files, pattern, ci), max),
    decreases files.len(),
{
    if files.len() > 0 {
        law_grep_collects_first(files.drop_last(), pattern, ci, max);
        let a = all_hits(files.drop_last(), pattern, ci);
        let b = file_hits(files.last().0, files.last().1, pattern, ci);
        assert(at_most(at_most(a, max) + b, max) =~= at_most(a + b, max));
    }
}

// --- shell patterns ----------------------------------------------------------

/// The size of a file and when it was changed, in nanoseconds since the start of
/// 1970.
#[derive(Debug, Clone, Copy)]
pub struct Stat {
    /// The size in bytes.
    pub size: u64,
    /// When the file was changed.
    pub modified: u128,
}

/// An entry of a directory tree, links followed. An entry that cannot be
/// looked at is no directory and has no `stat`.
#[derive(Debug)]
pub struct TreeEntry {
    /// The path.
    pub path: String,
    /// Whether the entry is a directory.
    pub is_dir: bool,
    /// Size and time.
    pub stat: Option<Stat>,
}

/// An entry of a directory tree.
pub struct TreeEntryView {
    /// The path.
    pub path: Seq<char>,
    /// Whether the entry is a directory.
    pub is_dir: bool,
    /// Size and time.
    pub stat: Option<Stat>,
}

impl View for TreeEntry {
    type V = TreeEntryView;

    open spec fn view(&self) -> TreeEntryView {
        TreeEntryView { path: self.path@, is_dir: self.is_dir, stat: self.stat }
    }
}

/// An entry whose path or name matches.
#[derive(Debug)]
pub struct GlobMatch {
    /// The path as seen from the directory that was searched.
    pub path: String,
    /// Whether the entry is a directory.
    pub is_dir: bool,
    /// Size and time.
    pub stat: Stat,
}

/// An entry whose path or name matches.
pub struct GlobHit {
    /// The path as seen from the directory that was searched.
    pub path: Seq<char>,
    /// Whether the entry is a directory.
    pub is_dir: bool,
    /// Size and time.
    pub stat: Stat,
}

impl View for GlobMatch {
    type V = GlobHit;

    open spec fn view(&self) -> GlobHit {
        GlobHit { path: self.path@, is_dir: self.is_dir, stat: self.stat }
    }
}

impl Row for GlobMatch {
    fn duplicate(&self) -> (r: Self) {
        GlobMatch { path: self.path.clone(), is_dir: self.is_dir, stat: self.stat }
    }
}

/// The name of a kind of entry.
pub open spec fn kind_text(is_dir: bool) -> Seq<char> {
    if is_dir {
        "directory"@
    } else {
        "file"@
    }
}

/// The name of a kind of entry.
pub fn kind_name(is_dir: bool) -> (r: &'static str)
    ensures
        r@ == kind_text(is_dir),
{
    if is_dir {
        "directory"
    } else {
        "file"
    }
}

/// A path as seen from a directory, or the path itself where it lies elsewhere.
pub open spec fn seen_from(path: Seq<char>, root: Seq<char>) -> Seq<char> {
    match relative_of(path, root) {
        Some(rel) => rel,
        None => path,
    }
}

/// A path as seen from a directory.
pub(crate) fn see_from(path: &str, root: &str) -> (r: String)
    ensures
        r@ == seen_from(path@, root@),
{
    match relative_to(path, root) {
        Some(rel) => rel,
        None => path.to_owned(),
    }
}

/// Whether a kind of entry is asked for.
pub open spec fn kind_allows(kind: Seq<char>, is_dir: bool) -> bool {
    &&& !(kind == "file"@ && is_dir)
    &&& !(kind == "directory"@ && !is_dir)
}

/// Whether an entry is found: its path as seen from the root, or its name,
/// matches, it is of the kind that is asked for, and it can be looked at.
pub open spec fn glob_finds(
    e: TreeEntryView,
    root: Seq<char>,
    pattern: Seq<char>,
    kind: Seq<char>,
) -> bool {
    &&& matches_pattern(seen_from(e.path, root), pattern) || matches_pattern(
        name_or_empty(e.path),
        pattern,
    )
    &&& kind_allows(kind, e.is_dir)
    &&& e.stat is Some
}

/// The entries that are found, in the order in which they are met.
pub open spec fn glob_found(
    entries: Seq<TreeEntryView>,
    root: Seq<char>,
    pattern: Seq<char>,
    kind: Seq<char>,
) -> Seq<GlobHit>
    decreases entries.len(),
{
    if entries.len() == 0 {
        seq![]
    } else {
        let rest = glob_found(entries.drop_last(), root, pattern, kind);
        let e = entries.last();
        if glob_finds(e, root, pattern, kind) {
            rest.push(
                GlobHit { path: seen_from(e.path, root), is_dir: e.is_dir, stat: e.stat->0 },
            )
        } else {
            rest
        }
    }
}

/// What hits are ordered by: the text of their paths.
pub open spec fn glob_keys(v: Seq<GlobHit>) -> Seq<KeyView> {
    v.map_values(|h: GlobHit| KeyView { major: 0, minor: 0, parts: seq![h.path] })
}

/// The entries below `root` that match a shell pattern, by path or by name, of
/// the kind that is asked for: the first `max` of them by path, and whether there
/// are that many.
pub fn glob_collect(
    entries: &Vec<TreeEntry>,
    root: &str,
    pattern: &str,
    kind: &str,
    max: usize,
) -> (r: (Vec<GlobMatch>, bool))
    ensures
        ({
            let found = glob_found(views(entries@), root@, pattern@, kind@);
            &&& views(r.0@) == page_of(
                arranged(found, order_of(glob_keys(found))),
                0,
                max as nat,
            )
            &&& r.1 == (found.len() >= max)
        }),
{
    let mut rels: Vec<String> = Vec::new();
    let mut paths: Vec<String> = Vec::new();
    let mut i: usize = 0;
    while i < entries.len()
        invariant
            i <= entries@.len(),
            rels@.len() == i,
            paths@.len() == i,
            forall|k: int|
                0 <= k < i ==> (#[trigger] rels@[k])@ == seen_from(entries@[k].path@, root@),
            forall|k: int| 0 <= k < i ==> (#[trigger] paths@[k])@ == entries@[k].path@,
        decreases entries@.len() - i,
    {
        rels.push(see_from(entries[i].path.as_str(), root));
        paths.push(entries[i].path.clone());
        i += 1;
    }
    let names = names_of(&paths);
    let by_rel = fnmatch_all(&rels, pattern);
    let by_name = fnmatch_all(&names, pattern);
    let ghost all = views(entries@);
    let mut found: Vec<GlobMatch> = Vec::new();
    let mut keys: Vec<SortKey> = Vec::new();
    let mut j: usize = 0;
    proof {
        assert(views(found@) =~= glob_found(all.take(0), root@, pattern@, kind@));
        assert(key_views(keys@) =~= glob_keys(views(found@)));
    }
    while j < entries.len()
        invariant
            j <= entries@.len(),
            all == views(entries@),
            rels@.len() == entries@.len(),
            names@.len() == entries@.len(),
            paths@.len() == entries@.len(),
            by_rel@.len() == entries@.len(),
            by_name@.len() == entries@.len(),
            forall|k: int|
                0 <= k < entries@.len() ==> (#[trigger] rels@[k])@ == seen_from(
                    entries@[k].path@,
                    root@,
                ),
            forall|k: int| 0 <= k < entries@.len() ==> (#[trigger] paths@[k])@ == entries@[k].path@,
            forall|k: int|
                0 <= k < entries@.len() ==> (#[trigger] names@[k])@ == name_or_empty(paths@[k]@),
            forall|k: int|
                0 <= k < entries@.len() ==> #[trigger] by_rel@[k] == matches_pattern(
                    rels@[k]@,
                    pattern@,
                ),
            forall|k: int|
                0 <= k < entries@.len() ==> #[trigger] by_name@[k] == matches_pattern(
                    names@[k]@,
                    pattern@,
                ),
            views(found@) == glob_found(all.take(j as int), root@, pattern@, kind@),
            key_views(keys@) == glob_keys(views(found@)),
            keys@.len() == found@.len(),
        decreases entries@.len() - j,
    {
        let ghost f0 = views(found@);
        let ghost k0 = key_views(keys@);
        let e = &entries[j];
        proof {
            assert(all[j as int] == e@);
            assert(rels@[j as int]@ == seen_from(e.path@, root@));
            assert(paths@[j as int]@ == e.path@);
            assert(names@[j as int]@ == name_or_empty(paths@[j as int]@));
            assert(all.take(j as int + 1).drop_last() =~= all.take(j as int));
            assert(all.take(j as int + 1).last() == e@);
        }
        let allowed = !(str_eq(kind, "file") && e.is_dir) && !(str_eq(kind, "directory") && !e.is_dir);
        if (by_rel[j] || by_name[j]) && allowed {
            if let Some(stat) = e.stat {
                let path = rels[j].clone();
                let key = SortKey { major: 0, minor: 0, parts: one_part(path.as_str()) };
                let m = GlobMatch { path, is_dir: e.is_dir, stat };
                let ghost v = m@;
                let ghost kv = key@;
                found.push(m);
                keys.push(key);
                proof {
                    assert(views(found@) =~= f0.push(v));
                    assert(key_views(keys@) =~= k0.push(kv));
                    assert(glob_keys(f0.push(v)) =~= glob_keys(f0).push(kv));
                }
            }
        }
        j += 1;
    }
    assert(all.take(all.len() as int) =~= all);
    let truncated = found.len() >= max;
    (page(&found, &keys, 0, max), truncated)
}

// --- candidates for searches by name ----------------------------------------

/// Which kinds of entries a search collects.
#[derive(Debug, Clone, Copy, PartialEq, Eq, Structural)]
pub enum WantKind {
    /// Files and directories.
    Any,
    /// Files alone.
    File,
    /// Directories alone.
    Directory,
}

/// The kind with a name; no name means any kind.
pub open spec fn want_named(raw: Option<Seq<char>>) -> Result<WantKind, ErrorView> {
    match raw {
        None => Ok(WantKind::Any),
        Some(t) => if t == "any"@ {
            Ok(WantKind::Any)
        } else if t == "file"@ {
            Ok(WantKind::File)
        } else if t == "directory"@ {
            Ok(WantKind::Directory)
        } else {
            Err(bad_request("type must be one of file|directory|any, got "@ + t))
        },
    }
}

impl WantKind {
    /// The kind with a name.
    pub fn parse(raw: Option<&str>) -> (r: Result<WantKind, ApiError>)
        ensures
            match want_named(opt_str(raw)) {
                Ok(k) => r is Ok && r->Ok_0 == k,
                Err(e) => r is Err && r->Err_0@ == e,
            },
    {
        match raw {
            None => Ok(WantKind::Any),
            Some(t) => if str_eq(t, "any") {
                Ok(WantKind::Any)
            } else if str_eq(t, "file") {
                Ok(WantKind::File)
            } else if str_eq(t, "directory") {
                Ok(WantKind::Directory)
            } else {
                Err(
                    ApiError::BadRequest(
                        concat2("type must be one of file|directory|any, got ", t),
                    ),
                )
            },
        }
    }

    /// Whether an entry is of the kind.
    pub open spec fn takes(self, is_dir: bool) -> bool {
        match self {
            WantKind::Any => true,
            WantKind::File => !is_dir,
            WantKind::Directory => is_dir,
        }
    }

    /// Whether an entry is of the kind.
    pub fn wants(self, is_dir: bool) -> (r: bool)
        ensures
            r == self.takes(is_dir),
    {
        match self {
            WantKind::Any => true,
            WantKind::File => !is_dir,
            WantKind::Directory => is_dir,
        }
    }
}

/// Whether some piece begins with a dot.
pub open spec fn some_dotted(pieces: Seq<Seq<char>>) -> bool {
    exists|i: int| 0 <= i < pieces.len() && (#[trigger] pieces[i]).len() > 0 && pieces[i][0] == '.'
}

/// Whether a relative path lies in, or is, something hidden; a backslash counts
/// as a slash.
pub open spec fn hidden_rel(rel: Seq<char>) -> bool {
    some_dotted(split_on(replace_text(rel, seq!['\\'], seq!['/']), '/'))
}

/// Whether a path lies, below `target`, in something hidden, or is hidden itself.
pub open spec fn hidden_below(path: Seq<char>, target: Seq<char>) -> bool {
    match relative_of(path, target) {
        Some(rel) => some_dotted(parts_of(rel)),
        None => false,
    }
}

/// Whether some piece begins with a dot.
fn any_dotted(pieces: &Vec<String>) -> (r: bool)
    ensures
        r == some_dotted(texts(pieces@)),
{
    let mut i: usize = 0;
    while i < pieces.len()
        invariant
            i <= pieces@.len(),
            forall|k: int|
                0 <= k < i ==> !((#[trigger] texts(pieces@)[k]).len() > 0 && texts(pieces@)[k][0]
                    == '.'),
        decreases pieces@.len() - i,
    {
        proof {
            reveal_strlit(".");
            assert(texts(pieces@)[i as int] == pieces@[i as int]@);
            let p = pieces@[i as int]@;
            if p.len() > 0 && p[0] == '.' {
                assert("."@ =~= p.subrange(0, 1));
            }
            if "."@.is_prefix_of(p) {
                assert(p[0] == "."@[0]);
            }
        }
        if crate::find::starts_with(pieces[i].as_str(), ".") {
            return true;
        }
        i += 1;
    }
    false
}

/// Whether a relative path lies in, or is, something hidden.
pub fn is_hidden_rel(rel: &str) -> (r: bool)
    ensures
        r == hidden_rel(rel@),
{
    proof {
        reveal_strlit("\\");
        reveal_strlit("/");
        assert("\\"@ =~= seq!['\\']);
        assert("/"@ =~= seq!['/']);
    }
    let plain = replace_all(rel, "\\", "/");
    let pieces = split(plain.as_str(), '/');
    any_dotted(&pieces)
}

/// Whether a path lies, below `target`, in something hidden, or is hidden itself.
pub fn entry_hidden(path: &str, target: &str) -> (r: bool)
    ensures
        r == hidden_below(path@, target@),
{
    match relative_to(path, target) {
        Some(rel) => {
            let parts = path_parts(rel.as_str());
            any_dotted(&parts)
        },
        None => false,
    }
}

/// A path that a search by name looks at.
#[derive(Debug)]
pub struct Candidate {
    /// The path.
    pub path: String,
    /// Whether it is a directory.
    pub is_dir: bool,
}

/// A path that a search by name looks at.
pub struct CandidateView {
    /// The path.
    pub path: Seq<char>,
    /// Whether it is a directory.
    pub is_dir: bool,
}

impl View for Candidate {
    type V = CandidateView;

    open spec fn view(&self) -> CandidateView {
        CandidateView { path: self.path@, is_dir: self.is_dir }
    }
}

/// Whether an entry of a plain walk is a candidate.
pub open spec fn is_candidate(
    c: CandidateView,
    target: Seq<char>,
    show_hidden: bool,
    want: WantKind,
) -> bool {
    (show_hidden || !hidden_below(c.path, target)) && want.takes(c.is_dir)
}

/// The candidates among the entries of a plain walk below `target`.
pub fn walk_candidates(
    entries: Vec<Candidate>,
    target: &str,
    show_hidden: bool,
    want: WantKind,
) -> (r: Vec<Candidate>)
    ensures
        views(r@) == views(entries@).filter(
            |c: CandidateView| is_candidate(c, target@, show_hidden, want),
        ),
{
    let ghost all = views(entries@);
    let ghost f = |c: CandidateView| is_candidate(c, target@, show_hidden, want);
    let mut r: Vec<Candidate> = Vec::new();
    let mut i: usize = 0;
    proof {
        reveal(Seq::filter);
        assert(views(r@) =~= all.take(0).filter(f));
    }
    while i < entries.len()
        invariant
            i <= entries@.len(),
            all == views(entries@),
            f == (|c: CandidateView| is_candidate(c, target@, show_hidden, want)),
            views(r@) == all.take(i as int).filter(f),
        decreases entries@.len() - i,
    {
        let ghost r0 = views(r@);
        let e = &entries[i];
        proof {
            assert(all[i as int] == e@);
            assert(all.take(i as int + 1) =~= all.take(i as int).push(all[i as int]));
            all.take(i as int).lemma_filter_push(all[i as int], f);
        }
        let hidden = !show_hidden && entry_hidden(e.path.as_str(), target);
        if !hidden && want.wants(e.is_dir) {
            let c = Candidate { path: e.path.clone(), is_dir: e.is_dir };
            let ghost v = c@;
            r.push(c);
            assert(views(r@) =~= r0.push(v));
        }
        i += 1;
    }
    assert(all.take(all.len() as int) =~= all);
    r
}

// --- what git lists ----------------------------------------------------------

/// Whether two texts name the same path.
pub open spec fn same_path(a: Seq<char>, b: Seq<char>) -> bool {
    is_absolute_text(a) == is_absolute_text(b) && parts_of(a) == parts_of(b)
}

/// Whether a path is among the candidates.
pub open spec fn listed(cands: Seq<CandidateView>, path: Seq<char>) -> bool {
    exists|i: int| 0 <= i < cands.len() && same_path((#[trigger] cands[i]).path, path)
}

/// The candidates with one more, unless it is among them.
pub open spec fn with_candidate(cands: Seq<CandidateView>, path: Seq<char>, is_dir: bool) -> Seq<
    CandidateView,
> {
    if listed(cands, path) {
        cands
    } else {
        cands.push(CandidateView { path, is_dir })
    }
}

/// The candidates with the directories above a listed file, from the nearest on.
pub open spec fn with_parents(
    cands: Seq<CandidateView>,
    rel: Seq<char>,
    target: Seq<char>,
    show_hidden: bool,
    want: WantKind,
) -> Seq<CandidateView>
    decreases parts_of(rel).len(),
    via with_parents_decreases
{
    match parent_of(rel) {
        None => cands,
        Some(p) => if p.len() == 0 {
            cands
        } else {
            let next = if (show_hidden || !hidden_rel(p)) && want.takes(true) {
                with_candidate(cands, joined(target, p), true)
            } else {
                cands
            };
            with_parents(next, p, target, show_hidden, want)
        },
    }
}

#[via_fn]
proof fn with_parents_decreases(
    cands: Seq<CandidateView>,
    rel: Seq<char>,
    target: Seq<char>,
    show_hidden: bool,
    want: WantKind,
) {
    lemma_parent_shorter(rel);
}

/// The path above has fewer parts.
proof fn lemma_parent_shorter(rel: Seq<char>)
    ensures
        parent_of(rel) matches Some(p) ==> parts_of(p).len() < parts_of(rel).len(),
{
    if parent_of(rel) is Some {
        let parts = parts_of(rel);
        crate::path::lemma_parts_proper(rel);
        if is_absolute_text(rel) {
            crate::path::lemma_parts_of_absolute(parts.drop_last());
        } else {
            crate::path::lemma_parts_of_relative(parts.drop_last());
        }
    }
}

/// The candidates with a listed file and the directories above it.
pub open spec fn with_listed(
    cands: Seq<CandidateView>,
    raw: Seq<u8>,
    target: Seq<char>,
    show_hidden: bool,
    want: WantKind,
) -> Seq<CandidateView> {
    let rel = utf8_lossy(raw);
    if raw.len() == 0 || (!show_hidden && hidden_rel(rel)) {
        cands
    } else {
        let next = if want.takes(false) {
            with_candidate(cands, joined(target, rel), false)
        } else {
            cands
        };
        with_parents(next, rel, target, show_hidden, want)
    }
}

/// The candidates in a list of files.
pub open spec fn listed_candidates(
    raws: Seq<Seq<u8>>,
    target: Seq<char>,
    show_hidden: bool,
    want: WantKind,
) -> Seq<CandidateView>
    decreases raws.len(),
{
    if raws.len() == 0 {
        seq![]
    } else {
        with_listed(
            listed_candidates(raws.drop_last(), target, show_hidden, want),
            raws.last(),
            target,
            show_hidden,
            want,
        )
    }
}

/// The pieces of bytes between zero bytes.
pub open spec fn zero_split(bytes: Seq<u8>) -> Seq<Seq<u8>>
    decreases bytes.len(),
{
    if bytes.len() == 0 {
        seq![Seq::<u8>::empty()]
    } else {
        let rest = zero_split(bytes.drop_last());
        if bytes.last() == 0 {
            rest.push(Seq::<u8>::empty())
        } else {
            rest.drop_last().push(rest.last().push(bytes.last()))
        }
    }
}

/// Pieces of bytes.
pub open spec fn pieces_of(v: Seq<Vec<u8>>) -> Seq<Seq<u8>> {
    v.map_values(|b: Vec<u8>| b@)
}

/// The pieces of bytes between zero bytes.
pub fn split_zeros(bytes: &[u8]) -> (r: Vec<Vec<u8>>)
    ensures
        pieces_of(r@) == zero_split(bytes@),
{
    let mut done: Vec<Vec<u8>> = Vec::new();
    let mut cur: Vec<u8> = Vec::new();
    let mut i: usize = 0;
    assert(zero_split(bytes@.take(0)) =~= pieces_of(done@).push(cur@));
    while i < bytes.len()
        invariant
            i <= bytes@.len(),
            zero_split(bytes@.take(i as int)) == pieces_of(done@).push(cur@),
        decreases bytes@.len() - i,
    {
        let ghost d0 = pieces_of(done@);
        let ghost c0 = cur@;
        let ghost before = zero_split(bytes@.take(i as int));
        proof {
            assert(bytes@.take(i as int + 1).drop_last() =~= bytes@.take(i as int));
            assert(bytes@.take(i as int + 1).last() == bytes@[i as int]);
            assert(before.drop_last() =~= d0);
            assert(before.last() == c0);
        }
        if bytes[i] == 0 {
            done.push(cur);
            cur = Vec::new();
            assert(pieces_of(done@) =~= d0.push(c0));
            assert(cur@ =~= Seq::<u8>::empty());
        } else {
            cur.push(bytes[i]);
        }
        i += 1;
    }
    let ghost d0 = pieces_of(done@);
    let ghost c0 = cur@;
    done.push(cur);
    assert(pieces_of(done@) =~= d0.push(c0));
    assert(bytes@.take(bytes@.len() as int) =~= bytes@);
    done
}

/// Whether two texts name the same path.
fn paths_equal(a: &str, b: &str) -> (r: bool)
    ensures
        r == same_path(a@, b@),
{
    if is_absolute(a) != is_absolute(b) {
        return false;
    }
    let x = path_parts(a);
    let y = path_parts(b);
    assert(texts(x@).len() == x@.len() && texts(y@).len() == y@.len());
    if x.len() != y.len() {
        return false;
    }
    let r = crate::path::is_prefix(&x, &y);
    assert(texts(y@).take(texts(y@).len() as int) =~= texts(y@));
    r
}

/// Adds a candidate, unless it is there.
fn add_candidate(cands: &mut Vec<Candidate>, path: String, is_dir: bool)
    ensures
        views(final(cands)@) == with_candidate(views(old(cands)@), path@, is_dir),
{
    let ghost all = views(cands@);
    let mut i: usize = 0;
    while i < cands.len()
        invariant
            i <= cands@.len(),
            all == views(cands@),
            cands@ == old(cands)@,
            forall|k: int| 0 <= k < i ==> !same_path((#[trigger] all[k]).path, path@),
        decreases cands@.len() - i,
    {
        assert(all[i as int] == cands@[i as int]@);
        if paths_equal(cands[i].path.as_str(), path.as_str()) {
            return;
        }
        i += 1;
    }
    let c = Candidate { path, is_dir };
    let ghost v = c@;
    cands.push(c);
    assert(views(cands@) =~= all.push(v));
}

/// Adds the directories above a listed file.
fn add_parents(
    cands: &mut Vec<Candidate>,
    rel: &str,
    target: &str,
    show_hidden: bool,
    want: WantKind,
)
    ensures
        views(final(cands)@) == with_parents(
            views(old(cands)@),
            rel@,
            target@,
            show_hidden,
            want,
        ),
    decreases parts_of(rel@).len(),
{
    proof {
        lemma_parent_shorter(rel@);
    }
    match parent(rel) {
        None => {},
        Some(p) => if !p.as_str().is_empty() {
            if (show_hidden || !is_hidden_rel(p.as_str())) && want.wants(true) {
                add_candidate(cands, join_path(target, p.as_str()), true);
            }
            add_parents(cands, p.as_str(), target, show_hidden, want);
        },
    }
}

/// The candidates in a list of files that git has printed, each ended by a zero
/// byte: the files and the directories above them, nothing twice.
pub fn git_candidates(stdout: &[u8], target: &str, show_hidden: bool, want: WantKind) -> (r: Vec<
    Candidate,
>)
    ensures
        views(r@) == listed_candidates(zero_split(stdout@), target@, show_hidden, want),
{
    let raws = split_zeros(stdout);
    let ghost all = pieces_of(raws@);
    let mut cands: Vec<Candidate> = Vec::new();
    let mut i: usize = 0;
    assert(views(cands@) =~= listed_candidates(all.take(0), target@, show_hidden, want));
    while i < raws.len()
        invariant
            i <= raws@.len(),
            all == pieces_of(raws@),
            views(cands@) == listed_candidates(all.take(i as int), target@, show_hidden, want),
        decreases raws@.len() - i,
    {
        proof {
            assert(all.take(i as int + 1).drop_last() =~= all.take(i as int));
            assert(all.take(i as int + 1).last() == raws@[i as int]@);
        }
        if raws[i].len() > 0 {
            let rel = from_utf8_lossy(raws[i].as_slice());
            if show_hidden || !is_hidden_rel(rel.as_str()) {
                if want.wants(false) {
                    add_candidate(&mut cands, join_path(target, rel.as_str()), false);
                }
                add_parents(&mut cands, rel.as_str(), target, show_hidden, want);
            }
        }
        i += 1;
    }
    assert(all.take(all.len() as int) =~= all);
    cands
}

/// Whether no path is listed twice.
pub open spec fn no_path_twice(cands: Seq<CandidateView>) -> bool {
    forall|i: int, j: int|
        0 <= i < j < cands.len() ==> !same_path((#[trigger] cands[i]).path, (#[trigger] cands[j]).path)
}

proof fn lemma_with_candidate(cands: Seq<CandidateView>, path: Seq<char>, is_dir: bool)
    requires
        no_path_twice(cands),
    ensures
        no_path_twice(with_candidate(cands, path, is_dir)),
        cands.is_prefix_of(with_candidate(cands, path, is_dir)),
{
    let next = with_candidate(cands, path, is_dir);
    assert(cands =~= next.take(cands.len() as int));
    assert forall|i: int, j: int| 0 <= i < j < next.len() implies !same_path(
        (#[trigger] next[i]).path,
        (#[trigger] next[j]).path,
    ) by {
        if j < cands.len() {
            assert(next[i] == cands[i] && next[j] == cands[j]);
        } else {
            assert(next[i] == cands[i]);
        }
    }
}

proof fn lemma_with_parents(
    cands: Seq<CandidateView>,
    rel: Seq<char>,
    target: Seq<char>,
    show_hidden: bool,
    want: WantKind,
)
    requires
        no_path_twice(cands),
    ensures
        no_path_twice(with_parents(cands, rel, target, show_hidden, want)),
    decreases parts_of(rel).len(),
{
    lemma_parent_shorter(rel);
    if parent_of(rel) is Some && (parent_of(rel)->0).len() > 0 {
        let p = parent_of(rel)->0;
        let next = if (show_hidden || !hidden_rel(p)) && want.takes(true) {
            with_candidate(cands, joined(target, p), true)
        } else {
            cands
        };
        lemma_with_candidate(cands, joined(target, p), true);
        lemma_with_parents(next, p, target, show_hidden, want);
    }
}

/// No candidate is listed twice, however often git prints a file.
pub proof fn law_candidates_once(
    raws: Seq<Seq<u8>>,
    target: Seq<char>,
    show_hidden: bool,
    want: WantKind,
)
    ensures
        no_path_twice(listed_candidates(raws, target, show_hidden, want)),
    decreases raws.len(),
{
    if raws.len() > 0 {
        law_candidates_once(raws.drop_last(), target, show_hidden, want);
        let before = listed_candidates(raws.drop_last(), target, show_hidden, want);
        let rel = utf8_lossy(raws.last());
        lemma_with_candidate(before, joined(target, rel), false);
        let next = if want.takes(false) {
            with_candidate(before, joined(target, rel), false)
        } else {
            before
        };
        lemma_with_parents(next, rel, target, show_hidden, want);
    }
}

// --- what searches find ------------------------------------------------------

/// The hits name lines: each the file, the number of a line that is there and
/// matches, and that line; the numbers rise, and no line that matches is left out.
pub open spec fn hits_exact(
    found: Seq<GrepHit>,
    file: Seq<char>,
    all: Seq<Seq<char>>,
    pattern: Seq<char>,
    ci: bool,
    n: int,
) -> bool {
    &&& forall|i: int|
        0 <= i < found.len() ==> {
            let h = #[trigger] found[i];
            &&& h.file == file
            &&& 1 <= h.line <= n
            &&& h.content == all[h.line - 1]
            &&& regex_match_of(pattern, ci, h.content)
        }
    &&& forall|i: int, j: int|
        0 <= i < j < found.len() ==> (#[trigger] found[i]).line < (#[trigger] found[j]).line
    &&& forall|l: int|
        1 <= l <= n && #[trigger] regex_match_of(pattern, ci, all[l - 1]) ==> line_found(found, l)
}

/// A line is among the hits.
pub open spec fn line_found(found: Seq<GrepHit>, l: int) -> bool {
    exists|i: int| 0 <= i < found.len() && (#[trigger] found[i]).line == l
}

proof fn lemma_line_hits(
    file: Seq<char>,
    all: Seq<Seq<char>>,
    pattern: Seq<char>,
    ci: bool,
    n: nat,
)
    requires
        n <= all.len(),
    ensures
        hits_exact(line_hits(file, all, pattern, ci, n), file, all, pattern, ci, n as int),
    decreases n,
{
    let found = line_hits(file, all, pattern, ci, n);
    if n > 0 {
        let rest = line_hits(file, all, pattern, ci, (n - 1) as nat);
        lemma_line_hits(file, all, pattern, ci, (n - 1) as nat);
        assert forall|l: int|
            1 <= l <= n && #[trigger] regex_match_of(pattern, ci, all[l - 1]) implies line_found(
            found,
            l,
        ) by {
            if l < n {
                assert(line_found(rest, l));
                let i = choose|i: int| 0 <= i < rest.len() && (#[trigger] rest[i]).line == l;
                assert(found[i].line == l);
            } else {
                assert(found[found.len() - 1].line == l);
            }
        }
    }
}

/// What is found in a file are its lines that match, each once, in order, under
/// its own number and with its own text.
pub proof fn law_hits_are_lines(file: Seq<char>, bytes: Seq<u8>, pattern: Seq<char>, ci: bool)
    ensures
        hits_exact(
            file_hits(file, bytes, pattern, ci),
            file,
            lines_of(utf8_lossy(bytes)),
            pattern,
            ci,
            lines_of(utf8_lossy(bytes)).len() as int,
        ),
{
    let all = lines_of(utf8_lossy(bytes));
    lemma_line_hits(file, all, pattern, ci, all.len());
}

/// A query that is a regular expression is searched for as it is; any other query
/// with its special characters taken as they stand.
pub proof fn law_search_pattern(query: Seq<char>)
    ensures
        search_pattern(query, true) == query,
        search_pattern(query, false) == regex_escaped(query),
{
}

/// A request has the number of results it asks for within the limits, the nearest
/// limit where it asks for too few or too many, and 50 where it does not ask.
pub proof fn law_result_cap(n: usize)
    ensures
        result_cap(None) == 50,
        1 <= n <= 500 ==> result_cap(Some(n)) == n,
        n > 500 ==> result_cap(Some(n)) == 500,
        n == 0 ==> result_cap(Some(n)) == 1,
{
}

/// A file is searched exactly where it is there and, with a pattern, its name
/// matches; each is searched once, and files come in the order of the parts of
/// their paths.
pub proof fn law_searched_files(paths: Seq<Seq<char>>, pattern: Option<Seq<char>>)
    ensures
        searched_files(paths, None).to_multiset() == paths.to_multiset(),
        pattern matches Some(p) ==> searched_files(paths, pattern).to_multiset() == paths.filter(
            |x: Seq<char>| matches_pattern(name_or_empty(x), p),
        ).to_multiset(),
        forall|x: int, y: int|
            0 <= x < y < searched_files(paths, pattern).len() ==> !crate::snapshot::path_before(
                #[trigger] searched_files(paths, pattern)[y],
                #[trigger] searched_files(paths, pattern)[x],
            ),
{
    crate::snapshot::law_packed_order(included(paths, pattern));
    crate::snapshot::law_packed_order(paths);
}

/// Entries that are met one after the other are found one after the other.
pub proof fn law_glob_adds_up(
    x: Seq<TreeEntryView>,
    e: TreeEntryView,
    y: Seq<TreeEntryView>,
    root: Seq<char>,
    pattern: Seq<char>,
    kind: Seq<char>,
)
    ensures
        glob_found(x + seq![e] + y, root, pattern, kind) == glob_found(x, root, pattern, kind)
            + glob_found(seq![e], root, pattern, kind) + glob_found(y, root, pattern, kind),
    decreases y.len(),
{
    let all = x + seq![e] + y;
    let one = seq![e];
    let none = Seq::<TreeEntryView>::empty();
    assert(one.drop_last() =~= none);
    assert(glob_found(none, root, pattern, kind) =~= Seq::<GlobHit>::empty());
    if y.len() == 0 {
        assert(all.drop_last() =~= x);
        assert(all.last() == e);
        assert(glob_found(all, root, pattern, kind) =~= glob_found(x, root, pattern, kind)
            + glob_found(one, root, pattern, kind) + glob_found(y, root, pattern, kind));
    } else {
        law_glob_adds_up(x, e, y.drop_last(), root, pattern, kind);
        assert(all.drop_last() =~= x + one + y.drop_last());
        assert(all.last() == y.last());
        assert(glob_found(all, root, pattern, kind) =~= glob_found(x, root, pattern, kind)
            + glob_found(one, root, pattern, kind) + glob_found(y, root, pattern, kind));
    }
}

/// An entry is found exactly where its path as seen from the root, or its name,
/// matches, it can be looked at, and its kind is asked for: `file` leaves out
/// directories, `directory` leaves out the rest, and any other word nothing. It is
/// shown with its path as seen from the root, its kind, its size and its time.
pub proof fn law_glob_entry(
    e: TreeEntryView,
    root: Seq<char>,
    pattern: Seq<char>,
    kind: Seq<char>,
)
    ensures
        glob_found(seq![e], root, pattern, kind).len() == 1 <==> {
            &&& matches_pattern(seen_from(e.path, root), pattern) || (file_name_of(e.path) matches Some(
                n,
            ) && matches_pattern(n, pattern)) || (file_name_of(e.path) is None && matches_pattern(
                seq![],
                pattern,
            ))
            &&& e.stat is Some
            &&& kind == "file"@ ==> !e.is_dir
            &&& kind == "directory"@ ==> e.is_dir
        },
        glob_found(seq![e], root, pattern, kind).len() <= 1,
        glob_found(seq![e], root, pattern, kind).len() == 1 ==> glob_found(
            seq![e],
            root,
            pattern,
            kind,
        )[0] == (GlobHit { path: seen_from(e.path, root), is_dir: e.is_dir, stat: e.stat->0 }),
{
    let one = seq![e];
    let none = Seq::<TreeEntryView>::empty();
    assert(one.drop_last() =~= none);
    assert(glob_found(none, root, pattern, kind).len() == 0);
}

/// What a search by shell pattern returns are the first entries that are found, by
/// the text of their paths.
pub proof fn law_glob_sorted(found: Seq<GlobHit>, max: nat)
    ensures
        ({
            let sorted = arranged(found, order_of(glob_keys(found)));
            &&& sorted.to_multiset() == found.to_multiset()
            &&& page_of(sorted, 0, max).is_prefix_of(sorted)
            &&& page_of(sorted, 0, max).len() == if found.len() <= max {
                found.len()
            } else {
                max
            }
            &&& forall|x: int, y: int|
                0 <= x < y < sorted.len() ==> !crate::order::text_lt(
                    (#[trigger] sorted[y]).path,
                    (#[trigger] sorted[x]).path,
                )
        }),
{
    let keys = glob_keys(found);
    let sorted = arranged(found, order_of(keys));
    crate::order::law_arranged(found, keys);
    crate::order::law_order_exists(keys);
    assert(sorted.skip(0) =~= sorted);
    crate::order::law_at_most(sorted, max);
    assert forall|x: int, y: int| 0 <= x < y < sorted.len() implies !crate::order::text_lt(
        (#[trigger] sorted[y]).path,
        (#[trigger] sorted[x]).path,
    ) by {
        let (i, j) = (order_of(keys)[x], order_of(keys)[y]);
        assert(order_of(keys).to_set().contains(i) && order_of(keys).to_set().contains(j));
        let (s, t) = (found[i].path, found[j].path);
        let none = Seq::<Seq<char>>::empty();
        assert(none.push(s) + none =~= seq![s]);
        assert(none.push(t) + none =~= seq![t]);
        crate::order::law_texts_order(none, s, t, none, none);
        crate::order::law_text_order(s, 'a', 'a', seq![], seq![]);
        crate::order::law_key_order(keys[i], keys[j]);
    }
}

/// A path below a directory is shown as the way from there; any other path as it is.
pub proof fn law_seen_from(path: Seq<char>, root: Seq<char>, parts: Seq<Seq<char>>)
    requires
        crate::path::proper_parts(parts),
    ensures
        seen_from(joined(root, crate::path::relative_path(parts)), root)
            == crate::path::relative_path(parts),
        !crate::path::is_within(path, root) ==> seen_from(path, root) == path,
{
    crate::path::law_seen_from(root, parts);
}

/// The names of kinds are those that are documented, and nothing else is one.
pub proof fn law_kinds_named(t: Seq<char>)
    ensures
        want_named(None) == Ok::<WantKind, ErrorView>(WantKind::Any),
        want_named(Some(t)) is Ok <==> t == "any"@ || t == "file"@ || t == "directory"@,
        want_named(Some(t)) matches Ok(k) ==> {
            &&& k.takes(false) <==> t != "directory"@
            &&& k.takes(true) <==> t != "file"@
        },
        want_named(Some(t)) matches Err(e) ==> e.status == 400 && e.detail
            == "type must be one of file|directory|any, got "@ + t,
        WantKind::Any.takes(true) && WantKind::Any.takes(false),
        kind_text(true) == "directory"@ && kind_text(false) == "file"@,
{
    reveal_strlit("any");
    reveal_strlit("file");
    reveal_strlit("directory");
    assert("any"@.len() != "file"@.len());
    assert("any"@.len() != "directory"@.len());
    assert("file"@.len() != "directory"@.len());
}

/// A path below a directory is hidden exactly where one of the parts on the way to
/// it begins with a dot; what lies elsewhere is not.
pub proof fn law_hidden_below(path: Seq<char>, target: Seq<char>, parts: Seq<Seq<char>>)
    requires
        crate::path::proper_parts(parts),
    ensures
        hidden_below(joined(target, crate::path::relative_path(parts)), target) <==> exists|i: int|
            0 <= i < parts.len() && (#[trigger] parts[i])[0] == '.',
        !crate::path::is_within(path, target) ==> !hidden_below(path, target),
{
    let rel = crate::path::relative_path(parts);
    crate::path::law_seen_from(target, parts);
    crate::path::lemma_parts_of_relative(parts);
    if some_dotted(parts) {
        let i = choose|i: int| 0 <= i < parts.len() && (#[trigger] parts[i]).len() > 0 && parts[i][0] == '.';
        assert(parts[i][0] == '.');
    }
    if exists|i: int| 0 <= i < parts.len() && (#[trigger] parts[i])[0] == '.' {
        let i = choose|i: int| 0 <= i < parts.len() && (#[trigger] parts[i])[0] == '.';
        assert(crate::path::is_part(parts[i]));
        assert(parts[i].len() > 0 && parts[i][0] == '.');
    }
}

/// A relative path without backslashes is hidden exactly where a piece between its
/// slashes begins with a dot.
pub proof fn law_hidden_rel(rel: Seq<char>)
    requires
        !rel.contains('\\'),
    ensures
        hidden_rel(rel) <==> exists|i: int|
            0 <= i < split_on(rel, '/').len() && (#[trigger] split_on(rel, '/')[i]).len() > 0
                && split_on(rel, '/')[i][0] == '.',
{
    let needle = seq!['\\'];
    assert(!crate::find::contains_text(rel, needle)) by {
        if crate::find::contains_text(rel, needle) {
            let i = choose|i: int| crate::find::occurs_at(rel, needle, i);
            assert(rel.subrange(i, i + 1)[0] == '\\');
            assert(rel[i] == '\\');
        }
    }
    crate::find::law_replace_everywhere(rel, needle, seq!['/']);
}

/// Pieces between zero bytes: a zero byte ends a piece, and nothing else does.
pub proof fn law_zero_split(a: Seq<u8>, b: Seq<u8>)
    requires
        !b.contains(0u8),
    ensures
        zero_split(b) == seq![b],
        zero_split(a + seq![0u8] + b) == zero_split(a).push(b),
    decreases b.len(),
{
    let s = a + seq![0u8] + b;
    if b.len() == 0 {
        assert(b =~= Seq::<u8>::empty());
        assert(s.drop_last() =~= a);
        assert(zero_split(s) =~= zero_split(a).push(b));
    } else {
        let c = b.drop_last();
        assert(!c.contains(0u8)) by {
            if c.contains(0u8) {
                let i = choose|i: int| 0 <= i < c.len() && c[i] == 0u8;
                assert(b[i] == 0u8);
            }
        }
        assert(b[b.len() - 1] != 0u8) by {
            if b[b.len() - 1] == 0u8 {
                assert(b.contains(0u8));
            }
        }
        law_zero_split(a, c);
        assert(s.drop_last() =~= a + seq![0u8] + c);
        assert(s.last() == b.last());
        assert(c.push(b.last()) =~= b);
        assert(zero_split(s) =~= zero_split(a).push(b));
        assert(zero_split(b) =~= seq![b]);
    }
}

// --- which candidates there are ----------------------------------------------

/// Whether `p` is a directory above the relative path `rel`.
pub open spec fn is_above(p: Seq<char>, rel: Seq<char>) -> bool
    decreases parts_of(rel).len(),
    via is_above_decreases
{
    match parent_of(rel) {
        None => false,
        Some(q) => q.len() > 0 && (p == q || is_above(p, q)),
    }
}

#[via_fn]
proof fn is_above_decreases(p: Seq<char>, rel: Seq<char>) {
    lemma_parent_shorter(rel);
}

/// Whether a relative path is one that may be shown.
pub open spec fn is_shown(rel: Seq<char>, show_hidden: bool) -> bool {
    show_hidden || !hidden_rel(rel)
}

/// A candidate is the listed file `rel` itself, or a directory above it that may
/// be shown, and of a kind that is wanted.
pub open spec fn comes_from(
    c: CandidateView,
    rel: Seq<char>,
    target: Seq<char>,
    show_hidden: bool,
    want: WantKind,
) -> bool {
    &&& want.takes(c.is_dir)
    &&& if c.is_dir {
        exists|p: Seq<char>| #[trigger]
            is_above(p, rel) && is_shown(p, show_hidden) && c.path == joined(target, p)
    } else {
        c.path == joined(target, rel)
    }
}

proof fn lemma_candidate_kept(cands: Seq<CandidateView>, path: Seq<char>, is_dir: bool)
    ensures
        cands.is_prefix_of(with_candidate(cands, path, is_dir)),
        listed(with_candidate(cands, path, is_dir), path),
        forall|i: int|
            0 <= i < with_candidate(cands, path, is_dir).len() ==> cands.contains(
                #[trigger] with_candidate(cands, path, is_dir)[i],
            ) || with_candidate(cands, path, is_dir)[i] == (CandidateView { path, is_dir }),
{
    let all = with_candidate(cands, path, is_dir);
    if !listed(cands, path) {
        assert(same_path(all[cands.len() as int].path, path));
    }
    assert forall|i: int| 0 <= i < all.len() implies cands.contains(#[trigger] all[i]) || all[i]
        == (CandidateView { path, is_dir }) by {
        if i < cands.len() {
            assert(all[i] == cands[i]);
        }
    }
}

proof fn lemma_listed_kept(a: Seq<CandidateView>, b: Seq<CandidateView>, path: Seq<char>)
    requires
        a.is_prefix_of(b),
        listed(a, path),
    ensures
        listed(b, path),
{
    let i = choose|i: int| 0 <= i < a.len() && same_path((#[trigger] a[i]).path, path);
    assert(b[i] == a[i]);
}

proof fn lemma_parents_added(
    cands: Seq<CandidateView>,
    rel: Seq<char>,
    target: Seq<char>,
    show_hidden: bool,
    want: WantKind,
)
    ensures
        ({
            let all = with_parents(cands, rel, target, show_hidden, want);
            &&& cands.is_prefix_of(all)
            &&& forall|i: int|
                0 <= i < all.len() ==> cands.contains(#[trigger] all[i]) || all[i].is_dir
                    && comes_from(all[i], rel, target, show_hidden, want)
            &&& forall|p: Seq<char>|
                want.takes(true) && #[trigger] is_above(p, rel) && is_shown(p, show_hidden)
                    ==> listed(all, joined(target, p))
        }),
    decreases parts_of(rel).len(),
{
    lemma_parent_shorter(rel);
    match parent_of(rel) {
        None => {},
        Some(q) => if q.len() > 0 {
            let next = if (show_hidden || !hidden_rel(q)) && want.takes(true) {
                with_candidate(cands, joined(target, q), true)
            } else {
                cands
            };
            let all = with_parents(cands, rel, target, show_hidden, want);
            lemma_candidate_kept(cands, joined(target, q), true);
            lemma_parents_added(next, q, target, show_hidden, want);
            assert(all == with_parents(next, q, target, show_hidden, want));
            assert(cands.is_prefix_of(next));
            assert(next.is_prefix_of(all));
            assert forall|i: int| 0 <= i < cands.len() implies cands[i] == all[i] by {
                assert(cands[i] == next[i]);
            }
            assert(cands =~= all.take(cands.len() as int));
            assert(is_above(q, rel));
            assert forall|i: int| 0 <= i < all.len() implies cands.contains(#[trigger] all[i])
                || all[i].is_dir && comes_from(all[i], rel, target, show_hidden, want) by {
                if next.contains(all[i]) {
                    let k = choose|k: int| 0 <= k < next.len() && next[k] == all[i];
                    assert(cands.contains(next[k]) || next[k] == (CandidateView {
                        path: joined(target, q),
                        is_dir: true,
                    }));
                } else {
                    let p = choose|p: Seq<char>| #[trigger]
                        is_above(p, q) && is_shown(p, show_hidden) && all[i].path == joined(
                            target,
                            p,
                        );
                    assert(is_above(p, rel));
                }
            }
            assert forall|p: Seq<char>|
                want.takes(true) && #[trigger] is_above(p, rel) && is_shown(
                    p,
                    show_hidden,
                ) implies listed(all, joined(target, p)) by {
                if p == q {
                    lemma_listed_kept(next, all, joined(target, q));
                } else {
                    assert(is_above(p, q));
                }
            }
        },
    }
}

/// Every file that git prints and that may be shown is a candidate where files
/// are wanted, and so is every directory above it that may be shown where
/// directories are.
pub proof fn law_candidates_complete(
    raws: Seq<Seq<u8>>,
    k: int,
    target: Seq<char>,
    show_hidden: bool,
    want: WantKind,
)
    requires
        0 <= k < raws.len(),
        raws[k].len() > 0,
        is_shown(utf8_lossy(raws[k]), show_hidden),
    ensures
        ({
            let all = listed_candidates(raws, target, show_hidden, want);
            let rel = utf8_lossy(raws[k]);
            &&& want.takes(false) ==> listed(all, joined(target, rel))
            &&& forall|p: Seq<char>|
                want.takes(true) && #[trigger] is_above(p, rel) && is_shown(p, show_hidden)
                    ==> listed(all, joined(target, p))
        }),
    decreases raws.len(),
{
    let before = listed_candidates(raws.drop_last(), target, show_hidden, want);
    let all = listed_candidates(raws, target, show_hidden, want);
    let last = utf8_lossy(raws.last());
    let rel = utf8_lossy(raws[k]);
    let next = if want.takes(false) {
        with_candidate(before, joined(target, last), false)
    } else {
        before
    };
    lemma_candidate_kept(before, joined(target, last), false);
    lemma_parents_added(next, last, target, show_hidden, want);
    assert(next.is_prefix_of(with_parents(next, last, target, show_hidden, want)));
    if k < raws.len() - 1 {
        assert(raws.drop_last()[k] == raws[k]);
        law_candidates_complete(raws.drop_last(), k, target, show_hidden, want);
        assert(before.is_prefix_of(all)) by {
            assert forall|i: int| 0 <= i < before.len() implies before[i] == all[i] by {
                assert(before[i] == next[i]);
            }
            assert(before.len() <= next.len());
            assert(before =~= all.take(before.len() as int));
        }
        if want.takes(false) {
            lemma_listed_kept(before, all, joined(target, rel));
        }
        assert forall|p: Seq<char>|
            want.takes(true) && #[trigger] is_above(p, rel) && is_shown(
                p,
                show_hidden,
            ) implies listed(all, joined(target, p)) by {
            lemma_listed_kept(before, all, joined(target, p));
        }
    } else {
        if want.takes(false) {
            lemma_listed_kept(next, all, joined(target, rel));
        }
    }
}

/// Every candidate is a file that git prints, or a directory above one, and may
/// be shown.
pub proof fn law_candidates_listed(
    raws: Seq<Seq<u8>>,
    i: int,
    target: Seq<char>,
    show_hidden: bool,
    want: WantKind,
) -> (k: int)
    requires
        0 <= i < listed_candidates(raws, target, show_hidden, want).len(),
    ensures
        0 <= k < raws.len(),
        raws[k].len() > 0,
        is_shown(utf8_lossy(raws[k]), show_hidden),
        comes_from(
            listed_candidates(raws, target, show_hidden, want)[i],
            utf8_lossy(raws[k]),
            target,
            show_hidden,
            want,
        ),
    decreases raws.len(),
{
    let before = listed_candidates(raws.drop_last(), target, show_hidden, want);
    let all = listed_candidates(raws, target, show_hidden, want);
    let last = utf8_lossy(raws.last());
    let next = if want.takes(false) {
        with_candidate(before, joined(target, last), false)
    } else {
        before
    };
    lemma_candidate_kept(before, joined(target, last), false);
    lemma_parents_added(next, last, target, show_hidden, want);
    if before.contains(all[i]) {
        let b = choose|b: int| 0 <= b < before.len() && before[b] == all[i];
        let k = law_candidates_listed(raws.drop_last(), b, target, show_hidden, want);
        assert(raws.drop_last()[k] == raws[k]);
        k
    } else {
        if next.contains(all[i]) {
            let n = choose|n: int| 0 <= n < next.len() && next[n] == all[i];
            assert(before.contains(next[n]) || next[n] == (CandidateView {
                path: joined(target, last),
                is_dir: false,
            }));
        }
        raws.len() - 1
    }
}

/// A plain walk keeps exactly the entries of a wanted kind that are not hidden,
/// or all of that kind where hidden ones are shown.
pub proof fn law_walked(c: CandidateView, target: Seq<char>)
    ensures
        is_candidate(c, target, true, WantKind::Any),
        is_candidate(c, target, false, WantKind::Any) <==> !hidden_below(c.path, target),
        is_candidate(c, target, true, WantKind::File) <==> !c.is_dir,
        is_candidate(c, target, true, WantKind::Directory) <==> c.is_dir,
        is_candidate(c, target, false, WantKind::File) <==> !c.is_dir && !hidden_below(
            c.path,
            target,
        ),
        is_candidate(c, target, false, WantKind::Directory) <==> c.is_dir && !hidden_below(
            c.path,
            target,
        ),
{
}

/// Two texts name the same path where their parts are the same and both, or
/// neither, start at the root: slashes and dots between the parts do not count.
pub proof fn law_same_path(a: Seq<char>, b: Seq<char>)
    ensures
        same_path(a, a),
        same_path(a, b) == same_path(b, a),
        same_path(a, b) ==> is_absolute_text(a) == is_absolute_text(b) && parts_of(a) == parts_of(b),
        parts_of(a) == parts_of(b) && is_absolute_text(a) == is_absolute_text(b) ==> same_path(a, b),
{
}

} // verus!
