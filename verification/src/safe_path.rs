//! Path confinement.
//!
//! Every path that a client names is resolved, symbolic links included, and
//! must come out at the workspace base or below it. Reading a link is the
//! caller's affair: the functions here take it as a closure from the path of a
//! file to the target of the link that lies there, if one does.

use vstd::prelude::*;
use vstd::utf8::encode_utf8;

use crate::chars::{char_is_ascii_alnum, is_ascii_alnum, trim, trim_text};
use crate::error::{bad_request, escapes, internal, ApiError, ErrorView};
use crate::find::strip_suffix;
use crate::lookup::{answers_as, Lookup};
use crate::outside::{from_utf8_lossy, percent_decode, percent_decoded, utf8_lossy};
use crate::path::{
    absolute_from, absolute_path, dotdot, is_absolute, is_absolute_text, is_dotdot, is_prefix,
    is_within, join_path, joined, lemma_parts_of_absolute, lemma_parts_proper, parts_of, path_parts,
    proper_parts,
};
use crate::text::{chars_of, concat2, opt_str, texts};

verus! {

/// How many symbolic links one resolution follows.
pub const SYMLINK_LIMIT: u32 = 40;

/// The links of a file system: the target of the link at a path, if there is one.
pub type Links = Lookup;

/// Resolves `todo` step by step, standing at the directory `done`, after
/// `hops` links. `..` goes up, other parts go down; where a part is a link the
/// target is resolved first, from the root, and the rest goes on from there. A
/// link beyond the limit is not followed: it ends the resolution that met it.
pub open spec fn walk(
    done: Seq<Seq<char>>,
    todo: Seq<Seq<char>>,
    links: Links,
    hops: nat,
) -> (Seq<Seq<char>>, nat)
    decreases
            (if hops <= SYMLINK_LIMIT {
                SYMLINK_LIMIT + 1 - hops
            } else {
                0
            }),
            todo.len(),
{
    if todo.len() == 0 {
        (done, hops)
    } else {
        let rest = todo.drop_first();
        if todo[0] == dotdot() {
            walk(go_up(done), rest, links, hops)
        } else {
            let here = done.push(todo[0]);
            match links(absolute_path(here)) {
                None => walk(here, rest, links, hops),
                Some(target) => if hops >= SYMLINK_LIMIT {
                    (here, (SYMLINK_LIMIT + 1) as nat)
                } else {
                    let inner = walk(seq![], target_parts(done, target), links, hops + 1);
                    let after = if inner.1 > hops {
                        inner.1
                    } else {
                        hops + 1
                    };
                    walk(inner.0, rest, links, after)
                },
            }
        }
    }
}

/// The directory above; the root is above itself.
pub open spec fn go_up(done: Seq<Seq<char>>) -> Seq<Seq<char>> {
    if done.len() > 0 {
        done.drop_last()
    } else {
        done
    }
}

/// The parts, from the root, that a link in the directory `done` stands for.
pub open spec fn target_parts(done: Seq<Seq<char>>, target: Seq<char>) -> Seq<Seq<char>> {
    if is_absolute_text(target) {
        parts_of(target)
    } else {
        done + parts_of(target)
    }
}

/// The parts of a path from the root; a relative path is looked at from `cwd`.
pub open spec fn rooted_parts(path: Seq<char>, cwd: Seq<char>) -> Seq<Seq<char>> {
    if is_absolute_text(path) {
        parts_of(path)
    } else {
        parts_of(joined(cwd, path))
    }
}

/// The parts of a path with every link resolved.
pub open spec fn real_parts(path: Seq<char>, cwd: Seq<char>, links: Links) -> Seq<Seq<char>> {
    walk(seq![], rooted_parts(path, cwd), links, 0).0
}

/// `s` with its percent sequences decoded, as UTF-8.
pub open spec fn unquoted(s: Seq<char>) -> Seq<char> {
    utf8_lossy(percent_decoded(encode_utf8(s)))
}

/// The parts that a client's path `rel` resolves to.
pub open spec fn full_parts(rel: Seq<char>, base: Seq<char>, cwd: Seq<char>, links: Links) -> Seq<
    Seq<char>,
> {
    let decoded = unquoted(rel);
    let start = if is_absolute_text(decoded) {
        parts_of(decoded)
    } else {
        real_parts(base, cwd, links) + parts_of(decoded)
    };
    walk(seq![], start, links, 0).0
}

/// What becomes of a client's path: the resolved path where it lies at or
/// below the resolved base, else a 400.
pub open spec fn confined(rel: Seq<char>, base: Seq<char>, cwd: Seq<char>, links: Links) -> Result<
    Seq<char>,
    ErrorView,
> {
    let full = full_parts(rel, base, cwd, links);
    if real_parts(base, cwd, links).is_prefix_of(full) {
        Ok(absolute_path(full))
    } else {
        Err(bad_request("path escapes workspace"@))
    }
}

/// No part is `..`.
pub open spec fn no_dotdot(parts: Seq<Seq<char>>) -> bool {
    forall|i: int| 0 <= i < parts.len() ==> #[trigger] parts[i] != dotdot()
}

/// What a resolution ends at has no `..` left, and its parts are proper.
pub proof fn lemma_walk_normal(
    done: Seq<Seq<char>>,
    todo: Seq<Seq<char>>,
    links: Links,
    hops: nat,
)
    requires
        proper_parts(done),
        no_dotdot(done),
        proper_parts(todo),
    ensures
        proper_parts(walk(done, todo, links, hops).0),
        no_dotdot(walk(done, todo, links, hops).0),
    decreases
            (if hops <= SYMLINK_LIMIT {
                SYMLINK_LIMIT + 1 - hops
            } else {
                0
            }),
            todo.len(),
{
    if todo.len() > 0 {
        let rest = todo.drop_first();
        assert forall|i: int| 0 <= i < rest.len() implies crate::path::is_part(#[trigger] rest[i])
            && !rest[i].contains('/') by {
            assert(crate::path::is_part(todo[i + 1]) && !todo[i + 1].contains('/'));
        }
        assert(crate::path::is_part(todo[0]) && !todo[0].contains('/'));
        if todo[0] == dotdot() {
            assert forall|i: int| 0 <= i < go_up(done).len() implies crate::path::is_part(
                #[trigger] go_up(done)[i],
            ) && !go_up(done)[i].contains('/') && go_up(done)[i] != dotdot() by {
                assert(crate::path::is_part(done[i]) && !done[i].contains('/'));
                assert(done[i] != dotdot());
            }
            lemma_walk_normal(go_up(done), rest, links, hops);
        } else {
            let here = done.push(todo[0]);
            match links(absolute_path(here)) {
                None => {
                    lemma_walk_normal(here, rest, links, hops);
                },
                Some(target) => {
                    if hops < SYMLINK_LIMIT {
                        let start = target_parts(done, target);
                        lemma_parts_proper(target);
                        assert(proper_parts(start));
                        let none = Seq::<Seq<char>>::empty();
                        lemma_walk_normal(none, start, links, hops + 1);
                        let inner = walk(none, start, links, hops + 1);
                        let after = if inner.1 > hops {
                            inner.1
                        } else {
                            hops + 1
                        };
                        lemma_walk_normal(inner.0, rest, links, after);
                    }
                },
            }
        }
    }
}

/// The resolved parts of any path are proper and hold no `..`.
pub proof fn lemma_real_normal(path: Seq<char>, cwd: Seq<char>, links: Links)
    ensures
        proper_parts(real_parts(path, cwd, links)),
        no_dotdot(real_parts(path, cwd, links)),
{
    lemma_parts_proper(path);
    lemma_parts_proper(joined(cwd, path));
    lemma_walk_normal(seq![], rooted_parts(path, cwd), links, 0);
}

/// The resolved parts of a client's path are proper and hold no `..`.
pub proof fn lemma_full_normal(rel: Seq<char>, base: Seq<char>, cwd: Seq<char>, links: Links)
    ensures
        proper_parts(full_parts(rel, base, cwd, links)),
        no_dotdot(full_parts(rel, base, cwd, links)),
{
    lemma_real_normal(base, cwd, links);
    lemma_parts_proper(unquoted(rel));
    let start = if is_absolute_text(unquoted(rel)) {
        parts_of(unquoted(rel))
    } else {
        real_parts(base, cwd, links) + parts_of(unquoted(rel))
    };
    lemma_walk_normal(seq![], start, links, 0);
}

/// Confinement: a path that is let through is absolute, names no `..`, and
/// lies at the resolved base or below it, whatever links there are; every
/// other path is answered with a 400.
pub proof fn law_confinement(rel: Seq<char>, base: Seq<char>, cwd: Seq<char>, links: Links)
    ensures
        match confined(rel, base, cwd, links) {
            Ok(p) => {
                &&& is_absolute_text(p)
                &&& no_dotdot(parts_of(p))
                &&& is_within(p, absolute_path(real_parts(base, cwd, links)))
            },
            Err(e) => e == bad_request("path escapes workspace"@),
        },
{
    lemma_real_normal(base, cwd, links);
    lemma_full_normal(rel, base, cwd, links);
    lemma_parts_of_absolute(real_parts(base, cwd, links));
    lemma_parts_of_absolute(full_parts(rel, base, cwd, links));
}

/// Without links a resolution only drops `..` together with the part before.
pub open spec fn lexical(done: Seq<Seq<char>>, todo: Seq<Seq<char>>) -> Seq<Seq<char>>
    decreases todo.len(),
{
    if todo.len() == 0 {
        done
    } else if todo[0] == dotdot() {
        lexical(go_up(done), todo.drop_first())
    } else {
        lexical(done.push(todo[0]), todo.drop_first())
    }
}

proof fn lemma_walk_lexical(done: Seq<Seq<char>>, todo: Seq<Seq<char>>, links: Links, hops: nat)
    requires
        forall|p: Seq<char>| (#[trigger] links(p)) is None,
    ensures
        walk(done, todo, links, hops) == (lexical(done, todo), hops),
    decreases todo.len(),
{
    if todo.len() > 0 {
        if todo[0] == dotdot() {
            lemma_walk_lexical(go_up(done), todo.drop_first(), links, hops);
        } else {
            assert(links(absolute_path(done.push(todo[0]))) is None);
            lemma_walk_lexical(done.push(todo[0]), todo.drop_first(), links, hops);
        }
    }
}

/// Where there are no links, a path resolves by its text alone.
pub proof fn law_no_links_lexical(path: Seq<char>, cwd: Seq<char>, links: Links)
    requires
        forall|p: Seq<char>| (#[trigger] links(p)) is None,
    ensures
        real_parts(path, cwd, links) == lexical(seq![], rooted_parts(path, cwd)),
{
    lemma_walk_lexical(seq![], rooted_parts(path, cwd), links, 0);
}

proof fn lemma_walk_plain(done: Seq<Seq<char>>, todo: Seq<Seq<char>>, links: Links, hops: nat)
    requires
        no_dotdot(todo),
        forall|k: int|
            1 <= k <= todo.len() ==> links(absolute_path(done + #[trigger] todo.take(k))) is None,
    ensures
        walk(done, todo, links, hops) == (done + todo, hops),
    decreases todo.len(),
{
    if todo.len() > 0 {
        let rest = todo.drop_first();
        let here = done.push(todo[0]);
        assert(todo[0] != dotdot());
        assert(done + todo.take(1) =~= here);
        assert(links(absolute_path(done + todo.take(1))) is None);
        assert forall|k: int| 1 <= k <= rest.len() implies links(
            absolute_path(here + #[trigger] rest.take(k)),
        ) is None by {
            assert(here + rest.take(k) =~= done + todo.take(k + 1));
            assert(links(absolute_path(done + todo.take(k + 1))) is None);
        }
        assert forall|i: int| 0 <= i < rest.len() implies #[trigger] rest[i] != dotdot() by {
            assert(todo[i + 1] != dotdot());
        }
        lemma_walk_plain(here, rest, links, hops);
        assert(here + rest =~= done + todo);
    } else {
        assert(done + todo =~= done);
    }
}

/// No link lies on the way from the root to the path with the given parts.
pub open spec fn link_free(parts: Seq<Seq<char>>, links: Links) -> bool {
    forall|k: int|
        1 <= k <= parts.len() ==> links(absolute_path(#[trigger] parts.take(k))) is None
}

proof fn lemma_walk_counts(done: Seq<Seq<char>>, todo: Seq<Seq<char>>, links: Links, hops: nat)
    requires
        hops <= SYMLINK_LIMIT + 1,
    ensures
        hops <= walk(done, todo, links, hops).1 <= SYMLINK_LIMIT + 1,
    decreases
            (if hops <= SYMLINK_LIMIT {
                SYMLINK_LIMIT + 1 - hops
            } else {
                0
            }),
            todo.len(),
{
    if todo.len() > 0 {
        let rest = todo.drop_first();
        if todo[0] == dotdot() {
            lemma_walk_counts(go_up(done), rest, links, hops);
        } else {
            let here = done.push(todo[0]);
            match links(absolute_path(here)) {
                None => {
                    lemma_walk_counts(here, rest, links, hops);
                },
                Some(target) => {
                    if hops < SYMLINK_LIMIT {
                        let start = target_parts(done, target);
                        let inner = walk(seq![], start, links, hops + 1);
                        let after = if inner.1 > hops {
                            inner.1
                        } else {
                            hops + 1
                        };
                        lemma_walk_counts(seq![], start, links, hops + 1);
                        lemma_walk_counts(inner.0, rest, links, after);
                    }
                },
            }
        }
    }
}

proof fn lemma_walk_link_free(done: Seq<Seq<char>>, todo: Seq<Seq<char>>, links: Links, hops: nat)
    requires
        link_free(done, links),
        walk(done, todo, links, hops).1 <= SYMLINK_LIMIT,
    ensures
        link_free(walk(done, todo, links, hops).0, links),
    decreases
            (if hops <= SYMLINK_LIMIT {
                SYMLINK_LIMIT + 1 - hops
            } else {
                0
            }),
            todo.len(),
{
    if todo.len() > 0 {
        let rest = todo.drop_first();
        if todo[0] == dotdot() {
            assert forall|k: int| 1 <= k <= go_up(done).len() implies links(
                absolute_path(#[trigger] go_up(done).take(k)),
            ) is None by {
                assert(go_up(done).take(k) =~= done.take(k));
            }
            lemma_walk_link_free(go_up(done), rest, links, hops);
        } else {
            let here = done.push(todo[0]);
            match links(absolute_path(here)) {
                None => {
                    assert forall|k: int| 1 <= k <= here.len() implies links(
                        absolute_path(#[trigger] here.take(k)),
                    ) is None by {
                        if k < here.len() {
                            assert(here.take(k) =~= done.take(k));
                        } else {
                            assert(here.take(k) =~= here);
                        }
                    }
                    lemma_walk_link_free(here, rest, links, hops);
                },
                Some(target) => {
                    if hops < SYMLINK_LIMIT {
                        let none = Seq::<Seq<char>>::empty();
                        let start = target_parts(done, target);
                        let inner = walk(none, start, links, hops + 1);
                        let after = if inner.1 > hops {
                            inner.1
                        } else {
                            hops + 1
                        };
                        lemma_walk_counts(none, start, links, hops + 1);
                        lemma_walk_counts(inner.0, rest, links, after);
                        lemma_walk_link_free(none, start, links, hops + 1);
                        lemma_walk_link_free(inner.0, rest, links, after);
                    }
                },
            }
        }
    }
}

/// A path that is resolved before the links run out is one on which no link
/// lies, and it resolves to itself: resolving twice is resolving once.
pub proof fn law_resolved_is_fixed(path: Seq<char>, cwd: Seq<char>, links: Links)
    requires
        walk(seq![], rooted_parts(path, cwd), links, 0).1 <= SYMLINK_LIMIT,
    ensures
        link_free(real_parts(path, cwd, links), links),
        real_parts(absolute_path(real_parts(path, cwd, links)), cwd, links) == real_parts(
            path,
            cwd,
            links,
        ),
{
    let parts = real_parts(path, cwd, links);
    let none = Seq::<Seq<char>>::empty();
    lemma_walk_link_free(none, rooted_parts(path, cwd), links, 0);
    lemma_real_normal(path, cwd, links);
    lemma_parts_of_absolute(parts);
    assert forall|k: int| 1 <= k <= parts.len() implies links(
        absolute_path(none + #[trigger] parts.take(k)),
    ) is None by {
        assert(none + parts.take(k) =~= parts.take(k));
    }
    lemma_walk_plain(none, parts, links, 0);
    assert(none + parts =~= parts);
}

// --- executable --------------------------------------------------------------

/// `s` with its percent sequences decoded, as UTF-8; `+` stays `+`.
pub fn unquote(s: &str) -> (r: String)
    ensures
        r@ == unquoted(s@),
{
    let bytes = percent_decode(s);
    from_utf8_lossy(bytes.as_slice())
}

/// Resolves `todo` from the directory `done`, after `hops` links.
fn resolve<F: Fn(&str) -> Option<String>>(
    done: Vec<String>,
    todo: &Vec<String>,
    read_link: &F,
    hops: u32,
) -> (r: (Vec<String>, u32))
    requires
        hops <= SYMLINK_LIMIT + 1,
        forall|p: &str| call_requires(*read_link, (p,)),
    ensures
        hops <= r.1 <= SYMLINK_LIMIT + 1,
        forall|links: Links| #[trigger]
            answers_as(*read_link, links) ==> (texts(r.0@), r.1 as nat) == walk(
                texts(done@),
                texts(todo@),
                links,
                hops as nat,
            ),
    decreases SYMLINK_LIMIT + 1 - hops,
{
    let ghost done0 = texts(done@);
    let ghost todo0 = texts(todo@);
    let mut here: Vec<String> = done;
    let mut used: u32 = hops;
    let mut i: usize = 0;
    assert(todo0.skip(0) =~= todo0);
    while i < todo.len()
        invariant
            i <= todo.len(),
            hops <= used <= SYMLINK_LIMIT + 1,
            done0 == texts(done@),
            todo0 == texts(todo@),
            forall|p: &str| call_requires(*read_link, (p,)),
            forall|links: Links| #[trigger]
                answers_as(*read_link, links) ==> walk(
                    texts(here@),
                    todo0.skip(i as int),
                    links,
                    used as nat,
                ) == walk(done0, todo0, links, hops as nat),
        decreases todo.len() - i,
    {
        let ghost left = todo0.skip(i as int);
        let ghost before = texts(here@);
        let ghost used0 = used as nat;
        proof {
            assert(left[0] == todo@[i as int]@);
            assert(left.drop_first() =~= todo0.skip(i as int + 1));
        }
        if is_dotdot(todo[i].as_str()) {
            let _up = here.pop();
            assert(texts(here@) =~= go_up(before));
        } else {
            here.push(todo[i].clone());
            assert(texts(here@) =~= before.push(left[0]));
            let name = absolute_from(&here);
            match read_link(name.as_str()) {
                None => {},
                Some(target) => {
                    if used >= SYMLINK_LIMIT {
                        return (here, SYMLINK_LIMIT + 1);
                    }
                    let mut start: Vec<String> = Vec::new();
                    if !is_absolute(target.as_str()) {
                        let _own = here.pop();
                        assert(texts(here@) =~= before);
                        start = here;
                    }
                    let ghost start0 = texts(start@);
                    let mut tail = path_parts(target.as_str());
                    let ghost tail0 = texts(tail@);
                    start.append(&mut tail);
                    assert(texts(start@) =~= start0 + tail0);
                    assert(texts(start@) =~= target_parts(before, target@));
                    let none: Vec<String> = Vec::new();
                    assert(texts(none@) =~= seq![]);
                    let inner = resolve(none, &start, read_link, used + 1);
                    here = inner.0;
                    used = inner.1;
                },
            }
        }
        i += 1;
    }
    assert(todo0.skip(todo0.len() as int).len() == 0);
    (here, used)
}

/// The parts of a path with every link resolved; a relative path is looked at
/// from `cwd`.
fn realparts<F: Fn(&str) -> Option<String>>(input: &str, cwd: &str, read_link: &F) -> (r: Vec<
    String,
>)
    requires
        forall|p: &str| call_requires(*read_link, (p,)),
    ensures
        forall|links: Links| #[trigger]
            answers_as(*read_link, links) ==> texts(r@) == real_parts(input@, cwd@, links),
{
    let start = if is_absolute(input) {
        path_parts(input)
    } else {
        let whole = join_path(cwd, input);
        path_parts(whole.as_str())
    };
    let none: Vec<String> = Vec::new();
    assert(texts(none@) =~= seq![]);
    let r = resolve(none, &start, read_link, 0);
    r.0
}

/// The path with every link resolved. Parts that do not exist stay as they are.
pub fn realpath<F: Fn(&str) -> Option<String>>(input: &str, cwd: &str, read_link: &F) -> (r: String)
    requires
        forall|p: &str| call_requires(*read_link, (p,)),
    ensures
        forall|links: Links| #[trigger]
            answers_as(*read_link, links) ==> r@ == absolute_path(real_parts(input@, cwd@, links)),
{
    let parts = realparts(input, cwd, read_link);
    absolute_from(&parts)
}

/// Whether `child` is `base` itself or lies under it.
pub fn within(child: &str, base: &str) -> (r: bool)
    ensures
        r == is_within(child@, base@),
{
    let c = path_parts(child);
    let b = path_parts(base);
    is_absolute(child) == is_absolute(base) && is_prefix(&b, &c)
}

/// Resolves a client's path under `base`, or answers 400 where it leaves it.
/// Percent sequences are decoded first; absolute paths are honoured.
pub fn safe_path<F: Fn(&str) -> Option<String>>(
    rel: &str,
    base: &str,
    cwd: &str,
    read_link: &F,
) -> (r: Result<String, ApiError>)
    requires
        forall|p: &str| call_requires(*read_link, (p,)),
    ensures
        forall|links: Links| #[trigger]
            answers_as(*read_link, links) ==> crate::text::view_result(r) == confined(
                rel@,
                base@,
                cwd@,
                links,
            ),
{
    let decoded = unquote(rel);
    let root = realparts(base, cwd, read_link);
    let ghost root0 = texts(root@);
    let mut start: Vec<String> = Vec::new();
    if !is_absolute(decoded.as_str()) {
        start = crate::text::clone_strings(&root);
    }
    let ghost start0 = texts(start@);
    let mut tail = path_parts(decoded.as_str());
    let ghost tail0 = texts(tail@);
    start.append(&mut tail);
    assert(texts(start@) =~= start0 + tail0);
    proof {
        if is_absolute_text(decoded@) {
            assert(texts(start@) =~= tail0);
        }
    }
    let none: Vec<String> = Vec::new();
    assert(texts(none@) =~= seq![]);
    let full = resolve(none, &start, read_link, 0);
    if is_prefix(&root, &full.0) {
        Ok(absolute_from(&full.0))
    } else {
        Err(ApiError::BadRequest(escapes().to_owned()))
    }
}

// --- the base of a request ---------------------------------------------------

/// `[A-Za-z0-9._-]`.
pub open spec fn is_subdir_char(c: char) -> bool {
    is_ascii_alnum(c) || c == '.' || c == '_' || c == '-'
}

/// `^[A-Za-z0-9._-]{1,64}$`.
pub open spec fn is_subdir_name(s: Seq<char>) -> bool {
    1 <= s.len() <= 64 && forall|i: int| 0 <= i < s.len() ==> is_subdir_char(#[trigger] s[i])
}

/// Whether `sub` is a workspace subdirectory name.
pub fn is_valid_subdir(sub: &str) -> (r: bool)
    ensures
        r == is_subdir_name(sub@),
{
    let cs = chars_of(sub);
    if cs.len() < 1 || cs.len() > 64 {
        return false;
    }
    let mut i: usize = 0;
    while i < cs.len()
        invariant
            i <= cs.len(),
            cs@ == sub@,
            forall|k: int| 0 <= k < i ==> is_subdir_char(#[trigger] cs@[k]),
        decreases cs.len() - i,
    {
        let c = cs[i];
        if !(char_is_ascii_alnum(c) || c == '.' || c == '_' || c == '-') {
            assert(!is_subdir_char(sub@[i as int]));
            return false;
        }
        i += 1;
    }
    true
}

/// The workspace base of a request, and whether the directory is created on
/// first use.
#[derive(Debug)]
pub struct RequestBase {
    /// The resolved directory.
    pub path: String,
    /// Whether it is a subdirectory that the request may be the first to use.
    pub create: bool,
}

impl View for RequestBase {
    type V = (Seq<char>, bool);

    open spec fn view(&self) -> (Seq<char>, bool) {
        (self.path@, self.create)
    }
}

/// The base of a request: the work directory, or a subdirectory of it.
pub open spec fn base_for(
    workdir: Seq<char>,
    subdir: Option<Seq<char>>,
    cwd: Seq<char>,
    links: Links,
) -> Result<(Seq<char>, bool), ErrorView> {
    let root = real_parts(workdir, cwd, links);
    match subdir {
        Some(s) => if trim_text(s).len() == 0 {
            Ok((absolute_path(root), false))
        } else if !is_subdir_name(trim_text(s)) {
            Err(bad_request("invalid X-Workspace-Subdir"@))
        } else {
            let sub = walk(seq![], root + parts_of(trim_text(s)), links, 0).0;
            if root.is_prefix_of(sub) {
                Ok((absolute_path(sub), true))
            } else {
                Err(bad_request("subdir escapes workspace"@))
            }
        },
        None => Ok((absolute_path(root), false)),
    }
}

/// The base of every request lies at the work directory or below it.
pub proof fn law_base_confined(
    workdir: Seq<char>,
    subdir: Option<Seq<char>>,
    cwd: Seq<char>,
    links: Links,
)
    ensures
        base_for(workdir, subdir, cwd, links) is Ok ==> is_within(
            base_for(workdir, subdir, cwd, links)->Ok_0.0,
            absolute_path(real_parts(workdir, cwd, links)),
        ),
{
    let root = real_parts(workdir, cwd, links);
    lemma_real_normal(workdir, cwd, links);
    lemma_parts_of_absolute(root);
    assert(root.take(root.len() as int) =~= root);
    if let Some(s) = subdir {
        lemma_parts_proper(trim_text(s));
        lemma_walk_normal(seq![], root + parts_of(trim_text(s)), links, 0);
        lemma_parts_of_absolute(walk(seq![], root + parts_of(trim_text(s)), links, 0).0);
    }
}

/// The effective workspace base of a request: `workdir`, or `workdir/<subdir>`.
pub fn request_base<F: Fn(&str) -> Option<String>>(
    workdir: &str,
    subdir: Option<&str>,
    cwd: &str,
    read_link: &F,
) -> (r: Result<RequestBase, ApiError>)
    requires
        forall|p: &str| call_requires(*read_link, (p,)),
    ensures
        forall|links: Links| #[trigger]
            answers_as(*read_link, links) ==> crate::text::view_result(r) == base_for(
                workdir@,
                opt_str(subdir),
                cwd@,
                links,
            ),
{
    let root = realparts(workdir, cwd, read_link);
    let sub = match subdir {
        Some(s) => trim(s),
        None => String::new(),
    };
    if sub.as_str().is_empty() {
        return Ok(RequestBase { path: absolute_from(&root), create: false });
    }
    if !is_valid_subdir(sub.as_str()) {
        return Err(ApiError::BadRequest("invalid X-Workspace-Subdir".to_owned()));
    }
    let ghost root0 = texts(root@);
    let mut start = crate::text::clone_strings(&root);
    let ghost start0 = texts(start@);
    let mut tail = path_parts(sub.as_str());
    let ghost tail0 = texts(tail@);
    start.append(&mut tail);
    assert(texts(start@) =~= start0 + tail0);
    let none: Vec<String> = Vec::new();
    assert(texts(none@) =~= seq![]);
    let base = resolve(none, &start, read_link, 0);
    if !is_prefix(&root, &base.0) {
        return Err(ApiError::BadRequest("subdir escapes workspace".to_owned()));
    }
    Ok(RequestBase { path: absolute_from(&base.0), create: true })
}

impl RequestBase {
    /// The directory to work in, once creating it has come out as `created`:
    /// the message of the failure, or nothing.
    pub fn created(self, failure: Option<&str>) -> (r: Result<String, ApiError>)
        ensures
            crate::text::view_result(r) == match failure {
                Some(e) => if self.create {
                    Err(internal("cannot create workspace subdir: "@ + e@))
                } else {
                    Ok(self.path@)
                },
                None => Ok(self.path@),
            },
    {
        if self.create {
            if let Some(e) = failure {
                return Err(ApiError::Internal(concat2("cannot create workspace subdir: ", e)));
            }
        }
        Ok(self.path)
    }
}

// --- files once they are open ------------------------------------------------

/// The error number with which opening a final symbolic link is refused.
pub const ELOOP: i32 = 40;

/// The path that an open file names, from what the kernel reports of its
/// descriptor: the mark of a file that has been removed is dropped.
pub open spec fn descriptor_path(link: Seq<char>) -> Seq<char> {
    if " (deleted)"@.is_suffix_of(link) {
        link.take(link.len() - " (deleted)"@.len())
    } else {
        link
    }
}

/// The path that an open file names.
pub fn fd_realpath(link: &str) -> (r: String)
    ensures
        r@ == descriptor_path(link@),
{
    match strip_suffix(link, " (deleted)") {
        Some(s) => s,
        None => link.to_owned(),
    }
}

/// The error of a file that could not be opened: a 400 where the final part
/// turned out to be a link, else a 500 with the message.
pub fn open_failed(errno: Option<i32>, message: &str) -> (r: ApiError)
    ensures
        r@ == if errno == Some(ELOOP) {
            bad_request("path resolves to a symlink (refused)"@)
        } else {
            internal("open failed: "@ + message@)
        },
{
    match errno {
        Some(n) => if n == ELOOP {
            ApiError::BadRequest("path resolves to a symlink (refused)".to_owned())
        } else {
            ApiError::Internal(concat2("open failed: ", message))
        },
        None => ApiError::Internal(concat2("open failed: ", message)),
    }
}

/// Confirms that an open file lies in the workspace: `link` is what the kernel
/// reports of its descriptor, if anything.
pub fn confirm_open<F: Fn(&str) -> Option<String>>(
    link: Option<&str>,
    base: &str,
    cwd: &str,
    read_link: &F,
) -> (r: Result<(), ApiError>)
    requires
        forall|p: &str| call_requires(*read_link, (p,)),
    ensures
        link is None ==> r is Err && r->Err_0@ == internal("cannot re-resolve opened fd"@),
        link is Some ==> forall|links: Links| #[trigger]
            answers_as(*read_link, links) ==> match r {
                Ok(_) => is_within(
                    descriptor_path(link->0@),
                    absolute_path(real_parts(base@, cwd@, links)),
                ),
                Err(e) => e@ == bad_request("path escaped workspace"@) && !is_within(
                    descriptor_path(link->0@),
                    absolute_path(real_parts(base@, cwd@, links)),
                ),
            },
{
    match link {
        None => Err(ApiError::Internal("cannot re-resolve opened fd".to_owned())),
        Some(l) => {
            let opened = fd_realpath(l);
            let root = realpath(base, cwd, read_link);
            if within(opened.as_str(), root.as_str()) {
                Ok(())
            } else {
                Err(ApiError::BadRequest("path escaped workspace".to_owned()))
            }
        },
    }
}

// --- what a resolution does --------------------------------------------------

/// A part that is no link and the `..` after it cancel out, wherever they stand;
/// the root is above itself.
pub proof fn law_up_undoes_down(
    done: Seq<Seq<char>>,
    part: Seq<char>,
    rest: Seq<Seq<char>>,
    links: Links,
    hops: nat,
)
    ensures
        part != dotdot() && links(absolute_path(done.push(part))) is None ==> walk(
            done,
            seq![part, dotdot()] + rest,
            links,
            hops,
        ) == walk(done, rest, links, hops),
        walk(seq![], seq![dotdot()] + rest, links, hops) == walk(seq![], rest, links, hops),
{
    let two = seq![part, dotdot()] + rest;
    let one = seq![dotdot()] + rest;
    assert(two.drop_first() =~= one);
    assert(one.drop_first() =~= rest);
    assert(done.push(part).drop_last() =~= done);
    reveal_with_fuel(walk, 3);
}

/// Parts that are neither links nor `..` are gone down one by one.
pub proof fn law_plain_way(
    done: Seq<Seq<char>>,
    todo: Seq<Seq<char>>,
    links: Links,
    hops: nat,
)
    requires
        no_dotdot(todo),
        forall|k: int|
            1 <= k <= todo.len() ==> links(absolute_path(done + #[trigger] todo.take(k))) is None,
    ensures
        walk(done, todo, links, hops) == (done + todo, hops),
{
    lemma_walk_plain(done, todo, links, hops);
}

/// A link is replaced by its target, and the rest of the way goes on from there:
/// an absolute target counts from the root, a relative one from the directory in
/// which the link lies. Each link that is followed is counted.
pub proof fn law_link_followed(
    done: Seq<Seq<char>>,
    part: Seq<char>,
    rest: Seq<Seq<char>>,
    target: Seq<char>,
    links: Links,
    hops: nat,
)
    requires
        part != dotdot(),
        links(absolute_path(done.push(part))) == Some(target),
        hops < SYMLINK_LIMIT,
        no_dotdot(done),
        no_dotdot(parts_of(target)),
    ensures
        is_absolute_text(target) && link_free(parts_of(target), links) ==> walk(
            done,
            seq![part] + rest,
            links,
            hops,
        ) == walk(parts_of(target), rest, links, hops + 1),
        !is_absolute_text(target) && link_free(done + parts_of(target), links) ==> walk(
            done,
            seq![part] + rest,
            links,
            hops,
        ) == walk(done + parts_of(target), rest, links, hops + 1),
{
    let todo = seq![part] + rest;
    assert(todo.drop_first() =~= rest);
    let inner = target_parts(done, target);
    let none = Seq::<Seq<char>>::empty();
    if link_free(inner, links) {
        assert(no_dotdot(inner)) by {
            assert forall|i: int| 0 <= i < inner.len() implies #[trigger] inner[i] != dotdot() by {
                if !is_absolute_text(target) {
                    if i < done.len() {
                        assert(inner[i] == done[i]);
                    } else {
                        assert(inner[i] == parts_of(target)[i - done.len()]);
                    }
                }
            }
        }
        assert forall|k: int| 1 <= k <= inner.len() implies links(
            absolute_path(none + #[trigger] inner.take(k)),
        ) is None by {
            assert(none + inner.take(k) =~= inner.take(k));
        }
        lemma_walk_plain(none, inner, links, hops + 1);
        assert(none + inner =~= inner);
    }
}

/// Forty links are followed in one resolution and no more: the one after that
/// stays where it is.
pub proof fn law_link_limit(
    done: Seq<Seq<char>>,
    part: Seq<char>,
    rest: Seq<Seq<char>>,
    links: Links,
    hops: nat,
)
    requires
        part != dotdot(),
        links(absolute_path(done.push(part))) is Some,
        hops >= 40,
    ensures
        walk(done, seq![part] + rest, links, hops).0 == done.push(part),
{
    let todo = seq![part] + rest;
    assert(todo.drop_first() =~= rest);
}

/// Two texts that decode to the same bytes are the same path.
pub proof fn law_decoded_first(
    a: Seq<char>,
    b: Seq<char>,
    base: Seq<char>,
    cwd: Seq<char>,
    links: Links,
)
    requires
        percent_decoded(encode_utf8(a)) == percent_decoded(encode_utf8(b)),
    ensures
        unquoted(a) == unquoted(b),
        confined(a, base, cwd, links) == confined(b, base, cwd, links),
{
}

/// An absolute path counts from the root, a relative one from the resolved base.
/// Where no link lies on the way, and no `..`, a path is let through as it is
/// exactly where it lies below the base; a relative one always is.
pub proof fn law_paths_honoured(rel: Seq<char>, base: Seq<char>, cwd: Seq<char>, links: Links)
    requires
        no_dotdot(parts_of(unquoted(rel))),
    ensures
        ({
            let root = real_parts(base, cwd, links);
            let parts = parts_of(unquoted(rel));
            &&& is_absolute_text(unquoted(rel)) && link_free(parts, links) ==> match confined(
                rel,
                base,
                cwd,
                links,
            ) {
                Ok(p) => root.is_prefix_of(parts) && p == absolute_path(parts),
                Err(_) => !root.is_prefix_of(parts),
            }
            &&& !is_absolute_text(unquoted(rel)) && link_free(root + parts, links) ==> confined(
                rel,
                base,
                cwd,
                links,
            ) == Ok::<Seq<char>, ErrorView>(absolute_path(root + parts))
        }),
{
    let root = real_parts(base, cwd, links);
    let parts = parts_of(unquoted(rel));
    let none = Seq::<Seq<char>>::empty();
    lemma_real_normal(base, cwd, links);
    if is_absolute_text(unquoted(rel)) {
        if link_free(parts, links) {
            lemma_walk_from_root(parts, links, 0);
        }
    } else if link_free(root + parts, links) {
        assert forall|i: int| 0 <= i < (root + parts).len() implies #[trigger] (root + parts)[i]
            != dotdot() by {
            if i < root.len() {
                assert((root + parts)[i] == root[i]);
            } else {
                assert((root + parts)[i] == parts[i - root.len()]);
            }
        }
        lemma_walk_from_root(root + parts, links, 0);
        assert(root.is_prefix_of(root + parts));
    }
}

proof fn lemma_walk_from_root(parts: Seq<Seq<char>>, links: Links, hops: nat)
    requires
        no_dotdot(parts),
        link_free(parts, links),
    ensures
        walk(seq![], parts, links, hops) == (parts, hops),
{
    let none = Seq::<Seq<char>>::empty();
    assert forall|k: int| 1 <= k <= parts.len() implies links(
        absolute_path(none + #[trigger] parts.take(k)),
    ) is None by {
        assert(none + parts.take(k) =~= parts.take(k));
    }
    lemma_walk_plain(none, parts, links, hops);
    assert(none + parts =~= parts);
}

/// A relative path counts from the working directory.
pub proof fn law_rooted(path: Seq<char>, cwd: Seq<char>)
    ensures
        is_absolute_text(path) ==> rooted_parts(path, cwd) == parts_of(path),
        !is_absolute_text(path) ==> rooted_parts(path, cwd) == parts_of(cwd) + parts_of(path),
{
    crate::path::law_joined(cwd, path);
}

/// A header that is absent or blank means the work directory itself; white space
/// around a name does not count.
pub proof fn law_base_without_name(
    workdir: Seq<char>,
    subdir: Seq<char>,
    cwd: Seq<char>,
    links: Links,
)
    ensures
        ({
            let whole = Ok::<(Seq<char>, bool), ErrorView>(
                (absolute_path(real_parts(workdir, cwd, links)), false),
            );
            &&& base_for(workdir, None, cwd, links) == whole
            &&& (base_for(workdir, Some(subdir), cwd, links) == whole <==> trim_text(subdir).len()
                == 0)
        }),
        trim_text(trim_text(subdir)) == trim_text(subdir) ==> base_for(
            workdir,
            Some(subdir),
            cwd,
            links,
        ) == base_for(workdir, Some(trim_text(subdir)), cwd, links),
{
}

/// A name of one to 64 letters, digits, dots, underscores and hyphens, where no
/// link lies, means the directory of that name below the work directory, which is
/// created where it is missing. Any other name is answered with a 400.
pub proof fn law_base_with_name(
    workdir: Seq<char>,
    subdir: Seq<char>,
    cwd: Seq<char>,
    links: Links,
)
    requires
        trim_text(subdir).len() > 0,
        trim_text(subdir) != seq!['.'],
        trim_text(subdir) != seq!['.', '.'],
    ensures
        ({
            let name = trim_text(subdir);
            let root = real_parts(workdir, cwd, links);
            let fits = name.len() <= 64 && forall|i: int|
                0 <= i < name.len() ==> {
                    ||| 'a' <= #[trigger] name[i] <= 'z'
                    ||| 'A' <= name[i] <= 'Z'
                    ||| '0' <= name[i] <= '9'
                    ||| name[i] == '.'
                    ||| name[i] == '_'
                    ||| name[i] == '-'
                };
            &&& fits && link_free(root.push(name), links) ==> base_for(
                workdir,
                Some(subdir),
                cwd,
                links,
            ) == Ok::<(Seq<char>, bool), ErrorView>((absolute_path(root.push(name)), true))
            &&& !fits ==> base_for(workdir, Some(subdir), cwd, links) == Err::<
                (Seq<char>, bool),
                ErrorView,
            >(bad_request("invalid X-Workspace-Subdir"@))
        }),
{
    let name = trim_text(subdir);
    let root = real_parts(workdir, cwd, links);
    reveal_strlit(".");
    reveal_strlit("..");
    lemma_real_normal(workdir, cwd, links);
    if is_subdir_name(name) && link_free(root.push(name), links) {
        assert(!name.contains('/')) by {
            if name.contains('/') {
                let k = choose|k: int| 0 <= k < name.len() && name[k] == '/';
                assert(is_subdir_char(name[k]));
            }
        }
        assert(dotdot() =~= seq!['.', '.']);
        crate::path::law_one_part(name);
        assert(parts_of(name) == seq![name]);
        assert(root + seq![name] =~= root.push(name));
        assert(no_dotdot(root.push(name)));
        lemma_walk_from_root(root.push(name), links, 0);
        assert(root.is_prefix_of(root.push(name)));
    }
}

/// The name of an open file is what the kernel reports, without the mark of a
/// file that has been removed.
pub proof fn law_removed_mark(path: Seq<char>)
    ensures
        descriptor_path(path + " (deleted)"@) == path,
        !" (deleted)"@.is_suffix_of(path) ==> descriptor_path(path) == path,
{
    let mark = " (deleted)"@;
    let whole = path + mark;
    assert(whole.skip(whole.len() - mark.len()) =~= mark);
    assert(mark.is_suffix_of(whole));
    assert(whole.take(whole.len() - mark.len()) =~= path);
}

} // verus!
