//! Unix paths as text.
//!
//! A path is absolute or relative and has a row of parts: what stands between
//! slashes, without empty parts and without `.`. Repeated and trailing slashes
//! therefore make no difference.

use vstd::prelude::*;

use crate::text::{
    chars_of, concat2, concat3, join_with, lemma_split_no_sep, lemma_split_nonempty, split,
    split_on, str_eq, texts,
};

verus! {

/// The part that names the directory above.
pub open spec fn dotdot() -> Seq<char> {
    seq!['.', '.']
}

/// A piece between slashes that is a part: neither empty nor `.`.
pub open spec fn is_part(p: Seq<char>) -> bool {
    p.len() > 0 && p != seq!['.']
}

/// The parts of a path.
pub open spec fn parts_of(s: Seq<char>) -> Seq<Seq<char>> {
    kept_parts(split_on(s, '/'))
}

/// The pieces that are parts.
pub open spec fn kept_parts(pieces: Seq<Seq<char>>) -> Seq<Seq<char>> {
    pieces.filter(|p: Seq<char>| is_part(p))
}

/// Whether a path starts at the root.
pub open spec fn is_absolute_text(s: Seq<char>) -> bool {
    s.len() > 0 && s[0] == '/'
}

/// The absolute path with the given parts.
pub open spec fn absolute_path(parts: Seq<Seq<char>>) -> Seq<char> {
    seq!['/'] + join_with(parts, seq!['/'])
}

/// The relative path with the given parts.
pub open spec fn relative_path(parts: Seq<Seq<char>>) -> Seq<char> {
    join_with(parts, seq!['/'])
}

/// The path with the given parts, absolute or not.
pub open spec fn path_text(absolute: bool, parts: Seq<Seq<char>>) -> Seq<char> {
    if absolute {
        absolute_path(parts)
    } else {
        relative_path(parts)
    }
}

/// A row of parts as it stands in a path: none is empty, none is `.`, none
/// holds a slash.
pub open spec fn proper_parts(parts: Seq<Seq<char>>) -> bool {
    forall|i: int| 0 <= i < parts.len() ==> is_part(#[trigger] parts[i]) && !parts[i].contains('/')
}

/// `child` is `base` itself or lies under it.
pub open spec fn is_within(child: Seq<char>, base: Seq<char>) -> bool {
    &&& is_absolute_text(child) == is_absolute_text(base)
    &&& parts_of(base).is_prefix_of(parts_of(child))
}

/// `rel` looked at from `base`: `rel` itself when it is absolute, else `rel`
/// put behind `base` with one slash between.
pub open spec fn joined(base: Seq<char>, rel: Seq<char>) -> Seq<char> {
    if is_absolute_text(rel) {
        rel
    } else if base.len() == 0 || base.last() == '/' {
        base + rel
    } else {
        base + seq!['/'] + rel
    }
}

/// The last part of a path, unless that is `..`.
pub open spec fn file_name_of(s: Seq<char>) -> Option<Seq<char>> {
    let parts = parts_of(s);
    if parts.len() == 0 || parts.last() == dotdot() {
        None
    } else {
        Some(parts.last())
    }
}

/// The path without its last part; the root and the empty path have none.
pub open spec fn parent_of(s: Seq<char>) -> Option<Seq<char>> {
    let parts = parts_of(s);
    if parts.len() == 0 {
        None
    } else {
        Some(path_text(is_absolute_text(s), parts.drop_last()))
    }
}

/// `path` as seen from `base`, where it lies under it.
pub open spec fn relative_of(path: Seq<char>, base: Seq<char>) -> Option<Seq<char>> {
    if is_within(path, base) {
        Some(relative_path(parts_of(path).skip(parts_of(base).len() as int)))
    } else {
        None
    }
}

// --- lemmas ------------------------------------------------------------------

/// The parts of any path are proper.
pub proof fn lemma_parts_proper(s: Seq<char>)
    ensures
        proper_parts(parts_of(s)),
{
    let all = split_on(s, '/');
    let keep = |p: Seq<char>| is_part(p);
    lemma_split_no_sep(s, '/');
    lemma_filter_no_slash(all);
    assert forall|i: int| 0 <= i < parts_of(s).len() implies is_part(#[trigger] parts_of(s)[i])
        && !parts_of(s)[i].contains('/') by {
        all.lemma_filter_pred(keep, i);
    }
}

proof fn lemma_filter_no_slash(all: Seq<Seq<char>>)
    requires
        forall|i: int| 0 <= i < all.len() ==> !(#[trigger] all[i]).contains('/'),
    ensures
        forall|i: int|
            0 <= i < kept_parts(all).len() ==> !(#[trigger] kept_parts(all)[i]).contains('/'),
    decreases all.len(),
{
    reveal(Seq::filter);
    if all.len() > 0 {
        assert forall|i: int| 0 <= i < all.drop_last().len() implies !(
        #[trigger] all.drop_last()[i]).contains('/') by {
            assert(!all[i].contains('/'));
        }
        lemma_filter_no_slash(all.drop_last());
        assert(!all[all.len() - 1].contains('/'));
        let head = kept_parts(all.drop_last());
        assert(kept_parts(all) == if is_part(all.last()) {
            head.push(all.last())
        } else {
            head
        });
        assert forall|i: int| 0 <= i < kept_parts(all).len() implies !(#[trigger] kept_parts(
            all,
        )[i]).contains('/') by {
            if i < head.len() {
                assert(!head[i].contains('/'));
            }
        }
    }
}

/// Splitting a text, a separator and a text without separators in a row.
pub proof fn lemma_split_append(s: Seq<char>, t: Seq<char>, sep: char)
    requires
        !t.contains(sep),
    ensures
        split_on(s + seq![sep] + t, sep) == split_on(s, sep).push(t),
    decreases t.len(),
{
    let whole = s + seq![sep] + t;
    if t.len() == 0 {
        assert(whole.drop_last() =~= s);
        assert(whole.last() == sep);
        assert(t =~= Seq::<char>::empty());
    } else {
        assert(whole.drop_last() =~= s + seq![sep] + t.drop_last());
        assert(!t.drop_last().contains(sep)) by {
            if t.drop_last().contains(sep) {
                let k = choose|k: int| 0 <= k < t.drop_last().len() && t.drop_last()[k] == sep;
                assert(t[k] == sep);
            }
        }
        lemma_split_append(s, t.drop_last(), sep);
        assert(t[t.len() - 1] != sep);
        assert(whole.last() == t.last());
        let rest = split_on(whole.drop_last(), sep);
        assert(rest == split_on(s, sep).push(t.drop_last()));
        assert(rest.drop_last() =~= split_on(s, sep));
        assert(t.drop_last().push(t.last()) =~= t);
    }
}

/// Splitting a text without separators gives the text.
pub proof fn lemma_split_plain(t: Seq<char>, sep: char)
    requires
        !t.contains(sep),
    ensures
        split_on(t, sep) == seq![t],
    decreases t.len(),
{
    if t.len() == 0 {
        assert(t =~= Seq::<char>::empty());
    } else {
        assert(!t.drop_last().contains(sep)) by {
            if t.drop_last().contains(sep) {
                let k = choose|k: int| 0 <= k < t.drop_last().len() && t.drop_last()[k] == sep;
                assert(t[k] == sep);
            }
        }
        lemma_split_plain(t.drop_last(), sep);
        assert(t[t.len() - 1] != sep);
        assert(t.drop_last().push(t.last()) =~= t);
        assert(split_on(t, sep) =~= seq![t]);
    }
}

/// Splitting a join of texts without separators gives the texts back.
pub proof fn lemma_split_of_join(parts: Seq<Seq<char>>, sep: char)
    requires
        parts.len() >= 1,
        forall|i: int| 0 <= i < parts.len() ==> !(#[trigger] parts[i]).contains(sep),
    ensures
        split_on(join_with(parts, seq![sep]), sep) == parts,
    decreases parts.len(),
{
    if parts.len() == 1 {
        assert(!parts[0].contains(sep));
        lemma_split_plain(parts[0], sep);
        assert(parts =~= seq![parts[0]]);
    } else {
        assert forall|i: int| 0 <= i < parts.drop_last().len() implies !(
        #[trigger] parts.drop_last()[i]).contains(sep) by {
            assert(!parts[i].contains(sep));
        }
        lemma_split_of_join(parts.drop_last(), sep);
        assert(!parts[parts.len() - 1].contains(sep));
        lemma_split_append(join_with(parts.drop_last(), seq![sep]), parts.last(), sep);
        assert(parts.drop_last().push(parts.last()) =~= parts);
    }
}

proof fn lemma_filter_all(parts: Seq<Seq<char>>)
    requires
        proper_parts(parts),
    ensures
        parts.filter(|p: Seq<char>| is_part(p)) == parts,
    decreases parts.len(),
{
    reveal(Seq::filter);
    if parts.len() > 0 {
        assert forall|i: int| 0 <= i < parts.drop_last().len() implies is_part(
            #[trigger] parts.drop_last()[i],
        ) && !parts.drop_last()[i].contains('/') by {
            assert(is_part(parts[i]));
        }
        lemma_filter_all(parts.drop_last());
        assert(is_part(parts[parts.len() - 1]));
        assert(parts.drop_last().push(parts.last()) =~= parts);
    }
}

/// The parts of a relative path written from proper parts are those parts.
pub proof fn lemma_parts_of_relative(parts: Seq<Seq<char>>)
    requires
        proper_parts(parts),
    ensures
        parts_of(relative_path(parts)) == parts,
        !is_absolute_text(relative_path(parts)),
{
    lemma_filter_all(parts);
    if parts.len() == 0 {
        reveal(Seq::filter);
        let e = Seq::<char>::empty();
        assert(relative_path(parts) =~= e);
        assert(split_on(e, '/') =~= seq![e]);
        assert(seq![e].drop_last() =~= Seq::<Seq<char>>::empty());
        assert(seq![e].drop_last().filter(|p: Seq<char>| is_part(p)) =~= Seq::<Seq<char>>::empty());
        assert(parts_of(relative_path(parts)) =~= parts);
    } else {
        assert forall|i: int| 0 <= i < parts.len() implies !(#[trigger] parts[i]).contains('/') by {
            assert(is_part(parts[i]) && !parts[i].contains('/'));
        }
        lemma_split_of_join(parts, '/');
        lemma_join_first(parts);
    }
}

proof fn lemma_join_first(parts: Seq<Seq<char>>)
    requires
        proper_parts(parts),
        parts.len() > 0,
    ensures
        join_with(parts, seq!['/']).len() > 0,
        join_with(parts, seq!['/'])[0] == parts[0][0],
        parts[0][0] != '/',
    decreases parts.len(),
{
    assert(is_part(parts[0]) && !parts[0].contains('/'));
    assert(parts[0][0] != '/') by {
        if parts[0][0] == '/' {
            assert(parts[0].contains('/'));
        }
    }
    if parts.len() > 1 {
        assert forall|i: int| 0 <= i < parts.drop_last().len() implies is_part(
            #[trigger] parts.drop_last()[i],
        ) && !parts.drop_last()[i].contains('/') by {
            assert(is_part(parts[i]) && !parts[i].contains('/'));
        }
        lemma_join_first(parts.drop_last());
    }
}

/// The pieces of `/` followed by `t` are an empty piece and those of `t`.
pub proof fn lemma_split_leading(t: Seq<char>, sep: char)
    ensures
        split_on(seq![sep] + t, sep) == seq![Seq::<char>::empty()] + split_on(t, sep),
    decreases t.len(),
{
    let whole = seq![sep] + t;
    let e = Seq::<char>::empty();
    if t.len() == 0 {
        assert(whole.drop_last() =~= e);
        assert(split_on(e, sep) =~= seq![e]);
        assert(split_on(t, sep) =~= seq![e]);
        assert(split_on(whole, sep) =~= seq![e] + seq![e]);
    } else {
        assert(whole.drop_last() =~= seq![sep] + t.drop_last());
        lemma_split_leading(t.drop_last(), sep);
        lemma_split_nonempty(t.drop_last(), sep);
        let rest = split_on(t.drop_last(), sep);
        assert((seq![e] + rest).drop_last() =~= seq![e] + rest.drop_last());
        assert((seq![e] + rest).last() == rest.last());
        assert(whole.last() == t.last());
        assert(split_on(whole, sep) =~= seq![e] + split_on(t, sep));
    }
}

/// A slash in front changes no parts.
pub proof fn lemma_parts_leading_slash(t: Seq<char>)
    ensures
        parts_of(seq!['/'] + t) == parts_of(t),
{
    lemma_split_leading(t, '/');
    let e = Seq::<char>::empty();
    let keep = |p: Seq<char>| is_part(p);
    Seq::<Seq<char>>::filter_distributes_over_add(seq![e], split_on(t, '/'), keep);
    reveal(Seq::filter);
    assert(seq![e].drop_last() =~= Seq::<Seq<char>>::empty());
    assert(seq![e].drop_last().filter(keep) =~= Seq::<Seq<char>>::empty());
    assert(seq![e].filter(keep) =~= Seq::<Seq<char>>::empty());
    assert(parts_of(seq!['/'] + t) =~= parts_of(t));
}

/// The parts of an absolute path written from proper parts are those parts.
pub proof fn lemma_parts_of_absolute(parts: Seq<Seq<char>>)
    requires
        proper_parts(parts),
    ensures
        parts_of(absolute_path(parts)) == parts,
        is_absolute_text(absolute_path(parts)),
{
    lemma_parts_of_relative(parts);
    lemma_parts_leading_slash(relative_path(parts));
}

/// A path lies under itself, and "lies under" is transitive.
pub proof fn law_within_order(a: Seq<char>, b: Seq<char>, c: Seq<char>)
    ensures
        is_within(a, a),
        is_within(a, b) && is_within(b, c) ==> is_within(a, c),
{
    assert(parts_of(a).is_prefix_of(parts_of(a))) by {
        assert(parts_of(a).take(parts_of(a).len() as int) =~= parts_of(a));
    }
    if is_within(a, b) && is_within(b, c) {
        let (x, y, z) = (parts_of(a), parts_of(b), parts_of(c));
        assert(z =~= y.take(z.len() as int));
        assert(y =~= x.take(y.len() as int));
        assert(z =~= x.take(z.len() as int));
    }
}

/// What stands under a base is the base joined with its relative path, which is
/// not absolute.
pub proof fn law_relative_joins(path: Seq<char>, base: Seq<char>)
    requires
        is_within(path, base),
    ensures
        !is_absolute_text(relative_of(path, base)->0),
        parts_of(base) + parts_of(relative_of(path, base)->0) == parts_of(path),
{
    lemma_parts_proper(path);
    let n = parts_of(base).len() as int;
    let tail = parts_of(path).skip(n);
    assert forall|i: int| 0 <= i < tail.len() implies is_part(#[trigger] tail[i])
        && !tail[i].contains('/') by {
        assert(is_part(parts_of(path)[n + i]) && !parts_of(path)[n + i].contains('/'));
    }
    lemma_parts_of_relative(tail);
    assert(parts_of(base) =~= parts_of(path).take(n));
    assert(parts_of(base) + tail =~= parts_of(path));
}

// --- executable --------------------------------------------------------------

/// Whether `p` is a part.
fn keeps(p: &str) -> (r: bool)
    ensures
        r == is_part(p@),
{
    proof {
        reveal_strlit(".");
        assert("."@ =~= seq!['.']);
    }
    !p.is_empty() && !str_eq(p, ".")
}

/// The parts of a path.
pub fn path_parts(s: &str) -> (r: Vec<String>)
    ensures
        texts(r@) == parts_of(s@),
        proper_parts(texts(r@)),
{
    let pieces = split(s, '/');
    let ghost all = split_on(s@, '/');
    let mut r: Vec<String> = Vec::new();
    let mut i: usize = 0;
    proof {
        reveal(Seq::filter);
        assert(texts(r@) =~= all.take(0).filter(|p: Seq<char>| is_part(p)));
    }
    while i < pieces.len()
        invariant
            i <= pieces.len(),
            all == texts(pieces@),
            texts(r@) == all.take(i as int).filter(|p: Seq<char>| is_part(p)),
        decreases pieces.len() - i,
    {
        let ghost r0 = texts(r@);
        proof {
            assert(all[i as int] == pieces@[i as int]@);
            assert(all.take(i as int + 1) =~= all.take(i as int).push(all[i as int]));
            all.take(i as int).lemma_filter_push(all[i as int], |p: Seq<char>| is_part(p));
        }
        if keeps(pieces[i].as_str()) {
            r.push(pieces[i].clone());
            assert(texts(r@) =~= r0.push(all[i as int]));
        }
        i += 1;
    }
    proof {
        assert(all.take(all.len() as int) =~= all);
        lemma_parts_proper(s@);
    }
    r
}

/// Whether a path starts at the root.
pub fn is_absolute(s: &str) -> (r: bool)
    ensures
        r == is_absolute_text(s@),
{
    let cs = chars_of(s);
    cs.len() > 0 && cs[0] == '/'
}

/// The absolute path with the given parts.
pub fn absolute_from(parts: &Vec<String>) -> (r: String)
    ensures
        r@ == absolute_path(texts(parts@)),
{
    proof {
        reveal_strlit("/");
        assert("/"@ =~= seq!['/']);
    }
    let tail = crate::text::join(parts, "/");
    concat2("/", tail.as_str())
}

/// The path with the given parts, absolute or not.
pub fn path_from(absolute: bool, parts: &Vec<String>) -> (r: String)
    ensures
        r@ == path_text(absolute, texts(parts@)),
{
    if absolute {
        absolute_from(parts)
    } else {
        proof {
            reveal_strlit("/");
            assert("/"@ =~= seq!['/']);
        }
        crate::text::join(parts, "/")
    }
}

/// Whether the texts of `p` are the first texts of `s`.
pub fn is_prefix(p: &Vec<String>, s: &Vec<String>) -> (r: bool)
    ensures
        r == texts(p@).is_prefix_of(texts(s@)),
{
    if p.len() > s.len() {
        return false;
    }
    let mut i: usize = 0;
    while i < p.len()
        invariant
            i <= p.len() <= s.len(),
            forall|k: int| 0 <= k < i ==> #[trigger] texts(p@)[k] == texts(s@)[k],
        decreases p.len() - i,
    {
        assert(texts(p@)[i as int] == p@[i as int]@);
        assert(texts(s@)[i as int] == s@[i as int]@);
        if !str_eq(p[i].as_str(), s[i].as_str()) {
            assert(texts(s@).take(p@.len() as int)[i as int] != texts(p@)[i as int]);
            return false;
        }
        i += 1;
    }
    assert(texts(p@) =~= texts(s@).take(p@.len() as int));
    true
}

/// `rel` looked at from `base`.
pub fn join_path(base: &str, rel: &str) -> (r: String)
    ensures
        r@ == joined(base@, rel@),
{
    if is_absolute(rel) {
        return rel.to_owned();
    }
    let b = chars_of(base);
    if b.len() == 0 || b[b.len() - 1] == '/' {
        concat2(base, rel)
    } else {
        proof {
            reveal_strlit("/");
            assert("/"@ =~= seq!['/']);
        }
        concat3(base, "/", rel)
    }
}

/// Whether the text is `..`.
pub fn is_dotdot(p: &str) -> (r: bool)
    ensures
        r == (p@ == dotdot()),
{
    proof {
        reveal_strlit("..");
        assert(".."@ =~= dotdot());
    }
    str_eq(p, "..")
}

/// The last part of a path, unless that is `..`.
pub fn file_name(s: &str) -> (r: Option<String>)
    ensures
        crate::text::opt_text(r) == file_name_of(s@),
{
    let parts = path_parts(s);
    assert(texts(parts@).len() == parts@.len());
    if parts.len() == 0 {
        return None;
    }
    let last = &parts[parts.len() - 1];
    assert(texts(parts@).last() == last@);
    if is_dotdot(last.as_str()) {
        None
    } else {
        Some(last.clone())
    }
}

/// The path without its last part.
pub fn parent(s: &str) -> (r: Option<String>)
    ensures
        crate::text::opt_text(r) == parent_of(s@),
{
    let mut parts = path_parts(s);
    assert(texts(parts@).len() == parts@.len());
    if parts.len() == 0 {
        return None;
    }
    let ghost all = texts(parts@);
    let _last = parts.pop();
    assert(texts(parts@) =~= all.drop_last());
    Some(path_from(is_absolute(s), &parts))
}

/// `path` as seen from `base`, where it lies under it.
pub fn relative_to(path: &str, base: &str) -> (r: Option<String>)
    ensures
        crate::text::opt_text(r) == relative_of(path@, base@),
{
    let b = path_parts(base);
    let mut p = path_parts(path);
    if is_absolute(path) != is_absolute(base) || !is_prefix(&b, &p) {
        return None;
    }
    assert(texts(p@).len() == p@.len() && texts(b@).len() == b@.len());
    let ghost all = texts(p@);
    let tail = p.split_off(b.len());
    assert(texts(tail@) =~= all.skip(b@.len() as int));
    Some(path_from(false, &tail))
}

// --- what paths mean ---------------------------------------------------------

proof fn lemma_split_two(a: Seq<char>, b: Seq<char>, sep: char)
    ensures
        split_on(a + seq![sep] + b, sep) == split_on(a, sep) + split_on(b, sep),
    decreases b.len(),
{
    let s = a + seq![sep] + b;
    if b.len() == 0 {
        assert(s.drop_last() =~= a);
        assert(split_on(s, sep) =~= split_on(a, sep) + split_on(b, sep));
    } else {
        lemma_split_two(a, b.drop_last(), sep);
        lemma_split_nonempty(b.drop_last(), sep);
        assert(s.drop_last() =~= a + seq![sep] + b.drop_last());
        assert(s.last() == b.last());
        assert(split_on(s, sep) =~= split_on(a, sep) + split_on(b, sep));
    }
}

proof fn lemma_kept_append(x: Seq<Seq<char>>, y: Seq<Seq<char>>)
    ensures
        kept_parts(x + y) == kept_parts(x) + kept_parts(y),
    decreases y.len(),
{
    let f = |p: Seq<char>| is_part(p);
    reveal(Seq::filter);
    if y.len() == 0 {
        assert(x + y =~= x);
        assert(kept_parts(x) + kept_parts(y) =~= kept_parts(x));
    } else {
        lemma_kept_append(x, y.drop_last());
        assert((x + y).drop_last() =~= x + y.drop_last());
        assert((x + y).last() == y.last());
        assert(kept_parts(x + y) =~= kept_parts(x) + kept_parts(y));
    }
}

/// The parts of two texts with a slash between them are the parts of the one and
/// then those of the other.
pub proof fn law_parts_add_up(a: Seq<char>, b: Seq<char>)
    ensures
        parts_of(a + seq!['/'] + b) == parts_of(a) + parts_of(b),
{
    lemma_split_two(a, b, '/');
    lemma_kept_append(split_on(a, '/'), split_on(b, '/'));
}

/// A text without a slash is one part, unless it is empty or `.`, which is none.
pub proof fn law_one_part(p: Seq<char>)
    requires
        !p.contains('/'),
    ensures
        parts_of(p) == if p.len() == 0 || p == seq!['.'] {
            Seq::<Seq<char>>::empty()
        } else {
            seq![p]
        },
{
    lemma_split_plain(p, '/');
    reveal(Seq::filter);
    let one = seq![p];
    assert(one.drop_last() =~= Seq::<Seq<char>>::empty());
    assert(one.drop_last().filter(|p: Seq<char>| is_part(p)) =~= Seq::<Seq<char>>::empty());
    assert(parts_of(p) =~= if p.len() == 0 || p == seq!['.'] {
        Seq::<Seq<char>>::empty()
    } else {
        seq![p]
    });
}

/// A relative path that is looked at from a base has the parts of both, and starts
/// where the base starts; an absolute path stays as it is.
pub proof fn law_joined(base: Seq<char>, rel: Seq<char>)
    ensures
        is_absolute_text(rel) ==> joined(base, rel) == rel,
        !is_absolute_text(rel) ==> parts_of(joined(base, rel)) == parts_of(base) + parts_of(rel),
        !is_absolute_text(rel) ==> is_absolute_text(joined(base, rel)) == is_absolute_text(base),
{
    if !is_absolute_text(rel) {
        if base.len() == 0 {
            assert(joined(base, rel) =~= rel);
            law_one_part(base);
            assert(parts_of(base) + parts_of(rel) =~= parts_of(rel));
        } else if base.last() == '/' {
            let b = base.drop_last();
            let none = Seq::<char>::empty();
            assert(base =~= b + seq!['/'] + none);
            assert(joined(base, rel) =~= b + seq!['/'] + rel);
            law_parts_add_up(b, none);
            law_parts_add_up(b, rel);
            law_one_part(none);
            assert(parts_of(b) + parts_of(none) =~= parts_of(b));
        } else {
            law_parts_add_up(base, rel);
        }
    }
}

/// What stands in a directory under a name has that name, and that directory above
/// it.
pub proof fn law_name_and_parent(dir: Seq<char>, name: Seq<char>)
    requires
        is_part(name),
        !name.contains('/'),
    ensures
        file_name_of(joined(dir, name)) == if name == dotdot() {
            None::<Seq<char>>
        } else {
            Some(name)
        },
        parent_of(joined(dir, name)) is Some,
        parts_of(parent_of(joined(dir, name))->0) == parts_of(dir),
        is_absolute_text(parent_of(joined(dir, name))->0) == is_absolute_text(dir),
{
    assert(!is_absolute_text(name)) by {
        if is_absolute_text(name) {
            assert(name.contains(name[0]));
        }
    }
    law_joined(dir, name);
    law_one_part(name);
    let all = parts_of(joined(dir, name));
    assert(all =~= parts_of(dir).push(name));
    assert(all.drop_last() =~= parts_of(dir));
    lemma_parts_proper(dir);
    lemma_parts_of_absolute(parts_of(dir));
    lemma_parts_of_relative(parts_of(dir));
}

/// A path without parts has no name and nothing above it.
pub proof fn law_no_name(s: Seq<char>)
    requires
        parts_of(s).len() == 0,
    ensures
        file_name_of(s) is None,
        parent_of(s) is None,
{
}

/// What a relative path leads to from a base lies under the base, and is that path
/// as seen from there.
pub proof fn law_seen_from(base: Seq<char>, parts: Seq<Seq<char>>)
    requires
        proper_parts(parts),
    ensures
        is_within(joined(base, relative_path(parts)), base),
        relative_of(joined(base, relative_path(parts)), base) == Some(relative_path(parts)),
{
    let rel = relative_path(parts);
    lemma_parts_of_relative(parts);
    law_joined(base, rel);
    let all = parts_of(base) + parts;
    assert(all.take(parts_of(base).len() as int) =~= parts_of(base));
    assert(all.skip(parts_of(base).len() as int) =~= parts);
}

/// The way up is two dots. It is a part, as any piece is but the empty one and the
/// single dot. A path is absolute exactly where a slash leads it.
pub proof fn law_pieces(p: Seq<char>)
    ensures
        dotdot() == seq!['.', '.'],
        is_part(dotdot()),
        is_part(p) <==> !(p.len() == 0 || (p.len() == 1 && p[0] == '.')),
        is_absolute_text(seq!['/'] + p),
        p.len() > 0 && p[0] != '/' ==> !is_absolute_text(p),
        !is_absolute_text(seq![]),
{
    if p.len() == 1 && p[0] == '.' {
        assert(p =~= seq!['.']);
    }
    assert(dotdot().len() == 2);
    assert((seq!['/'] + p)[0] == '/');
}

} // verus!
