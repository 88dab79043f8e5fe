//! Text primitives over character sequences.
//!
//! A string is seen as its sequence of characters (`s@`); every function here
//! says what it does to that sequence.

use vstd::prelude::*;
use vstd::utf8::encode_utf8;

verus! {

/// `String::push` appends one character at the end of the string.
pub assume_specification[ String::push ](s: &mut String, c: char)
    ensures
        final(s)@ == old(s)@.push(c),
;

/// The character sequences of a sequence of strings.
pub open spec fn texts(v: Seq<String>) -> Seq<Seq<char>> {
    v.map_values(|s: String| s@)
}

/// The text of an optional string.
pub open spec fn opt_text(o: Option<String>) -> Option<Seq<char>> {
    match o {
        Some(s) => Some(s@),
        None => None,
    }
}

/// The text of an optional string slice.
pub open spec fn opt_str(o: Option<&str>) -> Option<Seq<char>> {
    match o {
        Some(s) => Some(s@),
        None => None,
    }
}

/// A result seen through the views of its two sides.
pub open spec fn view_result<T: View, E: View>(r: Result<T, E>) -> Result<T::V, E::V> {
    match r {
        Ok(v) => Ok(v@),
        Err(e) => Err(e@),
    }
}

/// The characters of `s`, in order.
pub fn chars_of(s: &str) -> (r: Vec<char>)
    ensures
        r@ == s@,
{
    let mut r: Vec<char> = Vec::new();
    for c in it: s.chars()
        invariant
            r@ == it.seq().take(it.index()),
            it.seq() == s@,
    {
        r.push(c);
    }
    r
}

/// The string made of the characters of `v`.
pub fn string_of(v: &[char]) -> (r: String)
    ensures
        r@ == v@,
{
    let mut r: String = String::new();
    let mut i: usize = 0;
    while i < v.len()
        invariant
            i <= v.len(),
            r@ == v@.take(i as int),
        decreases v.len() - i,
    {
        r.push(v[i]);
        i += 1;
    }
    r
}

/// The string made of the characters of `v` from `i` up to `j`.
pub fn string_between(v: &[char], i: usize, j: usize) -> (r: String)
    requires
        i <= j <= v@.len(),
    ensures
        r@ == v@.subrange(i as int, j as int),
{
    let mut r: String = String::new();
    let mut k: usize = i;
    while k < j
        invariant
            i <= k <= j <= v@.len(),
            r@ == v@.subrange(i as int, k as int),
        decreases j - k,
    {
        r.push(v[k]);
        k += 1;
    }
    r
}

/// Two strings with the same bytes have the same characters.
pub proof fn lemma_same_bytes(a: Seq<char>, b: Seq<char>)
    requires
        encode_utf8(a) == encode_utf8(b),
    ensures
        a == b,
{
    vstd::utf8::encode_utf8_decode_utf8(a);
    vstd::utf8::encode_utf8_decode_utf8(b);
}

/// Whether two byte strings are equal.
pub fn bytes_eq(a: &[u8], b: &[u8]) -> (r: bool)
    ensures
        r == (a@ == b@),
{
    if a.len() != b.len() {
        return false;
    }
    let mut i: usize = 0;
    while i < a.len()
        invariant
            i <= a.len(),
            a.len() == b.len(),
            forall|k: int| 0 <= k < i ==> a@[k] == b@[k],
        decreases a.len() - i,
    {
        if a[i] != b[i] {
            return false;
        }
        i += 1;
    }
    assert(a@ =~= b@);
    true
}

/// Whether two strings hold the same text.
pub fn str_eq(a: &str, b: &str) -> (r: bool)
    ensures
        r == (a@ == b@),
{
    let r = bytes_eq(a.as_bytes(), b.as_bytes());
    proof {
        if r {
            lemma_same_bytes(a@, b@);
        }
    }
    r
}

/// Whether `needle` is one of the strings of `list`.
pub fn str_in(needle: &str, list: &[&str]) -> (r: bool)
    ensures
        r == exists|i: int| 0 <= i < list@.len() && #[trigger] list@[i]@ == needle@,
{
    let mut i: usize = 0;
    while i < list.len()
        invariant
            i <= list.len(),
            forall|k: int| 0 <= k < i ==> #[trigger] list@[k]@ != needle@,
        decreases list.len() - i,
    {
        if str_eq(list[i], needle) {
            return true;
        }
        i += 1;
    }
    false
}

/// A copy of `v` with the same texts.
pub fn clone_strings(v: &Vec<String>) -> (r: Vec<String>)
    ensures
        texts(r@) == texts(v@),
{
    let mut r: Vec<String> = Vec::new();
    let mut i: usize = 0;
    while i < v.len()
        invariant
            i <= v.len(),
            texts(r@) == texts(v@).take(i as int),
        decreases v.len() - i,
    {
        let ghost before = r@;
        r.push(v[i].clone());
        assert(texts(r@) =~= texts(before).push(v@[i as int]@));
        assert(texts(v@).take(i as int + 1) =~= texts(v@).take(i as int).push(v@[i as int]@));
        i += 1;
    }
    assert(texts(v@).take(v@.len() as int) =~= texts(v@));
    r
}

// --- concatenation -----------------------------------------------------------

/// All texts of `parts`, one after the other.
pub open spec fn concat_texts(parts: Seq<Seq<char>>) -> Seq<char>
    decreases parts.len(),
{
    if parts.len() == 0 {
        seq![]
    } else {
        concat_texts(parts.drop_last()) + parts.last()
    }
}

/// Appending one more part appends its text.
pub proof fn lemma_concat_push(parts: Seq<Seq<char>>, p: Seq<char>)
    ensures
        concat_texts(parts.push(p)) == concat_texts(parts) + p,
{
    assert(parts.push(p).drop_last() =~= parts);
}

/// The string that holds all of `parts`, one after the other.
pub fn concat_strs(parts: &[&str]) -> (r: String)
    ensures
        r@ == concat_texts(parts@.map_values(|s: &str| s@)),
{
    let mut r: String = String::new();
    let mut i: usize = 0;
    let ghost views = parts@.map_values(|s: &str| s@);
    while i < parts.len()
        invariant
            i <= parts.len(),
            views == parts@.map_values(|s: &str| s@),
            r@ == concat_texts(views.take(i as int)),
        decreases parts.len() - i,
    {
        r.append(parts[i]);
        proof {
            assert(views.take(i as int + 1) =~= views.take(i as int).push(parts@[i as int]@));
            lemma_concat_push(views.take(i as int), parts@[i as int]@);
        }
        i += 1;
    }
    assert(views.take(parts@.len() as int) =~= views);
    r
}

/// `a` followed by `b`.
pub fn concat2(a: &str, b: &str) -> (r: String)
    ensures
        r@ == a@ + b@,
{
    let mut r: String = a.to_owned();
    r.append(b);
    r
}

/// `a`, `b` and `c` in a row.
pub fn concat3(a: &str, b: &str, c: &str) -> (r: String)
    ensures
        r@ == a@ + b@ + c@,
{
    let mut r: String = a.to_owned();
    r.append(b);
    r.append(c);
    r
}

// --- splitting and joining ---------------------------------------------------

/// The pieces of `s` between occurrences of `sep`; there is one more piece
/// than there are separators.
pub open spec fn split_on(s: Seq<char>, sep: char) -> Seq<Seq<char>>
    decreases s.len(),
{
    if s.len() == 0 {
        seq![Seq::<char>::empty()]
    } else {
        let rest = split_on(s.drop_last(), sep);
        if s.last() == sep {
            rest.push(Seq::<char>::empty())
        } else {
            rest.drop_last().push(rest.last().push(s.last()))
        }
    }
}

/// There is always at least one piece.
pub proof fn lemma_split_nonempty(s: Seq<char>, sep: char)
    ensures
        split_on(s, sep).len() >= 1,
    decreases s.len(),
{
    if s.len() > 0 {
        lemma_split_nonempty(s.drop_last(), sep);
    }
}

/// No piece holds the separator.
pub proof fn lemma_split_no_sep(s: Seq<char>, sep: char)
    ensures
        forall|i: int| 0 <= i < split_on(s, sep).len() ==> !(#[trigger] split_on(s, sep)[i]).contains(sep),
    decreases s.len(),
{
    if s.len() > 0 {
        lemma_split_nonempty(s.drop_last(), sep);
        lemma_split_no_sep(s.drop_last(), sep);
        let rest = split_on(s.drop_last(), sep);
        assert forall|i: int| 0 <= i < split_on(s, sep).len() implies !(#[trigger] split_on(s, sep)[i]).contains(sep) by {
            if s.last() != sep && i == rest.len() - 1 {
                assert(!rest[i].contains(sep));
                let p = rest.last().push(s.last());
                assert(split_on(s, sep)[i] == p);
                if p.contains(sep) {
                    let k = choose|k: int| 0 <= k < p.len() && p[k] == sep;
                    assert(k < p.len() - 1);
                    assert(rest[i][k] == sep);
                }
            } else if i < rest.len() {
                assert(!rest[i].contains(sep));
                assert(split_on(s, sep)[i] == rest[i]);
            } else {
                assert(split_on(s, sep)[i] == Seq::<char>::empty());
            }
        }
    }
}

/// The pieces of `s` between occurrences of `sep`.
pub fn split(s: &str, sep: char) -> (r: Vec<String>)
    ensures
        texts(r@) == split_on(s@, sep),
{
    let cs = chars_of(s);
    let mut r: Vec<String> = Vec::new();
    let mut cur: String = String::new();
    let mut i: usize = 0;
    assert(texts(r@).push(cur@) =~= seq![Seq::<char>::empty()]);
    assert(cs@.take(0).len() == 0);
    while i < cs.len()
        invariant
            i <= cs.len(),
            cs@ == s@,
            texts(r@).push(cur@) == split_on(cs@.take(i as int), sep),
        decreases cs.len() - i,
    {
        let c = cs[i];
        proof {
            assert(cs@.take(i as int + 1).drop_last() =~= cs@.take(i as int));
            assert(cs@.take(i as int + 1).last() == c);
        }
        let ghost before = split_on(cs@.take(i as int), sep);
        let ghost r0 = r@;
        let ghost cur0 = cur@;
        assert(before.drop_last() =~= texts(r0));
        assert(before.last() == cur0);
        if c == sep {
            r.push(cur);
            cur = String::new();
            assert(texts(r@) =~= texts(r0).push(cur0));
        } else {
            cur.push(c);
        }
        i += 1;
        assert(texts(r@).push(cur@) =~= split_on(cs@.take(i as int), sep));
    }
    assert(cs@.take(cs@.len() as int) =~= cs@);
    let ghost r0 = r@;
    let ghost cur0 = cur@;
    r.push(cur);
    assert(texts(r@) =~= texts(r0).push(cur0));
    r
}

/// The texts of `parts` with `sep` between them.
pub open spec fn join_with(parts: Seq<Seq<char>>, sep: Seq<char>) -> Seq<char>
    decreases parts.len(),
{
    if parts.len() == 0 {
        seq![]
    } else if parts.len() == 1 {
        parts[0]
    } else {
        join_with(parts.drop_last(), sep) + sep + parts.last()
    }
}

/// One more part at the end of a join.
pub proof fn lemma_join_push(parts: Seq<Seq<char>>, p: Seq<char>, sep: Seq<char>)
    ensures
        join_with(parts.push(p), sep) == if parts.len() == 0 {
            p
        } else {
            join_with(parts, sep) + sep + p
        },
{
    assert(parts.push(p).drop_last() =~= parts);
}

/// The strings of `parts` with `sep` between them.
pub fn join(parts: &Vec<String>, sep: &str) -> (r: String)
    ensures
        r@ == join_with(texts(parts@), sep@),
{
    let mut r: String = String::new();
    let mut i: usize = 0;
    let ghost views = texts(parts@);
    while i < parts.len()
        invariant
            i <= parts.len(),
            views == texts(parts@),
            r@ == join_with(views.take(i as int), sep@),
        decreases parts.len() - i,
    {
        if i > 0 {
            r.append(sep);
        }
        r.append(parts[i].as_str());
        proof {
            assert(views.take(i as int + 1) =~= views.take(i as int).push(parts@[i as int]@));
            lemma_join_push(views.take(i as int), parts@[i as int]@, sep@);
            if i == 0 {
                assert(views.take(0).len() == 0);
                assert(r@ =~= parts@[0]@);
            }
        }
        i += 1;
    }
    assert(views.take(parts@.len() as int) =~= views);
    r
}

/// Joining the pieces of a split with the separator gives the text back.
pub proof fn law_split_join(s: Seq<char>, sep: char)
    ensures
        join_with(split_on(s, sep), seq![sep]) == s,
    decreases s.len(),
{
    if s.len() > 0 {
        let rest = split_on(s.drop_last(), sep);
        lemma_split_nonempty(s.drop_last(), sep);
        law_split_join(s.drop_last(), sep);
        if s.last() == sep {
            lemma_join_push(rest, Seq::<char>::empty(), seq![sep]);
            assert(join_with(rest, seq![sep]) + seq![sep] + Seq::<char>::empty() =~= s);
        } else {
            let head = rest.drop_last();
            assert(rest =~= head.push(rest.last()));
            lemma_join_push(head, rest.last(), seq![sep]);
            lemma_join_push(head, rest.last().push(s.last()), seq![sep]);
            assert(join_with(split_on(s, sep), seq![sep]) =~= join_with(rest, seq![sep]).push(s.last()));
            assert(s.drop_last().push(s.last()) =~= s);
        }
    } else {
        assert(split_on(s, sep) =~= seq![Seq::<char>::empty()]);
        assert(join_with(split_on(s, sep), seq![sep]) =~= s);
    }
}

// --- lines -------------------------------------------------------------------

/// `s` without one trailing carriage return.
pub open spec fn strip_cr(s: Seq<char>) -> Seq<char> {
    if s.len() > 0 && s.last() == '\r' {
        s.drop_last()
    } else {
        s
    }
}

/// The lines of `s`: each ends at a line feed, which is dropped together with
/// a carriage return right before it; what follows the last line feed is a
/// line of its own when it is not empty.
pub open spec fn lines_of(s: Seq<char>) -> Seq<Seq<char>> {
    let pieces = split_on(s, '\n');
    let ended = pieces.drop_last().map_values(|p: Seq<char>| strip_cr(p));
    if pieces.last().len() == 0 {
        ended
    } else {
        ended.push(pieces.last())
    }
}

/// `s` without one trailing carriage return.
fn without_cr(s: &str) -> (r: String)
    ensures
        r@ == strip_cr(s@),
{
    let cs = chars_of(s);
    if cs.len() > 0 && cs[cs.len() - 1] == '\r' {
        let r = string_between(cs.as_slice(), 0, cs.len() - 1);
        assert(r@ =~= s@.drop_last());
        r
    } else {
        s.to_owned()
    }
}

/// The lines of `s`.
pub fn lines(s: &str) -> (r: Vec<String>)
    ensures
        texts(r@) == lines_of(s@),
{
    let pieces = split(s, '\n');
    proof {
        lemma_split_nonempty(s@, '\n');
    }
    let ghost views = split_on(s@, '\n');
    assert(texts(pieces@).len() == pieces@.len());
    let n: usize = pieces.len() - 1;
    let mut r: Vec<String> = Vec::new();
    let mut i: usize = 0;
    while i < n
        invariant
            i <= n,
            n == pieces.len() - 1,
            views == texts(pieces@),
            texts(r@) == views.take(i as int).map_values(|p: Seq<char>| strip_cr(p)),
        decreases n - i,
    {
        let ghost r0 = r@;
        assert(views[i as int] == pieces@[i as int]@);
        r.push(without_cr(pieces[i].as_str()));
        i += 1;
        assert(texts(r@) =~= texts(r0).push(strip_cr(views[i as int - 1])));
        assert(texts(r@) =~= views.take(i as int).map_values(|p: Seq<char>| strip_cr(p)));
    }
    assert(views.take(n as int) =~= views.drop_last());
    assert(views.last() == pieces@[n as int]@);
    if !pieces[n].as_str().is_empty() {
        let ghost r0 = r@;
        r.push(pieces[n].clone());
        assert(texts(r@) =~= texts(r0).push(views.last()));
    }
    r
}

// --- what lines are ----------------------------------------------------------

/// Rows in a row, each with `end` behind it.
pub open spec fn ended_rows(rows: Seq<Seq<char>>, end: Seq<char>) -> Seq<char>
    decreases rows.len(),
{
    if rows.len() == 0 {
        seq![]
    } else {
        ended_rows(rows.drop_last(), end) + rows.last() + end
    }
}

/// A row that can stand between line feeds.
pub open spec fn is_row(row: Seq<char>) -> bool {
    !row.contains('\n')
}

/// The pieces of rows that end with line feeds are these rows and what stands
/// behind them.
pub proof fn lemma_split_ended(rows: Seq<Seq<char>>, cr: Seq<char>, tail: Seq<char>)
    requires
        forall|i: int| 0 <= i < rows.len() ==> is_row(#[trigger] rows[i]),
        is_row(cr),
        is_row(tail),
    ensures
        split_on(ended_rows(rows, cr + seq!['\n']) + tail, '\n') == rows.map_values(
            |r: Seq<char>| r + cr,
        ).push(tail),
    decreases rows.len(),
{
    let end = cr + seq!['\n'];
    let f = |r: Seq<char>| r + cr;
    if rows.len() == 0 {
        assert(ended_rows(rows, end) + tail =~= tail);
        crate::path::lemma_split_plain(tail, '\n');
        assert(rows.map_values(f).push(tail) =~= seq![tail]);
    } else {
        let head = rows.drop_last();
        let row = rows.last() + cr;
        assert(is_row(rows[rows.len() - 1]));
        assert(is_row(row)) by {
            if row.contains('\n') {
                let i = choose|i: int| 0 <= i < row.len() && row[i] == '\n';
                if i < rows.last().len() {
                    assert(rows.last()[i] == '\n');
                } else {
                    assert(cr[i - rows.last().len()] == '\n');
                }
            }
        }
        assert forall|i: int| 0 <= i < head.len() implies is_row(#[trigger] head[i]) by {
            assert(is_row(rows[i]));
        }
        lemma_split_ended(head, cr, row);
        let s = ended_rows(head, end) + row;
        assert(ended_rows(rows, end) + tail =~= s + seq!['\n'] + tail);
        crate::path::lemma_split_append(s, tail, '\n');
        assert(rows.map_values(f) =~= head.map_values(f).push(row));
    }
}

/// The lines of rows that end with line feeds are these rows, and so are those of
/// rows that end with a carriage return and a line feed. What stands behind the
/// last line feed is a line too, as it is, unless it is empty.
pub proof fn law_lines_of_rows(rows: Seq<Seq<char>>, tail: Seq<char>)
    requires
        forall|i: int| 0 <= i < rows.len() ==> is_row(#[trigger] rows[i]),
        is_row(tail),
    ensures
        lines_of(ended_rows(rows, seq!['\r', '\n']) + tail) == if tail.len() == 0 {
            rows
        } else {
            rows.push(tail)
        },
        (forall|i: int|
            0 <= i < rows.len() ==> (#[trigger] rows[i]).len() == 0 || rows[i].last() != '\r')
            ==> lines_of(ended_rows(rows, seq!['\n']) + tail) == if tail.len() == 0 {
            rows
        } else {
            rows.push(tail)
        },
{
    let cr = seq!['\r'];
    let none = Seq::<char>::empty();
    assert(cr + seq!['\n'] =~= seq!['\r', '\n']);
    assert(none + seq!['\n'] =~= seq!['\n']);
    lemma_split_ended(rows, cr, tail);
    lemma_split_ended(rows, none, tail);
    let with = rows.map_values(|r: Seq<char>| r + cr);
    let plain = rows.map_values(|r: Seq<char>| r + none);
    let strip = |p: Seq<char>| strip_cr(p);
    assert(with.push(tail).drop_last() =~= with);
    assert(plain.push(tail).drop_last() =~= plain);
    assert(with.map_values(strip) =~= rows) by {
        assert forall|i: int| 0 <= i < rows.len() implies with.map_values(strip)[i] == rows[i] by {
            assert((rows[i] + cr).drop_last() =~= rows[i]);
        }
    }
    if forall|i: int|
        0 <= i < rows.len() ==> (#[trigger] rows[i]).len() == 0 || rows[i].last() != '\r' {
        assert forall|i: int| 0 <= i < rows.len() implies plain.map_values(strip)[i] == rows[i] by {
            assert(rows[i] + none =~= rows[i]);
        }
        assert(plain.map_values(strip) =~= rows);
    }
}

/// Every text is rows that end with line feeds and something behind them.
pub proof fn law_text_is_rows(s: Seq<char>)
    ensures
        ended_rows(split_on(s, '\n').drop_last(), seq!['\n']) + split_on(s, '\n').last() == s,
        forall|i: int|
            0 <= i < split_on(s, '\n').len() ==> is_row(#[trigger] split_on(s, '\n')[i]),
    decreases s.len(),
{
    lemma_split_no_sep(s, '\n');
    lemma_split_nonempty(s, '\n');
    let all = split_on(s, '\n');
    if s.len() > 0 {
        let head = s.drop_last();
        let rest = split_on(head, '\n');
        law_text_is_rows(head);
        lemma_split_nonempty(head, '\n');
        assert(head.push(s.last()) =~= s);
        if s.last() == '\n' {
            assert(all.drop_last() =~= rest);
            assert(ended_rows(rest, seq!['\n']) =~= s);
            assert(ended_rows(rest, seq!['\n']) + all.last() =~= s);
        } else {
            assert(all.drop_last() =~= rest.drop_last());
            assert(ended_rows(all.drop_last(), seq!['\n']) + all.last() =~= s);
        }
    } else {
        assert(all.drop_last() =~= seq![]);
        assert(ended_rows(all.drop_last(), seq!['\n']) + all.last() =~= s);
    }
}

proof fn lemma_concat_prefix(parts: Seq<Seq<char>>, k: int)
    requires
        0 <= k <= parts.len(),
    ensures
        concat_texts(parts.take(k)).is_prefix_of(concat_texts(parts)),
    decreases parts.len() - k,
{
    if k == parts.len() {
        assert(parts.take(k) =~= parts);
    } else {
        lemma_concat_prefix(parts, k + 1);
        assert(parts.take(k + 1) =~= parts.take(k).push(parts[k]));
        lemma_concat_push(parts.take(k), parts[k]);
        let (a, b) = (concat_texts(parts.take(k)), concat_texts(parts.take(k + 1)));
        let all = concat_texts(parts);
        assert(b =~= all.take(b.len() as int));
        assert(a =~= all.take(a.len() as int));
    }
}

/// In texts that are put together, each stands behind those in front of it, and
/// nothing stands between them.
pub proof fn law_concat_pieces(parts: Seq<Seq<char>>, k: int)
    requires
        0 <= k < parts.len(),
    ensures
        concat_texts(seq![]) == Seq::<char>::empty(),
        concat_texts(parts.take(k + 1)).len() == concat_texts(parts.take(k)).len()
            + parts[k].len(),
        concat_texts(parts.take(k + 1)).len() <= concat_texts(parts).len(),
        concat_texts(parts).subrange(
            concat_texts(parts.take(k)).len() as int,
            concat_texts(parts.take(k + 1)).len() as int,
        ) == parts[k],
        concat_texts(parts.take(parts.len() as int)) == concat_texts(parts),
{
    lemma_concat_prefix(parts, k + 1);
    assert(parts.take(k + 1) =~= parts.take(k).push(parts[k]));
    lemma_concat_push(parts.take(k), parts[k]);
    let (a, b) = (concat_texts(parts.take(k)), concat_texts(parts.take(k + 1)));
    let all = concat_texts(parts);
    assert(b =~= all.take(b.len() as int));
    assert(b.skip(a.len() as int) =~= parts[k]);
    assert(all.subrange(a.len() as int, b.len() as int) =~= b.skip(a.len() as int));
    assert(parts.take(parts.len() as int) =~= parts);
}

} // verus!
