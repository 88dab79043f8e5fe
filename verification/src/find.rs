//! Searching and replacing inside texts.

use vstd::prelude::*;

use crate::text::{chars_of, string_between};

verus! {

/// `needle` stands in `hay` at position `i`.
pub open spec fn occurs_at(hay: Seq<char>, needle: Seq<char>, i: int) -> bool {
    &&& 0 <= i
    &&& i + needle.len() <= hay.len()
    &&& hay.subrange(i, i + needle.len()) == needle
}

/// `needle` stands somewhere in `hay`.
pub open spec fn contains_text(hay: Seq<char>, needle: Seq<char>) -> bool {
    exists|i: int| occurs_at(hay, needle, i)
}

/// `i` is the first position, `from` or later, at which `needle` stands in `hay`.
pub open spec fn first_at(hay: Seq<char>, needle: Seq<char>, from: int, i: int) -> bool {
    &&& from <= i
    &&& occurs_at(hay, needle, i)
    &&& forall|j: int| from <= j < i ==> !occurs_at(hay, needle, j)
}

/// The first position, `from` or later, at which `needle` stands in `hay`.
pub open spec fn find_spec(hay: Seq<char>, needle: Seq<char>, from: int) -> Option<int> {
    if exists|i: int| first_at(hay, needle, from, i) {
        Some(choose|i: int| first_at(hay, needle, from, i))
    } else {
        None
    }
}

/// The first position is unique.
pub proof fn lemma_first_unique(hay: Seq<char>, needle: Seq<char>, from: int, i: int)
    requires
        first_at(hay, needle, from, i),
    ensures
        find_spec(hay, needle, from) == Some(i),
{
    let j = choose|j: int| first_at(hay, needle, from, j);
    assert(first_at(hay, needle, from, j));
    if j < i {
        assert(!occurs_at(hay, needle, j));
    }
    if i < j {
        assert(!occurs_at(hay, needle, i));
    }
}

/// Where there is an occurrence there is a first one.
pub proof fn lemma_first_exists(hay: Seq<char>, needle: Seq<char>, from: int, i: int)
    requires
        from <= i,
        occurs_at(hay, needle, i),
    ensures
        exists|j: int| first_at(hay, needle, from, j),
    decreases i - from,
{
    if forall|j: int| from <= j < i ==> !occurs_at(hay, needle, j) {
        assert(first_at(hay, needle, from, i));
    } else {
        let j = choose|j: int| from <= j < i && occurs_at(hay, needle, j);
        lemma_first_exists(hay, needle, from, j);
    }
}

/// A search finds something exactly where there is an occurrence.
pub proof fn law_find_contains(hay: Seq<char>, needle: Seq<char>)
    ensures
        find_spec(hay, needle, 0) is Some <==> contains_text(hay, needle),
        find_spec(hay, needle, 0) is Some ==> first_at(
            hay,
            needle,
            0,
            find_spec(hay, needle, 0)->0,
        ),
{
    if contains_text(hay, needle) {
        let i = choose|i: int| occurs_at(hay, needle, i);
        lemma_first_exists(hay, needle, 0, i);
    }
    if find_spec(hay, needle, 0) is Some {
        let i = choose|i: int| first_at(hay, needle, 0, i);
        assert(occurs_at(hay, needle, i));
    }
}

/// Whether `needle` stands in `hay` at `i`.
pub fn matches_at(hay: &[char], needle: &[char], i: usize) -> (r: bool)
    ensures
        r == occurs_at(hay@, needle@, i as int),
{
    if needle.len() > hay.len() || i > hay.len() - needle.len() {
        return false;
    }
    let mut k: usize = 0;
    while k < needle.len()
        invariant
            i + needle.len() <= hay.len(),
            k <= needle.len(),
            forall|j: int| 0 <= j < k ==> hay@[i + j] == needle@[j],
        decreases needle.len() - k,
    {
        if hay[i + k] != needle[k] {
            assert(hay@.subrange(i as int, i + needle@.len())[k as int] != needle@[k as int]);
            return false;
        }
        k += 1;
    }
    assert(hay@.subrange(i as int, i + needle@.len()) =~= needle@);
    true
}

/// The first position, `from` or later, at which `needle` stands in `hay`.
pub fn find_chars(hay: &[char], needle: &[char], from: usize) -> (r: Option<usize>)
    ensures
        match r {
            Some(i) => first_at(hay@, needle@, from as int, i as int),
            None => forall|j: int| from <= j ==> !occurs_at(hay@, needle@, j),
        },
        match r {
            Some(i) => find_spec(hay@, needle@, from as int) == Some(i as int),
            None => find_spec(hay@, needle@, from as int) is None,
        },
{
    if needle.len() > hay.len() {
        return None;
    }
    let last: usize = hay.len() - needle.len();
    let mut i: usize = from;
    while i <= last
        invariant
            from <= i,
            i <= last + 1 || i == from,
            last == hay.len() - needle.len(),
            forall|j: int| from <= j < i ==> !occurs_at(hay@, needle@, j),
        decreases last + 1 - i,
    {
        if matches_at(hay, needle, i) {
            proof {
                lemma_first_unique(hay@, needle@, from as int, i as int);
            }
            return Some(i);
        }
        if i == usize::MAX {
            assert(forall|j: int| from <= j ==> !occurs_at(hay@, needle@, j));
            return None;
        }
        i += 1;
    }
    None
}

/// The first character position at which `needle` stands in `hay`.
pub fn find(hay: &str, needle: &str) -> (r: Option<usize>)
    ensures
        match r {
            Some(i) => find_spec(hay@, needle@, 0) == Some(i as int) && first_at(
                hay@,
                needle@,
                0,
                i as int,
            ),
            None => find_spec(hay@, needle@, 0) is None && !contains_text(hay@, needle@),
        },
{
    let h = chars_of(hay);
    let n = chars_of(needle);
    find_chars(h.as_slice(), n.as_slice(), 0)
}

/// Whether `needle` stands somewhere in `hay`.
pub fn contains(hay: &str, needle: &str) -> (r: bool)
    ensures
        r == contains_text(hay@, needle@),
{
    match find(hay, needle) {
        Some(_) => true,
        None => false,
    }
}

/// Whether `s` begins with `p`.
pub fn starts_with(s: &str, p: &str) -> (r: bool)
    ensures
        r == p@.is_prefix_of(s@),
{
    let h = chars_of(s);
    let n = chars_of(p);
    let r = matches_at(h.as_slice(), n.as_slice(), 0);
    assert(p@.len() <= s@.len() ==> s@.subrange(0, p@.len() as int) =~= s@.take(p@.len() as int));
    r
}

/// `s` without the prefix `p`, where it has it.
pub fn strip_prefix(s: &str, p: &str) -> (r: Option<String>)
    ensures
        match r {
            Some(t) => p@.is_prefix_of(s@) && t@ == s@.skip(p@.len() as int),
            None => !p@.is_prefix_of(s@),
        },
{
    let h = chars_of(s);
    let n = chars_of(p);
    if starts_with(s, p) {
        let t = string_between(h.as_slice(), n.len(), h.len());
        assert(t@ =~= s@.skip(p@.len() as int));
        Some(t)
    } else {
        None
    }
}

/// `s` without the suffix `p`, where it has it.
pub fn strip_suffix(s: &str, p: &str) -> (r: Option<String>)
    ensures
        match r {
            Some(t) => p@.is_suffix_of(s@) && t@ == s@.take(s@.len() - p@.len()),
            None => !p@.is_suffix_of(s@),
        },
{
    let h = chars_of(s);
    let n = chars_of(p);
    if n.len() > h.len() {
        return None;
    }
    let at: usize = h.len() - n.len();
    if matches_at(h.as_slice(), n.as_slice(), at) {
        let t = string_between(h.as_slice(), 0, at);
        assert(t@ =~= s@.take(s@.len() - p@.len()));
        Some(t)
    } else {
        None
    }
}

// --- counting and replacing --------------------------------------------------

/// How many times `needle` stands in `hay` from `from` on, counted from the
/// left without overlaps. An empty needle is never counted.
pub open spec fn count_from(hay: Seq<char>, needle: Seq<char>, from: int) -> nat
    decreases hay.len() - from,
{
    if needle.len() == 0 || from < 0 || from >= hay.len() {
        0
    } else if occurs_at(hay, needle, from) {
        1 + count_from(hay, needle, from + needle.len())
    } else {
        count_from(hay, needle, from + 1)
    }
}

/// `hay` from `from` on, with the first `limit` occurrences of `needle`, taken
/// from the left without overlaps, replaced by `with`.
pub open spec fn replace_from(
    hay: Seq<char>,
    needle: Seq<char>,
    with: Seq<char>,
    from: int,
    limit: nat,
) -> Seq<char>
    decreases hay.len() - from,
{
    if from < 0 || from >= hay.len() {
        seq![]
    } else if needle.len() == 0 || limit == 0 {
        hay.skip(from)
    } else if occurs_at(hay, needle, from) {
        with + replace_from(hay, needle, with, from + needle.len(), (limit - 1) as nat)
    } else {
        seq![hay[from]] + replace_from(hay, needle, with, from + 1, limit)
    }
}

/// `hay` with every occurrence of `needle` replaced by `with`.
pub open spec fn replace_text(hay: Seq<char>, needle: Seq<char>, with: Seq<char>) -> Seq<char> {
    replace_from(hay, needle, with, 0, hay.len())
}

/// How many times `needle` stands in `hay`, without overlaps.
pub fn count(hay: &str, needle: &str) -> (r: usize)
    ensures
        r == count_from(hay@, needle@, 0),
        r <= hay@.len(),
{
    let h = chars_of(hay);
    let n = chars_of(needle);
    if n.len() == 0 {
        return 0;
    }
    let mut i: usize = 0;
    let mut r: usize = 0;
    while i < h.len()
        invariant
            i <= h.len(),
            r <= i,
            h@ == hay@,
            n@ == needle@,
            n.len() > 0,
            r + count_from(h@, n@, i as int) == count_from(h@, n@, 0),
        decreases h.len() - i,
    {
        if matches_at(h.as_slice(), n.as_slice(), i) {
            r += 1;
            i += n.len();
        } else {
            i += 1;
        }
    }
    r
}

/// `hay` with the first `limit` occurrences of `needle` replaced by `with`.
/// An empty needle replaces nothing.
pub fn replace_upto(hay: &str, needle: &str, with: &str, limit: usize) -> (r: String)
    ensures
        r@ == replace_from(hay@, needle@, with@, 0, limit as nat),
{
    let h = chars_of(hay);
    let n = chars_of(needle);
    let mut r: String = String::new();
    let mut i: usize = 0;
    let mut left: usize = limit;
    assert(r@ + replace_from(h@, n@, with@, 0, limit as nat) =~= replace_from(
        h@,
        n@,
        with@,
        0,
        limit as nat,
    ));
    while i < h.len()
        invariant
            i <= h.len(),
            h@ == hay@,
            n@ == needle@,
            r@ + replace_from(h@, n@, with@, i as int, left as nat) == replace_from(
                h@,
                n@,
                with@,
                0,
                limit as nat,
            ),
        decreases h.len() - i,
    {
        let ghost tail = replace_from(h@, n@, with@, i as int, left as nat);
        let ghost r0 = r@;
        if n.len() == 0 || left == 0 {
            r.push(h[i]);
            proof {
                assert(tail =~= h@.skip(i as int));
                assert(r0 + tail =~= r@ + h@.skip(i as int + 1));
                if i + 1 == h@.len() {
                    assert(h@.skip(i as int + 1) =~= Seq::<char>::empty());
                }
            }
            i += 1;
        } else if matches_at(h.as_slice(), n.as_slice(), i) {
            r.append(with);
            left -= 1;
            i += n.len();
            assert(r0 + tail =~= r@ + replace_from(h@, n@, with@, i as int, left as nat));
        } else {
            r.push(h[i]);
            i += 1;
            assert(r0 + tail =~= r@ + replace_from(h@, n@, with@, i as int, left as nat));
        }
    }
    assert(r@ + Seq::<char>::empty() =~= r@);
    r
}

/// `hay` with every occurrence of `needle` replaced by `with`.
pub fn replace_all(hay: &str, needle: &str, with: &str) -> (r: String)
    ensures
        r@ == replace_text(hay@, needle@, with@),
{
    let n = chars_of(hay).len();
    replace_upto(hay, needle, with, n)
}

// --- what finding and replacing mean -----------------------------------------

/// A text that is put together from something, the needle and something holds the
/// needle, at the latest where the first of these ends.
pub proof fn law_find_holds(front: Seq<char>, needle: Seq<char>, back: Seq<char>)
    ensures
        find_spec(front + needle + back, needle, 0) is Some,
        find_spec(front + needle + back, needle, 0)->0 <= front.len(),
{
    let s = front + needle + back;
    let n = front.len() as int;
    assert(s.subrange(n, n + needle.len()) =~= needle);
    assert(occurs_at(s, needle, n));
    lemma_first_exists(s, needle, 0, n);
    let i = choose|i: int| first_at(s, needle, 0, i);
    lemma_first_unique(s, needle, 0, i);
    assert(i <= n);
}

/// Where a search finds the needle, the text is what is in front of that place,
/// the needle, and what is behind it.
pub proof fn law_find_place(hay: Seq<char>, needle: Seq<char>, i: int)
    requires
        find_spec(hay, needle, 0) == Some(i),
    ensures
        0 <= i <= hay.len() - needle.len(),
        hay == hay.take(i) + needle + hay.skip(i + needle.len()),
{
    law_find_contains(hay, needle);
    assert(occurs_at(hay, needle, i));
    assert(hay =~= hay.take(i) + hay.subrange(i, i + needle.len()) + hay.skip(i + needle.len()));
}

proof fn lemma_count_skips(hay: Seq<char>, needle: Seq<char>, from: int, i: int)
    requires
        0 <= from <= i <= hay.len(),
        needle.len() > 0,
        forall|j: int| from <= j < i ==> !occurs_at(hay, needle, j),
    ensures
        count_from(hay, needle, from) == count_from(hay, needle, i),
    decreases i - from,
{
    if from < i {
        assert(!occurs_at(hay, needle, from));
        lemma_count_skips(hay, needle, from + 1, i);
    }
}

proof fn lemma_occurs_shift(hay: Seq<char>, needle: Seq<char>, k: int, i: int)
    requires
        0 <= k <= hay.len(),
        0 <= i,
    ensures
        occurs_at(hay.skip(k), needle, i) == occurs_at(hay, needle, k + i),
{
    if i + needle.len() <= hay.len() - k {
        assert(hay.skip(k).subrange(i, i + needle.len()) =~= hay.subrange(
            k + i,
            k + i + needle.len(),
        ));
    }
}

proof fn lemma_count_shift(hay: Seq<char>, needle: Seq<char>, k: int, from: int)
    requires
        0 <= k <= hay.len(),
        0 <= from,
    ensures
        count_from(hay.skip(k), needle, from) == count_from(hay, needle, k + from),
    decreases hay.len() - k - from,
{
    if needle.len() > 0 && from < hay.len() - k {
        lemma_occurs_shift(hay, needle, k, from);
        if occurs_at(hay, needle, k + from) {
            lemma_count_shift(hay, needle, k, from + needle.len());
        } else {
            lemma_count_shift(hay, needle, k, from + 1);
        }
    }
}

/// A text that is not empty is counted by going on behind its first place: there
/// is none where it does not stand, and else one more than behind that place.
pub proof fn law_count(hay: Seq<char>, needle: Seq<char>)
    requires
        needle.len() > 0,
    ensures
        count_from(hay, needle, 0) == 0 <==> !contains_text(hay, needle),
        find_spec(hay, needle, 0) matches Some(i) ==> count_from(hay, needle, 0) == 1 + count_from(
            hay.skip(i + needle.len()),
            needle,
            0,
        ),
{
    law_find_contains(hay, needle);
    match find_spec(hay, needle, 0) {
        Some(i) => {
            assert(first_at(hay, needle, 0, i));
            lemma_count_skips(hay, needle, 0, i);
            lemma_count_shift(hay, needle, i + needle.len(), 0);
        },
        None => {
            lemma_count_skips(hay, needle, 0, hay.len() as int);
        },
    }
}

proof fn lemma_replace_skips(
    hay: Seq<char>,
    needle: Seq<char>,
    with: Seq<char>,
    from: int,
    i: int,
    limit: nat,
)
    requires
        0 <= from <= i <= hay.len(),
        forall|j: int| from <= j < i ==> !occurs_at(hay, needle, j),
        needle.len() > 0,
        limit > 0,
    ensures
        replace_from(hay, needle, with, from, limit) == hay.subrange(from, i) + replace_from(
            hay,
            needle,
            with,
            i,
            limit,
        ),
    decreases i - from,
{
    let rest = replace_from(hay, needle, with, i, limit);
    if from < i {
        assert(!occurs_at(hay, needle, from));
        lemma_replace_skips(hay, needle, with, from + 1, i, limit);
        assert(hay.subrange(from, i) =~= seq![hay[from]] + hay.subrange(from + 1, i));
        assert(seq![hay[from]] + (hay.subrange(from + 1, i) + rest) =~= hay.subrange(from, i) + rest);
    } else {
        assert(hay.subrange(from, i) + rest =~= rest);
    }
}

proof fn lemma_replace_shift(
    hay: Seq<char>,
    needle: Seq<char>,
    with: Seq<char>,
    k: int,
    from: int,
    limit: nat,
)
    requires
        0 <= k <= hay.len(),
        0 <= from,
    ensures
        replace_from(hay.skip(k), needle, with, from, limit) == replace_from(
            hay,
            needle,
            with,
            k + from,
            limit,
        ),
    decreases hay.len() - k - from,
{
    if from < hay.len() - k {
        if needle.len() == 0 || limit == 0 {
            assert(hay.skip(k).skip(from) =~= hay.skip(k + from));
        } else {
            lemma_occurs_shift(hay, needle, k, from);
            if occurs_at(hay, needle, k + from) {
                lemma_replace_shift(hay, needle, with, k, from + needle.len(), (limit - 1) as nat);
            } else {
                lemma_replace_shift(hay, needle, with, k, from + 1, limit);
            }
        }
    }
}

/// Where the text stands, replacing it up to a limit keeps what is in front of the
/// first place, puts the new text there, and goes on behind it with one place
/// less; where it does not stand, or nothing may be replaced, nothing changes.
pub proof fn law_replace(hay: Seq<char>, needle: Seq<char>, with: Seq<char>, limit: nat)
    requires
        needle.len() > 0,
    ensures
        !contains_text(hay, needle) || limit == 0 ==> replace_from(hay, needle, with, 0, limit)
            == hay,
        limit > 0 ==> (find_spec(hay, needle, 0) matches Some(i) ==> replace_from(
            hay,
            needle,
            with,
            0,
            limit,
        ) == hay.take(i) + with + replace_from(
            hay.skip(i + needle.len()),
            needle,
            with,
            0,
            (limit - 1) as nat,
        )),
{
    law_find_contains(hay, needle);
    if limit == 0 {
        assert(hay.skip(0) =~= hay);
        if hay.len() == 0 {
            assert(replace_from(hay, needle, with, 0, limit) =~= hay);
        }
    } else {
        match find_spec(hay, needle, 0) {
            Some(i) => {
                assert(first_at(hay, needle, 0, i));
                lemma_replace_skips(hay, needle, with, 0, i, limit);
                assert(hay.subrange(0, i) =~= hay.take(i));
                let rest = replace_from(hay, needle, with, i + needle.len(), (limit - 1) as nat);
                lemma_replace_shift(hay, needle, with, i + needle.len(), 0, (limit - 1) as nat);
                assert(hay.take(i) + (with + rest) =~= hay.take(i) + with + rest);
            },
            None => {
                lemma_replace_skips(hay, needle, with, 0, hay.len() as int, limit);
                assert(hay.subrange(0, hay.len() as int) + Seq::<char>::empty() =~= hay);
            },
        }
    }
}

proof fn lemma_replace_enough(
    hay: Seq<char>,
    needle: Seq<char>,
    with: Seq<char>,
    from: int,
    x: nat,
    y: nat,
)
    requires
        0 <= from,
        needle.len() > 0,
        x >= hay.len() - from,
        y >= hay.len() - from,
    ensures
        replace_from(hay, needle, with, from, x) == replace_from(hay, needle, with, from, y),
    decreases hay.len() - from,
{
    if from < hay.len() {
        if occurs_at(hay, needle, from) {
            lemma_replace_enough(
                hay,
                needle,
                with,
                from + needle.len(),
                (x - 1) as nat,
                (y - 1) as nat,
            );
        } else {
            lemma_replace_enough(hay, needle, with, from + 1, x, y);
        }
    }
}

/// Replacing everywhere keeps what is in front of the first place, puts the new
/// text there, and replaces everywhere in what is behind.
pub proof fn law_replace_everywhere(hay: Seq<char>, needle: Seq<char>, with: Seq<char>)
    requires
        needle.len() > 0,
    ensures
        !contains_text(hay, needle) ==> replace_text(hay, needle, with) == hay,
        find_spec(hay, needle, 0) matches Some(i) ==> replace_text(hay, needle, with) == hay.take(i)
            + with + replace_text(hay.skip(i + needle.len()), needle, with),
{
    law_find_contains(hay, needle);
    law_replace(hay, needle, with, hay.len());
    if let Some(i) = find_spec(hay, needle, 0) {
        assert(first_at(hay, needle, 0, i));
        let rest = hay.skip(i + needle.len());
        lemma_replace_enough(rest, needle, with, 0, rest.len(), (hay.len() - 1) as nat);
    }
}

/// Where no place reaches from one text into the next, replacing everywhere in
/// both together is replacing in each.
pub proof fn law_replace_apart(x: Seq<char>, y: Seq<char>, needle: Seq<char>, with: Seq<char>)
    requires
        needle.len() > 0,
        forall|i: int| i < x.len() < i + needle.len() ==> !#[trigger] occurs_at(x + y, needle, i),
    ensures
        replace_text(x + y, needle, with) == replace_text(x, needle, with) + replace_text(
            y,
            needle,
            with,
        ),
    decreases x.len(),
{
    let s = x + y;
    let n = needle.len() as int;
    law_replace_everywhere(s, needle, with);
    law_replace_everywhere(x, needle, with);
    law_replace_everywhere(y, needle, with);
    law_find_contains(s, needle);
    law_find_contains(x, needle);
    law_find_contains(y, needle);
    assert forall|i: int| occurs_at(x, needle, i) implies #[trigger] occurs_at(s, needle, i) by {
        assert(s.subrange(i, i + n) =~= x.subrange(i, i + n));
    }
    assert forall|i: int| occurs_at(y, needle, i) implies #[trigger] occurs_at(
        s,
        needle,
        x.len() + i,
    ) by {
        assert(s.subrange(x.len() + i, x.len() + i + n) =~= y.subrange(i, i + n));
    }
    match find_spec(s, needle, 0) {
        None => {
            if contains_text(x, needle) {
                let i = choose|i: int| occurs_at(x, needle, i);
                assert(occurs_at(s, needle, i));
            }
            if contains_text(y, needle) {
                let i = choose|i: int| occurs_at(y, needle, i);
                assert(occurs_at(s, needle, x.len() + i));
            }
        },
        Some(i) => {
            assert(first_at(s, needle, 0, i));
            if i + n <= x.len() {
                assert(x.subrange(i, i + n) =~= s.subrange(i, i + n));
                assert(first_at(x, needle, 0, i)) by {
                    assert forall|j: int| 0 <= j < i implies !occurs_at(x, needle, j) by {
                        assert(!occurs_at(s, needle, j));
                    }
                }
                lemma_first_unique(x, needle, 0, i);
                let rest = x.skip(i + n);
                assert(s.skip(i + n) =~= rest + y);
                assert(s.take(i) =~= x.take(i));
                assert forall|k: int| k < rest.len() < k + n implies !#[trigger] occurs_at(
                    rest + y,
                    needle,
                    k,
                ) by {
                    if occurs_at(rest + y, needle, k) {
                        assert((rest + y).subrange(k, k + n) =~= s.subrange(
                            i + n + k,
                            i + n + k + n,
                        ));
                        assert(occurs_at(s, needle, i + n + k));
                    }
                }
                law_replace_apart(rest, y, needle, with);
                assert(replace_text(s, needle, with) =~= replace_text(x, needle, with)
                    + replace_text(y, needle, with));
            } else {
                assert(i >= x.len());
                let k = i - x.len();
                assert(y.subrange(k, k + n) =~= s.subrange(i, i + n));
                assert(first_at(y, needle, 0, k)) by {
                    assert forall|j: int| 0 <= j < k implies !occurs_at(y, needle, j) by {
                        if occurs_at(y, needle, j) {
                            assert(occurs_at(s, needle, x.len() + j));
                        }
                    }
                }
                lemma_first_unique(y, needle, 0, k);
                if contains_text(x, needle) {
                    let j = choose|j: int| occurs_at(x, needle, j);
                    assert(occurs_at(s, needle, j));
                }
                assert(s.take(i) =~= x + y.take(k));
                assert(s.skip(i + n) =~= y.skip(k + n));
                assert(replace_text(s, needle, with) =~= replace_text(x, needle, with)
                    + replace_text(y, needle, with));
            }
        },
    }
}

} // verus!
