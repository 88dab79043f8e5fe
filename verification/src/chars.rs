//! Character classes and the text functions that go by them.

use vstd::prelude::*;

use crate::text::{chars_of, string_between, str_eq};

verus! {

/// Unicode `White_Space`.
pub open spec fn is_space(c: char) -> bool {
    ||| '\u{9}' <= c <= '\u{d}'
    ||| c == ' '
    ||| c == '\u{85}'
    ||| c == '\u{a0}'
    ||| c == '\u{1680}'
    ||| '\u{2000}' <= c <= '\u{200a}'
    ||| c == '\u{2028}'
    ||| c == '\u{2029}'
    ||| c == '\u{202f}'
    ||| c == '\u{205f}'
    ||| c == '\u{3000}'
}

/// Whether `c` has the Unicode property `White_Space`.
pub fn char_is_space(c: char) -> (r: bool)
    ensures
        r == is_space(c),
{
    ('\u{9}' <= c && c <= '\u{d}') || c == ' ' || c == '\u{85}' || c == '\u{a0}' || c == '\u{1680}'
        || ('\u{2000}' <= c && c <= '\u{200a}') || c == '\u{2028}' || c == '\u{2029}' || c
        == '\u{202f}' || c == '\u{205f}' || c == '\u{3000}'
}

/// `[A-Za-z0-9]`.
pub open spec fn is_ascii_alnum(c: char) -> bool {
    'a' <= c <= 'z' || 'A' <= c <= 'Z' || '0' <= c <= '9'
}

/// Whether `c` is an ASCII letter or digit.
pub fn char_is_ascii_alnum(c: char) -> (r: bool)
    ensures
        r == is_ascii_alnum(c),
{
    ('a' <= c && c <= 'z') || ('A' <= c && c <= 'Z') || ('0' <= c && c <= '9')
}

/// The ASCII lower-case form of `c`.
pub open spec fn ascii_lower(c: char) -> char {
    if 'A' <= c <= 'Z' {
        (c as int + 32) as char
    } else {
        c
    }
}

/// The ASCII lower-case form of every character of `s`.
pub open spec fn ascii_lower_text(s: Seq<char>) -> Seq<char> {
    s.map_values(|c: char| ascii_lower(c))
}

/// `c` in ASCII lower case.
pub fn char_ascii_lower(c: char) -> (r: char)
    ensures
        r == ascii_lower(c),
{
    if 'A' <= c && c <= 'Z' {
        let code: u8 = c as u8;
        assert(code == c as int);
        (code + 32) as char
    } else {
        c
    }
}

/// `s` in ASCII lower case.
pub fn to_ascii_lower(s: &str) -> (r: String)
    ensures
        r@ == ascii_lower_text(s@),
{
    let cs = chars_of(s);
    let mut r: String = String::new();
    let mut i: usize = 0;
    while i < cs.len()
        invariant
            i <= cs.len(),
            cs@ == s@,
            r@ == ascii_lower_text(cs@.take(i as int)),
        decreases cs.len() - i,
    {
        r.push(char_ascii_lower(cs[i]));
        i += 1;
        assert(r@ =~= ascii_lower_text(cs@.take(i as int)));
    }
    assert(cs@.take(cs@.len() as int) =~= cs@);
    r
}

/// The sets of characters that are trimmed from the ends of texts.
#[derive(Clone, Copy)]
pub enum CharSet {
    /// Unicode white space.
    Space,
    /// `/`.
    Slash,
    /// `"` and `'`.
    Quote,
    /// Line feed and carriage return.
    LineEnd,
}

impl CharSet {
    /// Whether the set holds `c`.
    pub open spec fn has(self, c: char) -> bool {
        match self {
            CharSet::Space => is_space(c),
            CharSet::Slash => c == '/',
            CharSet::Quote => c == '"' || c == '\'',
            CharSet::LineEnd => c == '\n' || c == '\r',
        }
    }

    /// Whether the set holds `c`.
    pub fn holds(self, c: char) -> (r: bool)
        ensures
            r == self.has(c),
    {
        match self {
            CharSet::Space => char_is_space(c),
            CharSet::Slash => c == '/',
            CharSet::Quote => c == '"' || c == '\'',
            CharSet::LineEnd => c == '\n' || c == '\r',
        }
    }
}

/// `s` without the characters of `set` at its start.
pub open spec fn trimmed_start(s: Seq<char>, set: CharSet) -> Seq<char>
    decreases s.len(),
{
    if s.len() > 0 && set.has(s[0]) {
        trimmed_start(s.drop_first(), set)
    } else {
        s
    }
}

/// `s` without the characters of `set` at its end.
pub open spec fn trimmed_end(s: Seq<char>, set: CharSet) -> Seq<char>
    decreases s.len(),
{
    if s.len() > 0 && set.has(s.last()) {
        trimmed_end(s.drop_last(), set)
    } else {
        s
    }
}

/// `s` without the characters of `set` at either end.
pub open spec fn trimmed(s: Seq<char>, set: CharSet) -> Seq<char> {
    trimmed_end(trimmed_start(s, set), set)
}

/// `s` without white space at either end.
pub open spec fn trim_text(s: Seq<char>) -> Seq<char> {
    trimmed(s, CharSet::Space)
}

proof fn lemma_trimmed_start_skip(s: Seq<char>, set: CharSet, k: int)
    requires
        0 <= k <= s.len(),
        forall|i: int| 0 <= i < k ==> set.has(#[trigger] s[i]),
    ensures
        trimmed_start(s, set) == trimmed_start(s.skip(k), set),
    decreases k,
{
    if k > 0 {
        assert(set.has(s[0]));
        assert forall|i: int| 0 <= i < k - 1 implies set.has(#[trigger] s.drop_first()[i]) by {
            assert(set.has(s[i + 1]));
        }
        lemma_trimmed_start_skip(s.drop_first(), set, k - 1);
        assert(s.drop_first().skip(k - 1) =~= s.skip(k));
    } else {
        assert(s.skip(0) =~= s);
    }
}

proof fn lemma_trimmed_end_take(s: Seq<char>, set: CharSet, k: int)
    requires
        0 <= k <= s.len(),
        forall|i: int| k <= i < s.len() ==> set.has(#[trigger] s[i]),
    ensures
        trimmed_end(s, set) == trimmed_end(s.take(k), set),
    decreases s.len() - k,
{
    if k < s.len() {
        assert(set.has(s[s.len() - 1]));
        assert forall|i: int| k <= i < s.len() - 1 implies set.has(#[trigger] s.drop_last()[i]) by {
            assert(set.has(s[i]));
        }
        lemma_trimmed_end_take(s.drop_last(), set, k);
        assert(s.drop_last().take(k) =~= s.take(k));
    } else {
        assert(s.take(k) =~= s);
    }
}

/// `s` without the characters of `set` at its start.
pub fn trim_start(s: &str, set: CharSet) -> (r: String)
    ensures
        r@ == trimmed_start(s@, set),
{
    let cs = chars_of(s);
    let mut i: usize = 0;
    while i < cs.len() && set.holds(cs[i])
        invariant
            i <= cs.len(),
            cs@ == s@,
            forall|k: int| 0 <= k < i ==> set.has(#[trigger] cs@[k]),
        decreases cs.len() - i,
    {
        i += 1;
    }
    proof {
        lemma_trimmed_start_skip(cs@, set, i as int);
        assert(cs@.subrange(i as int, cs@.len() as int) =~= cs@.skip(i as int));
        if i < cs@.len() {
            assert(cs@.skip(i as int)[0] == cs@[i as int]);
        }
    }
    string_between(cs.as_slice(), i, cs.len())
}

/// `s` without the characters of `set` at its end.
pub fn trim_end(s: &str, set: CharSet) -> (r: String)
    ensures
        r@ == trimmed_end(s@, set),
{
    let cs = chars_of(s);
    let mut i: usize = cs.len();
    while i > 0 && set.holds(cs[i - 1])
        invariant
            i <= cs.len(),
            cs@ == s@,
            forall|k: int| i <= k < cs.len() ==> set.has(#[trigger] cs@[k]),
        decreases i,
    {
        i -= 1;
    }
    proof {
        lemma_trimmed_end_take(cs@, set, i as int);
        assert(cs@.subrange(0, i as int) =~= cs@.take(i as int));
        if i > 0 {
            assert(cs@.take(i as int).last() == cs@[i - 1]);
        }
    }
    string_between(cs.as_slice(), 0, i)
}

/// `s` without the characters of `set` at either end.
pub fn trim_both(s: &str, set: CharSet) -> (r: String)
    ensures
        r@ == trimmed(s@, set),
{
    let head = trim_start(s, set);
    trim_end(head.as_str(), set)
}

/// `s` without white space at either end.
pub fn trim(s: &str) -> (r: String)
    ensures
        r@ == trim_text(s@),
{
    trim_both(s, CharSet::Space)
}

/// A trimmed text starts and ends outside the set.
pub proof fn law_trim_ends(s: Seq<char>, set: CharSet)
    ensures
        trimmed(s, set).len() > 0 ==> !set.has(trimmed(s, set)[0]) && !set.has(
            trimmed(s, set).last(),
        ),
{
    lemma_trimmed_start_first(s, set);
    lemma_trimmed_end_last(trimmed_start(s, set), set);
}

proof fn lemma_trimmed_start_first(s: Seq<char>, set: CharSet)
    ensures
        trimmed_start(s, set).len() > 0 ==> !set.has(trimmed_start(s, set)[0]),
    decreases s.len(),
{
    if s.len() > 0 && set.has(s[0]) {
        lemma_trimmed_start_first(s.drop_first(), set);
    }
}

proof fn lemma_trimmed_end_last(s: Seq<char>, set: CharSet)
    ensures
        trimmed_end(s, set).len() > 0 ==> !set.has(trimmed_end(s, set).last()) && trimmed_end(
            s,
            set,
        )[0] == s[0],
    decreases s.len(),
{
    if s.len() > 0 && set.has(s.last()) {
        lemma_trimmed_end_last(s.drop_last(), set);
    }
}

/// The parts of `s` between runs of white space, without empty ones.
pub open spec fn words_of(s: Seq<char>) -> Seq<Seq<char>>
    decreases s.len(),
{
    if s.len() == 0 {
        seq![]
    } else {
        let rest = words_of(s.drop_last());
        if is_space(s.last()) {
            rest
        } else if s.len() > 1 && !is_space(s[s.len() - 2]) {
            rest.drop_last().push(rest.last().push(s.last()))
        } else {
            rest.push(seq![s.last()])
        }
    }
}

/// The words of `s`.
pub fn words(s: &str) -> (r: Vec<String>)
    ensures
        crate::text::texts(r@) == words_of(s@),
{
    let cs = chars_of(s);
    let mut r: Vec<String> = Vec::new();
    let mut cur: String = String::new();
    let mut i: usize = 0;
    assert(crate::text::texts(r@) =~= words_of(cs@.take(0)));
    while i < cs.len()
        invariant
            i <= cs.len(),
            cs@ == s@,
            cur@.len() > 0 <==> (i > 0 && !is_space(cs@[i - 1])),
            words_of(cs@.take(i as int)) == if cur@.len() > 0 {
                crate::text::texts(r@).push(cur@)
            } else {
                crate::text::texts(r@)
            },
        decreases cs.len() - i,
    {
        let c = cs[i];
        let ghost r0 = crate::text::texts(r@);
        let ghost cur0 = cur@;
        let ghost before = words_of(cs@.take(i as int));
        proof {
            let t = cs@.take(i as int + 1);
            assert(t.drop_last() =~= cs@.take(i as int));
            assert(t.last() == c);
            if t.len() > 1 {
                assert(t[t.len() - 2] == cs@[i - 1]);
            }
        }
        if char_is_space(c) {
            if !cur.as_str().is_empty() {
                r.push(cur);
                cur = String::new();
                assert(crate::text::texts(r@) =~= r0.push(cur0));
            }
        } else {
            cur.push(c);
            proof {
                if cur0.len() > 0 {
                    assert(before.drop_last() =~= r0);
                    assert(before.last() == cur0);
                } else {
                    assert(cur@ =~= seq![c]);
                }
            }
        }
        i += 1;
    }
    assert(cs@.take(cs@.len() as int) =~= cs@);
    if !cur.as_str().is_empty() {
        let ghost r0 = crate::text::texts(r@);
        let ghost cur0 = cur@;
        r.push(cur);
        assert(crate::text::texts(r@) =~= r0.push(cur0));
    }
    r
}

/// Whether the two texts are the same but for ASCII case.
pub fn eq_ignore_ascii_case(a: &str, b: &str) -> (r: bool)
    ensures
        r == (ascii_lower_text(a@) == ascii_lower_text(b@)),
{
    let x = to_ascii_lower(a);
    let y = to_ascii_lower(b);
    str_eq(x.as_str(), y.as_str())
}

// --- what words and trimming are ---------------------------------------------

/// No character of the text is white space.
pub open spec fn no_space(s: Seq<char>) -> bool {
    forall|i: int| 0 <= i < s.len() ==> !is_space(#[trigger] s[i])
}

/// White space at the end makes no word.
pub proof fn law_words_blank(s: Seq<char>, c: char)
    requires
        is_space(c),
    ensures
        words_of(s.push(c)) == words_of(s),
{
    assert(s.push(c).drop_last() =~= s);
}

/// A text without white space that stands at the start or behind white space is
/// one more word.
pub proof fn law_words_append(s: Seq<char>, w: Seq<char>)
    requires
        s.len() == 0 || is_space(s.last()),
        w.len() > 0,
        no_space(w),
    ensures
        words_of(s + w) == words_of(s).push(w),
    decreases w.len(),
{
    let all = s + w;
    let c = w.last();
    assert(!is_space(w[w.len() - 1]));
    assert(all.drop_last() =~= s + w.drop_last());
    if w.len() == 1 {
        assert(s + w.drop_last() =~= s);
        assert(w =~= seq![c]);
        if s.len() > 0 {
            assert(all[all.len() - 2] == s.last());
        }
    } else {
        assert forall|i: int| 0 <= i < w.drop_last().len() implies !is_space(
            #[trigger] w.drop_last()[i],
        ) by {
            assert(!is_space(w[i]));
        }
        law_words_append(s, w.drop_last());
        assert(all[all.len() - 2] == w[w.len() - 2]);
        assert(!is_space(w[w.len() - 2]));
        let rest = words_of(s).push(w.drop_last());
        assert(rest.drop_last() =~= words_of(s));
        assert(w.drop_last().push(c) =~= w);
    }
}

/// Words are not empty and hold no white space.
pub proof fn law_words_plain(s: Seq<char>)
    ensures
        forall|i: int|
            0 <= i < words_of(s).len() ==> (#[trigger] words_of(s)[i]).len() > 0 && no_space(
                words_of(s)[i],
            ),
        s.len() > 0 && !is_space(s.last()) ==> words_of(s).len() > 0,
    decreases s.len(),
{
    if s.len() > 0 {
        law_words_plain(s.drop_last());
        let rest = words_of(s.drop_last());
        if s.len() > 1 {
            assert(s.drop_last().last() == s[s.len() - 2]);
        }
        if !is_space(s.last()) && s.len() > 1 && !is_space(s[s.len() - 2]) {
            let grown = rest.last().push(s.last());
            assert(no_space(rest[rest.len() - 1]));
            assert forall|i: int| 0 <= i < grown.len() implies !is_space(#[trigger] grown[i]) by {
                if i < rest.last().len() {
                    assert(!is_space(rest.last()[i]));
                }
            }
        }
    }
}

/// All characters of the text are in the set.
pub open spec fn all_in(s: Seq<char>, set: CharSet) -> bool {
    forall|i: int| 0 <= i < s.len() ==> set.has(#[trigger] s[i])
}

/// Trimming takes off exactly what belongs to the set at the ends: from the start,
/// from the end, and from both.
pub proof fn law_trim_exact(lead: Seq<char>, core: Seq<char>, trail: Seq<char>, set: CharSet)
    requires
        all_in(lead, set),
        all_in(trail, set),
        core.len() > 0 ==> !set.has(core[0]) && !set.has(core.last()),
    ensures
        core.len() > 0 ==> trimmed_start(lead + core + trail, set) == core + trail,
        core.len() > 0 ==> trimmed_end(lead + core + trail, set) == lead + core,
        trimmed(lead + core + trail, set) == core,
{
    let s = lead + core + trail;
    let (a, b) = (lead.len() as int, (lead.len() + core.len()) as int);
    if core.len() > 0 {
        assert forall|i: int| 0 <= i < a implies set.has(#[trigger] s[i]) by {
            assert(set.has(lead[i]));
        }
        assert forall|i: int| b <= i < s.len() implies set.has(#[trigger] s[i]) by {
            assert(set.has(trail[i - b]));
        }
        lemma_trimmed_start_skip(s, set, a);
        assert(s.skip(a) =~= core + trail);
        assert((core + trail)[0] == core[0]);
        lemma_trimmed_end_take(s, set, b);
        assert(s.take(b) =~= lead + core);
        assert((lead + core).last() == core.last());
        let t = core + trail;
        assert forall|i: int| core.len() <= i < t.len() implies set.has(#[trigger] t[i]) by {
            assert(set.has(trail[i - core.len()]));
        }
        lemma_trimmed_end_take(t, set, core.len() as int);
        assert(t.take(core.len() as int) =~= core);
    } else {
        assert forall|i: int| 0 <= i < s.len() implies set.has(#[trigger] s[i]) by {
            if i < a {
                assert(set.has(lead[i]));
            } else {
                assert(set.has(trail[i - a]));
            }
        }
        lemma_trimmed_start_skip(s, set, s.len() as int);
        assert(s.skip(s.len() as int) =~= core);
    }
}

/// Every text is something of the set, its trimmed form, and something of the set.
pub proof fn law_trim_leaves_rest(s: Seq<char>, set: CharSet) -> (r: (Seq<char>, Seq<char>))
    ensures
        s == r.0 + trimmed(s, set) + r.1,
        all_in(r.0, set),
        all_in(r.1, set),
        s == r.0 + trimmed_start(s, set),
        trimmed(s, set).len() > 0 ==> !set.has(trimmed(s, set)[0]) && !set.has(
            trimmed(s, set).last(),
        ),
    decreases s.len(),
{
    law_trim_ends(s, set);
    if s.len() > 0 && set.has(s[0]) {
        let (x, y) = law_trim_leaves_rest(s.drop_first(), set);
        let lead = seq![s[0]] + x;
        assert(s =~= seq![s[0]] + s.drop_first());
        assert(s =~= lead + trimmed(s, set) + y);
        assert(s =~= lead + trimmed_start(s, set));
        (lead, y)
    } else {
        let y = lemma_trim_end_rest(s, set);
        let none = Seq::<char>::empty();
        assert(s =~= none + trimmed(s, set) + y);
        assert(s =~= none + trimmed_start(s, set));
        (none, y)
    }
}

proof fn lemma_trim_end_rest(s: Seq<char>, set: CharSet) -> (r: Seq<char>)
    ensures
        s == trimmed_end(s, set) + r,
        all_in(r, set),
    decreases s.len(),
{
    if s.len() > 0 && set.has(s.last()) {
        let y = lemma_trim_end_rest(s.drop_last(), set);
        assert(s =~= s.drop_last().push(s.last()));
        assert(s =~= trimmed_end(s, set) + y.push(s.last()));
        y.push(s.last())
    } else {
        let none = Seq::<char>::empty();
        assert(s =~= trimmed_end(s, set) + none);
        none
    }
}

/// Lower case changes the capital letters of ASCII and nothing else, each into its
/// own small letter.
pub proof fn law_ascii_lower(s: Seq<char>, i: int)
    requires
        0 <= i < s.len(),
    ensures
        ascii_lower_text(s).len() == s.len(),
        ascii_lower_text(ascii_lower_text(s)) == ascii_lower_text(s),
        'A' <= s[i] <= 'Z' ==> ascii_lower_text(s)[i] as int - 'a' as int == s[i] as int - 'A' as int,
        !('A' <= s[i] <= 'Z') ==> ascii_lower_text(s)[i] == s[i],
{
    assert forall|k: int| 0 <= k < s.len() implies ascii_lower(ascii_lower(s[k])) == ascii_lower(
        s[k],
    ) by {
    }
    assert(ascii_lower_text(ascii_lower_text(s)) =~= ascii_lower_text(s));
}

/// White space is what Unicode calls so, by code; letters and digits are those of
/// ASCII; the sets hold the slash, the two quotes and the two line ends.
pub proof fn law_char_sets(c: char)
    ensures
        is_space(c) <==> ({
            let code = c as u32;
            ||| 9 <= code <= 13
            ||| code == 32
            ||| code == 0x85
            ||| code == 0xa0
            ||| code == 0x1680
            ||| 0x2000 <= code <= 0x200a
            ||| code == 0x2028
            ||| code == 0x2029
            ||| code == 0x202f
            ||| code == 0x205f
            ||| code == 0x3000
        }),
        is_ascii_alnum(c) <==> ({
            let code = c as u32;
            48 <= code <= 57 || 65 <= code <= 90 || 97 <= code <= 122
        }),
        CharSet::Space.has(c) <==> is_space(c),
        CharSet::Slash.has(c) <==> c as u32 == 47,
        CharSet::Quote.has(c) <==> c as u32 == 34 || c as u32 == 39,
        CharSet::LineEnd.has(c) <==> c as u32 == 10 || c as u32 == 13,
{
}

} // verus!
