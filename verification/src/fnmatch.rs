//! Shell patterns: `*`, `?` and character classes, by way of regular expressions.

use vstd::prelude::*;

use crate::outside::{regex_error, regex_error_of, regex_match_of, regex_matches};
use crate::text::{chars_of, concat3, string_between};

verus! {

/// The characters that get a backslash in front.
pub open spec fn is_special(c: char) -> bool {
    c == '\\' || c == '.' || c == '+' || c == '(' || c == ')' || c == '|' || c == '^' || c == '$'
        || c == '{' || c == '}'
}

/// Where the search for the end of a class starts that opens before position
/// `i`: a `!` and then a `]` right behind the opening bracket belong to it.
pub open spec fn class_start(p: Seq<char>, i: int) -> int {
    let j = if i < p.len() && p[i] == '!' {
        i + 1
    } else {
        i
    };
    if j < p.len() && p[j] == ']' {
        j + 1
    } else {
        j
    }
}

/// The first closing bracket at `j` or later, or the end of the pattern.
pub open spec fn closing(p: Seq<char>, j: int) -> int
    decreases p.len() - j,
{
    if j < 0 || j >= p.len() || p[j] == ']' {
        j
    } else {
        closing(p, j + 1)
    }
}

/// The inside of a class: a leading `!` negates, a leading `^` stands for itself.
pub open spec fn class_body(stuff: Seq<char>) -> Seq<char> {
    if stuff.len() > 0 && stuff[0] == '!' {
        seq!['^'] + stuff.drop_first()
    } else if stuff.len() > 0 && stuff[0] == '^' {
        seq!['\\', '^'] + stuff.drop_first()
    } else {
        stuff
    }
}

/// What the pattern from position `i` on means as a regular expression.
pub open spec fn translated_from(p: Seq<char>, i: int) -> Seq<char>
    decreases p.len() - i,
    when 0 <= i
    via translated_decreases
{
    if i >= p.len() {
        seq![]
    } else if p[i] == '*' {
        seq!['.', '*'] + translated_from(p, i + 1)
    } else if p[i] == '?' {
        seq!['.'] + translated_from(p, i + 1)
    } else if p[i] == '[' {
        let j = closing(p, class_start(p, i + 1));
        if j >= p.len() {
            seq!['\\', '['] + translated_from(p, i + 1)
        } else {
            seq!['['] + class_body(p.subrange(i + 1, j)) + seq![']'] + translated_from(p, j + 1)
        }
    } else if is_special(p[i]) {
        seq!['\\', p[i]] + translated_from(p, i + 1)
    } else {
        seq![p[i]] + translated_from(p, i + 1)
    }
}

#[via_fn]
proof fn translated_decreases(p: Seq<char>, i: int) {
    if 0 <= i < p.len() {
        lemma_closing(p, class_start(p, i + 1));
    }
}

/// The closing bracket lies at or behind the place where the search starts.
proof fn lemma_closing(p: Seq<char>, j: int)
    requires
        0 <= j,
    ensures
        closing(p, j) >= j,
        closing(p, j) < p.len() ==> p[closing(p, j)] == ']',
    decreases p.len() - j,
{
    if j < p.len() && p[j] != ']' {
        lemma_closing(p, j + 1);
    }
}

/// The regular expression of a shell pattern.
pub open spec fn translated(p: Seq<char>) -> Seq<char> {
    seq!['^'] + translated_from(p, 0) + seq!['$']
}

/// Whether a name matches a shell pattern. A pattern that makes no regular
/// expression matches nothing.
pub open spec fn matches_pattern(name: Seq<char>, pattern: Seq<char>) -> bool {
    let re = translated(pattern);
    regex_error_of(re, false) is None && regex_match_of(re, false, name)
}

/// Whether a character gets a backslash in front.
fn char_is_special(c: char) -> (r: bool)
    ensures
        r == is_special(c),
{
    c == '\\' || c == '.' || c == '+' || c == '(' || c == ')' || c == '|' || c == '^' || c == '$'
        || c == '{' || c == '}'
}

/// The end of the class that opens before position `i`.
fn class_end(p: &Vec<char>, i: usize) -> (r: usize)
    requires
        i <= p@.len(),
    ensures
        r == closing(p@, class_start(p@, i as int)),
        i <= r <= p@.len(),
{
    let n: usize = p.len();
    let mut j: usize = i;
    if j < n && p[j] == '!' {
        j += 1;
    }
    if j < n && p[j] == ']' {
        j += 1;
    }
    while j < n && p[j] != ']'
        invariant
            i <= j <= n,
            n == p@.len(),
            closing(p@, class_start(p@, i as int)) == closing(p@, j as int),
        decreases n - j,
    {
        j += 1;
    }
    j
}

/// Appends the inside of a class.
fn push_class(res: &mut Vec<char>, stuff: &[char])
    ensures
        final(res)@ == old(res)@ + class_body(stuff@),
{
    let mut k: usize = 0;
    if stuff.len() > 0 && stuff[0] == '!' {
        res.push('^');
        k = 1;
    } else if stuff.len() > 0 && stuff[0] == '^' {
        res.push('\\');
        res.push('^');
        k = 1;
    }
    let ghost start = res@;
    let ghost rest = stuff@.skip(k as int);
    let ghost from = k as int;
    while k < stuff.len()
        invariant
            from <= k <= stuff@.len(),
            0 <= from,
            rest == stuff@.skip(from),
            res@ == start + rest.take(k - from),
        decreases stuff@.len() - k,
    {
        res.push(stuff[k]);
        k += 1;
        assert(res@ =~= start + rest.take(k - from));
    }
    proof {
        assert(rest.take(rest.len() as int) =~= rest);
        if from == 1 {
            assert(rest =~= stuff@.drop_first());
        } else {
            assert(rest =~= stuff@);
        }
        assert(res@ =~= old(res)@ + class_body(stuff@));
    }
}

/// The regular expression of a shell pattern.
pub fn fnmatch_translate(pat: &str) -> (r: String)
    ensures
        r@ == translated(pat@),
{
    let p = chars_of(pat);
    let n: usize = p.len();
    let mut res: Vec<char> = Vec::new();
    let mut i: usize = 0;
    assert(res@ + translated_from(p@, 0) =~= translated_from(p@, 0));
    while i < n
        invariant
            i <= n,
            n == p@.len(),
            p@ == pat@,
            res@ + translated_from(p@, i as int) == translated_from(p@, 0),
        decreases n - i,
    {
        let ghost before = res@;
        let ghost whole = translated_from(p@, i as int);
        let c = p[i];
        i += 1;
        if c == '*' {
            res.push('.');
            res.push('*');
            assert(before + whole =~= res@ + translated_from(p@, i as int));
        } else if c == '?' {
            res.push('.');
            assert(before + whole =~= res@ + translated_from(p@, i as int));
        } else if c == '[' {
            let j: usize = class_end(&p, i);
            if j >= n {
                res.push('\\');
                res.push('[');
                assert(before + whole =~= res@ + translated_from(p@, i as int));
            } else {
                res.push('[');
                let stuff = vstd::slice::slice_subrange(p.as_slice(), i, j);
                push_class(&mut res, stuff);
                res.push(']');
                i = j + 1;
                assert(before + whole =~= res@ + translated_from(p@, i as int));
            }
        } else {
            if char_is_special(c) {
                res.push('\\');
            }
            res.push(c);
            assert(before + whole =~= res@ + translated_from(p@, i as int));
        }
    }
    assert(res@ + Seq::<char>::empty() =~= res@);
    let body = string_between(res.as_slice(), 0, res.len());
    proof {
        assert(body@ =~= res@);
        reveal_strlit("^");
        reveal_strlit("$");
        assert("^"@ =~= seq!['^']);
        assert("$"@ =~= seq!['$']);
    }
    concat3("^", body.as_str(), "$")
}

/// Whether each of the names matches a shell pattern.
pub fn fnmatch_all(names: &Vec<String>, pattern: &str) -> (r: Vec<bool>)
    ensures
        r@.len() == names@.len(),
        forall|i: int|
            0 <= i < names@.len() ==> #[trigger] r@[i] == matches_pattern(names@[i]@, pattern@),
{
    let re = fnmatch_translate(pattern);
    match regex_error(re.as_str(), false) {
        None => regex_matches(re.as_str(), false, names),
        Some(_) => {
            let mut r: Vec<bool> = Vec::new();
            let mut i: usize = 0;
            while i < names.len()
                invariant
                    i <= names@.len(),
                    r@.len() == i,
                    forall|k: int| 0 <= k < i ==> #[trigger] r@[k] == false,
                decreases names@.len() - i,
            {
                r.push(false);
                i += 1;
            }
            r
        },
    }
}

/// Whether a name matches a shell pattern.
pub fn fnmatch(name: &str, pattern: &str) -> (r: bool)
    ensures
        r == matches_pattern(name@, pattern@),
{
    let names: Vec<String> = vec![name.to_owned()];
    let r = fnmatch_all(&names, pattern);
    assert(names@[0]@ == name@);
    r[0]
}

/// A pattern without special characters means the text itself, between anchors.
pub proof fn law_plain_pattern(p: Seq<char>, i: int)
    requires
        0 <= i <= p.len(),
        forall|k: int|
            0 <= k < p.len() ==> (#[trigger] p[k]) != '*' && p[k] != '?' && p[k] != '['
                && !is_special(p[k]),
    ensures
        translated_from(p, i) == p.skip(i),
    decreases p.len() - i,
{
    if i < p.len() {
        law_plain_pattern(p, i + 1);
        assert(translated_from(p, i) =~= p.skip(i));
    } else {
        assert(p.skip(i) =~= seq![]);
    }
}

// --- pattern by pattern ------------------------------------------------------

/// What a pattern means on its own, without the anchors.
pub open spec fn meaning(p: Seq<char>) -> Seq<char> {
    translated_from(p, 0)
}

proof fn lemma_closing_shift(x: Seq<char>, p: Seq<char>, j: int)
    requires
        0 <= j,
    ensures
        closing(x + p, x.len() + j) == x.len() + closing(p, j),
    decreases p.len() - j,
{
    if j < p.len() {
        assert((x + p)[x.len() + j] == p[j]);
        if p[j] != ']' {
            lemma_closing_shift(x, p, j + 1);
        }
    }
}

proof fn lemma_translated_shift(x: Seq<char>, p: Seq<char>, i: int)
    requires
        0 <= i,
    ensures
        translated_from(x + p, x.len() + i) == translated_from(p, i),
    decreases p.len() - i,
{
    let w = x + p;
    let n = x.len() as int;
    if i < p.len() {
        assert(w[n + i] == p[i]);
        if p[i] == '[' {
            if i + 1 < p.len() {
                assert(w[n + i + 1] == p[i + 1]);
            }
            if i + 2 < p.len() {
                assert(w[n + i + 2] == p[i + 2]);
            }
            let s = class_start(p, i + 1);
            assert(class_start(w, n + i + 1) == n + s);
            lemma_closing(p, s);
            lemma_closing_shift(x, p, s);
            let j = closing(p, s);
            if j < p.len() {
                lemma_translated_shift(x, p, j + 1);
                assert(w.subrange(n + i + 1, n + j) =~= p.subrange(i + 1, j));
            } else {
                lemma_translated_shift(x, p, i + 1);
            }
        } else {
            lemma_translated_shift(x, p, i + 1);
        }
    }
}

/// A pattern is matched as a whole: its meaning stands between the two anchors.
/// An empty one means nothing. `*` stands for any text, `?` for any character, a
/// character with a meaning of its own in an expression is escaped, and any other
/// stands for itself; what follows does not matter to it.
pub proof fn law_wildcards(c: char, rest: Seq<char>)
    ensures
        translated(rest) == seq!['^'] + meaning(rest) + seq!['$'],
        meaning(seq![]) == Seq::<char>::empty(),
        meaning(seq!['*'] + rest) == seq!['.', '*'] + meaning(rest),
        meaning(seq!['?'] + rest) == seq!['.'] + meaning(rest),
        c != '*' && c != '?' && c != '[' ==> meaning(seq![c] + rest) == (if c == '\\' || c == '.'
            || c == '+' || c == '(' || c == ')' || c == '|' || c == '^' || c == '$' || c == '{' || c
            == '}' {
            seq!['\\', c]
        } else {
            seq![c]
        }) + meaning(rest),
{
    lemma_translated_shift(seq!['*'], rest, 0);
    lemma_translated_shift(seq!['?'], rest, 0);
    lemma_translated_shift(seq![c], rest, 0);
    assert((seq!['*'] + rest)[0] == '*');
    assert((seq!['?'] + rest)[0] == '?');
    assert((seq![c] + rest)[0] == c);
}

proof fn lemma_closing_at(p: Seq<char>, j: int, k: int)
    requires
        0 <= j <= k <= p.len(),
        forall|i: int| j <= i < k ==> #[trigger] p[i] != ']',
        k < p.len() ==> p[k] == ']',
    ensures
        closing(p, j) == k,
    decreases k - j,
{
    if j < k {
        assert(p[j] != ']');
        lemma_closing_at(p, j + 1, k);
    }
}

/// A class reaches to its closing bracket. A `!` at its head negates it, a `^`
/// there stands for itself, and so does a `]`, at the head or behind the `!`; what
/// else it holds stays as it is.
pub proof fn law_classes(body: Seq<char>, rest: Seq<char>)
    requires
        !body.contains(']'),
    ensures
        ({
            let end = seq![']'] + meaning(rest);
            &&& body.len() > 0 && body[0] != '!' && body[0] != '^' ==> meaning(
                seq!['['] + body + seq![']'] + rest,
            ) == seq!['['] + body + end
            &&& body.len() > 0 ==> meaning(seq!['[', '!'] + body + seq![']'] + rest) == seq![
                '[',
                '^',
            ] + body + end
            &&& meaning(seq!['[', '^'] + body + seq![']'] + rest) == seq!['[', '\\', '^'] + body
                + end
            &&& meaning(seq!['[', ']'] + body + seq![']'] + rest) == seq!['[', ']'] + body + end
            &&& meaning(seq!['[', '!', ']'] + body + seq![']'] + rest) == seq!['[', '^', ']'] + body
                + end
        }),
{
    if body.len() > 0 && body[0] != '!' && body[0] != '^' {
        lemma_class(seq!['['], body, rest, 1);
    }
    if body.len() > 0 {
        lemma_class(seq!['[', '!'], body, rest, 2);
    }
    lemma_class(seq!['[', '^'], body, rest, 1);
    lemma_class(seq!['[', ']'], body, rest, 2);
    lemma_class(seq!['[', '!', ']'], body, rest, 3);
}

proof fn lemma_class(head: Seq<char>, body: Seq<char>, rest: Seq<char>, from: int)
    requires
        !body.contains(']'),
        head == seq!['['] && body.len() > 0 && body[0] != '!' && from == 1 || head == seq![
            '[',
            '!',
        ] && body.len() > 0 && from == 2 || head == seq!['[', '^'] && from == 1 || head == seq![
            '[',
            ']',
        ] && from == 2 || head == seq!['[', '!', ']'] && from == 3,
    ensures
        meaning(head + body + seq![']'] + rest) == seq!['['] + class_body(head.skip(1) + body)
            + seq![']'] + meaning(rest),
        head == seq!['[', '!'] ==> class_body(head.skip(1) + body) == seq!['^'] + body,
        head == seq!['[', '^'] ==> class_body(head.skip(1) + body) == seq!['\\', '^'] + body,
        head == seq!['[', ']'] ==> class_body(head.skip(1) + body) == seq![']'] + body,
        head == seq!['[', '!', ']'] ==> class_body(head.skip(1) + body) == seq!['^', ']'] + body,
        head == seq!['['] && body[0] != '^' ==> class_body(head.skip(1) + body) == body,
{
    let p = head + body + seq![']'] + rest;
    let k = (head.len() + body.len()) as int;
    assert forall|i: int| 0 <= i < p.len() implies #[trigger] p[i] == (if i < head.len() {
        head[i]
    } else if i < k {
        body[i - head.len()]
    } else if i == k {
        ']'
    } else {
        rest[i - k - 1]
    }) by {}
    assert forall|i: int| from <= i < k implies #[trigger] p[i] != ']' by {
        if i >= head.len() {
            assert(body.contains(body[i - head.len()]));
        }
    }
    if body.len() > 0 {
        assert(body.contains(body[0]));
    }
    assert(p[0] == '[');
    assert(class_start(p, 1) == from);
    lemma_closing_at(p, from, k);
    let x = head + body + seq![']'];
    lemma_translated_shift(x, rest, 0);
    assert(x.len() == k + 1);
    assert(p == x + rest);
    assert(p.subrange(1, k) =~= head.skip(1) + body);
    let stuff = head.skip(1) + body;
    if head == seq!['['] {
        assert(stuff =~= body);
    } else {
        assert(stuff[0] == head[1]);
        assert(stuff.drop_first() =~= head.skip(2) + body);
        if head.len() == 2 {
            assert(head.skip(2) + body =~= body);
        }
    }
}

/// A bracket that nothing closes stands for itself.
pub proof fn law_open_bracket(rest: Seq<char>)
    requires
        !rest.contains(']'),
    ensures
        meaning(seq!['['] + rest) == seq!['\\', '['] + meaning(rest),
{
    let p = seq!['['] + rest;
    let s = class_start(p, 1);
    assert forall|i: int| 1 <= i < p.len() implies #[trigger] p[i] != ']' by {
        assert(p[i] == rest[i - 1]);
        assert(rest.contains(rest[i - 1]));
    }
    assert(1 <= s <= p.len());
    lemma_closing_at(p, s, p.len() as int);
    lemma_translated_shift(seq!['['], rest, 0);
    assert(p[0] == '[');
}

/// A name matches exactly where the expression is one and the expression does; a
/// pattern that makes no expression matches nothing.
pub proof fn law_matched_whole(name: Seq<char>, pattern: Seq<char>)
    ensures
        ({
            let re = seq!['^'] + meaning(pattern) + seq!['$'];
            &&& regex_error_of(re, false) is Some ==> !matches_pattern(name, pattern)
            &&& regex_error_of(re, false) is None ==> (matches_pattern(name, pattern)
                <==> regex_match_of(re, false, name))
        }),
{
}

} // verus!
