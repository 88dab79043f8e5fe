//! The line-by-line comparison of two text files.

use vstd::prelude::*;

use crate::chars::{char_is_ascii_alnum, char_is_space, is_ascii_alnum, is_space};
use crate::decode::{decode_text, decoded_text};
use crate::error::{unprocessable, ApiError, ErrorView};
use crate::find::{replace_all, replace_text};
use crate::number::{decimal, u64_decimal};
use crate::outside::{
    diff_ops, diff_ops_of, grouped_ops, grouped_ops_of, unicode_alnum, DiffOp, DiffTag,
};
use crate::path::{file_name, file_name_of};
use crate::steps::{
    begins, clustered, ends, group_runs, group_views, leads, lemma_fit_last, lemma_hold_last,
    lemma_runs, lemma_side_count_grows, names_side, op_fits, ops_fit, ops_hold, reaches, runs,
    side_count, side_end, side_len, side_start, spaced,
};
use crate::text::{
    chars_of, concat_strs, concat_texts, lemma_concat_push, lines, lines_of, texts,
};

verus! {

/// The largest file that is compared: 50 MiB.
pub const MAX_FILE_BYTES: u64 = 52_428_800;

/// The longest text that is compared, in characters.
pub const MAX_TEXT_CHARS: usize = 2_000_000;

/// The most lines that are compared.
pub const MAX_LINES: usize = 50_000;

/// The longest line that is looked into, in characters.
pub const SEGMENT_LINE_MAX: usize = 4096;

/// The request for a comparison.
#[derive(Debug)]
pub struct CompareRequest {
    /// Workspace-relative path to the original file.
    pub original: String,
    /// Workspace-relative path to the revised file.
    pub revised: String,
    /// Compare with white space left out of the lines.
    pub ignore_whitespace: bool,
}

/// A run of text inside a line.
#[derive(Debug)]
pub struct Segment {
    /// The text run.
    pub text: String,
    /// Whether it differs between the two sides.
    pub changed: bool,
}

/// A run of text inside a line.
pub struct SegmentView {
    /// The text run.
    pub text: Seq<char>,
    /// Whether it differs between the two sides.
    pub changed: bool,
}

impl View for Segment {
    type V = SegmentView;

    open spec fn view(&self) -> SegmentView {
        SegmentView { text: self.text@, changed: self.changed }
    }
}

/// One line of a hunk.
#[derive(Debug)]
pub struct CompareLine {
    /// `context`, `removed` or `added`.
    pub kind: String,
    /// Line number on the original side, from 1.
    pub old_number: Option<u64>,
    /// Line number on the revised side, from 1.
    pub new_number: Option<u64>,
    /// The line; for context the original one.
    pub content: String,
    /// The revised line, for context only.
    pub revised_content: Option<String>,
    /// The runs that the line is made of.
    pub segments: Vec<Segment>,
}

/// One line of a hunk.
pub struct LineView {
    /// `context`, `removed` or `added`.
    pub kind: Seq<char>,
    /// Line number on the original side, from 1.
    pub old_number: Option<u64>,
    /// Line number on the revised side, from 1.
    pub new_number: Option<u64>,
    /// The line; for context the original one.
    pub content: Seq<char>,
    /// The revised line, for context only.
    pub revised_content: Option<Seq<char>>,
    /// The runs that the line is made of.
    pub segments: Seq<SegmentView>,
}

impl View for CompareLine {
    type V = LineView;

    open spec fn view(&self) -> LineView {
        LineView {
            kind: self.kind@,
            old_number: self.old_number,
            new_number: self.new_number,
            content: self.content@,
            revised_content: crate::text::opt_text(self.revised_content),
            segments: segment_views(self.segments@),
        }
    }
}

/// A change with the lines around it.
#[derive(Debug)]
pub struct CompareHunk {
    /// `@@ -{old start},{old length} +{new start},{new length} @@`.
    pub header: String,
    /// The lines, removed before added within a change.
    pub lines: Vec<CompareLine>,
}

/// A change with the lines around it.
pub struct HunkView {
    /// The header line.
    pub header: Seq<char>,
    /// The lines.
    pub lines: Seq<LineView>,
}

impl View for CompareHunk {
    type V = HunkView;

    open spec fn view(&self) -> HunkView {
        HunkView { header: self.header@, lines: line_views(self.lines@) }
    }
}

/// What is said of each of the two files.
#[derive(Debug)]
pub struct CompareFile {
    /// Absolute path of the file.
    pub path: String,
    /// Base name.
    pub name: String,
    /// Extraction notices; plain text has none.
    pub notices: Vec<String>,
}

/// The answer to a comparison.
#[derive(Debug)]
pub struct CompareResponse {
    /// The original file.
    pub original: CompareFile,
    /// The revised file.
    pub revised: CompareFile,
    /// How many lines are added.
    pub additions: u64,
    /// How many lines are removed.
    pub deletions: u64,
    /// The changes.
    pub hunks: Vec<CompareHunk>,
}

/// The views of segments.
pub open spec fn segment_views(v: Seq<Segment>) -> Seq<SegmentView> {
    v.map_values(|s: Segment| s@)
}

/// The views of lines.
pub open spec fn line_views(v: Seq<CompareLine>) -> Seq<LineView> {
    v.map_values(|l: CompareLine| l@)
}

/// The views of hunks.
pub open spec fn hunk_views(v: Seq<CompareHunk>) -> Seq<HunkView> {
    v.map_values(|h: CompareHunk| h@)
}

// --- tokens ------------------------------------------------------------------

/// The kinds of characters that tokens are made of.
#[derive(Clone, Copy, PartialEq, Eq, Structural, Debug)]
pub enum CharKind {
    /// Letters, digits and `_`: a run of them is a token.
    Word,
    /// White space: a run of it is a token.
    Space,
    /// Anything else: each is a token of its own.
    Other,
}

/// The kind of a character.
pub open spec fn kind_of(c: char) -> CharKind {
    if (c as u32) < 128 {
        if is_ascii_alnum(c) || c == '_' {
            CharKind::Word
        } else if c == ' ' || c == '\t' || c == '\n' || c == '\u{c}' || c == '\r' {
            CharKind::Space
        } else {
            CharKind::Other
        }
    } else if unicode_alnum(c) {
        CharKind::Word
    } else if is_space(c) {
        CharKind::Space
    } else {
        CharKind::Other
    }
}

/// The kind of a character.
fn char_kind(c: char) -> (r: CharKind)
    ensures
        r == kind_of(c),
{
    if (c as u32) < 128 {
        if char_is_ascii_alnum(c) || c == '_' {
            CharKind::Word
        } else if c == ' ' || c == '\t' || c == '\n' || c == '\u{c}' || c == '\r' {
            CharKind::Space
        } else {
            CharKind::Other
        }
    } else if c.is_alphanumeric() {
        CharKind::Word
    } else if char_is_space(c) {
        CharKind::Space
    } else {
        CharKind::Other
    }
}

/// The last character of `s` belongs to the token of the one before.
pub open spec fn continues_token(s: Seq<char>) -> bool {
    s.len() > 1 && kind_of(s.last()) != CharKind::Other && kind_of(s[s.len() - 2]) == kind_of(
        s.last(),
    )
}

/// The tokens of a line: runs of word characters, runs of white space, and
/// single other characters.
pub open spec fn tokens_of(s: Seq<char>) -> Seq<Seq<char>>
    decreases s.len(),
{
    if s.len() == 0 {
        seq![]
    } else {
        let rest = tokens_of(s.drop_last());
        if continues_token(s) {
            rest.drop_last().push(rest.last().push(s.last()))
        } else {
            rest.push(seq![s.last()])
        }
    }
}

proof fn lemma_tokens_nonempty(s: Seq<char>)
    requires
        s.len() > 0,
    ensures
        tokens_of(s).len() > 0,
    decreases s.len(),
{
    if s.len() > 1 {
        lemma_tokens_nonempty(s.drop_last());
    }
}

/// The tokens of a line, put together, are the line.
pub proof fn law_tokens_reassemble(s: Seq<char>)
    ensures
        concat_texts(tokens_of(s)) == s,
    decreases s.len(),
{
    if s.len() > 0 {
        let rest = tokens_of(s.drop_last());
        law_tokens_reassemble(s.drop_last());
        if continues_token(s) {
            lemma_tokens_nonempty(s.drop_last());
            assert(rest =~= rest.drop_last().push(rest.last()));
            lemma_concat_push(rest.drop_last(), rest.last());
            lemma_concat_push(rest.drop_last(), rest.last().push(s.last()));
            assert(concat_texts(tokens_of(s)) =~= concat_texts(rest).push(s.last()));
        } else {
            lemma_concat_push(rest, seq![s.last()]);
            assert(concat_texts(tokens_of(s)) =~= concat_texts(rest).push(s.last()));
        }
        assert(s.drop_last().push(s.last()) =~= s);
    } else {
        assert(s =~= seq![]);
    }
}

/// The tokens of a line.
pub fn tokenize(line: &str) -> (r: Vec<String>)
    ensures
        texts(r@) == tokens_of(line@),
{
    let cs = chars_of(line);
    let mut r: Vec<String> = Vec::new();
    let mut cur: String = String::new();
    let mut i: usize = 0;
    assert(texts(r@) =~= tokens_of(cs@.take(0)));
    while i < cs.len()
        invariant
            i <= cs.len(),
            cs@ == line@,
            cur@.len() > 0 <==> i > 0,
            tokens_of(cs@.take(i as int)) == if i > 0 {
                texts(r@).push(cur@)
            } else {
                texts(r@)
            },
        decreases cs.len() - i,
    {
        let c = cs[i];
        let kind = char_kind(c);
        let ghost r0 = texts(r@);
        let ghost cur0 = cur@;
        let ghost before = tokens_of(cs@.take(i as int));
        proof {
            let t = cs@.take(i as int + 1);
            assert(t.drop_last() =~= cs@.take(i as int));
            assert(t.last() == c);
            if i > 0 {
                assert(t[t.len() - 2] == cs@[i - 1]);
                assert(before.drop_last() =~= r0);
                assert(before.last() == cur0);
            }
        }
        let joins: bool = if i == 0 || kind == CharKind::Other {
            false
        } else {
            let previous = char_kind(cs[i - 1]);
            previous == kind
        };
        assert(joins == continues_token(cs@.take(i as int + 1)));
        if joins {
            cur.push(c);
        } else {
            if i > 0 {
                r.push(cur);
                cur = String::new();
                assert(texts(r@) =~= r0.push(cur0));
            }
            cur.push(c);
            assert(cur@ =~= seq![c]);
        }
        i += 1;
    }
    assert(cs@.take(cs@.len() as int) =~= cs@);
    if cs.len() > 0 {
        let ghost r0 = texts(r@);
        let ghost cur0 = cur@;
        r.push(cur);
        assert(texts(r@) =~= r0.push(cur0));
    }
    r
}

// --- segments ----------------------------------------------------------------

/// The items from `i` to `j` as segments.
pub open spec fn marked(items: Seq<Seq<char>>, i: int, j: int, changed: bool) -> Seq<SegmentView> {
    Seq::new((j - i) as nat, |k: int| SegmentView { text: items[i + k], changed })
}

/// The items that a step names on the chosen side, as segments: changed unless
/// the step keeps them.
pub open spec fn op_segments(items: Seq<Seq<char>>, op: DiffOp, old_side: bool) -> Seq<
    SegmentView,
> {
    if names_side(op, old_side) {
        marked(
            items,
            side_start(op, old_side),
            side_end(op, old_side),
            op.tag != DiffTag::Equal,
        )
    } else {
        seq![]
    }
}

/// The items of the chosen side as segments, step by step.
pub open spec fn side_segments(items: Seq<Seq<char>>, ops: Seq<DiffOp>, old_side: bool) -> Seq<
    SegmentView,
>
    decreases ops.len(),
{
    if ops.len() == 0 {
        seq![]
    } else {
        side_segments(items, ops.drop_last(), old_side) + op_segments(items, ops.last(), old_side)
    }
}

/// The texts of segments.
pub open spec fn segment_texts(v: Seq<SegmentView>) -> Seq<Seq<char>> {
    v.map_values(|s: SegmentView| s.text)
}

/// The texts of the segments that are not changed.
pub open spec fn kept_texts(v: Seq<SegmentView>) -> Seq<Seq<char>>
    decreases v.len(),
{
    if v.len() == 0 {
        seq![]
    } else if v.last().changed {
        kept_texts(v.drop_last())
    } else {
        kept_texts(v.drop_last()).push(v.last().text)
    }
}

proof fn lemma_side_texts(items: Seq<Seq<char>>, ops: Seq<DiffOp>, old_side: bool, end: int)
    requires
        runs(ops, old_side, 0, end),
        end <= items.len(),
    ensures
        0 <= end,
        segment_texts(side_segments(items, ops, old_side)) == items.take(end),
    decreases ops.len(),
{
    if ops.len() == 0 {
        assert(segment_texts(side_segments(items, ops, old_side)) =~= items.take(0));
    } else {
        let first = side_segments(items, ops.drop_last(), old_side);
        let more = op_segments(items, ops.last(), old_side);
        if names_side(ops.last(), old_side) {
            let mid = side_start(ops.last(), old_side);
            lemma_side_texts(items, ops.drop_last(), old_side, mid);
            assert(segment_texts(more) =~= items.subrange(mid, end));
            assert(items.take(mid) + items.subrange(mid, end) =~= items.take(end));
        } else {
            lemma_side_texts(items, ops.drop_last(), old_side, end);
            assert(segment_texts(more) =~= seq![]);
            assert(items.take(end) + Seq::<Seq<char>>::empty() =~= items.take(end));
        }
        assert(segment_texts(first + more) =~= segment_texts(first) + segment_texts(more));
    }
}

/// Where steps lead from the tokens of one line to those of another, the
/// segments of a side, put together, are its line.
pub proof fn law_segments_reassemble(
    original: Seq<char>,
    revised: Seq<char>,
    ops: Seq<DiffOp>,
)
    requires
        leads(ops, tokens_of(original), tokens_of(revised)),
    ensures
        concat_texts(segment_texts(side_segments(tokens_of(original), ops, true))) == original,
        concat_texts(segment_texts(side_segments(tokens_of(revised), ops, false))) == revised,
{
    let (a, b) = (tokens_of(original), tokens_of(revised));
    lemma_side_texts(a, ops, true, a.len() as int);
    lemma_side_texts(b, ops, false, b.len() as int);
    law_tokens_reassemble(original);
    law_tokens_reassemble(revised);
    assert(a.take(a.len() as int) =~= a);
    assert(b.take(b.len() as int) =~= b);
}

proof fn lemma_kept_append(x: Seq<SegmentView>, y: Seq<SegmentView>)
    ensures
        kept_texts(x + y) == kept_texts(x) + kept_texts(y),
    decreases y.len(),
{
    if y.len() == 0 {
        assert(x + y =~= x);
        assert(kept_texts(x) + kept_texts(y) =~= kept_texts(x));
    } else {
        lemma_kept_append(x, y.drop_last());
        assert((x + y).drop_last() =~= x + y.drop_last());
        assert((x + y).last() == y.last());
        assert(kept_texts(x + y) =~= kept_texts(x) + kept_texts(y));
    }
}

proof fn lemma_kept_marked(items: Seq<Seq<char>>, i: int, j: int, changed: bool)
    requires
        0 <= i <= j <= items.len(),
    ensures
        kept_texts(marked(items, i, j, changed)) == if changed {
            seq![]
        } else {
            items.subrange(i, j)
        },
    decreases j - i,
{
    let all = marked(items, i, j, changed);
    if i < j {
        lemma_kept_marked(items, i, j - 1, changed);
        assert(all.drop_last() =~= marked(items, i, j - 1, changed));
        assert(items.subrange(i, j - 1).push(items[j - 1]) =~= items.subrange(i, j));
    } else {
        assert(all =~= seq![]);
        assert(items.subrange(i, j) =~= seq![]);
    }
}

/// What is marked as unchanged is the same on both sides.
pub proof fn law_unchanged_agrees(
    a: Seq<Seq<char>>,
    b: Seq<Seq<char>>,
    ops: Seq<DiffOp>,
)
    requires
        ops_hold(ops, a, b),
    ensures
        kept_texts(side_segments(a, ops, true)) == kept_texts(side_segments(b, ops, false)),
    decreases ops.len(),
{
    if ops.len() > 0 {
        let op = ops.last();
        lemma_hold_last(ops, a, b);
        law_unchanged_agrees(a, b, ops.drop_last());
        lemma_kept_append(side_segments(a, ops.drop_last(), true), op_segments(a, op, true));
        lemma_kept_append(side_segments(b, ops.drop_last(), false), op_segments(b, op, false));
        let changed = op.tag != DiffTag::Equal;
        if names_side(op, true) {
            lemma_kept_marked(a, op.old_start as int, op.old_end as int, changed);
        }
        if names_side(op, false) {
            lemma_kept_marked(b, op.new_start as int, op.new_end as int, changed);
        }
    }
}

/// Appends the items from `i` to `j` as segments.
fn push_marked(out: &mut Vec<Segment>, items: &Vec<String>, i: usize, j: usize, changed: bool)
    requires
        i <= j <= items@.len(),
    ensures
        segment_views(final(out)@) == segment_views(old(out)@) + marked(
            texts(items@),
            i as int,
            j as int,
            changed,
        ),
{
    let mut k: usize = i;
    let ghost before = segment_views(out@);
    assert(before + marked(texts(items@), i as int, i as int, changed) =~= before);
    while k < j
        invariant
            i <= k <= j <= items@.len(),
            segment_views(out@) == before + marked(texts(items@), i as int, k as int, changed),
        decreases j - k,
    {
        let ghost v0 = segment_views(out@);
        out.push(Segment { text: items[k].clone(), changed });
        k += 1;
        assert(segment_views(out@) =~= v0.push(
            SegmentView { text: texts(items@)[k as int - 1], changed },
        ));
        assert(segment_views(out@) =~= before + marked(
            texts(items@),
            i as int,
            k as int,
            changed,
        ));
    }
}

/// The segments of the two sides, for given steps between their tokens.
pub fn segments_from(a: &Vec<String>, b: &Vec<String>, ops: &Vec<DiffOp>) -> (r: (
    Vec<Segment>,
    Vec<Segment>,
))
    requires
        ops_fit(ops@, a@.len() as int, b@.len() as int),
    ensures
        segment_views(r.0@) == side_segments(texts(a@), ops@, true),
        segment_views(r.1@) == side_segments(texts(b@), ops@, false),
{
    let mut left: Vec<Segment> = Vec::new();
    let mut right: Vec<Segment> = Vec::new();
    let mut i: usize = 0;
    assert(segment_views(left@) =~= seq![]);
    assert(segment_views(right@) =~= seq![]);
    while i < ops.len()
        invariant
            i <= ops.len(),
            ops_fit(ops@, a@.len() as int, b@.len() as int),
            segment_views(left@) == side_segments(texts(a@), ops@.take(i as int), true),
            segment_views(right@) == side_segments(texts(b@), ops@.take(i as int), false),
        decreases ops.len() - i,
    {
        let op = ops[i];
        proof {
            assert(op_fits(ops@[i as int], a@.len() as int, b@.len() as int));
            assert(ops@.take(i as int + 1).drop_last() =~= ops@.take(i as int));
            assert(ops@.take(i as int + 1).last() == op);
        }
        let changed: bool = op.tag != DiffTag::Equal;
        let ghost none = Seq::<SegmentView>::empty();
        assert(segment_views(left@) + none =~= segment_views(left@));
        assert(segment_views(right@) + none =~= segment_views(right@));
        if op.tag != DiffTag::Insert {
            push_marked(&mut left, a, op.old_start, op.old_end, changed);
        }
        if op.tag != DiffTag::Delete {
            push_marked(&mut right, b, op.new_start, op.new_end, changed);
        }
        i += 1;
    }
    assert(ops@.take(ops@.len() as int) =~= ops@);
    (left, right)
}

/// Whether a pair of lines is looked into.
pub open spec fn is_short_pair(original: Seq<char>, revised: Seq<char>) -> bool {
    original.len() <= SEGMENT_LINE_MAX && revised.len() <= SEGMENT_LINE_MAX
}

/// The segments of a pair of lines.
pub open spec fn pair_segments(original: Seq<char>, revised: Seq<char>) -> (
    Seq<SegmentView>,
    Seq<SegmentView>,
) {
    if is_short_pair(original, revised) {
        let (a, b) = (tokens_of(original), tokens_of(revised));
        let ops = diff_ops_of(a, b);
        (side_segments(a, ops, true), side_segments(b, ops, false))
    } else {
        (one_segment(original), one_segment(revised))
    }
}

/// The view of a pair of segment rows.
pub open spec fn pair_view(p: (Vec<Segment>, Vec<Segment>)) -> (
    Seq<SegmentView>,
    Seq<SegmentView>,
) {
    (segment_views(p.0@), segment_views(p.1@))
}

/// The segments of a removed line and the added line beside it: put together
/// they are the lines, and what is unchanged is the same on both sides. Long
/// lines are one unchanged segment each.
pub fn segments(original: &str, revised: &str) -> (r: (Vec<Segment>, Vec<Segment>))
    ensures
        pair_view(r) == pair_segments(original@, revised@),
        concat_texts(segment_texts(segment_views(r.0@))) == original@,
        concat_texts(segment_texts(segment_views(r.1@))) == revised@,
        is_short_pair(original@, revised@) ==> {
            let (a, b) = (tokens_of(original@), tokens_of(revised@));
            &&& kept_texts(segment_views(r.0@)) == kept_texts(segment_views(r.1@))
            &&& segment_texts(segment_views(r.0@)) == a
            &&& segment_texts(segment_views(r.1@)) == b
            &&& segment_views(r.0@) == side_segments(a, diff_ops_of(a, b), true)
            &&& segment_views(r.1@) == side_segments(b, diff_ops_of(a, b), false)
        },
{
    if chars_of(original).len() > SEGMENT_LINE_MAX || chars_of(revised).len() > SEGMENT_LINE_MAX {
        let left = whole(&original.to_owned());
        let right = whole(&revised.to_owned());
        proof {
            lemma_one_segment(original@);
            lemma_one_segment(revised@);
        }
        return (left, right);
    }
    let a = tokenize(original);
    let b = tokenize(revised);
    let ops = diff_ops(&a, &b);
    assert(texts(a@).len() == a@.len() && texts(b@).len() == b@.len());
    proof {
        law_segments_reassemble(original@, revised@, ops@);
        law_unchanged_agrees(texts(a@), texts(b@), ops@);
        lemma_side_texts(texts(a@), ops@, true, a@.len() as int);
        lemma_side_texts(texts(b@), ops@, false, b@.len() as int);
        assert(texts(a@).take(a@.len() as int) =~= texts(a@));
        assert(texts(b@).take(b@.len() as int) =~= texts(b@));
    }
    segments_from(&a, &b, &ops)
}

proof fn lemma_one_segment(text: Seq<char>)
    ensures
        concat_texts(segment_texts(one_segment(text))) == text,
{
    let none = Seq::<Seq<char>>::empty();
    assert(segment_texts(one_segment(text)) =~= none.push(text));
    lemma_concat_push(none, text);
    assert(concat_texts(none) + text =~= text);
}

// --- hunks -------------------------------------------------------------------

/// How the segments of a removed and an added line are found.
pub type SegmentFn = spec_fn(Seq<char>, Seq<char>) -> (Seq<SegmentView>, Seq<SegmentView>);

/// The closure finds segments as `seg` says.
pub open spec fn finds_as<F: Fn(&str, &str) -> (Vec<Segment>, Vec<Segment>)>(
    f: F,
    seg: SegmentFn,
) -> bool {
    forall|x: &str, y: &str, o: (Vec<Segment>, Vec<Segment>)| #[trigger]
        call_ensures(f, (x, y), o) ==> pair_view(o) == seg(x@, y@)
}

/// The segments, put together, are the text.
pub open spec fn makes_up(segments: Seq<SegmentView>, text: Seq<char>) -> bool {
    concat_texts(segment_texts(segments)) == text
}

/// Whatever segments the closure finds, those of a side, put together, are the
/// line of that side.
pub open spec fn segments_whole<F: Fn(&str, &str) -> (Vec<Segment>, Vec<Segment>)>(f: F) -> bool {
    forall|x: &str, y: &str, o: (Vec<Segment>, Vec<Segment>)| #[trigger]
        call_ensures(f, (x, y), o) ==> makes_up(pair_view(o).0, x@) && makes_up(
            pair_view(o).1,
            y@,
        )
}

/// The segments of a line, where it has any, put together, are the line.
pub open spec fn line_made_up(line: LineView) -> bool {
    line.segments.len() == 0 || makes_up(line.segments, line.content)
}

/// The segments of all lines that have any are the lines.
pub open spec fn lines_made_up(lines: Seq<LineView>) -> bool {
    forall|i: int| 0 <= i < lines.len() ==> line_made_up(#[trigger] lines[i])
}

/// The segments of all lines of all hunks are the lines.
pub open spec fn hunks_made_up(hunks: Seq<HunkView>) -> bool {
    forall|h: int| 0 <= h < hunks.len() ==> lines_made_up((#[trigger] hunks[h]).lines)
}

/// What a line says is true of the two files: its numbers are those of lines that
/// are there, its text is the text of that line, its kind goes by which numbers it
/// has, and context is not marked.
pub open spec fn line_true(line: LineView, a: Seq<Seq<char>>, b: Seq<Seq<char>>) -> bool {
    match (line.old_number, line.new_number) {
        (Some(x), Some(y)) => {
            &&& line.kind == "context"@
            &&& 1 <= x <= a.len() && line.content == a[x - 1]
            &&& 1 <= y <= b.len() && line.revised_content == Some(b[y - 1])
            &&& line.segments == seq![SegmentView { text: line.content, changed: false }]
        },
        (Some(x), None) => {
            &&& line.kind == "removed"@
            &&& 1 <= x <= a.len() && line.content == a[x - 1]
            &&& line.revised_content is None
        },
        (None, Some(y)) => {
            &&& line.kind == "added"@
            &&& 1 <= y <= b.len() && line.content == b[y - 1]
            &&& line.revised_content is None
        },
        (None, None) => false,
    }
}

/// What the lines of all hunks say is true of the two files.
pub open spec fn hunks_true(hunks: Seq<HunkView>, a: Seq<Seq<char>>, b: Seq<Seq<char>>) -> bool {
    forall|h: int, k: int|
        0 <= h < hunks.len() && 0 <= k < hunks[h].lines.len() ==> line_true(
            #[trigger] hunks[h].lines[k],
            a,
            b,
        )
}

/// A line as one unchanged segment.
pub open spec fn one_segment(text: Seq<char>) -> Seq<SegmentView> {
    seq![SegmentView { text, changed: false }]
}

/// Original line `x` and revised line `y` as context.
pub open spec fn context_line(a: Seq<Seq<char>>, b: Seq<Seq<char>>, x: int, y: int) -> LineView {
    LineView {
        kind: "context"@,
        old_number: Some((x + 1) as u64),
        new_number: Some((y + 1) as u64),
        content: a[x],
        revised_content: Some(b[y]),
        segments: one_segment(a[x]),
    }
}

/// Original line `x` as removed.
pub open spec fn removed_line(a: Seq<Seq<char>>, x: int, segments: Seq<SegmentView>) -> LineView {
    LineView {
        kind: "removed"@,
        old_number: Some((x + 1) as u64),
        new_number: None,
        content: a[x],
        revised_content: None,
        segments,
    }
}

/// Revised line `y` as added.
pub open spec fn added_line(b: Seq<Seq<char>>, y: int, segments: Seq<SegmentView>) -> LineView {
    LineView {
        kind: "added"@,
        old_number: None,
        new_number: Some((y + 1) as u64),
        content: b[y],
        revised_content: None,
        segments,
    }
}

/// How many lines of a replacement have a partner on the other side.
pub open spec fn paired(op: DiffOp) -> int {
    if op.old_end - op.old_start <= op.new_end - op.new_start {
        op.old_end - op.old_start
    } else {
        op.new_end - op.new_start
    }
}

/// The segments of the partners at distance `k` in a replacement.
pub open spec fn partners(
    a: Seq<Seq<char>>,
    b: Seq<Seq<char>>,
    op: DiffOp,
    seg: SegmentFn,
    k: int,
) -> (Seq<SegmentView>, Seq<SegmentView>) {
    seg(a[op.old_start + k], b[op.new_start + k])
}

/// The first `count` removed lines of a replacement.
pub open spec fn replaced_old(
    a: Seq<Seq<char>>,
    b: Seq<Seq<char>>,
    op: DiffOp,
    seg: SegmentFn,
    count: int,
) -> Seq<LineView> {
    Seq::new(
        count as nat,
        |k: int|
            removed_line(
                a,
                op.old_start + k,
                if k < paired(op) {
                    partners(a, b, op, seg, k).0
                } else {
                    seq![]
                },
            ),
    )
}

/// The first `count` added lines of a replacement.
pub open spec fn replaced_new(
    a: Seq<Seq<char>>,
    b: Seq<Seq<char>>,
    op: DiffOp,
    seg: SegmentFn,
    count: int,
) -> Seq<LineView> {
    Seq::new(
        count as nat,
        |k: int|
            added_line(
                b,
                op.new_start + k,
                if k < paired(op) {
                    partners(a, b, op, seg, k).1
                } else {
                    seq![]
                },
            ),
    )
}

/// The lines of a step: kept lines as context, dropped ones as removed, new
/// ones as added. A replacement lists the removed lines first; its partners
/// are segmented against each other.
pub open spec fn op_lines(
    a: Seq<Seq<char>>,
    b: Seq<Seq<char>>,
    op: DiffOp,
    seg: SegmentFn,
) -> Seq<LineView> {
    let old_len = op.old_end - op.old_start;
    let new_len = op.new_end - op.new_start;
    match op.tag {
        DiffTag::Equal => Seq::new(
            old_len as nat,
            |k: int| context_line(a, b, op.old_start + k, op.new_start + k),
        ),
        DiffTag::Delete => Seq::new(
            old_len as nat,
            |k: int| removed_line(a, op.old_start + k, one_segment(a[op.old_start + k])),
        ),
        DiffTag::Insert => Seq::new(
            new_len as nat,
            |k: int| added_line(b, op.new_start + k, one_segment(b[op.new_start + k])),
        ),
        DiffTag::Replace => replaced_old(a, b, op, seg, old_len) + replaced_new(
            a,
            b,
            op,
            seg,
            new_len,
        ),
    }
}

/// The lines of a row of steps.
pub open spec fn group_lines(
    a: Seq<Seq<char>>,
    b: Seq<Seq<char>>,
    ops: Seq<DiffOp>,
    seg: SegmentFn,
) -> Seq<LineView>
    decreases ops.len(),
{
    if ops.len() == 0 {
        seq![]
    } else {
        group_lines(a, b, ops.drop_last(), seg) + op_lines(a, b, ops.last(), seg)
    }
}

/// How many lines a step adds.
pub open spec fn op_added(op: DiffOp) -> int {
    if op.tag == DiffTag::Insert || op.tag == DiffTag::Replace {
        op.new_end - op.new_start
    } else {
        0
    }
}

/// How many lines a step removes.
pub open spec fn op_removed(op: DiffOp) -> int {
    if op.tag == DiffTag::Delete || op.tag == DiffTag::Replace {
        op.old_end - op.old_start
    } else {
        0
    }
}

/// How many lines a row of steps adds.
pub open spec fn ops_added(ops: Seq<DiffOp>) -> int
    decreases ops.len(),
{
    if ops.len() == 0 {
        0
    } else {
        ops_added(ops.drop_last()) + op_added(ops.last())
    }
}

/// How many lines a row of steps removes.
pub open spec fn ops_removed(ops: Seq<DiffOp>) -> int
    decreases ops.len(),
{
    if ops.len() == 0 {
        0
    } else {
        ops_removed(ops.drop_last()) + op_removed(ops.last())
    }
}

/// All steps of a row of clusters.
pub open spec fn all_ops(groups: Seq<Seq<DiffOp>>) -> Seq<DiffOp>
    decreases groups.len(),
{
    if groups.len() == 0 {
        seq![]
    } else {
        all_ops(groups.drop_last()) + groups.last()
    }
}

/// A start line number as a header shows it: from 1, but one less for an empty
/// range.
pub open spec fn shown_start(from: int, count: int) -> int {
    if count > 0 {
        from + 1
    } else {
        from
    }
}

/// The header of a cluster: where its lines begin and how many there are, in the
/// original file and in the revised one.
pub open spec fn group_header(ops: Seq<DiffOp>) -> Seq<char> {
    let (n, m) = (side_count(ops, true), side_count(ops, false));
    concat_texts(
        seq![
            "@@ -"@,
            decimal(shown_start(begins(ops, true), n) as nat),
            ","@,
            decimal(n as nat),
            " +"@,
            decimal(shown_start(begins(ops, false), m) as nat),
            ","@,
            decimal(m as nat),
            " @@"@,
        ],
    )
}

/// The hunks of a row of clusters; an empty cluster has none.
pub open spec fn hunks_of(
    a: Seq<Seq<char>>,
    b: Seq<Seq<char>>,
    groups: Seq<Seq<DiffOp>>,
    seg: SegmentFn,
) -> Seq<HunkView>
    decreases groups.len(),
{
    if groups.len() == 0 {
        seq![]
    } else {
        let before = hunks_of(a, b, groups.drop_last(), seg);
        let ops = groups.last();
        if ops.len() == 0 {
            before
        } else {
            before.push(
                HunkView { header: group_header(ops), lines: group_lines(a, b, ops, seg) },
            )
        }
    }
}

/// The hunks, additions and deletions for given clusters.
pub open spec fn compared(
    a: Seq<Seq<char>>,
    b: Seq<Seq<char>>,
    groups: Seq<Seq<DiffOp>>,
    seg: SegmentFn,
) -> (Seq<HunkView>, int, int) {
    (hunks_of(a, b, groups, seg), ops_added(all_ops(groups)), ops_removed(all_ops(groups)))
}

/// The view of a comparison.
pub open spec fn compared_view(r: (Vec<CompareHunk>, u64, u64)) -> (Seq<HunkView>, int, int) {
    (hunk_views(r.0@), r.1 as int, r.2 as int)
}

/// All clusters can be shown: the lines that their steps name are there and lie
/// end to end.
pub open spec fn showable(groups: Seq<Seq<DiffOp>>, n: int, m: int) -> bool {
    forall|i: int|
        0 <= i < groups.len() ==> ops_fit(#[trigger] groups[i], n, m) && group_runs(groups[i])
}

/// Segments that are one unchanged run.
fn whole(text: &String) -> (r: Vec<Segment>)
    ensures
        segment_views(r@) == one_segment(text@),
{
    let r: Vec<Segment> = vec![Segment { text: text.clone(), changed: false }];
    assert(segment_views(r@) =~= one_segment(text@));
    r
}

/// A removed line.
fn make_removed(a: &Vec<String>, x: usize, segments: Vec<Segment>) -> (r: CompareLine)
    requires
        x < a@.len(),
    ensures
        r@ == removed_line(texts(a@), x as int, segment_views(segments@)),
{
    assert(x < a.len());
    CompareLine {
        kind: "removed".to_owned(),
        old_number: Some((x + 1) as u64),
        new_number: None,
        content: a[x].clone(),
        revised_content: None,
        segments,
    }
}

/// An added line.
fn make_added(b: &Vec<String>, y: usize, segments: Vec<Segment>) -> (r: CompareLine)
    requires
        y < b@.len(),
    ensures
        r@ == added_line(texts(b@), y as int, segment_views(segments@)),
{
    assert(y < b.len());
    CompareLine {
        kind: "added".to_owned(),
        old_number: None,
        new_number: Some((y + 1) as u64),
        content: b[y].clone(),
        revised_content: None,
        segments,
    }
}

/// Appends a line.
fn push_line(lines: &mut Vec<CompareLine>, line: CompareLine)
    ensures
        line_views(final(lines)@) == line_views(old(lines)@).push(line@),
{
    let ghost before = lines@;
    lines.push(line);
    assert(line_views(lines@) =~= line_views(before).push(line@));
}

/// The lines of a replacement.
fn replacement_lines<F: Fn(&str, &str) -> (Vec<Segment>, Vec<Segment>)>(
    a: &Vec<String>,
    b: &Vec<String>,
    op: &DiffOp,
    segment: &F,
) -> (r: Vec<CompareLine>)
    requires
        op.tag == DiffTag::Replace,
        op_fits(*op, a@.len() as int, b@.len() as int),
        forall|x: &str, y: &str| call_requires(*segment, (x, y)),
    ensures
        forall|seg: SegmentFn| #[trigger]
            finds_as(*segment, seg) ==> line_views(r@) == op_lines(
                texts(a@),
                texts(b@),
                *op,
                seg,
            ),
        segments_whole(*segment) ==> lines_made_up(line_views(r@)),
{
    let ghost ta = texts(a@);
    let ghost tb = texts(b@);
    let old_len: usize = op.old_end - op.old_start;
    let new_len: usize = op.new_end - op.new_start;
    let both: usize = if old_len <= new_len {
        old_len
    } else {
        new_len
    };
    let mut removed: Vec<CompareLine> = Vec::new();
    let mut added: Vec<CompareLine> = Vec::new();
    let mut k: usize = 0;
    assert forall|seg: SegmentFn| #[trigger] finds_as(*segment, seg) implies line_views(removed@)
        == replaced_old(ta, tb, *op, seg, 0) && line_views(added@) == replaced_new(
        ta,
        tb,
        *op,
        seg,
        0,
    ) by {
        assert(line_views(removed@) =~= replaced_old(ta, tb, *op, seg, 0));
        assert(line_views(added@) =~= replaced_new(ta, tb, *op, seg, 0));
    }
    while k < both
        invariant
            k <= both,
            ta == texts(a@),
            tb == texts(b@),
            both == paired(*op),
            old_len == op.old_end - op.old_start,
            new_len == op.new_end - op.new_start,
            op.tag == DiffTag::Replace,
            op_fits(*op, a@.len() as int, b@.len() as int),
            forall|x: &str, y: &str| call_requires(*segment, (x, y)),
            forall|seg: SegmentFn| #[trigger]
                finds_as(*segment, seg) ==> {
                    &&& line_views(removed@) == replaced_old(ta, tb, *op, seg, k as int)
                    &&& line_views(added@) == replaced_new(ta, tb, *op, seg, k as int)
                },
            segments_whole(*segment) ==> lines_made_up(line_views(removed@)) && lines_made_up(
                line_views(added@),
            ),
        decreases both - k,
    {
        let x: usize = op.old_start + k;
        let y: usize = op.new_start + k;
        let found = segment(a[x].as_str(), b[y].as_str());
        let ghost fv = pair_view(found);
        assert forall|seg: SegmentFn| #[trigger] finds_as(*segment, seg) implies partners(
            ta,
            tb,
            *op,
            seg,
            k as int,
        ) == fv by {
            assert(ta[x as int] == a@[x as int]@);
            assert(tb[y as int] == b@[y as int]@);
        }
        assert(segments_whole(*segment) ==> makes_up(fv.0, a@[x as int]@) && makes_up(
            fv.1,
            b@[y as int]@,
        ));
        assert(ta[x as int] == a@[x as int]@ && tb[y as int] == b@[y as int]@);
        push_line(&mut removed, make_removed(a, x, found.0));
        push_line(&mut added, make_added(b, y, found.1));
        assert forall|seg: SegmentFn| #[trigger] finds_as(*segment, seg) implies {
            &&& line_views(removed@) == replaced_old(ta, tb, *op, seg, k + 1)
            &&& line_views(added@) == replaced_new(ta, tb, *op, seg, k + 1)
        } by {
            assert(line_views(removed@) =~= replaced_old(ta, tb, *op, seg, k + 1));
            assert(line_views(added@) =~= replaced_new(ta, tb, *op, seg, k + 1));
        }
        k += 1;
    }
    let mut i: usize = both;
    while i < old_len
        invariant
            both <= i <= old_len,
            ta == texts(a@),
            tb == texts(b@),
            both == paired(*op),
            old_len == op.old_end - op.old_start,
            op_fits(*op, a@.len() as int, b@.len() as int),
            op.tag == DiffTag::Replace,
            forall|seg: SegmentFn| #[trigger]
                finds_as(*segment, seg) ==> line_views(removed@) == replaced_old(
                    ta,
                    tb,
                    *op,
                    seg,
                    i as int,
                ),
            segments_whole(*segment) ==> lines_made_up(line_views(removed@)),
        decreases old_len - i,
    {
        let none: Vec<Segment> = Vec::new();
        assert(segment_views(none@) =~= seq![]);
        push_line(&mut removed, make_removed(a, op.old_start + i, none));
        assert forall|seg: SegmentFn| #[trigger] finds_as(*segment, seg) implies line_views(
            removed@,
        ) == replaced_old(ta, tb, *op, seg, i + 1) by {
            assert(line_views(removed@) =~= replaced_old(ta, tb, *op, seg, i + 1));
        }
        i += 1;
    }
    let mut j: usize = both;
    while j < new_len
        invariant
            both <= j <= new_len,
            ta == texts(a@),
            tb == texts(b@),
            both == paired(*op),
            new_len == op.new_end - op.new_start,
            op_fits(*op, a@.len() as int, b@.len() as int),
            op.tag == DiffTag::Replace,
            forall|seg: SegmentFn| #[trigger]
                finds_as(*segment, seg) ==> line_views(added@) == replaced_new(
                    ta,
                    tb,
                    *op,
                    seg,
                    j as int,
                ),
            segments_whole(*segment) ==> lines_made_up(line_views(added@)),
        decreases new_len - j,
    {
        let none: Vec<Segment> = Vec::new();
        assert(segment_views(none@) =~= seq![]);
        push_line(&mut added, make_added(b, op.new_start + j, none));
        assert forall|seg: SegmentFn| #[trigger] finds_as(*segment, seg) implies line_views(added@)
            == replaced_new(ta, tb, *op, seg, j + 1) by {
            assert(line_views(added@) =~= replaced_new(ta, tb, *op, seg, j + 1));
        }
        j += 1;
    }
    let ghost r1 = removed@;
    let ghost a1 = added@;
    removed.append(&mut added);
    assert(line_views(removed@) =~= line_views(r1) + line_views(a1));
    removed
}

/// The lines of a step that is no replacement.
fn simple_lines(a: &Vec<String>, b: &Vec<String>, op: &DiffOp) -> (r: Vec<CompareLine>)
    requires
        op.tag != DiffTag::Replace,
        op_fits(*op, a@.len() as int, b@.len() as int),
    ensures
        forall|seg: SegmentFn|
            line_views(r@) == #[trigger] op_lines(texts(a@), texts(b@), *op, seg),
        lines_made_up(line_views(r@)),
{
    let ghost ta = texts(a@);
    let ghost tb = texts(b@);
    let mut r: Vec<CompareLine> = Vec::new();
    let len: usize = match op.tag {
        DiffTag::Insert => op.new_end - op.new_start,
        _ => op.old_end - op.old_start,
    };
    let ghost any: SegmentFn = |x: Seq<char>, y: Seq<char>| (seq![], seq![]);
    let ghost all = op_lines(ta, tb, *op, any);
    let mut k: usize = 0;
    while k < len
        invariant
            k <= len,
            len == all.len(),
            ta == texts(a@),
            tb == texts(b@),
            all == op_lines(ta, tb, *op, any),
            op.tag != DiffTag::Replace,
            op_fits(*op, a@.len() as int, b@.len() as int),
            line_views(r@) == all.take(k as int),
        decreases len - k,
    {
        let ghost before = line_views(r@);
        let line = match op.tag {
            DiffTag::Equal => {
                let x: usize = op.old_start + k;
                let y: usize = op.new_start + k;
                CompareLine {
                    kind: "context".to_owned(),
                    old_number: Some((x + 1) as u64),
                    new_number: Some((y + 1) as u64),
                    content: a[x].clone(),
                    revised_content: Some(b[y].clone()),
                    segments: whole(&a[x]),
                }
            },
            DiffTag::Delete => make_removed(a, op.old_start + k, whole(&a[op.old_start + k])),
            _ => make_added(b, op.new_start + k, whole(&b[op.new_start + k])),
        };
        assert(line@ == all[k as int]);
        push_line(&mut r, line);
        k += 1;
        assert(line_views(r@) =~= all.take(k as int));
    }
    proof {
        assert(all.take(len as int) =~= all);
        assert forall|i: int| 0 <= i < all.len() implies line_made_up(#[trigger] all[i]) by {
            lemma_one_segment(all[i].content);
        }
    }
    r
}

/// The lines of a cluster.
fn cluster_lines<F: Fn(&str, &str) -> (Vec<Segment>, Vec<Segment>)>(
    a: &Vec<String>,
    b: &Vec<String>,
    ops: &Vec<DiffOp>,
    segment: &F,
) -> (r: Vec<CompareLine>)
    requires
        ops_fit(ops@, a@.len() as int, b@.len() as int),
        forall|x: &str, y: &str| call_requires(*segment, (x, y)),
    ensures
        forall|seg: SegmentFn| #[trigger]
            finds_as(*segment, seg) ==> line_views(r@) == group_lines(
                texts(a@),
                texts(b@),
                ops@,
                seg,
            ),
        segments_whole(*segment) ==> lines_made_up(line_views(r@)),
{
    let ghost ta = texts(a@);
    let ghost tb = texts(b@);
    let mut lines: Vec<CompareLine> = Vec::new();
    let mut i: usize = 0;
    assert(line_views(lines@) =~= seq![]);
    while i < ops.len()
        invariant
            i <= ops.len(),
            ta == texts(a@),
            tb == texts(b@),
            ops_fit(ops@, a@.len() as int, b@.len() as int),
            forall|x: &str, y: &str| call_requires(*segment, (x, y)),
            forall|seg: SegmentFn| #[trigger]
                finds_as(*segment, seg) ==> line_views(lines@) == group_lines(
                    ta,
                    tb,
                    ops@.take(i as int),
                    seg,
                ),
            segments_whole(*segment) ==> lines_made_up(line_views(lines@)),
        decreases ops.len() - i,
    {
        let op = ops[i];
        assert(op_fits(ops@[i as int], a@.len() as int, b@.len() as int));
        proof {
            assert(ops@.take(i as int + 1).drop_last() =~= ops@.take(i as int));
            assert(ops@.take(i as int + 1).last() == op);
        }
        let mut more: Vec<CompareLine> = if op.tag == DiffTag::Replace {
            replacement_lines(a, b, &op, segment)
        } else {
            simple_lines(a, b, &op)
        };
        let ghost l0 = lines@;
        let ghost m0 = more@;
        assert forall|seg: SegmentFn| #[trigger] finds_as(*segment, seg) implies line_views(m0)
            == op_lines(ta, tb, op, seg) by {
        }
        lines.append(&mut more);
        assert(line_views(lines@) =~= line_views(l0) + line_views(m0));
        i += 1;
    }
    assert(ops@.take(ops@.len() as int) =~= ops@);
    lines
}

/// Where a row of steps begins on the chosen side.
fn begin_of(ops: &Vec<DiffOp>, old_side: bool) -> (r: usize)
    requires
        ops@.len() > 0,
    ensures
        r == begins(ops@, old_side),
{
    let mut i: usize = 0;
    assert(ops@.skip(0) =~= ops@);
    loop
        invariant
            i < ops@.len(),
            begins(ops@, old_side) == begins(ops@.skip(i as int), old_side),
        decreases ops@.len() - i,
    {
        let op = ops[i];
        let ghost rest = ops@.skip(i as int);
        assert(rest[0] == op);
        let named: bool = if old_side {
            op.tag != DiffTag::Insert
        } else {
            op.tag != DiffTag::Delete
        };
        if named || i == ops.len() - 1 {
            return if old_side {
                op.old_start
            } else {
                op.new_start
            };
        }
        assert(rest.drop_first() =~= ops@.skip(i as int + 1));
        i += 1;
    }
}

/// How many lines a row of steps names on the chosen side.
fn count_of(ops: &Vec<DiffOp>, old_side: bool, Ghost(n): Ghost<int>, Ghost(m): Ghost<int>) -> (r: u64)
    requires
        ops_fit(ops@, n, m),
        side_count(ops@, old_side) <= u64::MAX,
    ensures
        r == side_count(ops@, old_side),
{
    let mut r: u64 = 0;
    let mut i: usize = 0;
    assert(ops@.take(0) =~= seq![]);
    while i < ops.len()
        invariant
            i <= ops@.len(),
            ops_fit(ops@, n, m),
            side_count(ops@, old_side) <= u64::MAX,
            r == side_count(ops@.take(i as int), old_side),
        decreases ops@.len() - i,
    {
        let op = ops[i];
        proof {
            assert(op_fits(ops@[i as int], n, m));
            assert(ops@.take(i as int + 1).drop_last() =~= ops@.take(i as int));
            assert(ops@.take(i as int + 1).last() == op);
            lemma_side_count_grows(ops@, old_side, i as int + 1, n, m);
        }
        let more: u64 = if old_side {
            if op.tag != DiffTag::Insert {
                (op.old_end - op.old_start) as u64
            } else {
                0
            }
        } else {
            if op.tag != DiffTag::Delete {
                (op.new_end - op.new_start) as u64
            } else {
                0
            }
        };
        r = r + more;
        i += 1;
    }
    assert(ops@.take(ops@.len() as int) =~= ops@);
    r
}

/// The header of a cluster, in rows of `n` old and `m` new lines.
fn header_text(ops: &Vec<DiffOp>, n: usize, m: usize) -> (r: String)
    requires
        ops@.len() > 0,
        ops_fit(ops@, n as int, m as int),
        group_runs(ops@),
    ensures
        r@ == group_header(ops@),
{
    let i: usize = begin_of(ops, true);
    let k: usize = begin_of(ops, false);
    proof {
        lemma_runs(ops@, true, i as int, ends(ops@, true), n as int, m as int);
        lemma_runs(ops@, false, k as int, ends(ops@, false), n as int, m as int);
    }
    let olds = count_of(ops, true, Ghost(n as int), Ghost(m as int));
    let news = count_of(ops, false, Ghost(n as int), Ghost(m as int));
    let from: u64 = if olds > 0 {
        (i + 1) as u64
    } else {
        i as u64
    };
    let to: u64 = if news > 0 {
        (k + 1) as u64
    } else {
        k as u64
    };
    let a = u64_decimal(from);
    let b = u64_decimal(olds);
    let c = u64_decimal(to);
    let d = u64_decimal(news);
    let parts: [&str; 9] = [
        "@@ -",
        a.as_str(),
        ",",
        b.as_str(),
        " +",
        c.as_str(),
        ",",
        d.as_str(),
        " @@",
    ];
    let r = concat_strs(parts.as_slice());
    assert(parts@.map_values(|s: &str| s@) =~= seq![
        "@@ -"@,
        a@,
        ","@,
        b@,
        " +"@,
        c@,
        ","@,
        d@,
        " @@"@,
    ]);
    r
}

proof fn lemma_counts_grow(a: Seq<DiffOp>, b: Seq<DiffOp>, n: int, m: int)
    requires
        ops_fit(b, n, m),
    ensures
        ops_added(a + b) == ops_added(a) + ops_added(b),
        ops_removed(a + b) == ops_removed(a) + ops_removed(b),
        0 <= ops_added(b) <= side_count(b, false),
        0 <= ops_removed(b) <= side_count(b, true),
    decreases b.len(),
{
    if b.len() == 0 {
        assert(a + b =~= a);
    } else {
        lemma_fit_last(b, n, m);
        lemma_counts_grow(a, b.drop_last(), n, m);
        assert((a + b).drop_last() =~= a + b.drop_last());
        assert((a + b).last() == b.last());
    }
}

proof fn lemma_groups_counts_grow(groups: Seq<Seq<DiffOp>>, n: int, m: int, k: int)
    requires
        0 <= k <= groups.len(),
        showable(groups, n, m),
    ensures
        ops_added(all_ops(groups.take(k))) <= ops_added(all_ops(groups)),
        ops_removed(all_ops(groups.take(k))) <= ops_removed(all_ops(groups)),
    decreases groups.len() - k,
{
    if k < groups.len() {
        assert(groups.take(k + 1).drop_last() =~= groups.take(k));
        assert(groups.take(k + 1).last() == groups[k]);
        assert(ops_fit(groups[k], n, m));
        lemma_counts_grow(all_ops(groups.take(k)), groups[k], n, m);
        lemma_groups_counts_grow(groups, n, m, k + 1);
    } else {
        assert(groups.take(k) =~= groups);
    }
}

/// How many lines a row of steps adds and removes, on top of what was counted
/// before.
fn count_lines(
    ops: &Vec<DiffOp>,
    Ghost(n): Ghost<int>,
    Ghost(m): Ghost<int>,
    added: u64,
    removed: u64,
) -> (r: (u64, u64))
    requires
        ops_fit(ops@, n, m),
        added + ops_added(ops@) <= u64::MAX,
        removed + ops_removed(ops@) <= u64::MAX,
    ensures
        r.0 == added + ops_added(ops@),
        r.1 == removed + ops_removed(ops@),
{
    let mut x: u64 = added;
    let mut y: u64 = removed;
    let mut i: usize = 0;
    while i < ops.len()
        invariant
            i <= ops.len(),
            ops_fit(ops@, n, m),
            added + ops_added(ops@) <= u64::MAX,
            removed + ops_removed(ops@) <= u64::MAX,
            x == added + ops_added(ops@.take(i as int)),
            y == removed + ops_removed(ops@.take(i as int)),
        decreases ops.len() - i,
    {
        let op = ops[i];
        assert(op_fits(ops@[i as int], n, m));
        proof {
            assert(ops@.take(i as int + 1).drop_last() =~= ops@.take(i as int));
            assert(ops@.take(i as int + 1).last() == op);
            assert(ops@ =~= ops@.take(i as int + 1) + ops@.skip(i as int + 1));
            assert forall|k: int| 0 <= k < ops@.skip(i as int + 1).len() implies op_fits(
                #[trigger] ops@.skip(i as int + 1)[k],
                n,
                m,
            ) by {
                assert(op_fits(ops@[i + 1 + k], n, m));
            }
            lemma_counts_grow(ops@.take(i as int + 1), ops@.skip(i as int + 1), n, m);
        }
        if op.tag == DiffTag::Insert || op.tag == DiffTag::Replace {
            x = x + (op.new_end - op.new_start) as u64;
        }
        if op.tag == DiffTag::Delete || op.tag == DiffTag::Replace {
            y = y + (op.old_end - op.old_start) as u64;
        }
        i += 1;
    }
    assert(ops@.take(ops@.len() as int) =~= ops@);
    (x, y)
}

/// The hunks, additions and deletions for given clusters of steps.
pub fn compare_from<F: Fn(&str, &str) -> (Vec<Segment>, Vec<Segment>)>(
    a: &Vec<String>,
    b: &Vec<String>,
    groups: &Vec<Vec<DiffOp>>,
    segment: &F,
) -> (r: (Vec<CompareHunk>, u64, u64))
    requires
        showable(group_views(groups@), a@.len() as int, b@.len() as int),
        ops_added(all_ops(group_views(groups@))) <= u64::MAX,
        ops_removed(all_ops(group_views(groups@))) <= u64::MAX,
        forall|x: &str, y: &str| call_requires(*segment, (x, y)),
    ensures
        forall|seg: SegmentFn| #[trigger]
            finds_as(*segment, seg) ==> compared_view(r) == compared(
                texts(a@),
                texts(b@),
                group_views(groups@),
                seg,
            ),
        segments_whole(*segment) ==> hunks_made_up(hunk_views(r.0@)),
{
    let ghost ta = texts(a@);
    let ghost tb = texts(b@);
    let ghost gv = group_views(groups@);
    let ghost (n, m) = (a@.len() as int, b@.len() as int);
    let mut hunks: Vec<CompareHunk> = Vec::new();
    let mut additions: u64 = 0;
    let mut deletions: u64 = 0;
    let mut g: usize = 0;
    assert(hunk_views(hunks@) =~= seq![]);
    while g < groups.len()
        invariant
            g <= groups.len(),
            ta == texts(a@),
            tb == texts(b@),
            gv == group_views(groups@),
            n == a@.len(),
            m == b@.len(),
            showable(gv, n, m),
            ops_added(all_ops(gv)) <= u64::MAX,
            ops_removed(all_ops(gv)) <= u64::MAX,
            forall|x: &str, y: &str| call_requires(*segment, (x, y)),
            additions == ops_added(all_ops(gv.take(g as int))),
            deletions == ops_removed(all_ops(gv.take(g as int))),
            forall|seg: SegmentFn| #[trigger]
                finds_as(*segment, seg) ==> hunk_views(hunks@) == hunks_of(
                    ta,
                    tb,
                    gv.take(g as int),
                    seg,
                ),
            segments_whole(*segment) ==> hunks_made_up(hunk_views(hunks@)),
        decreases groups.len() - g,
    {
        let ops = &groups[g];
        let ghost before = gv.take(g as int);
        proof {
            assert(gv[g as int] == ops@);
            assert(ops_fit(gv[g as int], n, m) && group_runs(gv[g as int]));
            assert(gv.take(g as int + 1).drop_last() =~= before);
            assert(gv.take(g as int + 1).last() == ops@);
            lemma_counts_grow(all_ops(before), ops@, n, m);
            lemma_groups_counts_grow(gv, n, m, g as int + 1);
        }
        let lines = cluster_lines(a, b, ops, segment);
        let counted = count_lines(ops, Ghost(n), Ghost(m), additions, deletions);
        additions = counted.0;
        deletions = counted.1;
        if ops.len() > 0 {
            let ghost h0 = hunks@;
            let hunk = CompareHunk { header: header_text(ops, a.len(), b.len()), lines };
            let ghost hv = hunk@;
            hunks.push(hunk);
            assert(hunk_views(hunks@) =~= hunk_views(h0).push(hv));
        }
        g += 1;
    }
    assert(gv.take(gv.len() as int) =~= gv);
    (hunks, additions, deletions)
}

// --- what hunks say ----------------------------------------------------------

/// The revised lines that the lines of a hunk show: context and added ones.
pub open spec fn new_rows(lines: Seq<LineView>) -> Seq<Seq<char>>
    decreases lines.len(),
{
    if lines.len() == 0 {
        seq![]
    } else {
        let rest = new_rows(lines.drop_last());
        let line = lines.last();
        match line.new_number {
            Some(_) => match line.revised_content {
                Some(t) => rest.push(t),
                None => rest.push(line.content),
            },
            None => rest,
        }
    }
}

/// The original lines that the lines of a hunk show: context and removed ones.
pub open spec fn old_rows(lines: Seq<LineView>) -> Seq<Seq<char>>
    decreases lines.len(),
{
    if lines.len() == 0 {
        seq![]
    } else if lines.last().old_number is Some {
        old_rows(lines.drop_last()).push(lines.last().content)
    } else {
        old_rows(lines.drop_last())
    }
}

/// The first `o` lines of the original file with the hunks put in: from where it
/// starts, the original lines that a hunk shows make way for the revised lines
/// that it shows.
pub open spec fn patched(
    a: Seq<Seq<char>>,
    hunks: Seq<HunkView>,
    starts: Seq<int>,
    o: int,
) -> Seq<Seq<char>>
    decreases hunks.len(),
{
    if hunks.len() == 0 {
        a.take(o)
    } else {
        let lines = hunks.last().lines;
        let from = starts.last();
        patched(a, hunks.drop_last(), starts.drop_last(), from) + new_rows(lines) + a.subrange(
            from + old_rows(lines).len(),
            o,
        )
    }
}

/// Where the clusters begin in the original file.
pub open spec fn starts_of(groups: Seq<Seq<DiffOp>>) -> Seq<int> {
    groups.map_values(|ops: Seq<DiffOp>| begins(ops, true))
}

proof fn lemma_rows_append(x: Seq<LineView>, y: Seq<LineView>)
    ensures
        new_rows(x + y) == new_rows(x) + new_rows(y),
        old_rows(x + y) == old_rows(x) + old_rows(y),
    decreases y.len(),
{
    if y.len() == 0 {
        assert(x + y =~= x);
        assert(new_rows(x) + new_rows(y) =~= new_rows(x));
        assert(old_rows(x) + old_rows(y) =~= old_rows(x));
    } else {
        lemma_rows_append(x, y.drop_last());
        assert((x + y).drop_last() =~= x + y.drop_last());
        assert((x + y).last() == y.last());
        assert(new_rows(x + y) =~= new_rows(x) + new_rows(y));
        assert(old_rows(x + y) =~= old_rows(x) + old_rows(y));
    }
}

/// Lines that show original lines from `x` on, if they show any, and revised
/// lines from `y` on, if they show any.
spec fn shows(
    lines: Seq<LineView>,
    a: Seq<Seq<char>>,
    x: int,
    shows_old: bool,
    b: Seq<Seq<char>>,
    y: int,
    shows_new: bool,
) -> bool {
    forall|k: int|
        0 <= k < lines.len() ==> {
            let line = #[trigger] lines[k];
            &&& line.old_number is Some == shows_old
            &&& line.new_number is Some == shows_new
            &&& shows_old ==> line.content == a[x + k]
            &&& shows_new ==> match line.revised_content {
                Some(t) => t == b[y + k],
                None => line.content == b[y + k],
            }
        }
}

proof fn lemma_rows_shown(
    lines: Seq<LineView>,
    a: Seq<Seq<char>>,
    x: int,
    shows_old: bool,
    b: Seq<Seq<char>>,
    y: int,
    shows_new: bool,
)
    requires
        shows(lines, a, x, shows_old, b, y, shows_new),
        shows_old ==> 0 <= x && x + lines.len() <= a.len(),
        shows_new ==> 0 <= y && y + lines.len() <= b.len(),
    ensures
        old_rows(lines) == if shows_old {
            a.subrange(x, x + lines.len())
        } else {
            seq![]
        },
        new_rows(lines) == if shows_new {
            b.subrange(y, y + lines.len())
        } else {
            seq![]
        },
    decreases lines.len(),
{
    let n = lines.len() as int;
    if n > 0 {
        let head = lines.drop_last();
        assert forall|k: int| 0 <= k < head.len() implies ({
            let line = #[trigger] head[k];
            &&& line.old_number is Some == shows_old
            &&& line.new_number is Some == shows_new
            &&& shows_old ==> line.content == a[x + k]
            &&& shows_new ==> match line.revised_content {
                Some(t) => t == b[y + k],
                None => line.content == b[y + k],
            }
        }) by {
            assert(head[k] == lines[k]);
        }
        lemma_rows_shown(head, a, x, shows_old, b, y, shows_new);
        let line = lines[n - 1];
        if shows_old {
            assert(a.subrange(x, x + n - 1).push(a[x + n - 1]) =~= a.subrange(x, x + n));
        }
        if shows_new {
            assert(b.subrange(y, y + n - 1).push(b[y + n - 1]) =~= b.subrange(y, y + n));
        }
    } else {
        if shows_old {
            assert(a.subrange(x, x + n) =~= seq![]);
        }
        if shows_new {
            assert(b.subrange(y, y + n) =~= seq![]);
        }
    }
}

proof fn lemma_op_rows(a: Seq<Seq<char>>, b: Seq<Seq<char>>, op: DiffOp, seg: SegmentFn)
    requires
        op_fits(op, a.len() as int, b.len() as int),
    ensures
        old_rows(op_lines(a, b, op, seg)) == if names_side(op, true) {
            a.subrange(op.old_start as int, op.old_end as int)
        } else {
            seq![]
        },
        new_rows(op_lines(a, b, op, seg)) == if names_side(op, false) {
            b.subrange(op.new_start as int, op.new_end as int)
        } else {
            seq![]
        },
{
    let (x, y) = (op.old_start as int, op.new_start as int);
    let lines = op_lines(a, b, op, seg);
    match op.tag {
        DiffTag::Equal => {
            lemma_rows_shown(lines, a, x, true, b, y, true);
        },
        DiffTag::Delete => {
            lemma_rows_shown(lines, a, x, true, b, y, false);
        },
        DiffTag::Insert => {
            lemma_rows_shown(lines, a, x, false, b, y, true);
        },
        DiffTag::Replace => {
            let out = replaced_old(a, b, op, seg, op.old_end - op.old_start);
            let come = replaced_new(a, b, op, seg, op.new_end - op.new_start);
            lemma_rows_shown(out, a, x, true, b, y, false);
            lemma_rows_shown(come, a, x, false, b, y, true);
            lemma_rows_append(out, come);
            let none = Seq::<Seq<char>>::empty();
            assert(old_rows(out) + none =~= old_rows(out));
            assert(none + new_rows(come) =~= new_rows(come));
        },
    }
}

/// A hunk shows as many original and as many revised lines as its header says.
pub proof fn law_header_counts(
    a: Seq<Seq<char>>,
    b: Seq<Seq<char>>,
    ops: Seq<DiffOp>,
    seg: SegmentFn,
)
    requires
        ops_fit(ops, a.len() as int, b.len() as int),
    ensures
        old_rows(group_lines(a, b, ops, seg)).len() == side_count(ops, true),
        new_rows(group_lines(a, b, ops, seg)).len() == side_count(ops, false),
    decreases ops.len(),
{
    if ops.len() > 0 {
        lemma_fit_last(ops, a.len() as int, b.len() as int);
        law_header_counts(a, b, ops.drop_last(), seg);
        lemma_op_rows(a, b, ops.last(), seg);
        lemma_rows_append(group_lines(a, b, ops.drop_last(), seg), op_lines(a, b, ops.last(), seg));
    }
}

proof fn lemma_group_rows(
    a: Seq<Seq<char>>,
    b: Seq<Seq<char>>,
    ops: Seq<DiffOp>,
    seg: SegmentFn,
    k: int,
    l: int,
)
    requires
        ops_fit(ops, a.len() as int, b.len() as int),
        runs(ops, false, k, l),
        0 <= k,
        l <= b.len(),
    ensures
        k <= l,
        new_rows(group_lines(a, b, ops, seg)) == b.subrange(k, l),
    decreases ops.len(),
{
    if ops.len() == 0 {
        assert(b.subrange(k, l) =~= seq![]);
    } else {
        let head = ops.drop_last();
        let op = ops.last();
        lemma_fit_last(ops, a.len() as int, b.len() as int);
        lemma_op_rows(a, b, op, seg);
        lemma_rows_append(group_lines(a, b, head, seg), op_lines(a, b, op, seg));
        if names_side(op, false) {
            let mid = op.new_start as int;
            lemma_group_rows(a, b, head, seg, k, mid);
            assert(b.subrange(k, mid) + b.subrange(mid, l) =~= b.subrange(k, l));
        } else {
            lemma_group_rows(a, b, head, seg, k, l);
            assert(b.subrange(k, l) + Seq::<Seq<char>>::empty() =~= b.subrange(k, l));
        }
    }
}

// --- how much context hunks show ---------------------------------------------

/// Whether a line is context.
pub open spec fn is_context(line: LineView) -> bool {
    line.kind == "context"@
}

/// How many context lines stand at the end.
pub open spec fn context_run(lines: Seq<LineView>) -> nat
    decreases lines.len(),
{
    if lines.len() == 0 || !is_context(lines.last()) {
        0
    } else {
        context_run(lines.drop_last()) + 1
    }
}

/// The lines hold a change, with at most `n` context lines before the first and
/// behind the last one, and nowhere more than `2 * n` context lines in a row.
pub open spec fn context_bounded(lines: Seq<LineView>, n: int) -> bool {
    &&& context_run(lines) < lines.len()
    &&& context_run(lines) <= n
    &&& forall|k: int|
        0 <= k <= lines.len() ==> {
            let run = context_run(#[trigger] lines.take(k));
            run <= 2 * n && (run == k ==> k <= n)
        }
}

proof fn lemma_run_append(x: Seq<LineView>, y: Seq<LineView>, kept: bool)
    requires
        forall|k: int| 0 <= k < y.len() ==> is_context(#[trigger] y[k]) == kept,
    ensures
        context_run(x + y) == if kept {
            context_run(x) + y.len()
        } else if y.len() == 0 {
            context_run(x)
        } else {
            0
        },
    decreases y.len(),
{
    if y.len() == 0 {
        assert(x + y =~= x);
    } else {
        assert((x + y).last() == y[y.len() - 1]);
        assert((x + y).drop_last() =~= x + y.drop_last());
        if kept {
            assert forall|k: int| 0 <= k < y.drop_last().len() implies is_context(
                #[trigger] y.drop_last()[k],
            ) == kept by {
                assert(y[k] == y.drop_last()[k]);
            }
            lemma_run_append(x, y.drop_last(), kept);
        }
    }
}

proof fn lemma_op_kinds(a: Seq<Seq<char>>, b: Seq<Seq<char>>, op: DiffOp, seg: SegmentFn)
    requires
        op_fits(op, a.len() as int, b.len() as int),
    ensures
        op_lines(a, b, op, seg).len() == if op.tag == DiffTag::Equal {
            side_len(op, true)
        } else {
            side_len(op, true) + side_len(op, false)
        },
        forall|k: int|
            0 <= k < op_lines(a, b, op, seg).len() ==> is_context(
                #[trigger] op_lines(a, b, op, seg)[k],
            ) == (op.tag == DiffTag::Equal),
{
    reveal_strlit("context");
    reveal_strlit("removed");
    reveal_strlit("added");
    assert("context"@[0] != "removed"@[0]);
    assert("context"@[0] != "added"@[0]);
}

proof fn lemma_spaced_last(ops: Seq<DiffOp>, n: int)
    requires
        ops.len() > 0,
        spaced(ops, n),
    ensures
        spaced(ops.drop_last(), n),
{
    let head = ops.drop_last();
    assert forall|i: int|
        0 <= i < head.len() && (#[trigger] head[i]).tag != DiffTag::Equal implies side_len(
        head[i],
        true,
    ) + side_len(head[i], false) > 0 by {
        assert(head[i] == ops[i]);
    }
    assert forall|i: int|
        0 <= i < head.len() && (#[trigger] head[i]).tag == DiffTag::Equal implies side_len(
        head[i],
        true,
    ) <= 2 * n by {
        assert(head[i] == ops[i]);
    }
    assert forall|i: int, j: int|
        0 <= i < head.len() && j == i + 1 && j < head.len() && (#[trigger] head[i]).tag
            == DiffTag::Equal implies (#[trigger] head[j]).tag != DiffTag::Equal by {
        assert(head[i] == ops[i] && head[j] == ops[j]);
    }
}

proof fn lemma_context_spaced(
    a: Seq<Seq<char>>,
    b: Seq<Seq<char>>,
    ops: Seq<DiffOp>,
    seg: SegmentFn,
    n: int,
)
    requires
        n >= 0,
        ops_fit(ops, a.len() as int, b.len() as int),
        spaced(ops, n),
    ensures
        context_run(group_lines(a, b, ops, seg)) == if ops.len() > 0 && ops.last().tag
            == DiffTag::Equal {
            side_len(ops.last(), true)
        } else {
            0
        },
        ops.len() > 1 || (ops.len() == 1 && ops[0].tag != DiffTag::Equal) ==> context_run(
            group_lines(a, b, ops, seg),
        ) < group_lines(a, b, ops, seg).len(),
        forall|k: int|
            0 <= k <= group_lines(a, b, ops, seg).len() ==> {
                let run = context_run(#[trigger] group_lines(a, b, ops, seg).take(k));
                run <= 2 * n && (run == k ==> k <= n)
            },
    decreases ops.len(),
{
    let lines = group_lines(a, b, ops, seg);
    if ops.len() == 0 {
        assert(lines.take(0) =~= lines);
    } else {
        let op = ops.last();
        let last = ops.len() - 1;
        let x = group_lines(a, b, ops.drop_last(), seg);
        let y = op_lines(a, b, op, seg);
        let kept = op.tag == DiffTag::Equal;
        lemma_fit_last(ops, a.len() as int, b.len() as int);
        lemma_spaced_last(ops, n);
        lemma_context_spaced(a, b, ops.drop_last(), seg, n);
        lemma_op_kinds(a, b, op, seg);
        lemma_run_append(x, y, kept);
        assert(ops[last] == op);
        if last > 0 {
            assert(ops.drop_last().last() == ops[last - 1]);
            if kept {
                assert(ops[last - 1].tag != DiffTag::Equal);
                assert(x.len() > 0);
            }
        } else {
            assert(x =~= seq![]);
        }
        assert forall|k: int| 0 <= k <= lines.len() implies ({
            let run = context_run(#[trigger] lines.take(k));
            run <= 2 * n && (run == k ==> k <= n)
        }) by {
            if k <= x.len() {
                assert(lines.take(k) =~= x.take(k));
            } else {
                let m = k - x.len();
                assert(lines.take(k) =~= x + y.take(m));
                assert forall|j: int| 0 <= j < y.take(m).len() implies is_context(
                    #[trigger] y.take(m)[j],
                ) == kept by {
                    assert(y[j] == y.take(m)[j]);
                }
                lemma_run_append(x, y.take(m), kept);
            }
        }
    }
}

/// The lines of a cluster hold a change, with no more context than the cluster
/// keeps.
pub proof fn law_context_bounded(
    a: Seq<Seq<char>>,
    b: Seq<Seq<char>>,
    ops: Seq<DiffOp>,
    seg: SegmentFn,
    n: int,
)
    requires
        n >= 0,
        ops_fit(ops, a.len() as int, b.len() as int),
        clustered(ops, n),
    ensures
        context_bounded(group_lines(a, b, ops, seg), n),
{
    lemma_context_spaced(a, b, ops, seg, n);
}

// --- what each line says -----------------------------------------------------

proof fn lemma_op_true(a: Seq<Seq<char>>, b: Seq<Seq<char>>, op: DiffOp, seg: SegmentFn)
    requires
        op_fits(op, a.len() as int, b.len() as int),
        a.len() <= u64::MAX,
        b.len() <= u64::MAX,
    ensures
        forall|k: int|
            0 <= k < op_lines(a, b, op, seg).len() ==> line_true(
                #[trigger] op_lines(a, b, op, seg)[k],
                a,
                b,
            ),
{
}

proof fn lemma_group_true(a: Seq<Seq<char>>, b: Seq<Seq<char>>, ops: Seq<DiffOp>, seg: SegmentFn)
    requires
        ops_fit(ops, a.len() as int, b.len() as int),
        a.len() <= u64::MAX,
        b.len() <= u64::MAX,
    ensures
        forall|k: int|
            0 <= k < group_lines(a, b, ops, seg).len() ==> line_true(
                #[trigger] group_lines(a, b, ops, seg)[k],
                a,
                b,
            ),
    decreases ops.len(),
{
    if ops.len() > 0 {
        lemma_fit_last(ops, a.len() as int, b.len() as int);
        lemma_group_true(a, b, ops.drop_last(), seg);
        lemma_op_true(a, b, ops.last(), seg);
        let x = group_lines(a, b, ops.drop_last(), seg);
        let y = op_lines(a, b, ops.last(), seg);
        let all = group_lines(a, b, ops, seg);
        assert forall|k: int| 0 <= k < all.len() implies line_true(#[trigger] all[k], a, b) by {
            if k < x.len() {
                assert(all[k] == x[k]);
            } else {
                assert(all[k] == y[k - x.len()]);
            }
        }
    }
}

/// What the hunks of clusters that can be shown say of a line is true of the files.
pub proof fn law_lines_true(
    a: Seq<Seq<char>>,
    b: Seq<Seq<char>>,
    groups: Seq<Seq<DiffOp>>,
    seg: SegmentFn,
)
    requires
        a.len() <= u64::MAX,
        b.len() <= u64::MAX,
        forall|g: int|
            0 <= g < groups.len() ==> ops_fit(#[trigger] groups[g], a.len() as int, b.len() as int),
    ensures
        hunks_true(hunks_of(a, b, groups, seg), a, b),
    decreases groups.len(),
{
    if groups.len() > 0 {
        let head = groups.drop_last();
        assert forall|g: int| 0 <= g < head.len() implies ops_fit(
            #[trigger] head[g],
            a.len() as int,
            b.len() as int,
        ) by {
            assert(groups[g] == head[g]);
        }
        law_lines_true(a, b, head, seg);
        assert(groups[groups.len() - 1] == groups.last());
        lemma_group_true(a, b, groups.last(), seg);
    }
}

/// A replacement lists the removed lines and then the added ones, each in the
/// order of its file. The removed and the added line at the same place of the two
/// lists are segmented against each other; lines that have no other line at their
/// place are not segmented.
pub proof fn law_replacement_pairs(
    a: Seq<Seq<char>>,
    b: Seq<Seq<char>>,
    op: DiffOp,
    seg: SegmentFn,
)
    requires
        op.tag == DiffTag::Replace,
        op_fits(op, a.len() as int, b.len() as int),
        a.len() <= u64::MAX,
        b.len() <= u64::MAX,
    ensures
        ({
            let lines = op_lines(a, b, op, seg);
            let p = op.old_end - op.old_start;
            let q = op.new_end - op.new_start;
            &&& lines.len() == p + q
            &&& forall|k: int|
                0 <= k < p ==> {
                    &&& (#[trigger] lines[k]).old_number == Some((op.old_start + k + 1) as u64)
                    &&& lines[k].new_number is None
                    &&& lines[k].content == a[op.old_start + k]
                }
            &&& forall|k: int|
                0 <= k < q ==> {
                    &&& (#[trigger] lines[p + k]).new_number == Some(
                        (op.new_start + k + 1) as u64,
                    )
                    &&& lines[p + k].old_number is None
                    &&& lines[p + k].content == b[op.new_start + k]
                }
            &&& forall|k: int|
                0 <= k < p && k < q ==> (#[trigger] lines[k].segments, lines[p + k].segments) == seg(
                    lines[k].content,
                    lines[p + k].content,
                )
            &&& forall|k: int| q <= k < p ==> (#[trigger] lines[k]).segments.len() == 0
            &&& forall|k: int| p <= k < q ==> (#[trigger] lines[p + k]).segments.len() == 0
        }),
{
}

/// Where the segments that are found for two lines make up these lines, the
/// segments of every line of a replacement that has any make up that line.
pub proof fn law_replacement_made_up(
    a: Seq<Seq<char>>,
    b: Seq<Seq<char>>,
    op: DiffOp,
    seg: SegmentFn,
)
    requires
        op.tag == DiffTag::Replace,
        op_fits(op, a.len() as int, b.len() as int),
        forall|x: Seq<char>, y: Seq<char>|
            makes_up((#[trigger] seg(x, y)).0, x) && makes_up(seg(x, y).1, y),
    ensures
        lines_made_up(op_lines(a, b, op, seg)),
{
}

/// Lines that are only removed or only added are not marked: each is one segment
/// that is the line.
pub proof fn law_unpaired_unmarked(
    a: Seq<Seq<char>>,
    b: Seq<Seq<char>>,
    op: DiffOp,
    seg: SegmentFn,
)
    requires
        op.tag == DiffTag::Delete || op.tag == DiffTag::Insert,
        op_fits(op, a.len() as int, b.len() as int),
    ensures
        op_lines(a, b, op, seg).len() == if op.tag == DiffTag::Delete {
            op.old_end - op.old_start
        } else {
            op.new_end - op.new_start
        },
        forall|k: int|
            0 <= k < op_lines(a, b, op, seg).len() ==> {
                let line = #[trigger] op_lines(a, b, op, seg)[k];
                &&& line.segments == seq![SegmentView { text: line.content, changed: false }]
                &&& line.content == if op.tag == DiffTag::Delete {
                    a[op.old_start + k]
                } else {
                    b[op.new_start + k]
                }
            },
{
}

/// The lines of steps in a row are the lines of each step in a row: none is left
/// out, put elsewhere or shown twice.
pub proof fn law_steps_in_order(
    a: Seq<Seq<char>>,
    b: Seq<Seq<char>>,
    first: Seq<DiffOp>,
    op: DiffOp,
    rest: Seq<DiffOp>,
    seg: SegmentFn,
)
    ensures
        group_lines(a, b, first + seq![op] + rest, seg) == group_lines(a, b, first, seg) + op_lines(
            a,
            b,
            op,
            seg,
        ) + group_lines(a, b, rest, seg),
    decreases rest.len(),
{
    let all = first + seq![op] + rest;
    if rest.len() == 0 {
        assert(all.drop_last() =~= first);
        assert(all.last() == op);
        assert(group_lines(a, b, all, seg) =~= group_lines(a, b, first, seg) + op_lines(
            a,
            b,
            op,
            seg,
        ) + group_lines(a, b, rest, seg));
    } else {
        law_steps_in_order(a, b, first, op, rest.drop_last(), seg);
        assert(all.drop_last() =~= first + seq![op] + rest.drop_last());
        assert(all.last() == rest.last());
        assert(group_lines(a, b, all, seg) =~= group_lines(a, b, first, seg) + op_lines(
            a,
            b,
            op,
            seg,
        ) + group_lines(a, b, rest, seg));
    }
}

/// A token of a line is marked as changed exactly where the step that names it
/// does not keep it.
pub proof fn law_changed_marked(
    items: Seq<Seq<char>>,
    ops: Seq<DiffOp>,
    old_side: bool,
    end: int,
    i: int,
    k: int,
)
    requires
        runs(ops, old_side, 0, end),
        end <= items.len(),
        0 <= i < ops.len(),
        names_side(ops[i], old_side),
        side_start(ops[i], old_side) <= k < side_end(ops[i], old_side),
    ensures
        0 <= k < side_segments(items, ops, old_side).len(),
        side_segments(items, ops, old_side).len() == end,
        side_segments(items, ops, old_side)[k] == (SegmentView {
            text: items[k],
            changed: ops[i].tag != DiffTag::Equal,
        }),
    decreases ops.len(),
{
    lemma_side_texts(items, ops, old_side, end);
    assert(segment_texts(side_segments(items, ops, old_side)).len() == end);
    let head = ops.drop_last();
    let op = ops.last();
    let first = side_segments(items, head, old_side);
    let mid = if names_side(op, old_side) {
        side_start(op, old_side)
    } else {
        end
    };
    lemma_side_texts(items, head, old_side, mid);
    assert(segment_texts(first).len() == mid);
    if i < head.len() {
        assert(head[i] == ops[i]);
        law_changed_marked(items, head, old_side, mid, i, k);
    }
}

/// The kinds of all characters of a token.
pub open spec fn token_sound(t: Seq<char>) -> bool {
    &&& t.len() > 0
    &&& forall|i: int, j: int|
        0 <= i < t.len() && 0 <= j < t.len() ==> kind_of(#[trigger] t[i]) == kind_of(
            #[trigger] t[j],
        )
    &&& kind_of(t[0]) == CharKind::Other ==> t.len() == 1
}

/// A token is a run of one kind or a single other character, and no run goes on
/// in the token behind it.
pub proof fn law_tokens_are_runs(s: Seq<char>)
    ensures
        forall|i: int| 0 <= i < tokens_of(s).len() ==> token_sound(#[trigger] tokens_of(s)[i]),
        forall|i: int, j: int|
            0 <= i < tokens_of(s).len() && j == i + 1 && j < tokens_of(s).len() ==> kind_of(
                (#[trigger] tokens_of(s)[i])[0],
            ) == CharKind::Other || kind_of(tokens_of(s)[i][0]) != kind_of(
                (#[trigger] tokens_of(s)[j])[0],
            ),
        s.len() > 0 ==> tokens_of(s).len() > 0 && kind_of(tokens_of(s).last()[0]) == kind_of(
            s.last(),
        ),
    decreases s.len(),
{
    if s.len() > 0 {
        let head = s.drop_last();
        law_tokens_are_runs(head);
        let rest = tokens_of(head);
        let all = tokens_of(s);
        if s.len() > 1 {
            assert(head.last() == s[s.len() - 2]);
        }
        if continues_token(s) {
            let grown = rest.last().push(s.last());
            assert(token_sound(rest[rest.len() - 1]));
            assert forall|i: int, j: int| 0 <= i < grown.len() && 0 <= j < grown.len() implies kind_of(
                #[trigger] grown[i],
            ) == kind_of(#[trigger] grown[j]) by {
                let t = rest.last();
                assert(kind_of(t[0]) == kind_of(s.last()));
                if i < t.len() {
                    assert(grown[i] == t[i]);
                    assert(kind_of(t[i]) == kind_of(t[0]));
                }
                if j < t.len() {
                    assert(grown[j] == t[j]);
                    assert(kind_of(t[j]) == kind_of(t[0]));
                }
            }
            assert(grown[0] == rest.last()[0]);
            assert(token_sound(grown));
            assert forall|i: int| 0 <= i < all.len() implies token_sound(#[trigger] all[i]) by {
                if i < rest.len() - 1 {
                    assert(all[i] == rest[i]);
                } else {
                    assert(all[i] == grown);
                }
            }
            assert forall|i: int, j: int|
                0 <= i < all.len() && j == i + 1 && j < all.len() implies kind_of(
                (#[trigger] all[i])[0],
            ) == CharKind::Other || kind_of(all[i][0]) != kind_of((#[trigger] all[j])[0]) by {
                assert(all[i] == rest[i]);
                if j == all.len() - 1 {
                    assert(all[j][0] == rest[j][0]);
                } else {
                    assert(all[j] == rest[j]);
                }
            }
        } else {
            assert forall|i: int| 0 <= i < all.len() implies token_sound(#[trigger] all[i]) by {
                if i < rest.len() {
                    assert(all[i] == rest[i]);
                }
            }
            assert forall|i: int, j: int|
                0 <= i < all.len() && j == i + 1 && j < all.len() implies kind_of(
                (#[trigger] all[i])[0],
            ) == CharKind::Other || kind_of(all[i][0]) != kind_of((#[trigger] all[j])[0]) by {
                assert(all[i] == rest[i]);
                if j < rest.len() {
                    assert(all[j] == rest[j]);
                }
            }
        }
    }
}

// --- which lines change ------------------------------------------------------

/// The positions of the lines that change on the chosen side: the removed lines
/// of the original file, or the added ones of the revised file.
pub open spec fn changed_of(lines: Seq<LineView>, old_side: bool) -> Seq<int>
    decreases lines.len(),
{
    if lines.len() == 0 {
        seq![]
    } else {
        let rest = changed_of(lines.drop_last(), old_side);
        let line = lines.last();
        match (line.old_number, line.new_number) {
            (Some(x), None) => if old_side {
                rest.push(x - 1)
            } else {
                rest
            },
            (None, Some(y)) => if old_side {
                rest
            } else {
                rest.push(y - 1)
            },
            _ => rest,
        }
    }
}

/// The lines of all hunks.
pub open spec fn all_lines(hunks: Seq<HunkView>) -> Seq<LineView>
    decreases hunks.len(),
{
    if hunks.len() == 0 {
        seq![]
    } else {
        all_lines(hunks.drop_last()) + hunks.last().lines
    }
}

/// The positions rise, so that none is listed twice, and lie between `from` and
/// `to`.
pub open spec fn rising(v: Seq<int>, from: int, to: int) -> bool {
    &&& forall|i: int| 0 <= i < v.len() ==> from <= #[trigger] v[i] < to
    &&& forall|i: int, j: int| 0 <= i < j < v.len() ==> #[trigger] v[i] < #[trigger] v[j]
}

/// The first `o` rows without those at the given positions, which rise.
pub open spec fn rows_without(rows: Seq<Seq<char>>, gone: Seq<int>, o: int) -> Seq<Seq<char>>
    decreases o,
{
    if o <= 0 {
        seq![]
    } else if gone.len() > 0 && gone.last() == o - 1 {
        rows_without(rows, gone.drop_last(), o - 1)
    } else {
        rows_without(rows, gone, o - 1).push(rows[o - 1])
    }
}

/// The hunks account for all lines: the removed and the added lines are different
/// ones, as many as are counted, and all other lines of the two files pair up in
/// order, each with one of the same key.
pub open spec fn accounts(
    hunks: Seq<HunkView>,
    old_keys: Seq<Seq<char>>,
    new_keys: Seq<Seq<char>>,
    additions: int,
    deletions: int,
) -> bool {
    let gone = changed_of(all_lines(hunks), true);
    let come = changed_of(all_lines(hunks), false);
    &&& rising(gone, 0, old_keys.len() as int)
    &&& rising(come, 0, new_keys.len() as int)
    &&& gone.len() == deletions
    &&& come.len() == additions
    &&& rows_without(old_keys, gone, old_keys.len() as int) == rows_without(
        new_keys,
        come,
        new_keys.len() as int,
    )
}

/// The positions from `x` on, `n` of them.
spec fn span(x: int, n: int) -> Seq<int> {
    Seq::new(n as nat, |k: int| x + k)
}

/// The positions that a step changes on the chosen side.
spec fn op_changed(op: DiffOp, old_side: bool) -> Seq<int> {
    if op.tag != DiffTag::Equal && names_side(op, old_side) {
        span(side_start(op, old_side), side_len(op, old_side))
    } else {
        seq![]
    }
}

/// The positions that a row of steps changes on the chosen side.
spec fn ops_changed(ops: Seq<DiffOp>, old_side: bool) -> Seq<int>
    decreases ops.len(),
{
    if ops.len() == 0 {
        seq![]
    } else {
        ops_changed(ops.drop_last(), old_side) + op_changed(ops.last(), old_side)
    }
}

/// The positions that a row of clusters changes on the chosen side.
spec fn groups_changed(groups: Seq<Seq<DiffOp>>, old_side: bool) -> Seq<int>
    decreases groups.len(),
{
    if groups.len() == 0 {
        seq![]
    } else {
        groups_changed(groups.drop_last(), old_side) + ops_changed(groups.last(), old_side)
    }
}

/// The items that a row of steps keeps, as they stand on the chosen side.
spec fn ops_kept(ops: Seq<DiffOp>, items: Seq<Seq<char>>, old_side: bool) -> Seq<Seq<char>>
    decreases ops.len(),
{
    if ops.len() == 0 {
        seq![]
    } else if ops.last().tag == DiffTag::Equal {
        ops_kept(ops.drop_last(), items, old_side) + items.subrange(
            side_start(ops.last(), old_side),
            side_end(ops.last(), old_side),
        )
    } else {
        ops_kept(ops.drop_last(), items, old_side)
    }
}

proof fn lemma_changed_append(x: Seq<LineView>, y: Seq<LineView>, old_side: bool)
    ensures
        changed_of(x + y, old_side) == changed_of(x, old_side) + changed_of(y, old_side),
    decreases y.len(),
{
    if y.len() == 0 {
        assert(x + y =~= x);
        assert(changed_of(x, old_side) + changed_of(y, old_side) =~= changed_of(x, old_side));
    } else {
        lemma_changed_append(x, y.drop_last(), old_side);
        assert((x + y).drop_last() =~= x + y.drop_last());
        assert((x + y).last() == y.last());
        assert(changed_of(x + y, old_side) =~= changed_of(x, old_side) + changed_of(y, old_side));
    }
}

/// Lines that are numbered from `x` on in the original file, where they have a
/// number there, and from `y` on in the revised file, where they have one there.
spec fn numbered(lines: Seq<LineView>, x: int, in_old: bool, y: int, in_new: bool) -> bool {
    forall|k: int|
        0 <= k < lines.len() ==> {
            let line = #[trigger] lines[k];
            &&& line.old_number == if in_old {
                Some((x + k + 1) as u64)
            } else {
                None
            }
            &&& line.new_number == if in_new {
                Some((y + k + 1) as u64)
            } else {
                None
            }
        }
}

proof fn lemma_changed_numbered(
    lines: Seq<LineView>,
    x: int,
    in_old: bool,
    y: int,
    in_new: bool,
    old_side: bool,
)
    requires
        numbered(lines, x, in_old, y, in_new),
        in_old ==> 0 <= x && x + lines.len() <= u64::MAX,
        in_new ==> 0 <= y && y + lines.len() <= u64::MAX,
    ensures
        changed_of(lines, old_side) == if old_side && in_old && !in_new {
            span(x, lines.len() as int)
        } else if !old_side && in_new && !in_old {
            span(y, lines.len() as int)
        } else {
            seq![]
        },
    decreases lines.len(),
{
    let n = lines.len() as int;
    if n > 0 {
        let head = lines.drop_last();
        assert forall|k: int| 0 <= k < head.len() implies ({
            let line = #[trigger] head[k];
            &&& line.old_number == if in_old {
                Some((x + k + 1) as u64)
            } else {
                None
            }
            &&& line.new_number == if in_new {
                Some((y + k + 1) as u64)
            } else {
                None
            }
        }) by {
            assert(head[k] == lines[k]);
        }
        lemma_changed_numbered(head, x, in_old, y, in_new, old_side);
        let line = lines[n - 1];
        assert(lines.last() == line);
        assert(span(x, n - 1).push(x + n - 1) =~= span(x, n));
        assert(span(y, n - 1).push(y + n - 1) =~= span(y, n));
    } else {
        assert(span(x, n) =~= seq![]);
        assert(span(y, n) =~= seq![]);
    }
}

proof fn lemma_op_changed(
    a: Seq<Seq<char>>,
    b: Seq<Seq<char>>,
    op: DiffOp,
    seg: SegmentFn,
    old_side: bool,
)
    requires
        op_fits(op, a.len() as int, b.len() as int),
        a.len() <= u64::MAX,
        b.len() <= u64::MAX,
    ensures
        changed_of(op_lines(a, b, op, seg), old_side) == op_changed(op, old_side),
{
    let (x, y) = (op.old_start as int, op.new_start as int);
    let lines = op_lines(a, b, op, seg);
    match op.tag {
        DiffTag::Equal => {
            lemma_changed_numbered(lines, x, true, y, true, old_side);
        },
        DiffTag::Delete => {
            lemma_changed_numbered(lines, x, true, y, false, old_side);
        },
        DiffTag::Insert => {
            lemma_changed_numbered(lines, x, false, y, true, old_side);
        },
        DiffTag::Replace => {
            let out = replaced_old(a, b, op, seg, op.old_end - op.old_start);
            let come = replaced_new(a, b, op, seg, op.new_end - op.new_start);
            lemma_changed_numbered(out, x, true, y, false, old_side);
            lemma_changed_numbered(come, x, false, y, true, old_side);
            lemma_changed_append(out, come, old_side);
            let none = Seq::<int>::empty();
            assert(changed_of(out, old_side) + none =~= changed_of(out, old_side));
            assert(none + changed_of(come, old_side) =~= changed_of(come, old_side));
        },
    }
}

proof fn lemma_group_changed(
    a: Seq<Seq<char>>,
    b: Seq<Seq<char>>,
    ops: Seq<DiffOp>,
    seg: SegmentFn,
    old_side: bool,
)
    requires
        ops_fit(ops, a.len() as int, b.len() as int),
        a.len() <= u64::MAX,
        b.len() <= u64::MAX,
    ensures
        changed_of(group_lines(a, b, ops, seg), old_side) == ops_changed(ops, old_side),
        ops_changed(ops, old_side).len() == if old_side {
            ops_removed(ops)
        } else {
            ops_added(ops)
        },
    decreases ops.len(),
{
    if ops.len() > 0 {
        lemma_fit_last(ops, a.len() as int, b.len() as int);
        lemma_group_changed(a, b, ops.drop_last(), seg, old_side);
        lemma_op_changed(a, b, ops.last(), seg, old_side);
        lemma_changed_append(
            group_lines(a, b, ops.drop_last(), seg),
            op_lines(a, b, ops.last(), seg),
            old_side,
        );
    }
}

proof fn lemma_hunks_changed(
    a: Seq<Seq<char>>,
    b: Seq<Seq<char>>,
    groups: Seq<Seq<DiffOp>>,
    seg: SegmentFn,
    old_side: bool,
)
    requires
        forall|g: int|
            0 <= g < groups.len() ==> ops_fit(#[trigger] groups[g], a.len() as int, b.len() as int),
        a.len() <= u64::MAX,
        b.len() <= u64::MAX,
    ensures
        changed_of(all_lines(hunks_of(a, b, groups, seg)), old_side) == groups_changed(
            groups,
            old_side,
        ),
        groups_changed(groups, old_side).len() == if old_side {
            ops_removed(all_ops(groups))
        } else {
            ops_added(all_ops(groups))
        },
    decreases groups.len(),
{
    let (n, m) = (a.len() as int, b.len() as int);
    if groups.len() > 0 {
        let head = groups.drop_last();
        let ops = groups.last();
        assert(ops == groups[groups.len() - 1]);
        assert forall|g: int| 0 <= g < head.len() implies ops_fit(#[trigger] head[g], n, m) by {
            assert(groups[g] == head[g]);
        }
        lemma_hunks_changed(a, b, head, seg, old_side);
        lemma_group_changed(a, b, ops, seg, old_side);
        lemma_counts_grow(all_ops(head), ops, n, m);
        let before = hunks_of(a, b, head, seg);
        let all = hunks_of(a, b, groups, seg);
        if ops.len() > 0 {
            assert(all.drop_last() =~= before);
            lemma_changed_append(all_lines(before), group_lines(a, b, ops, seg), old_side);
        } else {
            assert(groups_changed(head, old_side) + ops_changed(ops, old_side) =~= groups_changed(
                head,
                old_side,
            ));
        }
    }
}

proof fn lemma_without_gap(rows: Seq<Seq<char>>, gone: Seq<int>, s: int, e: int)
    requires
        0 <= s <= e <= rows.len(),
        rising(gone, 0, s),
    ensures
        rows_without(rows, gone, e) == rows_without(rows, gone, s) + rows.subrange(s, e),
    decreases e - s,
{
    if s < e {
        lemma_without_gap(rows, gone, s, e - 1);
        if gone.len() > 0 {
            assert(gone[gone.len() - 1] < s);
        }
        assert(rows.subrange(s, e) =~= rows.subrange(s, e - 1).push(rows[e - 1]));
        assert(rows_without(rows, gone, e) =~= rows_without(rows, gone, s) + rows.subrange(s, e));
    } else {
        assert(rows_without(rows, gone, s) + rows.subrange(s, e) =~= rows_without(rows, gone, s));
    }
}

proof fn lemma_without_span(rows: Seq<Seq<char>>, gone: Seq<int>, s: int, e: int)
    requires
        0 <= s <= e,
    ensures
        rows_without(rows, gone + span(s, e - s), e) == rows_without(rows, gone, s),
    decreases e - s,
{
    let all = gone + span(s, e - s);
    if s < e {
        lemma_without_span(rows, gone, s, e - 1);
        assert(all.last() == e - 1);
        assert(all.drop_last() =~= gone + span(s, e - 1 - s));
    } else {
        assert(all =~= gone);
    }
}

proof fn lemma_rising_append(x: Seq<int>, y: Seq<int>, from: int, mid: int, to: int)
    requires
        rising(x, from, mid),
        rising(y, mid, to),
        from <= mid <= to,
    ensures
        rising(x + y, from, to),
{
    let all = x + y;
    let n = x.len();
    assert forall|i: int| 0 <= i < all.len() implies from <= #[trigger] all[i] < to by {
        if i < n {
            assert(all[i] == x[i]);
        } else {
            assert(all[i] == y[i - n]);
        }
    }
    assert forall|i: int, j: int| 0 <= i < j < all.len() implies #[trigger] all[i]
        < #[trigger] all[j] by {
        if j < n {
            assert(all[i] == x[i] && all[j] == x[j]);
        } else if i < n {
            assert(all[i] == x[i] && all[j] == y[j - n]);
        } else {
            assert(all[i] == y[i - n] && all[j] == y[j - n]);
        }
    }
}

proof fn lemma_ops_account(
    rows: Seq<Seq<char>>,
    before: Seq<int>,
    ops: Seq<DiffOp>,
    old_side: bool,
    from: int,
    to: int,
    n: int,
    m: int,
)
    requires
        ops_fit(ops, n, m),
        runs(ops, old_side, from, to),
        0 <= from,
        to <= rows.len(),
        rising(before, 0, from),
    ensures
        from <= to,
        rising(ops_changed(ops, old_side), from, to),
        rising(before + ops_changed(ops, old_side), 0, to),
        rows_without(rows, before + ops_changed(ops, old_side), to) == rows_without(
            rows,
            before,
            from,
        ) + ops_kept(ops, rows, old_side),
    decreases ops.len(),
{
    let changed = ops_changed(ops, old_side);
    let none = Seq::<Seq<char>>::empty();
    if ops.len() == 0 {
        assert(before + changed =~= before);
        assert(rows_without(rows, before, from) + none =~= rows_without(rows, before, from));
    } else {
        let op = ops.last();
        let head = ops.drop_last();
        let first = ops_changed(head, old_side);
        lemma_fit_last(ops, n, m);
        if names_side(op, old_side) {
            let s = side_start(op, old_side);
            lemma_ops_account(rows, before, head, old_side, from, s, n, m);
            if op.tag == DiffTag::Equal {
                assert(changed =~= first);
                lemma_without_gap(rows, before + first, s, to);
                assert(rows_without(rows, before, from) + ops_kept(head, rows, old_side)
                    + rows.subrange(s, to) =~= rows_without(rows, before, from) + ops_kept(
                    ops,
                    rows,
                    old_side,
                ));
            } else {
                let more = span(s, to - s);
                assert(before + changed =~= before + first + more);
                lemma_without_span(rows, before + first, s, to);
                lemma_rising_append(first, more, from, s, to);
                lemma_rising_append(before + first, more, 0, s, to);
            }
        } else {
            lemma_ops_account(rows, before, head, old_side, from, to, n, m);
            assert(changed =~= first);
        }
    }
}

proof fn lemma_kept_same(ops: Seq<DiffOp>, old_items: Seq<Seq<char>>, new_items: Seq<Seq<char>>)
    requires
        ops_hold(ops, old_items, new_items),
    ensures
        ops_kept(ops, old_items, true) == ops_kept(ops, new_items, false),
    decreases ops.len(),
{
    if ops.len() > 0 {
        lemma_hold_last(ops, old_items, new_items);
        lemma_kept_same(ops.drop_last(), old_items, new_items);
    }
}

proof fn lemma_groups_account(
    groups: Seq<Seq<DiffOp>>,
    old_items: Seq<Seq<char>>,
    new_items: Seq<Seq<char>>,
    o: int,
    p: int,
)
    requires
        forall|g: int|
            0 <= g < groups.len() ==> ops_hold(#[trigger] groups[g], old_items, new_items),
        reaches(groups, old_items, new_items, o, p),
        0 <= o <= old_items.len(),
        0 <= p <= new_items.len(),
    ensures
        rising(groups_changed(groups, true), 0, o),
        rising(groups_changed(groups, false), 0, p),
        rows_without(old_items, groups_changed(groups, true), o) == rows_without(
            new_items,
            groups_changed(groups, false),
            p,
        ),
    decreases groups.len(),
{
    let (n, m) = (old_items.len() as int, new_items.len() as int);
    if groups.len() == 0 {
        lemma_without_gap(old_items, seq![], 0, o);
        lemma_without_gap(new_items, seq![], 0, p);
        assert(old_items.subrange(0, o) =~= old_items.take(o));
        assert(new_items.subrange(0, p) =~= new_items.take(p));
    } else {
        let head = groups.drop_last();
        let ops = groups.last();
        let (i, k) = (begins(ops, true), begins(ops, false));
        let (j, l) = (ends(ops, true), ends(ops, false));
        let (x, y) = (groups_changed(head, true), groups_changed(head, false));
        assert(ops == groups[groups.len() - 1]);
        assert forall|g: int| 0 <= g < head.len() implies ops_hold(
            #[trigger] head[g],
            old_items,
            new_items,
        ) by {
            assert(groups[g] == head[g]);
        }
        lemma_begins_from(ops, true);
        lemma_begins_from(ops, false);
        lemma_runs(ops, true, i, j, n, m);
        lemma_runs(ops, false, k, l, n, m);
        lemma_groups_account(head, old_items, new_items, i, k);
        lemma_ops_account(old_items, x, ops, true, i, j, n, m);
        lemma_ops_account(new_items, y, ops, false, k, l, n, m);
        lemma_kept_same(ops, old_items, new_items);
        lemma_without_gap(old_items, x + ops_changed(ops, true), j, o);
        lemma_without_gap(new_items, y + ops_changed(ops, false), l, p);
    }
}

/// Where clusters lead from one file to another, the hunks account for all lines.
pub proof fn law_lines_account(
    a: Seq<Seq<char>>,
    b: Seq<Seq<char>>,
    groups: Seq<Seq<DiffOp>>,
    seg: SegmentFn,
    ignore_whitespace: bool,
)
    requires
        a.len() <= u64::MAX,
        b.len() <= u64::MAX,
        forall|g: int|
            0 <= g < groups.len() ==> ops_hold(
                #[trigger] groups[g],
                key_texts(a, ignore_whitespace),
                key_texts(b, ignore_whitespace),
            ),
        reaches(
            groups,
            key_texts(a, ignore_whitespace),
            key_texts(b, ignore_whitespace),
            a.len() as int,
            b.len() as int,
        ),
    ensures
        accounts(
            hunks_of(a, b, groups, seg),
            key_texts(a, ignore_whitespace),
            key_texts(b, ignore_whitespace),
            ops_added(all_ops(groups)),
            ops_removed(all_ops(groups)),
        ),
{
    let ka = key_texts(a, ignore_whitespace);
    let kb = key_texts(b, ignore_whitespace);
    assert forall|g: int| 0 <= g < groups.len() implies ops_fit(
        #[trigger] groups[g],
        a.len() as int,
        b.len() as int,
    ) by {
        assert(ops_hold(groups[g], ka, kb));
    }
    lemma_hunks_changed(a, b, groups, seg, true);
    lemma_hunks_changed(a, b, groups, seg, false);
    lemma_groups_account(groups, ka, kb, a.len() as int, b.len() as int);
}

// --- whole files -------------------------------------------------------------

/// What two lines are compared by: the line, or the line without white space.
pub open spec fn key_text(line: Seq<char>, ignore_whitespace: bool) -> Seq<char> {
    if ignore_whitespace {
        line.filter(|c: char| !is_space(c))
    } else {
        line
    }
}

/// The keys of lines.
pub open spec fn key_texts(v: Seq<Seq<char>>, ignore_whitespace: bool) -> Seq<Seq<char>> {
    v.map_values(|l: Seq<char>| key_text(l, ignore_whitespace))
}

/// What a line is compared by.
pub fn key_of(line: &str, ignore_whitespace: bool) -> (r: String)
    ensures
        r@ == key_text(line@, ignore_whitespace),
{
    if !ignore_whitespace {
        return line.to_owned();
    }
    let cs = chars_of(line);
    let mut r: String = String::new();
    let mut i: usize = 0;
    proof {
        reveal(Seq::filter);
        assert(r@ =~= cs@.take(0).filter(|c: char| !is_space(c)));
    }
    while i < cs.len()
        invariant
            i <= cs.len(),
            cs@ == line@,
            r@ == cs@.take(i as int).filter(|c: char| !is_space(c)),
        decreases cs.len() - i,
    {
        proof {
            assert(cs@.take(i as int + 1) =~= cs@.take(i as int).push(cs@[i as int]));
            cs@.take(i as int).lemma_filter_push(cs@[i as int], |c: char| !is_space(c));
        }
        if !char_is_space(cs[i]) {
            r.push(cs[i]);
        }
        i += 1;
    }
    assert(cs@.take(cs@.len() as int) =~= cs@);
    r
}

/// The keys of lines.
fn keys_of(v: &Vec<String>, ignore_whitespace: bool) -> (r: Vec<String>)
    ensures
        texts(r@) == key_texts(texts(v@), ignore_whitespace),
        r@.len() == v@.len(),
{
    let mut r: Vec<String> = Vec::new();
    let mut i: usize = 0;
    let ghost all = key_texts(texts(v@), ignore_whitespace);
    while i < v.len()
        invariant
            i <= v.len(),
            r@.len() == i,
            all == key_texts(texts(v@), ignore_whitespace),
            texts(r@) == all.take(i as int),
        decreases v.len() - i,
    {
        let ghost r0 = texts(r@);
        r.push(key_of(v[i].as_str(), ignore_whitespace));
        i += 1;
        assert(texts(r@) =~= r0.push(all[i as int - 1]));
        assert(texts(r@) =~= all.take(i as int));
    }
    assert(all.take(v@.len() as int) =~= all);
    r
}

/// A context line stands for two lines with the same key.
pub open spec fn line_agrees(line: LineView, ignore_whitespace: bool) -> bool {
    line.kind == "context"@ ==> line.revised_content is Some && key_text(
        line.content,
        ignore_whitespace,
    ) == key_text(line.revised_content->0, ignore_whitespace)
}

/// Every context line stands for two lines with the same key.
pub open spec fn context_agrees(hunks: Seq<HunkView>, ignore_whitespace: bool) -> bool {
    forall|h: int, i: int|
        0 <= h < hunks.len() && 0 <= i < hunks[h].lines.len() ==> line_agrees(
            #[trigger] hunks[h].lines[i],
            ignore_whitespace,
        )
}

proof fn lemma_lines_agree(
    a: Seq<Seq<char>>,
    b: Seq<Seq<char>>,
    ops: Seq<DiffOp>,
    seg: SegmentFn,
    ignore_whitespace: bool,
)
    requires
        ops_hold(ops, key_texts(a, ignore_whitespace), key_texts(b, ignore_whitespace)),
    ensures
        forall|i: int|
            0 <= i < group_lines(a, b, ops, seg).len() ==> line_agrees(
                #[trigger] group_lines(a, b, ops, seg)[i],
                ignore_whitespace,
            ),
    decreases ops.len(),
{
    let ka = key_texts(a, ignore_whitespace);
    let kb = key_texts(b, ignore_whitespace);
    let lines = group_lines(a, b, ops, seg);
    if ops.len() > 0 {
        let op = ops.last();
        lemma_hold_last(ops, ka, kb);
        lemma_lines_agree(a, b, ops.drop_last(), seg, ignore_whitespace);
        let first = group_lines(a, b, ops.drop_last(), seg);
        reveal_strlit("context");
        reveal_strlit("removed");
        reveal_strlit("added");
        assert("context"@[0] != "removed"@[0]);
        assert("context"@[0] != "added"@[0]);
        assert forall|i: int| 0 <= i < lines.len() implies line_agrees(
            #[trigger] lines[i],
            ignore_whitespace,
        ) by {
            if i < first.len() {
                assert(first[i] == lines[i]);
            } else {
                let k = i - first.len();
                assert(lines[i] == op_lines(a, b, op, seg)[k]);
                if op.tag == DiffTag::Equal {
                    let x = ka.subrange(op.old_start as int, op.old_end as int);
                    let y = kb.subrange(op.new_start as int, op.new_end as int);
                    assert(x[k] == y[k]);
                    assert(x[k] == ka[op.old_start + k] && y[k] == kb[op.new_start + k]);
                }
            }
        }
    }
}

proof fn lemma_context_agrees(
    a: Seq<Seq<char>>,
    b: Seq<Seq<char>>,
    groups: Seq<Seq<DiffOp>>,
    seg: SegmentFn,
    ignore_whitespace: bool,
)
    requires
        forall|g: int|
            0 <= g < groups.len() ==> ops_hold(
                #[trigger] groups[g],
                key_texts(a, ignore_whitespace),
                key_texts(b, ignore_whitespace),
            ),
    ensures
        context_agrees(hunks_of(a, b, groups, seg), ignore_whitespace),
    decreases groups.len(),
{
    if groups.len() > 0 {
        let head = groups.drop_last();
        let ops = groups.last();
        assert forall|g: int| 0 <= g < head.len() implies ops_hold(
            #[trigger] head[g],
            key_texts(a, ignore_whitespace),
            key_texts(b, ignore_whitespace),
        ) by {
            assert(groups[g] == head[g]);
        }
        lemma_context_agrees(a, b, head, seg, ignore_whitespace);
        assert(ops == groups[groups.len() - 1]);
        lemma_lines_agree(a, b, ops, seg, ignore_whitespace);
        let before = hunks_of(a, b, head, seg);
        let all = hunks_of(a, b, groups, seg);
        assert forall|h: int, i: int|
            0 <= h < all.len() && 0 <= i < all[h].lines.len() implies line_agrees(
            #[trigger] all[h].lines[i],
            ignore_whitespace,
        ) by {
            if h < before.len() {
                assert(before[h].lines[i] == all[h].lines[i]);
            } else {
                assert(group_lines(a, b, ops, seg)[i] == all[h].lines[i]);
            }
        }
    }
}

/// Where clusters lead from one file to another, the hunks, put into the original
/// file, make the revised one, up to what is ignored.
pub proof fn law_hunks_patch(
    a: Seq<Seq<char>>,
    b: Seq<Seq<char>>,
    groups: Seq<Seq<DiffOp>>,
    seg: SegmentFn,
    ignore_whitespace: bool,
    o: int,
    p: int,
)
    requires
        forall|g: int|
            0 <= g < groups.len() ==> (#[trigger] groups[g]).len() > 0 && ops_fit(
                groups[g],
                a.len() as int,
                b.len() as int,
            ),
        reaches(
            groups,
            key_texts(a, ignore_whitespace),
            key_texts(b, ignore_whitespace),
            o,
            p,
        ),
        0 <= o <= a.len(),
        0 <= p <= b.len(),
    ensures
        key_texts(
            patched(a, hunks_of(a, b, groups, seg), starts_of(groups), o),
            ignore_whitespace,
        ) == key_texts(b.take(p), ignore_whitespace),
    decreases groups.len(),
{
    let ka = key_texts(a, ignore_whitespace);
    let kb = key_texts(b, ignore_whitespace);
    let all = hunks_of(a, b, groups, seg);
    if groups.len() == 0 {
        assert(key_texts(a.take(o), ignore_whitespace) =~= ka.take(o));
        assert(key_texts(b.take(p), ignore_whitespace) =~= kb.take(p));
    } else {
        let head = groups.drop_last();
        let ops = groups.last();
        let (i, k) = (begins(ops, true), begins(ops, false));
        let (j, l) = (ends(ops, true), ends(ops, false));
        assert(ops == groups[groups.len() - 1]);
        assert forall|g: int| 0 <= g < head.len() implies (#[trigger] head[g]).len() > 0 && ops_fit(
            head[g],
            a.len() as int,
            b.len() as int,
        ) by {
            assert(groups[g] == head[g]);
        }
        lemma_begins_from(ops, true);
        lemma_begins_from(ops, false);
        lemma_runs(ops, true, i, j, a.len() as int, b.len() as int);
        lemma_runs(ops, false, k, l, a.len() as int, b.len() as int);
        law_hunks_patch(a, b, head, seg, ignore_whitespace, i, k);
        let lines = group_lines(a, b, ops, seg);
        law_header_counts(a, b, ops, seg);
        lemma_group_rows(a, b, ops, seg, k, l);
        assert(all.drop_last() =~= hunks_of(a, b, head, seg));
        assert(starts_of(groups).drop_last() =~= starts_of(head));
        let x = patched(a, all.drop_last(), starts_of(head), i);
        let y = b.subrange(k, l);
        let z = a.subrange(j, o);
        assert(key_texts(x + y + z, ignore_whitespace) =~= key_texts(x, ignore_whitespace)
            + key_texts(y, ignore_whitespace) + key_texts(z, ignore_whitespace));
        assert(key_texts(z, ignore_whitespace) =~= ka.subrange(j, o));
        assert(key_texts(b.subrange(l, p), ignore_whitespace) =~= kb.subrange(l, p));
        assert(key_texts(b.take(p), ignore_whitespace) =~= key_texts(b.take(k), ignore_whitespace)
            + key_texts(y, ignore_whitespace) + key_texts(b.subrange(l, p), ignore_whitespace));
    }
}

proof fn lemma_begins_from(ops: Seq<DiffOp>, old_side: bool)
    ensures
        begins(ops, old_side) >= 0,
    decreases ops.len(),
{
    if ops.len() > 1 && !names_side(ops[0], old_side) {
        lemma_begins_from(ops.drop_first(), old_side);
    }
}

proof fn lemma_counts_within(
    groups: Seq<Seq<DiffOp>>,
    old_items: Seq<Seq<char>>,
    new_items: Seq<Seq<char>>,
    o: int,
    p: int,
)
    requires
        forall|g: int|
            0 <= g < groups.len() ==> ops_fit(
                #[trigger] groups[g],
                old_items.len() as int,
                new_items.len() as int,
            ),
        reaches(groups, old_items, new_items, o, p),
        0 <= o,
        0 <= p,
    ensures
        ops_removed(all_ops(groups)) <= o,
        ops_added(all_ops(groups)) <= p,
        showable(groups, old_items.len() as int, new_items.len() as int),
    decreases groups.len(),
{
    let (n, m) = (old_items.len() as int, new_items.len() as int);
    if groups.len() > 0 {
        let head = groups.drop_last();
        let ops = groups.last();
        assert(ops == groups[groups.len() - 1]);
        assert forall|g: int| 0 <= g < head.len() implies ops_fit(#[trigger] head[g], n, m) by {
            assert(groups[g] == head[g]);
        }
        lemma_begins_from(ops, true);
        lemma_begins_from(ops, false);
        lemma_counts_within(head, old_items, new_items, begins(ops, true), begins(ops, false));
        lemma_counts_grow(all_ops(head), ops, n, m);
        assert forall|i: int| 0 <= i < groups.len() implies ops_fit(#[trigger] groups[i], n, m)
            && group_runs(groups[i]) by {
            if i < head.len() {
                assert(head[i] == groups[i]);
            }
        }
    }
}

/// The lines kept around a change.
pub const CONTEXT_LINES: usize = 3;

/// The clusters of steps between two files.
pub open spec fn file_groups(a: Seq<Seq<char>>, b: Seq<Seq<char>>, ignore_whitespace: bool) -> Seq<
    Seq<DiffOp>,
> {
    grouped_ops_of(
        key_texts(a, ignore_whitespace),
        key_texts(b, ignore_whitespace),
        CONTEXT_LINES as nat,
    )
}

/// The hunks, additions and deletions between two files.
pub open spec fn file_comparison(
    a: Seq<Seq<char>>,
    b: Seq<Seq<char>>,
    ignore_whitespace: bool,
) -> (Seq<HunkView>, int, int) {
    compared(
        a,
        b,
        file_groups(a, b, ignore_whitespace),
        |x: Seq<char>, y: Seq<char>| pair_segments(x, y),
    )
}

/// The clusters between two files do what clusters are for: the lines that their
/// steps name are there and lie end to end, the steps that keep lines pair lines
/// of one key, every cluster holds a change and little context, and what stands
/// outside them is equal by key.
pub open spec fn groups_sound(
    groups: Seq<Seq<DiffOp>>,
    old_keys: Seq<Seq<char>>,
    new_keys: Seq<Seq<char>>,
) -> bool {
    &&& showable(groups, old_keys.len() as int, new_keys.len() as int)
    &&& reaches(
        groups,
        old_keys,
        new_keys,
        old_keys.len() as int,
        new_keys.len() as int,
    )
    &&& forall|g: int|
        0 <= g < groups.len() ==> clustered(#[trigger] groups[g], CONTEXT_LINES as int) && ops_hold(
            groups[g],
            old_keys,
            new_keys,
        )
}

/// The hunks, additions and deletions between two files, given as lines. There
/// are hunks exactly where the keys of the files differ; every hunk holds a change
/// and little context, whose lines pair lines with the same key; the hunks account
/// for all lines, and turn the original file into the revised one.
pub fn compare(a: Vec<String>, b: Vec<String>, ignore_whitespace: bool) -> (r: (
    Vec<CompareHunk>,
    u64,
    u64,
))
    ensures
        compared_view(r) == file_comparison(texts(a@), texts(b@), ignore_whitespace),
        r.0@.len() == 0 <==> key_texts(texts(a@), ignore_whitespace) == key_texts(
            texts(b@),
            ignore_whitespace,
        ),
        r.0@.len() == 0 ==> r.1 == 0 && r.2 == 0,
        groups_sound(
            file_groups(texts(a@), texts(b@), ignore_whitespace),
            key_texts(texts(a@), ignore_whitespace),
            key_texts(texts(b@), ignore_whitespace),
        ),
        context_agrees(hunk_views(r.0@), ignore_whitespace),
        hunks_made_up(hunk_views(r.0@)),
        hunks_true(hunk_views(r.0@), texts(a@), texts(b@)),
        forall|h: int|
            0 <= h < r.0@.len() ==> context_bounded(
                (#[trigger] hunk_views(r.0@)[h]).lines,
                CONTEXT_LINES as int,
            ),
        accounts(
            hunk_views(r.0@),
            key_texts(texts(a@), ignore_whitespace),
            key_texts(texts(b@), ignore_whitespace),
            r.1 as int,
            r.2 as int,
        ),
        key_texts(
            patched(
                texts(a@),
                hunk_views(r.0@),
                starts_of(file_groups(texts(a@), texts(b@), ignore_whitespace)),
                a@.len() as int,
            ),
            ignore_whitespace,
        ) == key_texts(texts(b@), ignore_whitespace),
{
    let keys_a = keys_of(&a, ignore_whitespace);
    let keys_b = keys_of(&b, ignore_whitespace);
    let groups = grouped_ops(&keys_a, &keys_b, CONTEXT_LINES);
    let ghost gv = group_views(groups@);
    let ghost seg: SegmentFn = |x: Seq<char>, y: Seq<char>| pair_segments(x, y);
    let ghost (ta, tb) = (texts(a@), texts(b@));
    let ghost (ka, kb) = (texts(keys_a@), texts(keys_b@));
    let ghost (n, m) = (a@.len() as int, b@.len() as int);
    proof {
        assert(ta.len() == n && tb.len() == m && ka.len() == n && kb.len() == m);
        assert(n == a.len() && m == b.len());
        assert forall|g: int| 0 <= g < gv.len() implies clustered(
            #[trigger] gv[g],
            CONTEXT_LINES as int,
        ) && gv[g].len() > 0 && ops_hold(gv[g], ka, kb) by {
            assert(gv[g] == groups@[g]@);
        }
        lemma_counts_within(gv, ka, kb, n, m);
        lemma_context_agrees(ta, tb, gv, seg, ignore_whitespace);
        law_hunks_patch(ta, tb, gv, seg, ignore_whitespace, n, m);
        assert(tb.take(m) =~= tb);
        lemma_hunk_lines(ta, tb, gv, seg);
        law_lines_true(ta, tb, gv, seg);
        law_lines_account(ta, tb, gv, seg, ignore_whitespace);
        assert forall|h: int| 0 <= h < gv.len() implies context_bounded(
            (#[trigger] hunks_of(ta, tb, gv, seg)[h]).lines,
            CONTEXT_LINES as int,
        ) by {
            assert(clustered(gv[h], CONTEXT_LINES as int));
            law_context_bounded(ta, tb, gv[h], seg, CONTEXT_LINES as int);
        }
        if groups@.len() == 0 {
            assert(gv =~= seq![]);
            assert(ka.take(n) =~= ka && kb.take(m) =~= kb);
            assert(all_ops(gv) =~= seq![]);
        }
    }
    assert(finds_as(segments, seg));
    assert(segments_whole(segments));
    let r = compare_from(&a, &b, &groups, &segments);
    assert(hunk_views(r.0@).len() == r.0@.len());
    r
}

proof fn lemma_hunk_lines(
    a: Seq<Seq<char>>,
    b: Seq<Seq<char>>,
    groups: Seq<Seq<DiffOp>>,
    seg: SegmentFn,
)
    requires
        forall|g: int| 0 <= g < groups.len() ==> (#[trigger] groups[g]).len() > 0,
    ensures
        hunks_of(a, b, groups, seg).len() == groups.len(),
        forall|g: int|
            0 <= g < groups.len() ==> (#[trigger] hunks_of(a, b, groups, seg)[g]).lines
                == group_lines(a, b, groups[g], seg),
    decreases groups.len(),
{
    if groups.len() > 0 {
        let head = groups.drop_last();
        assert(groups[groups.len() - 1].len() > 0);
        assert forall|g: int| 0 <= g < head.len() implies (#[trigger] head[g]).len() > 0 by {
            assert(groups[g] == head[g]);
        }
        lemma_hunk_lines(a, b, head, seg);
        let before = hunks_of(a, b, head, seg);
        assert forall|g: int| 0 <= g < groups.len() implies (#[trigger] hunks_of(
            a,
            b,
            groups,
            seg,
        )[g]).lines == group_lines(a, b, groups[g], seg) by {
            if g < head.len() {
                assert(before[g].lines == group_lines(a, b, head[g], seg));
            }
        }
    }
}

// --- reading the two sides ---------------------------------------------------

/// The name under which errors speak of a file.
pub open spec fn side_name(raw: Seq<char>) -> Seq<char> {
    match file_name_of(raw) {
        Some(n) => n,
        None => raw,
    }
}

/// An error about one of the files.
pub open spec fn side_error(raw: Seq<char>, message: Seq<char>) -> ErrorView {
    unprocessable(side_name(raw) + ": "@ + message)
}

/// Control characters that no text file holds.
pub open spec fn is_binary_char(c: char) -> bool {
    c < ' ' && c != '\n' && c != '\r' && c != '\t' && c != '\u{c}'
}

/// `text` with every kind of line end as a line feed.
pub open spec fn unified_ends(text: Seq<char>) -> Seq<char> {
    replace_text(replace_text(text, "\r\n"@, "\n"@), "\r"@, "\n"@)
}

/// The lines of a file, or the message of why it cannot be compared.
pub open spec fn side_lines(bytes: Seq<u8>) -> Result<Seq<Seq<char>>, Seq<char>> {
    match decoded_text(bytes) {
        None => Err("Unsupported binary file or text encoding."@),
        Some(t) => if exists|i: int| 0 <= i < t.len() && is_binary_char(#[trigger] t[i]) {
            Err("Unsupported binary file."@)
        } else {
            let u = unified_ends(t);
            if u.len() > MAX_TEXT_CHARS || lines_of(u).len() > MAX_LINES {
                Err(
                    "Extracted text exceeds the comparison limit (2 million characters / 50,000 lines). Nothing was truncated."@,
                )
            } else {
                Ok(lines_of(u))
            }
        },
    }
}

/// The name under which errors speak of a file.
fn name_of_side(raw: &str) -> (r: String)
    ensures
        r@ == side_name(raw@),
{
    match file_name(raw) {
        Some(n) => n,
        None => raw.to_owned(),
    }
}

/// An error about one of the files.
fn side_failed(raw: &str, message: &str) -> (r: ApiError)
    ensures
        r@ == side_error(raw@, message@),
{
    let name = name_of_side(raw);
    ApiError::UnprocessableEntity(crate::text::concat3(name.as_str(), ": ", message))
}

/// What is known of a file before it is read.
#[derive(Debug, Clone, Copy, PartialEq, Eq, Structural)]
pub struct FileStat {
    /// Whether it is a regular file.
    pub is_file: bool,
    /// Whether it is a directory.
    pub is_dir: bool,
    /// Its size in bytes.
    pub size: u64,
}

/// Whether a file can be compared by what is known of it: `stat` is nothing
/// where there is no such file.
pub fn check_side(raw: &str, stat: Option<FileStat>) -> (r: Result<(), ApiError>)
    ensures
        r is Ok <==> stat is Some && stat->0.is_file && stat->0.size <= MAX_FILE_BYTES,
        r is Err ==> r->Err_0@ == side_error(
            raw@,
            if stat is Some && stat->0.is_file {
                "File exceeds the 50 MiB comparison limit."@
            } else {
                "File not found."@
            },
        ),
{
    match stat {
        None => Err(side_failed(raw, "File not found.")),
        Some(s) => if !s.is_file {
            Err(side_failed(raw, "File not found."))
        } else if s.size > MAX_FILE_BYTES {
            Err(side_failed(raw, "File exceeds the 50 MiB comparison limit."))
        } else {
            Ok(())
        },
    }
}

/// Whether a text holds a control character that no text file holds.
fn has_binary_char(text: &str) -> (r: bool)
    ensures
        r == exists|i: int| 0 <= i < text@.len() && is_binary_char(#[trigger] text@[i]),
{
    let cs = chars_of(text);
    let mut i: usize = 0;
    while i < cs.len()
        invariant
            i <= cs.len(),
            cs@ == text@,
            forall|k: int| 0 <= k < i ==> !is_binary_char(#[trigger] cs@[k]),
        decreases cs.len() - i,
    {
        let c = cs[i];
        if c < ' ' && c != '\n' && c != '\r' && c != '\t' && c != '\u{c}' {
            assert(is_binary_char(text@[i as int]));
            return true;
        }
        i += 1;
    }
    false
}

/// One side of a comparison: the summary of the file and its lines. `bytes` is
/// what reading the file gave, or the message of the failure.
pub fn extract_side(raw: &str, resolved: &str, bytes: Result<&[u8], &str>) -> (r: Result<
    (CompareFile, Vec<String>),
    ApiError,
>)
    ensures
        match bytes {
            Err(e) => r is Err && r->Err_0@ == side_error(raw@, e@),
            Ok(b) => match side_lines(b@) {
                Err(m) => r is Err && r->Err_0@ == side_error(raw@, m),
                Ok(l) => {
                    &&& r is Ok
                    &&& (r->Ok_0).0.path@ == resolved@
                    &&& (r->Ok_0).0.name@ == side_name(raw@)
                    &&& (r->Ok_0).0.notices@.len() == 0
                    &&& texts((r->Ok_0).1@) == l
                },
            },
        },
{
    match bytes {
        Err(e) => Err(side_failed(raw, e)),
        Ok(b) => match decode_text(b) {
            None => Err(side_failed(raw, "Unsupported binary file or text encoding.")),
            Some(t) => {
                if has_binary_char(t.as_str()) {
                    return Err(side_failed(raw, "Unsupported binary file."));
                }
                let once = replace_all(t.as_str(), "\r\n", "\n");
                let unified = replace_all(once.as_str(), "\r", "\n");
                let found = lines(unified.as_str());
                assert(texts(found@).len() == found@.len());
                if chars_of(unified.as_str()).len() > MAX_TEXT_CHARS || found.len() > MAX_LINES {
                    return Err(
                        side_failed(
                            raw,
                            "Extracted text exceeds the comparison limit (2 million characters / 50,000 lines). Nothing was truncated.",
                        ),
                    );
                }
                Ok(
                    (
                        CompareFile {
                            path: resolved.to_owned(),
                            name: name_of_side(raw),
                            notices: Vec::new(),
                        },
                        found,
                    ),
                )
            },
        },
    }
}

/// The answer to a comparison of two extracted sides: the sides, and what
/// `compare` says of their lines.
pub fn compare_files(
    original: (CompareFile, Vec<String>),
    revised: (CompareFile, Vec<String>),
    ignore_whitespace: bool,
) -> (r: CompareResponse)
    ensures
        r.original == original.0,
        r.revised == revised.0,
        (hunk_views(r.hunks@), r.additions as int, r.deletions as int) == file_comparison(
            texts(original.1@),
            texts(revised.1@),
            ignore_whitespace,
        ),
        r.hunks@.len() == 0 <==> key_texts(texts(original.1@), ignore_whitespace) == key_texts(
            texts(revised.1@),
            ignore_whitespace,
        ),
        context_agrees(hunk_views(r.hunks@), ignore_whitespace),
        hunks_made_up(hunk_views(r.hunks@)),
        hunks_true(hunk_views(r.hunks@), texts(original.1@), texts(revised.1@)),
        forall|h: int|
            0 <= h < r.hunks@.len() ==> context_bounded(
                (#[trigger] hunk_views(r.hunks@)[h]).lines,
                CONTEXT_LINES as int,
            ),
        accounts(
            hunk_views(r.hunks@),
            key_texts(texts(original.1@), ignore_whitespace),
            key_texts(texts(revised.1@), ignore_whitespace),
            r.additions as int,
            r.deletions as int,
        ),
{
    let (hunks, additions, deletions) = compare(original.1, revised.1, ignore_whitespace);
    CompareResponse { original: original.0, revised: revised.0, additions, deletions, hunks }
}

// --- what headers say --------------------------------------------------------

/// The first number that lines show on the chosen side.
pub open spec fn first_number(lines: Seq<LineView>, old_side: bool) -> Option<u64>
    decreases lines.len(),
{
    if lines.len() == 0 {
        None
    } else {
        match first_number(lines.drop_last(), old_side) {
            Some(x) => Some(x),
            None => if old_side {
                lines.last().old_number
            } else {
                lines.last().new_number
            },
        }
    }
}

/// A header says where the lines of a hunk begin and how many there are, in the
/// original file and in the revised one: the number of the first line that the
/// hunk shows of a side, or the number of the line in front where it shows none.
pub open spec fn header_true(hunk: HunkView, old_front: int, new_front: int) -> bool {
    let s = match first_number(hunk.lines, true) {
        Some(x) => x as nat,
        None => old_front as nat,
    };
    let t = match first_number(hunk.lines, false) {
        Some(y) => y as nat,
        None => new_front as nat,
    };
    hunk.header == concat_texts(
        seq![
            "@@ -"@,
            decimal(s),
            ","@,
            decimal(old_rows(hunk.lines).len()),
            " +"@,
            decimal(t),
            ","@,
            decimal(new_rows(hunk.lines).len()),
            " @@"@,
        ],
    )
}

proof fn lemma_first_append(x: Seq<LineView>, y: Seq<LineView>, old_side: bool)
    ensures
        first_number(x + y, old_side) == match first_number(x, old_side) {
            Some(n) => Some(n),
            None => first_number(y, old_side),
        },
    decreases y.len(),
{
    if y.len() == 0 {
        assert(x + y =~= x);
    } else {
        lemma_first_append(x, y.drop_last(), old_side);
        assert((x + y).drop_last() =~= x + y.drop_last());
    }
}

proof fn lemma_first_plain(lines: Seq<LineView>, old_side: bool)
    ensures
        lines.len() > 0 ==> ((if old_side {
            lines[0].old_number
        } else {
            lines[0].new_number
        }) matches Some(n) ==> first_number(lines, old_side) == Some(n)),
        (forall|i: int|
            0 <= i < lines.len() ==> (if old_side {
                (#[trigger] lines[i]).old_number
            } else {
                lines[i].new_number
            }) is None) ==> first_number(lines, old_side) is None,
    decreases lines.len(),
{
    if lines.len() > 0 {
        let head = lines.drop_last();
        lemma_first_plain(head, old_side);
        if head.len() > 0 {
            assert(head[0] == lines[0]);
        }
        if forall|i: int|
            0 <= i < lines.len() ==> (if old_side {
                (#[trigger] lines[i]).old_number
            } else {
                lines[i].new_number
            }) is None {
            assert forall|i: int| 0 <= i < head.len() implies (if old_side {
                (#[trigger] head[i]).old_number
            } else {
                head[i].new_number
            }) is None by {
                assert(lines[i] == head[i]);
            }
            assert(lines[lines.len() - 1] == lines.last());
        }
    }
}

proof fn lemma_op_first(
    a: Seq<Seq<char>>,
    b: Seq<Seq<char>>,
    op: DiffOp,
    seg: SegmentFn,
    old_side: bool,
)
    requires
        op_fits(op, a.len() as int, b.len() as int),
        a.len() <= u64::MAX,
        b.len() <= u64::MAX,
    ensures
        side_len(op, old_side) >= 0,
        first_number(op_lines(a, b, op, seg), old_side) == if side_len(op, old_side) > 0 {
            Some((side_start(op, old_side) + 1) as u64)
        } else {
            None
        },
{
    let lines = op_lines(a, b, op, seg);
    if op.tag == DiffTag::Replace {
        let x = replaced_old(a, b, op, seg, op.old_end - op.old_start);
        let y = replaced_new(a, b, op, seg, op.new_end - op.new_start);
        lemma_first_append(x, y, old_side);
        lemma_first_plain(x, old_side);
        lemma_first_plain(y, old_side);
    } else {
        lemma_first_plain(lines, old_side);
    }
}

proof fn lemma_group_first(
    a: Seq<Seq<char>>,
    b: Seq<Seq<char>>,
    ops: Seq<DiffOp>,
    seg: SegmentFn,
    old_side: bool,
    from: int,
    to: int,
)
    requires
        ops_fit(ops, a.len() as int, b.len() as int),
        runs(ops, old_side, from, to),
        a.len() <= u64::MAX,
        b.len() <= u64::MAX,
    ensures
        first_number(group_lines(a, b, ops, seg), old_side) == if side_count(ops, old_side) > 0 {
            Some((from + 1) as u64)
        } else {
            None
        },
    decreases ops.len(),
{
    let (n, m) = (a.len() as int, b.len() as int);
    lemma_runs(ops, old_side, from, to, n, m);
    if ops.len() > 0 {
        let head = ops.drop_last();
        let op = ops.last();
        lemma_fit_last(ops, n, m);
        let mid = if names_side(op, old_side) {
            side_start(op, old_side)
        } else {
            to
        };
        lemma_group_first(a, b, head, seg, old_side, from, mid);
        lemma_runs(head, old_side, from, mid, n, m);
        lemma_op_first(a, b, op, seg, old_side);
        lemma_first_append(
            group_lines(a, b, head, seg),
            op_lines(a, b, op, seg),
            old_side,
        );
    }
}

/// The header of every hunk is true of the lines that the hunk shows.
pub proof fn law_headers_true(
    a: Seq<Seq<char>>,
    b: Seq<Seq<char>>,
    groups: Seq<Seq<DiffOp>>,
    seg: SegmentFn,
)
    requires
        a.len() <= u64::MAX,
        b.len() <= u64::MAX,
        showable(groups, a.len() as int, b.len() as int),
        forall|g: int| 0 <= g < groups.len() ==> (#[trigger] groups[g]).len() > 0,
    ensures
        hunks_of(a, b, groups, seg).len() == groups.len(),
        forall|g: int|
            0 <= g < groups.len() ==> header_true(
                #[trigger] hunks_of(a, b, groups, seg)[g],
                begins(groups[g], true),
                begins(groups[g], false),
            ),
    decreases groups.len(),
{
    if groups.len() > 0 {
        let head = groups.drop_last();
        let ops = groups.last();
        let last = groups.len() - 1;
        assert(groups[last] == ops);
        assert forall|g: int| 0 <= g < head.len() implies ops_fit(
            #[trigger] head[g],
            a.len() as int,
            b.len() as int,
        ) && group_runs(head[g]) by {
            assert(groups[g] == head[g]);
        }
        assert forall|g: int| 0 <= g < head.len() implies (#[trigger] head[g]).len() > 0 by {
            assert(groups[g] == head[g]);
        }
        law_headers_true(a, b, head, seg);
        law_header_counts(a, b, ops, seg);
        lemma_group_first(a, b, ops, seg, true, begins(ops, true), ends(ops, true));
        lemma_group_first(a, b, ops, seg, false, begins(ops, false), ends(ops, false));
        let (n, m) = (a.len() as int, b.len() as int);
        lemma_runs(ops, true, begins(ops, true), ends(ops, true), n, m);
        lemma_runs(ops, false, begins(ops, false), ends(ops, false), n, m);
        let all = hunks_of(a, b, groups, seg);
        let before = hunks_of(a, b, head, seg);
        assert forall|g: int| 0 <= g < groups.len() implies header_true(
            #[trigger] all[g],
            begins(groups[g], true),
            begins(groups[g], false),
        ) by {
            if g < last {
                assert(all[g] == before[g]);
                assert(head[g] == groups[g]);
            }
        }
    }
}

// --- what is compared --------------------------------------------------------

/// Where white space is ignored, a line is compared by its other characters in
/// their order; else by the line itself.
pub proof fn law_keys(x: Seq<char>, c: char, y: Seq<char>)
    ensures
        key_text(x, false) == x,
        key_text(seq![], true) == Seq::<char>::empty(),
        key_text(x + seq![c] + y, true) == key_text(x, true) + (if is_space(c) {
            seq![]
        } else {
            seq![c]
        }) + key_text(y, true),
{
    reveal(Seq::filter);
    let keep = |d: char| !is_space(d);
    Seq::<char>::filter_distributes_over_add(x + seq![c], y, keep);
    Seq::<char>::filter_distributes_over_add(x, seq![c], keep);
    assert(seq![c].drop_last() =~= Seq::<char>::empty());
    assert(seq![c].drop_last().filter(keep) =~= Seq::<char>::empty());
    assert(seq![c].filter(keep) =~= if is_space(c) {
        seq![]
    } else {
        seq![c]
    });
    assert(key_text(x + seq![c] + y, true) =~= key_text(x, true) + (if is_space(c) {
        seq![]
    } else {
        seq![c]
    }) + key_text(y, true));
}

/// A text without carriage returns stays as it is. A carriage return and the line
/// feed behind it become one line feed, and a carriage return that none follows
/// becomes one, too.
pub proof fn law_line_ends(a: Seq<char>, b: Seq<char>)
    ensures
        !a.contains('\r') ==> unified_ends(a) == a,
        unified_ends(a + seq!['\r', '\n'] + b) == unified_ends(a) + seq!['\n'] + unified_ends(b),
        b.len() == 0 || b[0] != '\n' ==> unified_ends(a + seq!['\r'] + b) == unified_ends(a) + seq![
            '\n',
        ] + unified_ends(b),
{
    let (crlf, cr, lf) = (seq!['\r', '\n'], seq!['\r'], seq!['\n']);
    lemma_unified(a);
    lemma_unified(b);
    if !a.contains('\r') {
        lemma_no_return(a, crlf);
        crate::find::law_replace_everywhere(a, crlf, lf);
        lemma_no_return(a, cr);
        crate::find::law_replace_everywhere(a, cr, lf);
    }
    lemma_unified(a + crlf + b);
    lemma_end_pair(a, b);
    lemma_ends_replaced();
    lemma_three(replace_text(a, crlf, lf), lf, replace_text(b, crlf, lf));
    if b.len() == 0 || b[0] != '\n' {
        lemma_unified(a + cr + b);
        lemma_end_lone(a, b);
        lemma_three(replace_text(a, crlf, lf), cr, replace_text(b, crlf, lf));
    }
}

proof fn lemma_unified(t: Seq<char>)
    ensures
        unified_ends(t) == replace_text(
            replace_text(t, seq!['\r', '\n'], seq!['\n']),
            seq!['\r'],
            seq!['\n'],
        ),
{
    reveal_strlit("\r\n");
    reveal_strlit("\r");
    reveal_strlit("\n");
    assert("\r\n"@ =~= seq!['\r', '\n']);
    assert("\r"@ =~= seq!['\r']);
    assert("\n"@ =~= seq!['\n']);
}

proof fn lemma_three(x: Seq<char>, y: Seq<char>, z: Seq<char>)
    ensures
        ({
            let (cr, lf) = (seq!['\r'], seq!['\n']);
            replace_text(x + y + z, cr, lf) == replace_text(x, cr, lf) + replace_text(y, cr, lf)
                + replace_text(z, cr, lf)
        }),
{
    lemma_single(x + y, z);
    lemma_single(x, y);
}

proof fn lemma_whole(needle: Seq<char>, with: Seq<char>)
    requires
        needle.len() > 0,
    ensures
        replace_text(needle, needle, with) == with,
{
    let none = Seq::<char>::empty();
    crate::find::law_find_holds(none, needle, none);
    assert(none + needle + none =~= needle);
    let i = crate::find::find_spec(needle, needle, 0)->0;
    crate::find::law_find_place(needle, needle, i);
    crate::find::law_replace_everywhere(needle, needle, with);
    assert(needle.skip(needle.len() as int) =~= none);
    assert(needle.take(0) =~= none);
    assert(replace_text(none, needle, with) =~= none);
    assert(none + with + none =~= with);
}

proof fn lemma_ends_replaced()
    ensures
        replace_text(seq!['\r', '\n'], seq!['\r', '\n'], seq!['\n']) == seq!['\n'],
        replace_text(seq!['\r'], seq!['\r', '\n'], seq!['\n']) == seq!['\r'],
        replace_text(seq!['\n'], seq!['\r'], seq!['\n']) == seq!['\n'],
        replace_text(seq!['\r'], seq!['\r'], seq!['\n']) == seq!['\n'],
{
    let (crlf, cr, lf) = (seq!['\r', '\n'], seq!['\r'], seq!['\n']);
    lemma_whole(crlf, lf);
    lemma_whole(cr, lf);
    lemma_no_pair(cr);
    crate::find::law_replace_everywhere(cr, crlf, lf);
    lemma_no_return(lf, cr);
    crate::find::law_replace_everywhere(lf, cr, lf);
}

proof fn lemma_no_return(a: Seq<char>, needle: Seq<char>)
    requires
        !a.contains('\r'),
        needle.len() > 0,
        needle[0] == '\r',
    ensures
        !crate::find::contains_text(a, needle),
{
    if crate::find::contains_text(a, needle) {
        let i = choose|i: int| crate::find::occurs_at(a, needle, i);
        assert(a.subrange(i, i + needle.len())[0] == a[i]);
    }
}

proof fn lemma_no_pair(a: Seq<char>)
    requires
        a.len() < 2,
    ensures
        !crate::find::contains_text(a, seq!['\r', '\n']),
{
}

proof fn lemma_single(x: Seq<char>, y: Seq<char>)
    ensures
        replace_text(x + y, seq!['\r'], seq!['\n']) == replace_text(x, seq!['\r'], seq!['\n'])
            + replace_text(y, seq!['\r'], seq!['\n']),
{
    crate::find::law_replace_apart(x, y, seq!['\r'], seq!['\n']);
}

proof fn lemma_end_pair(a: Seq<char>, b: Seq<char>)
    ensures
        ({
            let (crlf, lf) = (seq!['\r', '\n'], seq!['\n']);
            replace_text(a + crlf + b, crlf, lf) == replace_text(a, crlf, lf) + replace_text(
                crlf,
                crlf,
                lf,
            ) + replace_text(b, crlf, lf)
        }),
{
    let (crlf, lf) = (seq!['\r', '\n'], seq!['\n']);
    let x = a + crlf;
    assert forall|i: int| i < x.len() < i + 2 implies !#[trigger] crate::find::occurs_at(
        x + b,
        crlf,
        i,
    ) by {
        if crate::find::occurs_at(x + b, crlf, i) {
            assert((x + b).subrange(i, i + 2)[0] == (x + b)[i]);
        }
    }
    crate::find::law_replace_apart(x, b, crlf, lf);
    assert forall|i: int| i < a.len() < i + 2 implies !#[trigger] crate::find::occurs_at(
        a + crlf,
        crlf,
        i,
    ) by {
        if crate::find::occurs_at(a + crlf, crlf, i) {
            assert((a + crlf).subrange(i, i + 2)[1] == (a + crlf)[i + 1]);
        }
    }
    crate::find::law_replace_apart(a, crlf, crlf, lf);
}

proof fn lemma_end_lone(a: Seq<char>, b: Seq<char>)
    requires
        b.len() == 0 || b[0] != '\n',
    ensures
        ({
            let (crlf, cr, lf) = (seq!['\r', '\n'], seq!['\r'], seq!['\n']);
            replace_text(a + cr + b, crlf, lf) == replace_text(a, crlf, lf) + replace_text(
                cr,
                crlf,
                lf,
            ) + replace_text(b, crlf, lf)
        }),
{
    let (crlf, cr, lf) = (seq!['\r', '\n'], seq!['\r'], seq!['\n']);
    let x = a + cr;
    assert forall|i: int| i < x.len() < i + 2 implies !#[trigger] crate::find::occurs_at(
        x + b,
        crlf,
        i,
    ) by {
        if crate::find::occurs_at(x + b, crlf, i) {
            assert((x + b).subrange(i, i + 2)[1] == (x + b)[i + 1]);
        }
    }
    crate::find::law_replace_apart(x, b, crlf, lf);
    assert forall|i: int| i < a.len() < i + 2 implies !#[trigger] crate::find::occurs_at(
        a + cr,
        crlf,
        i,
    ) by {
        if crate::find::occurs_at(a + cr, crlf, i) {
            assert((a + cr).subrange(i, i + 2)[1] == (a + cr)[i + 1]);
        }
    }
    crate::find::law_replace_apart(a, cr, crlf, lf);
}

/// The limits of a comparison, and the control characters that text may hold: tab,
/// line feed, form feed and carriage return.
pub proof fn law_limits(c: char)
    ensures
        MAX_FILE_BYTES == 50 * 1024 * 1024,
        MAX_TEXT_CHARS == 2_000_000,
        MAX_LINES == 50_000,
        SEGMENT_LINE_MAX == 4096,
        CONTEXT_LINES == 3,
        is_binary_char(c) <==> (c as u32) < 32 && c as u32 != 9 && c as u32 != 10 && c as u32 != 12
            && c as u32 != 13,
{
}

/// A file can be compared exactly where its bytes are text without binary
/// characters and what they say, with its line ends unified, keeps to the limits;
/// what is compared are the lines of that text.
pub proof fn law_sides(bytes: Seq<u8>)
    ensures
        match decoded_text(bytes) {
            None => side_lines(bytes) is Err,
            Some(t) => {
                let rows = lines_of(unified_ends(t));
                let fits = (forall|i: int| 0 <= i < t.len() ==> !is_binary_char(#[trigger] t[i]))
                    && unified_ends(t).len() <= 2_000_000 && rows.len() <= 50_000;
                &&& fits ==> side_lines(bytes) == Ok::<Seq<Seq<char>>, Seq<char>>(rows)
                &&& !fits ==> side_lines(bytes) is Err
            },
        },
{
}

/// An error about a file is a 422 that begins with the name of the file, however
/// long the way to it.
pub proof fn law_side_error(dir: Seq<char>, name: Seq<char>, message: Seq<char>)
    requires
        name.len() > 0,
        !name.contains('/'),
        name != seq!['.'],
        name != seq!['.', '.'],
    ensures
        side_error(dir + seq!['/'] + name, message) == (ErrorView {
            status: 422,
            detail: name + ": "@ + message,
        }),
        side_error(name, message) == (ErrorView { status: 422, detail: name + ": "@ + message }),
{
    crate::path::law_parts_add_up(dir, name);
    crate::path::law_one_part(name);
    reveal_strlit("..");
    assert(crate::path::dotdot() =~= seq!['.', '.']);
    assert(crate::path::parts_of(dir + seq!['/'] + name).last() == name);
}

} // verus!
