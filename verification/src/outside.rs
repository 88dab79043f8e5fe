//! The calls into other crates and into parts of the standard library.
//!
//! Every function here hands its arguments to one outside function and hands
//! the result back as plain values. What its contract says is taken from that
//! function's documentation and source, not proved.

use vstd::prelude::*;
use vstd::utf8::{decode_utf8, encode_utf8, valid_utf8};

use crate::steps::{clustered, group_views, leads, ops_hold, reaches};
use crate::text::{opt_text, texts};

verus! {

// --- std ---------------------------------------------------------------------

/// What `String::from_utf8_lossy` makes of a byte string.
pub uninterp spec fn utf8_lossy(bytes: Seq<u8>) -> Seq<char>;

/// `String::from_utf8_lossy`: the text of the bytes, with replacement
/// characters for what is not UTF-8. Well-formed UTF-8 is decoded as it is.
#[verifier::external_body]
pub(crate) fn from_utf8_lossy(bytes: &[u8]) -> (r: String)
    ensures
        r@ == utf8_lossy(bytes@),
        valid_utf8(bytes@) ==> r@ == decode_utf8(bytes@),
{
    String::from_utf8_lossy(bytes).into_owned()
}

/// `String::from_utf8`: the text whose UTF-8 form the bytes are, if they are
/// well-formed UTF-8.
#[verifier::external_body]
pub(crate) fn from_utf8(bytes: Vec<u8>) -> (r: Option<String>)
    ensures
        match r {
            Some(s) => valid_utf8(bytes@) && encode_utf8(s@) == bytes@,
            None => !valid_utf8(bytes@),
        },
{
    String::from_utf8(bytes).ok()
}

/// What `str::to_lowercase` makes of a text.
pub uninterp spec fn lowercase_of(s: Seq<char>) -> Seq<char>;

/// `str::to_lowercase`: the lower-case form of a text by the Unicode tables.
#[verifier::external_body]
pub(crate) fn to_lowercase(s: &str) -> (r: String)
    ensures
        r@ == lowercase_of(s@),
{
    s.to_lowercase()
}

/// Whether `char::is_alphanumeric` holds of a character.
pub uninterp spec fn unicode_alnum(c: char) -> bool;

/// `char::is_alphanumeric`: letters and numbers by the Unicode tables.
pub assume_specification[ char::is_alphanumeric ](c: char) -> (r: bool)
    ensures
        r == unicode_alnum(c),
;

/// What formatting a text with `{:?}` writes.
pub uninterp spec fn debug_of(s: Seq<char>) -> Seq<char>;

/// `format!("{:?}", s)`: the text in double quotes, with escapes.
#[verifier::external_body]
pub(crate) fn debug_text(s: &str) -> (r: String)
    ensures
        r@ == debug_of(s@),
{
    format!("{:?}", s)
}

/// `SystemTime::now`: whole seconds since the Unix epoch and the nanoseconds
/// of the running second, both zero while the clock stands before the epoch.
/// Which instant comes back is not stated; it differs from call to call.
#[verifier::external_body]
pub(crate) fn unix_now() -> (r: (u64, u32))
    ensures
        r.1 < 1_000_000_000,
{
    let d = std::time::SystemTime::now().duration_since(std::time::UNIX_EPOCH).unwrap_or_default();
    (d.as_secs(), d.subsec_nanos())
}

// --- subtle ------------------------------------------------------------------

/// `subtle::ConstantTimeEq::ct_eq` on byte slices: whether the two slices hold
/// the same bytes. That the time does not depend on the contents is not stated.
#[verifier::external_body]
pub(crate) fn ct_eq(a: &[u8], b: &[u8]) -> (r: bool)
    ensures
        r == (a@ == b@),
{
    subtle::ConstantTimeEq::ct_eq(a, b).into()
}

// --- percent_encoding --------------------------------------------------------

/// The value of a hexadecimal digit, as a byte.
pub open spec fn hex_value(b: u8) -> Option<int> {
    if 48 <= b <= 57 {
        Some(b - 48)
    } else if 65 <= b <= 70 {
        Some(b - 55)
    } else if 97 <= b <= 102 {
        Some(b - 87)
    } else {
        None
    }
}

/// `bytes` with every `%` that two hexadecimal digits follow, and those
/// digits, replaced by the byte they stand for.
pub open spec fn percent_decoded(bytes: Seq<u8>) -> Seq<u8>
    decreases bytes.len(),
{
    if bytes.len() == 0 {
        seq![]
    } else if bytes[0] == 37 && bytes.len() >= 3 && hex_value(bytes[1]) is Some && hex_value(
        bytes[2],
    ) is Some {
        seq![(hex_value(bytes[1])->0 * 16 + hex_value(bytes[2])->0) as u8] + percent_decoded(
            bytes.skip(3),
        )
    } else {
        seq![bytes[0]] + percent_decoded(bytes.skip(1))
    }
}

/// `percent_encoding::percent_decode_str`, collected: the UTF-8 bytes of `s`
/// with each percent sequence decoded.
#[verifier::external_body]
pub(crate) fn percent_decode(s: &str) -> (r: Vec<u8>)
    ensures
        r@ == percent_decoded(encode_utf8(s@)),
{
    percent_encoding::percent_decode_str(s).collect()
}

/// The upper-case hexadecimal digit of `d`.
pub open spec fn upper_hex(d: int) -> char {
    if d < 10 {
        (48 + d) as char
    } else {
        (55 + d) as char
    }
}

/// The percent sequence of a byte.
pub open spec fn percent_sequence(b: u8) -> Seq<char> {
    seq!['%', upper_hex(b as int / 16), upper_hex(b as int % 16)]
}

/// `percent_encoding::percent_encode_byte`: a percent sign and the two
/// upper-case hexadecimal digits of the byte.
pub assume_specification[ percent_encoding::percent_encode_byte ](byte: u8) -> (r: &'static str)
    ensures
        r@ == percent_sequence(byte),
;

// --- regex -------------------------------------------------------------------

/// The message with which `regex::RegexBuilder::build` rejects a pattern, or
/// nothing where it accepts it.
pub uninterp spec fn regex_error_of(pattern: Seq<char>, case_insensitive: bool) -> Option<
    Seq<char>,
>;

/// `regex::RegexBuilder::build`: the message of the error, if the pattern is
/// no regular expression.
#[verifier::external_body]
pub(crate) fn regex_error(pattern: &str, case_insensitive: bool) -> (r: Option<String>)
    ensures
        opt_text(r) == regex_error_of(pattern@, case_insensitive),
{
    let built = regex::RegexBuilder::new(pattern).case_insensitive(case_insensitive).build();
    built.err().map(|e| e.to_string())
}

/// Whether `regex::Regex::is_match` finds a match of the pattern in the text.
pub uninterp spec fn regex_match_of(
    pattern: Seq<char>,
    case_insensitive: bool,
    hay: Seq<char>,
) -> bool;

/// `regex::Regex::is_match`, for each of the texts in turn.
#[verifier::external_body]
pub(crate) fn regex_matches(pattern: &str, case_insensitive: bool, hays: &Vec<String>) -> (r: Vec<
    bool,
>)
    requires
        regex_error_of(pattern@, case_insensitive) is None,
    ensures
        r@.len() == hays@.len(),
        forall|i: int|
            0 <= i < hays@.len() ==> #[trigger] r@[i] == regex_match_of(
                pattern@,
                case_insensitive,
                hays@[i]@,
            ),
{
    let built = regex::RegexBuilder::new(pattern).case_insensitive(case_insensitive).build();
    let re = built.unwrap();
    hays.iter().map(|h| re.is_match(h)).collect()
}

/// The characters that mean something in a regular expression.
pub open spec fn is_regex_meta(c: char) -> bool {
    ||| c == '\\' || c == '.' || c == '+' || c == '*' || c == '?' || c == '(' || c == ')'
    ||| c == '|' || c == '[' || c == ']' || c == '{' || c == '}' || c == '^' || c == '$'
    ||| c == '#' || c == '&' || c == '-' || c == '~'
}

/// `s` with a backslash before every such character.
pub open spec fn regex_escaped(s: Seq<char>) -> Seq<char>
    decreases s.len(),
{
    if s.len() == 0 {
        seq![]
    } else if is_regex_meta(s.last()) {
        regex_escaped(s.drop_last()).push('\\').push(s.last())
    } else {
        regex_escaped(s.drop_last()).push(s.last())
    }
}

/// `regex::escape`.
#[verifier::external_body]
pub(crate) fn regex_escape(s: &str) -> (r: String)
    ensures
        r@ == regex_escaped(s@),
{
    regex::escape(s)
}

// --- similar -----------------------------------------------------------------

/// What a step of a comparison does.
#[derive(Clone, Copy, PartialEq, Eq, Structural, Debug)]
pub enum DiffTag {
    /// The two ranges hold the same items.
    Equal,
    /// The old range is dropped.
    Delete,
    /// The new range is put in.
    Insert,
    /// The old range makes way for the new one.
    Replace,
}

/// One step of a comparison: a range of old items and a range of new ones.
#[derive(Clone, Copy, PartialEq, Eq, Structural, Debug)]
pub struct DiffOp {
    /// What is done.
    pub tag: DiffTag,
    /// Where the old range starts.
    pub old_start: usize,
    /// Where the old range ends.
    pub old_end: usize,
    /// Where the new range starts.
    pub new_start: usize,
    /// Where the new range ends.
    pub new_end: usize,
}

/// The steps that `similar::TextDiff` finds from one row of texts to another.
pub uninterp spec fn diff_ops_of(old_items: Seq<Seq<char>>, new_items: Seq<Seq<char>>) -> Seq<
    DiffOp,
>;

/// `similar::TextDiff::from_slices` and `ops`: the steps from `a` to `b`. They
/// name every text of both rows once and in order, and a step tagged equal pairs
/// equal texts. Which of the ways from `a` to `b` is found is not stated, nor
/// where a deletion lies in `b` and an insertion in `a`: when neighbouring steps
/// change places, these positions stay as they were.
#[verifier::external_body]
pub(crate) fn diff_ops(a: &Vec<String>, b: &Vec<String>) -> (r: Vec<DiffOp>)
    ensures
        r@ == diff_ops_of(texts(a@), texts(b@)),
        leads(r@, texts(a@), texts(b@)),
{
    let x: Vec<&str> = a.iter().map(String::as_str).collect();
    let y: Vec<&str> = b.iter().map(String::as_str).collect();
    let diff = similar::TextDiff::from_slices(&x, &y);
    diff.ops().iter().map(|o| {
        let (t, p, q) = o.as_tag_tuple();
        let tag = match t {
            similar::DiffTag::Equal => DiffTag::Equal,
            similar::DiffTag::Delete => DiffTag::Delete,
            similar::DiffTag::Insert => DiffTag::Insert,
            similar::DiffTag::Replace => DiffTag::Replace,
        };
        DiffOp { tag, old_start: p.start, old_end: p.end, new_start: q.start, new_end: q.end }
    }).collect()
}

/// The clusters of steps that `similar::TextDiff::grouped_ops` leaves, with up
/// to `n` equal items around the changes.
pub uninterp spec fn grouped_ops_of(
    old_items: Seq<Seq<char>>,
    new_items: Seq<Seq<char>>,
    n: nat,
) -> Seq<Seq<DiffOp>>;

/// `similar::TextDiff::grouped_ops`: the clusters of steps from `a` to `b`. A
/// cluster holds a change, its steps name texts of both rows end to end, and a
/// step tagged equal pairs equal texts: at most `n` of them before the first and
/// behind the last change, and at most `2 * n` between two. What stands outside
/// the clusters is equal in both rows, and equal rows leave no cluster. Which
/// steps the clusters hold is not stated, nor where a deletion lies in `b` and an
/// insertion in `a`.
#[verifier::external_body]
pub(crate) fn grouped_ops(a: &Vec<String>, b: &Vec<String>, n: usize) -> (r: Vec<Vec<DiffOp>>)
    requires
        2 * n <= usize::MAX,
    ensures
        group_views(r@) == grouped_ops_of(texts(a@), texts(b@), n as nat),
        forall|g: int|
            0 <= g < r@.len() ==> clustered((#[trigger] r@[g])@, n as int) && ops_hold(
                r@[g]@,
                texts(a@),
                texts(b@),
            ),
        reaches(group_views(r@), texts(a@), texts(b@), a@.len() as int, b@.len() as int),
        texts(a@) == texts(b@) ==> r@.len() == 0,
{
    let x: Vec<&str> = a.iter().map(String::as_str).collect();
    let y: Vec<&str> = b.iter().map(String::as_str).collect();
    let groups = similar::TextDiff::from_slices(&x, &y).grouped_ops(n);
    groups.iter().map(|g| g.iter().map(|o| {
        let (t, p, q) = o.as_tag_tuple();
        let tag = match t {
            similar::DiffTag::Equal => DiffTag::Equal,
            similar::DiffTag::Delete => DiffTag::Delete,
            similar::DiffTag::Insert => DiffTag::Insert,
            similar::DiffTag::Replace => DiffTag::Replace,
        };
        DiffOp { tag, old_start: p.start, old_end: p.end, new_start: q.start, new_end: q.end }
    }).collect()).collect()
}

// --- serde_json --------------------------------------------------------------

/// The string under a key of the JSON object that `serde_json` reads from a
/// text; nothing where the text is no JSON object or has no string there.
pub uninterp spec fn json_text_of(text: Seq<char>, key: Seq<char>) -> Option<Seq<char>>;

/// `serde_json::from_str`, `Value::get` and `Value::as_str`: the string under a
/// key of a JSON object.
#[verifier::external_body]
pub(crate) fn json_text(text: &str, key: &str) -> (r: Option<String>)
    ensures
        opt_text(r) == json_text_of(text@, key@),
{
    let v: serde_json::Value = serde_json::from_str(text).ok()?;
    v.get(key)?.as_str().map(|s| s.to_string())
}

/// The unsigned number under a key of the JSON object that `serde_json` reads
/// from a text; nothing where the text is no JSON object or has no such number
/// there.
pub uninterp spec fn json_u64_of(text: Seq<char>, key: Seq<char>) -> Option<u64>;

/// `serde_json::from_str`, `Value::get` and `Value::as_u64`: the unsigned number
/// under a key of a JSON object.
#[verifier::external_body]
pub(crate) fn json_u64(text: &str, key: &str) -> (r: Option<u64>)
    ensures
        r == json_u64_of(text@, key@),
{
    let v: serde_json::Value = serde_json::from_str(text).ok()?;
    v.get(key)?.as_u64()
}

// --- mime_guess --------------------------------------------------------------

/// The media type that `mime_guess` has for the extension of a path.
pub uninterp spec fn mime_of(path: Seq<char>) -> Seq<char>;

/// `mime_guess::from_path` and `first_or_octet_stream`: the media type for the
/// extension of a path.
#[verifier::external_body]
pub(crate) fn guess_mime(path: &str) -> (r: String)
    ensures
        r@ == mime_of(path@),
{
    mime_guess::from_path(path).first_or_octet_stream().as_ref().to_string()
}

} // verus!
