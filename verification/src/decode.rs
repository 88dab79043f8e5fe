//! Decoding the text of a file by its byte order mark.

use vstd::prelude::*;
use vstd::utf8::{decode_utf8, encode_utf8, valid_utf8};

use crate::outside::from_utf8;
use crate::text::string_of;

verus! {

/// `char::from_u32`: the character with the given code, where there is one.
pub assume_specification[ char::from_u32 ](code: u32) -> (r: Option<char>)
    ensures
        match r {
            Some(c) => is_char_code(code) && c == code as char,
            None => !is_char_code(code),
        },
;

/// The codes of characters: up to U+10FFFF, without the surrogates.
pub open spec fn is_char_code(code: u32) -> bool {
    code <= 0xD7FF || 0xE000 <= code <= 0x10FFFF
}

/// The texts of 32-bit codes, if all of them are characters.
pub open spec fn utf32_text(codes: Seq<u32>) -> Option<Seq<char>> {
    if forall|i: int| 0 <= i < codes.len() ==> is_char_code(#[trigger] codes[i]) {
        Some(codes.map_values(|c: u32| c as char))
    } else {
        None
    }
}

/// The text of 16-bit units: a unit outside the surrogates is a character, a
/// high surrogate and the low one after it are a character together, and any
/// other surrogate is an error.
pub open spec fn utf16_text(units: Seq<u16>) -> Option<Seq<char>>
    decreases units.len(),
{
    if units.len() == 0 {
        Some(seq![])
    } else if !(0xD800 <= units[0] <= 0xDFFF) {
        match utf16_text(units.skip(1)) {
            Some(t) => Some(seq![units[0] as char] + t),
            None => None,
        }
    } else if units[0] <= 0xDBFF && units.len() >= 2 && 0xDC00 <= units[1] <= 0xDFFF {
        match utf16_text(units.skip(2)) {
            Some(t) => Some(
                seq![(0x10000 + (units[0] - 0xD800) * 0x400 + (units[1] - 0xDC00)) as char] + t,
            ),
            None => None,
        }
    } else {
        None
    }
}

/// The whole 16-bit units of a byte string; an odd byte at the end is left out.
pub open spec fn units16(bytes: Seq<u8>, big_endian: bool) -> Seq<u16> {
    Seq::new(
        (bytes.len() / 2) as nat,
        |i: int|
            if big_endian {
                (bytes[2 * i] * 256 + bytes[2 * i + 1]) as u16
            } else {
                (bytes[2 * i + 1] * 256 + bytes[2 * i]) as u16
            },
    )
}

/// The whole 32-bit units of a byte string; bytes left over are left out.
pub open spec fn units32(bytes: Seq<u8>, big_endian: bool) -> Seq<u32> {
    Seq::new(
        (bytes.len() / 4) as nat,
        |i: int|
            if big_endian {
                (((bytes[4 * i] * 256 + bytes[4 * i + 1]) * 256 + bytes[4 * i + 2]) * 256 + bytes[4
                    * i + 3]) as u32
            } else {
                (((bytes[4 * i + 3] * 256 + bytes[4 * i + 2]) * 256 + bytes[4 * i + 1]) * 256
                    + bytes[4 * i]) as u32
            },
    )
}

/// `bytes` begins with the bytes of `mark`.
pub open spec fn has_mark(bytes: Seq<u8>, mark: Seq<u8>) -> bool {
    mark.is_prefix_of(bytes)
}

/// The text of a file: UTF-32 and UTF-16 go by their byte order marks, anything
/// else is UTF-8, whose mark is dropped.
pub open spec fn decoded_text(bytes: Seq<u8>) -> Option<Seq<char>> {
    if has_mark(bytes, seq![0xff, 0xfe, 0x00, 0x00]) {
        utf32_text(units32(bytes.skip(4), false))
    } else if has_mark(bytes, seq![0x00, 0x00, 0xfe, 0xff]) {
        utf32_text(units32(bytes.skip(4), true))
    } else if has_mark(bytes, seq![0xff, 0xfe]) {
        utf16_text(units16(bytes.skip(2), false))
    } else if has_mark(bytes, seq![0xfe, 0xff]) {
        utf16_text(units16(bytes.skip(2), true))
    } else {
        let body = if has_mark(bytes, seq![0xef, 0xbb, 0xbf]) {
            bytes.skip(3)
        } else {
            bytes
        };
        if valid_utf8(body) {
            Some(decode_utf8(body))
        } else {
            None
        }
    }
}

/// Whether `bytes` begins with `mark`.
fn starts_with_bytes(bytes: &[u8], mark: &[u8]) -> (r: bool)
    ensures
        r == has_mark(bytes@, mark@),
{
    if mark.len() > bytes.len() {
        return false;
    }
    let mut i: usize = 0;
    while i < mark.len()
        invariant
            i <= mark.len() <= bytes.len(),
            forall|k: int| 0 <= k < i ==> mark@[k] == bytes@[k],
        decreases mark.len() - i,
    {
        if mark[i] != bytes[i] {
            assert(bytes@.take(mark@.len() as int)[i as int] != mark@[i as int]);
            return false;
        }
        i += 1;
    }
    assert(mark@ =~= bytes@.take(mark@.len() as int));
    true
}

/// The bytes after the first `n`.
fn bytes_after(bytes: &[u8], n: usize) -> (r: Vec<u8>)
    requires
        n <= bytes@.len(),
    ensures
        r@ == bytes@.skip(n as int),
{
    let tail = vstd::slice::slice_subrange(bytes, n, bytes.len());
    let r = vstd::slice::slice_to_vec(tail);
    assert(r@ =~= bytes@.skip(n as int));
    r
}

/// The text of UTF-16 bytes that follow a mark.
pub fn decode_utf16(body: &[u8], big_endian: bool) -> (r: Option<String>)
    ensures
        crate::text::opt_text(r) == utf16_text(units16(body@, big_endian)),
{
    let n: usize = body.len() / 2;
    let mut units: Vec<u16> = Vec::new();
    let mut i: usize = 0;
    while i < n
        invariant
            n == body.len() / 2,
            i <= n,
            units@ == units16(body@, big_endian).take(i as int),
        decreases n - i,
    {
        let a: u16 = body[2 * i] as u16;
        let b: u16 = body[2 * i + 1] as u16;
        let u: u16 = if big_endian {
            a * 256 + b
        } else {
            b * 256 + a
        };
        units.push(u);
        i += 1;
        assert(units@ =~= units16(body@, big_endian).take(i as int));
    }
    let ghost all = units16(body@, big_endian);
    assert(units@ =~= all);
    let mut text: Vec<char> = Vec::new();
    let mut k: usize = 0;
    assert(all.skip(0) =~= all);
    while k < units.len()
        invariant
            k <= units.len(),
            units@ == all,
            all == units16(body@, big_endian),
            match utf16_text(all.skip(k as int)) {
                Some(t) => utf16_text(all) == Some(text@ + t),
                None => utf16_text(all) is None,
            },
        decreases units.len() - k,
    {
        let u = units[k];
        let ghost rest = all.skip(k as int);
        assert(rest[0] == u);
        let ghost text0 = text@;
        if u < 0xD800 || u > 0xDFFF {
            let code: u32 = u as u32;
            match char::from_u32(code) {
                None => {
                    return None;
                },
                Some(c) => {
                    text.push(c);
                    assert(c == u as char);
                    assert(rest.skip(1) =~= all.skip(k as int + 1));
                    k += 1;
                    proof {
                        if let Some(t) = utf16_text(rest.skip(1)) {
                            assert(text0 + (seq![c] + t) =~= text@ + t);
                        }
                    }
                },
            }
        } else if u <= 0xDBFF && k + 1 < units.len() && units[k + 1] >= 0xDC00 && units[k + 1]
            <= 0xDFFF {
            let low = units[k + 1];
            assert(rest[1] == low);
            let code: u32 = 0x10000 + (u as u32 - 0xD800) * 0x400 + (low as u32 - 0xDC00);
            match char::from_u32(code) {
                None => {
                    return None;
                },
                Some(c) => {
                    text.push(c);
                    assert(rest.skip(2) =~= all.skip(k as int + 2));
                    k += 2;
                    proof {
                        if let Some(t) = utf16_text(rest.skip(2)) {
                            assert(text0 + (seq![c] + t) =~= text@ + t);
                        }
                    }
                },
            }
        } else {
            return None;
        }
    }
    assert(all.skip(units@.len() as int) =~= seq![]);
    assert(text@ + Seq::<char>::empty() =~= text@);
    Some(string_of(text.as_slice()))
}

/// The text of UTF-32 bytes that follow a mark.
pub fn decode_utf32(body: &[u8], big_endian: bool) -> (r: Option<String>)
    ensures
        crate::text::opt_text(r) == utf32_text(units32(body@, big_endian)),
{
    let n: usize = body.len() / 4;
    let mut text: String = String::new();
    let mut i: usize = 0;
    let ghost all = units32(body@, big_endian);
    while i < n
        invariant
            n == body.len() / 4,
            i <= n,
            all == units32(body@, big_endian),
            text@ == all.take(i as int).map_values(|c: u32| c as char),
            forall|k: int| 0 <= k < i ==> is_char_code(#[trigger] all[k]),
        decreases n - i,
    {
        let a: u32 = body[4 * i] as u32;
        let b: u32 = body[4 * i + 1] as u32;
        let c: u32 = body[4 * i + 2] as u32;
        let d: u32 = body[4 * i + 3] as u32;
        let code: u32 = if big_endian {
            ((a * 256 + b) * 256 + c) * 256 + d
        } else {
            ((d * 256 + c) * 256 + b) * 256 + a
        };
        assert(code == all[i as int]);
        match char::from_u32(code) {
            None => {
                assert(!is_char_code(all[i as int]));
                return None;
            },
            Some(ch) => {
                text.push(ch);
                assert(ch == code as char);
            },
        }
        i += 1;
        assert(text@ =~= all.take(i as int).map_values(|c: u32| c as char));
    }
    assert(all.take(n as int) =~= all);
    Some(text)
}

/// The text of a file, or nothing where its bytes are no text.
pub fn decode_text(raw: &[u8]) -> (r: Option<String>)
    ensures
        crate::text::opt_text(r) == decoded_text(raw@),
{
    let le32: [u8; 4] = [0xff, 0xfe, 0x00, 0x00];
    let be32: [u8; 4] = [0x00, 0x00, 0xfe, 0xff];
    let le16: [u8; 2] = [0xff, 0xfe];
    let be16: [u8; 2] = [0xfe, 0xff];
    let bom8: [u8; 3] = [0xef, 0xbb, 0xbf];
    assert(le32@ =~= seq![0xff, 0xfe, 0x00, 0x00]);
    assert(be32@ =~= seq![0x00, 0x00, 0xfe, 0xff]);
    assert(le16@ =~= seq![0xff, 0xfe]);
    assert(be16@ =~= seq![0xfe, 0xff]);
    assert(bom8@ =~= seq![0xef, 0xbb, 0xbf]);
    if starts_with_bytes(raw, le32.as_slice()) {
        let body = bytes_after(raw, 4);
        return decode_utf32(body.as_slice(), false);
    }
    if starts_with_bytes(raw, be32.as_slice()) {
        let body = bytes_after(raw, 4);
        return decode_utf32(body.as_slice(), true);
    }
    if starts_with_bytes(raw, le16.as_slice()) {
        let body = bytes_after(raw, 2);
        return decode_utf16(body.as_slice(), false);
    }
    if starts_with_bytes(raw, be16.as_slice()) {
        let body = bytes_after(raw, 2);
        return decode_utf16(body.as_slice(), true);
    }
    let body = if starts_with_bytes(raw, bom8.as_slice()) {
        bytes_after(raw, 3)
    } else {
        vstd::slice::slice_to_vec(raw)
    };
    let ghost body0 = body@;
    let r = from_utf8(body);
    proof {
        if r is Some {
            vstd::utf8::encode_utf8_decode_utf8(r->0@);
        }
    }
    r
}

/// A text that is written in UTF-8 is read back as it was, unless it begins
/// with U+FEFF, which reads as a mark.
pub proof fn law_utf8_round_trip(s: Seq<char>)
    requires
        !has_mark(encode_utf8(s), seq![0xef, 0xbb, 0xbf]),
    ensures
        decoded_text(encode_utf8(s)) == Some(s),
{
    let bytes = encode_utf8(s);
    vstd::utf8::encode_utf8_valid_utf8(s);
    vstd::utf8::encode_utf8_decode_utf8(s);
    assert(valid_utf8(bytes));
    assert(bytes.len() > 0 ==> bytes[0] != 0xff && bytes[0] != 0xfe);
    if has_mark(bytes, seq![0xff, 0xfe, 0x00, 0x00]) {
        assert(bytes.take(4)[0] == bytes[0]);
    }
    if has_mark(bytes, seq![0xff, 0xfe]) {
        assert(bytes.take(2)[0] == bytes[0]);
    }
    if has_mark(bytes, seq![0xfe, 0xff]) {
        assert(bytes.take(2)[0] == bytes[0]);
    }
    if has_mark(bytes, seq![0x00, 0x00, 0xfe, 0xff]) {
        assert(bytes.take(4)[0] == bytes[0]);
        assert(bytes.take(4)[1] == bytes[1]);
        assert(bytes.take(4)[2] == bytes[2]);
        let one = vstd::utf8::pop_first_scalar(bytes);
        assert(one =~= bytes.skip(1));
        assert(valid_utf8(one));
        let two = vstd::utf8::pop_first_scalar(one);
        assert(two =~= bytes.skip(2));
        assert(valid_utf8(two));
        assert(two[0] == 0xfe);
    }
}

/// The 16-bit units of a character.
pub open spec fn char_units(c: char) -> Seq<u16> {
    let code = c as u32;
    if code < 0x10000 {
        seq![code as u16]
    } else {
        seq![
            (0xD800 + (code - 0x10000) / 0x400) as u16,
            (0xDC00 + (code - 0x10000) % 0x400) as u16,
        ]
    }
}

/// The 16-bit units of a text.
pub open spec fn utf16_units(s: Seq<char>) -> Seq<u16>
    decreases s.len(),
{
    if s.len() == 0 {
        seq![]
    } else {
        char_units(s[0]) + utf16_units(s.skip(1))
    }
}

/// The bytes of 16-bit units.
pub open spec fn bytes16(units: Seq<u16>, big_endian: bool) -> Seq<u8> {
    Seq::new(
        2 * units.len(),
        |i: int|
            if big_endian == (i % 2 == 0) {
                (units[i / 2] / 256) as u8
            } else {
                (units[i / 2] % 256) as u8
            },
    )
}

/// A text in UTF-16, with its mark.
pub open spec fn utf16_file(s: Seq<char>, big_endian: bool) -> Seq<u8> {
    (if big_endian {
        seq![0xfeu8, 0xffu8]
    } else {
        seq![0xffu8, 0xfeu8]
    }) + bytes16(utf16_units(s), big_endian)
}

/// The byte of a character at a place in UTF-32, from the lowest on.
pub open spec fn code_byte(c: char, place: int) -> u8 {
    let code = c as u32 as int;
    (if place == 0 {
        code % 256
    } else if place == 1 {
        code / 256 % 256
    } else if place == 2 {
        code / 65536 % 256
    } else {
        0
    }) as u8
}

/// A text in UTF-32, with its mark.
pub open spec fn utf32_file(s: Seq<char>, big_endian: bool) -> Seq<u8> {
    (if big_endian {
        seq![0x00u8, 0x00u8, 0xfeu8, 0xffu8]
    } else {
        seq![0xffu8, 0xfeu8, 0x00u8, 0x00u8]
    }) + Seq::new(
        4 * s.len(),
        |i: int|
            code_byte(
                s[i / 4],
                if big_endian {
                    3 - i % 4
                } else {
                    i % 4
                },
            ),
    )
}

proof fn lemma_char_code(c: char)
    ensures
        0 <= c as u32 <= 0x10FFFF,
        is_char_code(c as u32),
        (c as u32) as char == c,
{
}

proof fn lemma_utf16_text(s: Seq<char>)
    ensures
        utf16_text(utf16_units(s)) == Some(s),
    decreases s.len(),
{
    if s.len() > 0 {
        let units = utf16_units(s);
        let rest = utf16_units(s.skip(1));
        let code = s[0] as u32;
        lemma_utf16_text(s.skip(1));
        assert(seq![s[0]] + s.skip(1) =~= s);
        lemma_char_code(s[0]);
        if code < 0x10000 {
            assert(units.skip(1) =~= rest);
            assert(units[0] == code);
        } else {
            assert(units.skip(2) =~= rest);
            assert(units[0] == 0xD800 + (code - 0x10000) / 0x400);
            assert(units[1] == 0xDC00 + (code - 0x10000) % 0x400);
        }
    } else {
        assert(s =~= seq![]);
    }
}

/// A text that is written in UTF-16 with its mark is read back as it was, unless
/// it begins with U+0000 in little-endian order, which makes the mark that of
/// UTF-32.
pub proof fn law_utf16_round_trip(s: Seq<char>, big_endian: bool)
    requires
        big_endian || s.len() == 0 || s[0] != '\0',
    ensures
        decoded_text(utf16_file(s, big_endian)) == Some(s),
{
    let file = utf16_file(s, big_endian);
    let units = utf16_units(s);
    let body = bytes16(units, big_endian);
    lemma_utf16_text(s);
    assert(file.skip(2) =~= body);
    assert(units16(body, big_endian) =~= units) by {
        assert forall|i: int| 0 <= i < units.len() implies units16(body, big_endian)[i]
            == units[i] by {
            assert((2 * i) / 2 == i && (2 * i + 1) / 2 == i);
            assert((2 * i) % 2 == 0 && (2 * i + 1) % 2 == 1);
        }
    }
    if big_endian {
        assert(file.take(2) =~= seq![0xfeu8, 0xffu8]);
        assert(file[0] == 0xfe);
        assert(!has_mark(file, seq![0xff, 0xfe, 0x00, 0x00]));
        assert(!has_mark(file, seq![0x00, 0x00, 0xfe, 0xff]));
        assert(!has_mark(file, seq![0xff, 0xfe]));
    } else {
        assert(file.take(2) =~= seq![0xffu8, 0xfeu8]);
        assert(file[0] == 0xff);
        assert(!has_mark(file, seq![0x00, 0x00, 0xfe, 0xff]));
        if has_mark(file, seq![0xff, 0xfe, 0x00, 0x00]) {
            let mark: Seq<u8> = seq![0xff, 0xfe, 0x00, 0x00];
            assert(mark[2] == file[2] && mark[3] == file[3]);
            assert(body[0] == 0 && body[1] == 0);
            assert(units.len() > 0 && units[0] == 0);
            assert(s.len() > 0);
            assert(units[0] == char_units(s[0])[0]);
            lemma_char_code(s[0]);
            assert(s[0] == '\0');
        }
    }
}

/// A text that is written in UTF-32 with its mark is read back as it was.
pub proof fn law_utf32_round_trip(s: Seq<char>, big_endian: bool)
    ensures
        decoded_text(utf32_file(s, big_endian)) == Some(s),
{
    let file = utf32_file(s, big_endian);
    let body = file.skip(4);
    let codes = units32(body, big_endian);
    assert(codes.len() == s.len());
    assert forall|i: int| 0 <= i < s.len() implies #[trigger] codes[i] == s[i] as u32 by {
        assert((4 * i) / 4 == i && (4 * i + 1) / 4 == i && (4 * i + 2) / 4 == i && (4 * i + 3) / 4
            == i);
        assert((4 * i) % 4 == 0 && (4 * i + 1) % 4 == 1 && (4 * i + 2) % 4 == 2 && (4 * i + 3) % 4
            == 3);
        assert(body[4 * i] == file[4 + 4 * i]);
        assert(body[4 * i + 1] == file[4 + 4 * i + 1]);
        assert(body[4 * i + 2] == file[4 + 4 * i + 2]);
        assert(body[4 * i + 3] == file[4 + 4 * i + 3]);
        let code = s[i] as u32 as int;
        lemma_char_code(s[i]);
        assert((code / 65536 % 256 * 256 + code / 256 % 256) * 256 + code % 256 == code);
    }
    assert forall|i: int| 0 <= i < s.len() implies is_char_code(#[trigger] codes[i]) && codes[i] as char
        == s[i] by {
        assert(codes[i] == s[i] as u32);
        lemma_char_code(s[i]);
    }
    assert(codes.map_values(|c: u32| c as char) =~= s);
    if big_endian {
        assert(file.take(4) =~= seq![0x00u8, 0x00u8, 0xfeu8, 0xffu8]);
        assert(file[0] == 0x00);
        assert(!has_mark(file, seq![0xff, 0xfe, 0x00, 0x00]));
    } else {
        assert(file.take(4) =~= seq![0xffu8, 0xfeu8, 0x00u8, 0x00u8]);
    }
}

proof fn lemma_units_from(units: Seq<u16>)
    ensures
        utf16_text(units) matches Some(s) ==> utf16_units(s) == units,
    decreases units.len(),
{
    if units.len() > 0 {
        if !(0xD800 <= units[0] <= 0xDFFF) {
            lemma_units_from(units.skip(1));
            if let Some(t) = utf16_text(units.skip(1)) {
                let c = units[0] as char;
                let s = seq![c] + t;
                assert(s.skip(1) =~= t);
                assert(s[0] == c);
                assert(c as u32 == units[0]);
                assert(char_units(c) =~= seq![units[0]]);
                assert(units =~= seq![units[0]] + units.skip(1));
            }
        } else if units[0] <= 0xDBFF && units.len() >= 2 && 0xDC00 <= units[1] <= 0xDFFF {
            lemma_units_from(units.skip(2));
            if let Some(t) = utf16_text(units.skip(2)) {
                let code = 0x10000 + (units[0] - 0xD800) * 0x400 + (units[1] - 0xDC00);
                let c = code as char;
                let s = seq![c] + t;
                assert(s.skip(1) =~= t);
                assert(s[0] == c);
                assert(0x10000 <= code <= 0x10FFFF);
                assert(c as u32 == code);
                assert((code - 0x10000) / 0x400 == units[0] - 0xD800);
                assert((code - 0x10000) % 0x400 == units[1] - 0xDC00);
                assert(char_units(c) =~= seq![units[0], units[1]]);
                assert(units =~= seq![units[0], units[1]] + units.skip(2));
            }
        }
    }
}

/// What is read from units or codes is a text whose units or codes they are; what
/// is of no text, such as half of a pair, is not read at all.
pub proof fn law_units_of_text(units: Seq<u16>, codes: Seq<u32>)
    ensures
        utf16_text(units) matches Some(s) ==> utf16_units(s) == units,
        utf16_text(units) is None ==> forall|s: Seq<char>| #[trigger] utf16_units(s) != units,
        utf32_text(codes) matches Some(s) ==> s.len() == codes.len() && forall|i: int|
            0 <= i < s.len() ==> #[trigger] s[i] as u32 == codes[i],
        utf32_text(codes) is None ==> exists|i: int|
            0 <= i < codes.len() && (0xD800 <= #[trigger] codes[i] <= 0xDFFF || codes[i] > 0x10FFFF),
{
    lemma_units_from(units);
    if utf16_text(units) is None {
        assert forall|s: Seq<char>| #[trigger] utf16_units(s) != units by {
            lemma_utf16_text(s);
        }
    }
    if utf32_text(codes) is None {
        let i = choose|i: int| 0 <= i < codes.len() && !is_char_code(#[trigger] codes[i]);
        assert(0xD800 <= codes[i] <= 0xDFFF || codes[i] > 0x10FFFF);
    }
}

/// Bytes at the end that make no whole unit are left out.
pub proof fn law_bytes_left_over(bytes: Seq<u8>, more: Seq<u8>, big_endian: bool)
    ensures
        bytes.len() % 2 == 0 && more.len() < 2 ==> units16(bytes + more, big_endian) == units16(
            bytes,
            big_endian,
        ),
        bytes.len() % 4 == 0 && more.len() < 4 ==> units32(bytes + more, big_endian) == units32(
            bytes,
            big_endian,
        ),
{
    let all = bytes + more;
    if bytes.len() % 2 == 0 && more.len() < 2 {
        assert(units16(all, big_endian) =~= units16(bytes, big_endian));
    }
    if bytes.len() % 4 == 0 && more.len() < 4 {
        assert(units32(all, big_endian) =~= units32(bytes, big_endian));
    }
}

/// Bytes that begin with no mark of another kind are UTF-8: they are read exactly
/// where they are valid, and a mark in front of them is dropped.
pub proof fn law_utf8_read(bytes: Seq<u8>, s: Seq<char>)
    requires
        !has_mark(bytes, seq![0xff, 0xfe]),
        !has_mark(bytes, seq![0xfe, 0xff]),
        !has_mark(bytes, seq![0x00, 0x00, 0xfe, 0xff]),
        !has_mark(bytes, seq![0xef, 0xbb, 0xbf]),
    ensures
        decoded_text(bytes) matches Some(t) ==> encode_utf8(t) == bytes,
        decoded_text(bytes) is None <==> !valid_utf8(bytes),
        decoded_text(seq![0xef, 0xbb, 0xbf] + encode_utf8(s)) == Some(s),
{
    assert(!has_mark(bytes, seq![0xff, 0xfe, 0x00, 0x00])) by {
        let m = seq![0xffu8, 0xfe, 0x00, 0x00];
        if m.is_prefix_of(bytes) {
            assert(m =~= bytes.take(4));
            assert(bytes.take(2) =~= seq![0xff, 0xfe]);
        }
    }
    if valid_utf8(bytes) {
        vstd::utf8::decode_utf8_encode_utf8(bytes);
    }
    let file = seq![0xefu8, 0xbb, 0xbf] + encode_utf8(s);
    assert(file.take(3) =~= seq![0xef, 0xbb, 0xbf]);
    assert(file.skip(3) =~= encode_utf8(s));
    assert(file[0] == 0xef);
    vstd::utf8::encode_utf8_valid_utf8(s);
    vstd::utf8::encode_utf8_decode_utf8(s);
}

} // verus!
