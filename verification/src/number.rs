//! Numbers written out and read in.

use vstd::prelude::*;

use crate::text::chars_of;

verus! {

/// The digit character of `d`, lower case.
pub open spec fn digit_char(d: int) -> char {
    if d < 10 {
        ('0' as int + d) as char
    } else {
        ('a' as int + d - 10) as char
    }
}

/// `n` in base `radix`, without leading zeros.
pub open spec fn digits(n: nat, radix: nat) -> Seq<char>
    decreases n,
{
    if radix < 2 || n < radix {
        seq![digit_char(n as int)]
    } else {
        proof {
            assert(n / radix < n) by (nonlinear_arith)
                requires
                    n >= radix,
                    radix >= 2,
            ;
        }
        digits(n / radix, radix).push(digit_char((n % radix) as int))
    }
}

/// `n` in decimal.
pub open spec fn decimal(n: nat) -> Seq<char> {
    digits(n, 10)
}

/// `n` in decimal, with zeros in front up to `width` characters.
pub open spec fn zero_padded(s: Seq<char>, width: nat) -> Seq<char> {
    if s.len() >= width {
        s
    } else {
        Seq::new((width - s.len()) as nat, |i: int| '0') + s
    }
}

/// The digit character of `d`.
fn to_digit_char(d: u8) -> (r: char)
    requires
        d < 16,
    ensures
        r == digit_char(d as int),
{
    if d < 10 {
        (48u8 + d) as char
    } else {
        (97u8 + (d - 10)) as char
    }
}

/// The digits of `n` in base `radix`, as characters.
fn digit_chars(n: u64, radix: u64) -> (r: Vec<char>)
    requires
        2 <= radix <= 16,
    ensures
        r@ == digits(n as nat, radix as nat),
    decreases n,
{
    if n < radix {
        let mut r: Vec<char> = Vec::new();
        r.push(to_digit_char(n as u8));
        assert(r@ =~= digits(n as nat, radix as nat));
        r
    } else {
        assert(n / radix < n) by (nonlinear_arith)
            requires
                n >= radix,
                radix >= 2,
        ;
        let mut r = digit_chars(n / radix, radix);
        let d: u64 = n % radix;
        r.push(to_digit_char(d as u8));
        r
    }
}

/// `n` in decimal.
pub fn u64_decimal(n: u64) -> (r: String)
    ensures
        r@ == decimal(n as nat),
{
    let cs = digit_chars(n, 10);
    crate::text::string_of(cs.as_slice())
}

/// `n` in base `radix`, with zeros in front up to `width` characters.
pub fn u64_padded(n: u64, radix: u64, width: usize) -> (r: String)
    requires
        2 <= radix <= 16,
    ensures
        r@ == zero_padded(digits(n as nat, radix as nat), width as nat),
{
    let cs = digit_chars(n, radix);
    let mut r: String = String::new();
    if cs.len() < width {
        let pad: usize = width - cs.len();
        let mut i: usize = 0;
        while i < pad
            invariant
                i <= pad,
                r@ == Seq::new(i as nat, |k: int| '0'),
            decreases pad - i,
        {
            r.push('0');
            i += 1;
            assert(r@ =~= Seq::new(i as nat, |k: int| '0'));
        }
    }
    let body = crate::text::string_of(cs.as_slice());
    r.append(body.as_str());
    assert(r@ =~= zero_padded(digits(n as nat, radix as nat), width as nat));
    r
}

/// Why a text is no number.
#[derive(Clone, Copy, PartialEq, Eq, Structural, Debug)]
pub enum NumberError {
    /// There is no character at all.
    Empty,
    /// A character is no digit.
    InvalidDigit,
    /// The number is larger than the type can hold.
    TooLarge,
}

impl NumberError {
    /// The message of the error.
    pub open spec fn text(self) -> Seq<char> {
        match self {
            NumberError::Empty => "cannot parse integer from empty string"@,
            NumberError::InvalidDigit => "invalid digit found in string"@,
            NumberError::TooLarge => "number too large to fit in target type"@,
        }
    }

    /// The message of the error.
    pub fn message(self) -> (r: &'static str)
        ensures
            r@ == self.text(),
    {
        match self {
            NumberError::Empty => "cannot parse integer from empty string",
            NumberError::InvalidDigit => "invalid digit found in string",
            NumberError::TooLarge => "number too large to fit in target type",
        }
    }
}

/// The value of a digit in base `radix`.
pub open spec fn digit_value(c: char, radix: nat) -> Option<nat> {
    let v = if '0' <= c <= '9' {
        c as int - '0' as int
    } else if 'a' <= c <= 'z' {
        c as int - 'a' as int + 10
    } else if 'A' <= c <= 'Z' {
        c as int - 'A' as int + 10
    } else {
        1000
    };
    if v < radix {
        Some(v as nat)
    } else {
        None
    }
}

/// The value of a row of digits, read from the left: the first character that
/// is no digit, or whose digit takes the value above `max`, decides the error.
pub open spec fn digits_value(s: Seq<char>, radix: nat, max: nat) -> Result<nat, NumberError>
    decreases s.len(),
{
    if s.len() == 0 {
        Ok(0)
    } else {
        match digits_value(s.drop_last(), radix, max) {
            Err(e) => Err(e),
            Ok(v) => match digit_value(s.last(), radix) {
                None => Err(NumberError::InvalidDigit),
                Some(d) => if v * radix + d > max {
                    Err(NumberError::TooLarge)
                } else {
                    Ok(v * radix + d)
                },
            },
        }
    }
}

/// An unsigned number no larger than `max`, with an optional `+` in front.
pub open spec fn parse_number(s: Seq<char>, radix: nat, max: nat) -> Result<nat, NumberError> {
    if s.len() == 0 {
        Err(NumberError::Empty)
    } else if s[0] == '+' {
        if s.len() == 1 {
            Err(NumberError::InvalidDigit)
        } else {
            digits_value(s.drop_first(), radix, max)
        }
    } else {
        digits_value(s, radix, max)
    }
}

/// The value of a digit in base `radix`.
fn char_digit(c: char, radix: u64) -> (r: Option<u64>)
    requires
        2 <= radix <= 36,
    ensures
        match r {
            Some(v) => digit_value(c, radix as nat) == Some(v as nat) && v < radix,
            None => digit_value(c, radix as nat) is None,
        },
{
    let v: u64 = if '0' <= c && c <= '9' {
        c as u64 - '0' as u64
    } else if 'a' <= c && c <= 'z' {
        c as u64 - 'a' as u64 + 10
    } else if 'A' <= c && c <= 'Z' {
        c as u64 - 'A' as u64 + 10
    } else {
        1000
    };
    if v < radix {
        Some(v)
    } else {
        None
    }
}

proof fn lemma_digits_value_err(s: Seq<char>, radix: nat, max: nat, k: int)
    requires
        0 <= k <= s.len(),
        digits_value(s.take(k), radix, max) is Err,
    ensures
        digits_value(s, radix, max) == digits_value(s.take(k), radix, max),
    decreases s.len() - k,
{
    if k < s.len() {
        assert(s.take(k + 1).drop_last() =~= s.take(k));
        lemma_digits_value_err(s, radix, max, k + 1);
    } else {
        assert(s.take(k) =~= s);
    }
}

/// The number written in `s` in base `radix`.
pub fn parse_u64(s: &str, radix: u64, max: u64) -> (r: Result<u64, NumberError>)
    requires
        2 <= radix <= 36,
    ensures
        match r {
            Ok(v) => parse_number(s@, radix as nat, max as nat) == Ok::<nat, NumberError>(
                v as nat,
            ) && v <= max,
            Err(e) => parse_number(s@, radix as nat, max as nat) == Err::<nat, NumberError>(e),
        },
{
    let cs = chars_of(s);
    if cs.len() == 0 {
        return Err(NumberError::Empty);
    }
    let mut start: usize = 0;
    if cs[0] == '+' {
        if cs.len() == 1 {
            return Err(NumberError::InvalidDigit);
        }
        start = 1;
    }
    let ghost body = cs@.skip(start as int);
    proof {
        if start == 1 {
            assert(body =~= s@.drop_first());
        } else {
            assert(body =~= s@);
        }
        assert(body.take(0).len() == 0);
    }
    let mut v: u64 = 0;
    let mut i: usize = start;
    while i < cs.len()
        invariant
            start <= i <= cs.len(),
            start <= 1,
            body == cs@.skip(start as int),
            2 <= radix <= 36,
            v <= max,
            digits_value(body.take(i - start), radix as nat, max as nat) == Ok::<
                nat,
                NumberError,
            >(v as nat),
            parse_number(s@, radix as nat, max as nat) == digits_value(
                body,
                radix as nat,
                max as nat,
            ),
        decreases cs.len() - i,
    {
        let c = cs[i];
        let ghost k = i - start;
        proof {
            assert(body.take(k + 1).drop_last() =~= body.take(k));
            assert(body.take(k + 1).last() == c);
        }
        match char_digit(c, radix) {
            None => {
                proof {
                    lemma_digits_value_err(body, radix as nat, max as nat, k + 1);
                }
                return Err(NumberError::InvalidDigit);
            },
            Some(d) => {
                assert(v * radix + d <= u64::MAX * 36 + 36) by (nonlinear_arith)
                    requires
                        v <= u64::MAX,
                        radix <= 36,
                        d < radix,
                ;
                let wide: u128 = (v as u128) * (radix as u128) + (d as u128);
                assert(wide == v * radix + d);
                assert((v as nat) * (radix as nat) + (d as nat) == wide);
                if wide > max as u128 {
                    proof {
                        lemma_digits_value_err(body, radix as nat, max as nat, k + 1);
                    }
                    return Err(NumberError::TooLarge);
                }
                v = wide as u64;
            },
        }
        i += 1;
    }
    assert(body.take(body.len() as int) =~= body);
    Ok(v)
}

// --- what numbers mean -------------------------------------------------------

/// The digits of a base stand for the numbers below it, the letters in either
/// case, and nothing else is a digit.
pub proof fn law_digit_values(c: char, radix: nat)
    requires
        2 <= radix <= 36,
    ensures
        forall|d: int|
            0 <= d < radix ==> digit_value(#[trigger] digit_char(d), radix) == Some(d as nat),
        digit_value(c, radix) matches Some(d) ==> d < radix && (c == digit_char(d as int) || (d
            >= 10 && c as int == 'A' as int + d - 10)),
{
}

/// One more character at the end of a number multiplies it by the base and adds
/// the digit; what is no digit, or leads beyond the largest number, makes it none.
pub proof fn law_number_grows(s: Seq<char>, c: char, radix: nat, max: nat)
    requires
        s.len() > 0,
        parse_number(s, radix, max) is Ok,
    ensures
        parse_number(s.push(c), radix, max) == match digit_value(c, radix) {
            None => Err::<nat, NumberError>(NumberError::InvalidDigit),
            Some(d) => if parse_number(s, radix, max)->Ok_0 * radix + d > max {
                Err::<nat, NumberError>(NumberError::TooLarge)
            } else {
                Ok::<nat, NumberError>(parse_number(s, radix, max)->Ok_0 * radix + d)
            },
        },
{
    let t = s.push(c);
    assert(t[0] == s[0]);
    if s[0] == '+' {
        assert(t.drop_first().drop_last() =~= s.drop_first());
    } else {
        assert(t.drop_last() =~= s);
    }
}

/// A number of one character is the digit that stands there, a plus sign in front
/// of digits changes nothing, and a sign or nothing alone is no number.
pub proof fn law_number_starts(c: char, s: Seq<char>, radix: nat, max: nat)
    requires
        2 <= radix <= 36,
        max >= radix,
    ensures
        parse_number(seq![c], radix, max) == match digit_value(c, radix) {
            None => Err::<nat, NumberError>(NumberError::InvalidDigit),
            Some(d) => Ok::<nat, NumberError>(d),
        },
        parse_number(Seq::<char>::empty(), radix, max) == Err::<nat, NumberError>(
            NumberError::Empty,
        ),
        s.len() > 0 && s[0] != '+' ==> parse_number(seq!['+'] + s, radix, max) == parse_number(
            s,
            radix,
            max,
        ),
{
    let one = seq![c];
    let none = Seq::<char>::empty();
    assert(one.drop_last() =~= none);
    assert(digits_value(none, radix, max) == Ok::<nat, NumberError>(0));
    assert(digit_value('+', radix) is None);
    assert(0 * radix == 0) by (nonlinear_arith);
    assert((seq!['+'] + s).drop_first() =~= s);
}

/// What is wrong stays wrong, whatever stands behind it.
pub proof fn law_number_fails(s: Seq<char>, c: char, radix: nat, max: nat)
    requires
        s.len() > 0,
        s != seq!['+'],
        parse_number(s, radix, max) is Err,
    ensures
        parse_number(s.push(c), radix, max) == parse_number(s, radix, max),
{
    let t = s.push(c);
    assert(t[0] == s[0]);
    if s[0] == '+' {
        if s.len() == 1 {
            assert(s =~= seq!['+']);
        }
        assert(t.drop_first().drop_last() =~= s.drop_first());
    } else {
        assert(t.drop_last() =~= s);
    }
}

proof fn lemma_digits_first(n: nat, radix: nat)
    requires
        2 <= radix <= 36,
    ensures
        digits(n, radix).len() > 0,
        digits(n, radix)[0] != '+',
    decreases n,
{
    if n >= radix {
        assert(n / radix < n) by (nonlinear_arith)
            requires
                n >= radix,
                radix >= 2,
        ;
        lemma_digits_first(n / radix, radix);
    }
}

proof fn lemma_digits_value_of(n: nat, radix: nat, max: nat)
    requires
        2 <= radix <= 36,
    ensures
        digits_value(digits(n, radix), radix, max) == if n <= max {
            Ok::<nat, NumberError>(n)
        } else {
            Err::<nat, NumberError>(NumberError::TooLarge)
        },
    decreases n,
{
    let s = digits(n, radix);
    law_digit_values('0', radix);
    if n < radix {
        let none = Seq::<char>::empty();
        assert(s.drop_last() =~= none);
        assert(digits_value(none, radix, max) == Ok::<nat, NumberError>(0));
        assert(digit_value(digit_char(n as int), radix) == Some(n));
        assert(0 * radix == 0) by (nonlinear_arith);
    } else {
        assert(n / radix < n) by (nonlinear_arith)
            requires
                n >= radix,
                radix >= 2,
        ;
        let q = n / radix;
        let r = n % radix;
        lemma_digits_value_of(q, radix, max);
        assert(s.drop_last() =~= digits(q, radix));
        assert(0 <= r < radix) by (nonlinear_arith)
            requires
                r == n % radix,
                radix >= 2,
        ;
        assert(digit_value(digit_char(r as int), radix) == Some(r));
        assert(n == q * radix + r) by (nonlinear_arith)
            requires
                q == n / radix,
                r == n % radix,
                radix >= 2,
        ;
        assert(q <= q * radix) by (nonlinear_arith)
            requires
                radix >= 2,
                q >= 0,
        ;
    }
}

/// A number that is written out is read back as it was, unless it is larger than
/// what may be read.
pub proof fn law_number_reads_back(n: nat, radix: nat, max: nat)
    requires
        2 <= radix <= 36,
    ensures
        parse_number(digits(n, radix), radix, max) == if n <= max {
            Ok::<nat, NumberError>(n)
        } else {
            Err::<nat, NumberError>(NumberError::TooLarge)
        },
{
    lemma_digits_first(n, radix);
    lemma_digits_value_of(n, radix, max);
}

/// Numbers below the base have one digit; a number that is a multiple of the base
/// and a rest is written as the multiple and the digit of the rest. Decimal digits
/// are those from `0` to `9`.
pub proof fn law_digits_written(q: nat, r: nat, radix: nat)
    requires
        2 <= radix <= 36,
        r < radix,
    ensures
        digits(r, radix) == seq![digit_char(r as int)],
        q > 0 ==> digits(q * radix + r, radix) == digits(q, radix).push(digit_char(r as int)),
        r < 10 ==> digit_char(r as int) as int == '0' as int + r,
        r >= 10 ==> digit_char(r as int) as int == 'a' as int + r - 10,
{
    if q > 0 {
        let n = q * radix + r;
        assert(n / radix == q && n % radix == r && n >= radix) by (nonlinear_arith)
            requires
                n == q * radix + r,
                r < radix,
                radix >= 2,
                q > 0,
        ;
    }
}

/// Padding puts zeros in front, up to the width, and nothing else.
pub proof fn law_padded(s: Seq<char>, width: nat)
    ensures
        zero_padded(s, width).len() == if s.len() >= width {
            s.len()
        } else {
            width
        },
        zero_padded(s, width).skip(zero_padded(s, width).len() - s.len()) == s,
        forall|i: int|
            0 <= i < zero_padded(s, width).len() - s.len() ==> #[trigger] zero_padded(s, width)[i]
                == '0',
{
    let t = zero_padded(s, width);
    assert(t.skip(t.len() - s.len()) =~= s);
}

/// What is read is no larger than what may be read.
pub proof fn lemma_number_bounded(s: Seq<char>, radix: nat, max: nat)
    ensures
        parse_number(s, radix, max) matches Ok(n) ==> n <= max,
{
    lemma_value_bounded(s, radix, max);
    if s.len() > 0 {
        lemma_value_bounded(s.drop_first(), radix, max);
    }
}

proof fn lemma_value_bounded(s: Seq<char>, radix: nat, max: nat)
    ensures
        digits_value(s, radix, max) matches Ok(n) ==> n <= max,
{
}

/// What a number is written with are digits.
pub proof fn lemma_digits_are_digits(n: nat, radix: nat)
    requires
        2 <= radix <= 36,
    ensures
        forall|i: int|
            0 <= i < digits(n, radix).len() ==> digit_value(#[trigger] digits(n, radix)[i], radix)
                is Some,
    decreases n,
{
    law_digit_values('0', radix);
    if n >= radix {
        assert(n / radix < n) by (nonlinear_arith)
            requires
                n >= radix,
                radix >= 2,
        ;
        let r = n % radix;
        assert(0 <= r < radix) by (nonlinear_arith)
            requires
                r == n % radix,
                radix >= 2,
        ;
        lemma_digits_are_digits(n / radix, radix);
        assert(digit_value(digit_char(r as int), radix) is Some);
    } else {
        assert(digit_value(digit_char(n as int), radix) is Some);
    }
}

proof fn lemma_zeros_value(zeros: nat, s: Seq<char>, radix: nat, max: nat)
    requires
        2 <= radix <= 36,
    ensures
        digits_value(Seq::new(zeros, |i: int| '0') + s, radix, max) == digits_value(s, radix, max),
    decreases s.len(), zeros,
{
    let z = Seq::new(zeros, |i: int| '0');
    let t = z + s;
    if s.len() > 0 {
        lemma_zeros_value(zeros, s.drop_last(), radix, max);
        assert(t.drop_last() =~= z + s.drop_last());
        assert(t.last() == s.last());
    } else if zeros > 0 {
        let less = (zeros - 1) as nat;
        lemma_zeros_value(less, s, radix, max);
        assert(t.drop_last() =~= Seq::new(less, |i: int| '0') + s);
        assert(t.last() == '0');
        assert(0 * radix == 0) by (nonlinear_arith);
    } else {
        assert(t =~= s);
    }
}

/// Zeros in front of a number do not change what it reads as.
pub proof fn law_padded_reads_back(n: nat, radix: nat, width: nat, max: nat)
    requires
        2 <= radix <= 36,
        n <= max,
    ensures
        parse_number(zero_padded(digits(n, radix), width), radix, max) == Ok::<nat, NumberError>(n),
{
    let s = digits(n, radix);
    law_number_reads_back(n, radix, max);
    lemma_digits_first(n, radix);
    if s.len() < width {
        let zeros = (width - s.len()) as nat;
        lemma_zeros_value(zeros, s, radix, max);
        assert(zero_padded(s, width)[0] == '0');
    }
}

/// A decimal number below a power of ten has no more digits than that power has
/// zeros.
pub proof fn law_decimal_length(n: nat)
    ensures
        decimal(n).len() >= 1,
        n < 100 ==> decimal(n).len() <= 2,
        n < 10_000 ==> decimal(n).len() <= 4,
        n < 1_000_000 ==> decimal(n).len() <= 6,
{
    reveal_with_fuel(digits, 7);
}

/// Decimal is base ten, and the errors say what is wrong.
pub proof fn law_decimal(n: nat, max: nat)
    requires
        n <= max,
    ensures
        parse_number(decimal(n), 10, max) == Ok::<nat, NumberError>(n),
        forall|i: int| 0 <= i < decimal(n).len() ==> '0' <= #[trigger] decimal(n)[i] <= '9',
        NumberError::Empty.text() == "cannot parse integer from empty string"@,
        NumberError::InvalidDigit.text() == "invalid digit found in string"@,
        NumberError::TooLarge.text() == "number too large to fit in target type"@,
{
    law_number_reads_back(n, 10, max);
    lemma_digits_are_digits(n, 10);
    assert forall|i: int| 0 <= i < decimal(n).len() implies '0' <= #[trigger] decimal(n)[i]
        <= '9' by {
        assert(digit_value(digits(n, 10)[i], 10) is Some);
    }
}

} // verus!
