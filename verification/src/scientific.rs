//! The exponential sub-format of the element record: a signed mantissa with
//! an implied decimal point in front of it and a two-character exponent
//! behind it, as in `12345-3` for 0.12345e-3.
//!
//! A value is kept exactly, as its sign, its mantissa digits and its
//! exponent. [`Scientific::numeric_text`] spells it as `[-]0.<mantissa>e<exponent>`
//! for a caller who wants a binary floating-point number.

use crate::text::{
    all_digits, digits_value, is_ascii_digit, is_digit, lemma_digits_value_bound,
    lemma_digits_value_push, lemma_pow10_add, lemma_pow10_values, lemma_trim_start_spaces,
    lemma_zero_padded_shape, lemma_zero_padded_value, pow10, push_decimal, push_zero_padded,
    spaces,
    strip_zeros, trim, trim_start, trimmed, zero_padded,
};
use vstd::prelude::*;
use vstd::slice::slice_subrange;

verus! {

/// The longest mantissa that is read: nineteen digits always fit in 64 bits.
pub const MAX_MANTISSA_DIGITS: usize = 19;

/// Why a text is no number of the exponential sub-format.
#[derive(Clone, Copy, Debug, PartialEq, Eq, Structural)]
pub enum ScientificError {
    /// Nothing but white space.
    Empty,
    /// Fewer than three characters, or fewer than the positions asked for.
    TooShort,
    /// The last two characters are no exponent: a sign and a digit, or two digits.
    BadExponent,
    /// More than [`MAX_MANTISSA_DIGITS`] mantissa digits.
    MantissaTooLong,
}

/// The digits found in a stretch of text: their value and how many there were.
#[derive(Clone, Copy, Debug, PartialEq, Eq, Structural)]
pub struct Mantissa {
    pub value: u64,
    pub digits: u8,
}

/// The number `±0.d₁…dₖ × 10^exponent`, where `d₁…dₖ` is `mantissa` written
/// with `digits` digits.
#[derive(Clone, Copy, Debug, PartialEq, Eq, Structural)]
pub struct Scientific {
    pub negative: bool,
    pub mantissa: u64,
    pub digits: u8,
    pub exponent: i8,
}

/// The digits of `s`, in order; every other byte is passed over.
pub open spec fn digits_in(s: Seq<u8>) -> Seq<u8>
    decreases s.len(),
{
    if s.len() == 0 {
        Seq::empty()
    } else if is_digit(s.last()) {
        digits_in(s.drop_last()).push(s.last())
    } else {
        digits_in(s.drop_last())
    }
}

/// The exponent that two characters spell: a sign and a digit, or two digits.
pub open spec fn exponent_of(a: u8, b: u8) -> Option<int> {
    if !is_digit(b) {
        None
    } else if a == 0x2b {
        Some(b - 0x30)
    } else if a == 0x2d {
        Some(0x30 - b)
    } else if is_digit(a) {
        Some((a - 0x30) * 10 + (b - 0x30))
    } else {
        None
    }
}

/// Where the mantissa starts in trimmed text: behind a leading minus sign.
pub open spec fn mantissa_start(t: Seq<u8>) -> int {
    if t[0] == 0x2d {
        1
    } else {
        0
    }
}

/// Where the mantissa ends in trimmed text: before the exponent, and before
/// the letter `e` where one stands three characters from the end.
pub open spec fn mantissa_end(t: Seq<u8>) -> int {
    if t[t.len() - 3] == 0x65 {
        t.len() - 3
    } else {
        t.len() - 2
    }
}

/// What a text of the exponential sub-format holds.
pub open spec fn scientific_field(text: Seq<u8>) -> Result<Scientific, ScientificError> {
    let t = trimmed(text);
    if t.len() == 0 {
        Err(ScientificError::Empty)
    } else if t.len() < 3 {
        Err(ScientificError::TooShort)
    } else {
        let run = digits_in(t.subrange(mantissa_start(t), mantissa_end(t)));
        if run.len() > MAX_MANTISSA_DIGITS {
            Err(ScientificError::MantissaTooLong)
        } else {
            match exponent_of(t[t.len() - 2], t[t.len() - 1]) {
                None => Err(ScientificError::BadExponent),
                Some(e) => Ok(
                    Scientific {
                        negative: t[0] == 0x2d,
                        mantissa: digits_value(run) as u64,
                        digits: run.len() as u8,
                        exponent: e as i8,
                    },
                ),
            }
        }
    }
}

/// The digits of a text are digits, and no more of them than the text has bytes.
pub proof fn lemma_digits_in_shape(s: Seq<u8>)
    ensures
        all_digits(digits_in(s)),
        digits_in(s).len() <= s.len(),
    decreases s.len(),
{
    if s.len() > 0 {
        lemma_digits_in_shape(s.drop_last());
    }
}

/// The digits of two texts written one after the other.
pub proof fn lemma_digits_in_concat(a: Seq<u8>, b: Seq<u8>)
    ensures
        digits_in(a + b) == digits_in(a) + digits_in(b),
    decreases b.len(),
{
    if b.len() == 0 {
        assert(a + b =~= a);
        assert(digits_in(a) + digits_in(b) =~= digits_in(a));
    } else {
        lemma_digits_in_concat(a, b.drop_last());
        assert((a + b).drop_last() =~= a + b.drop_last());
        assert((a + b).last() == b.last());
        if is_digit(b.last()) {
            assert((digits_in(a) + digits_in(b.drop_last())).push(b.last()) =~= digits_in(a)
                + digits_in(b.drop_last()).push(b.last()));
        }
    }
}

/// A run of digits holds nothing but its digits.
pub proof fn lemma_digits_in_digits(s: Seq<u8>)
    requires
        all_digits(s),
    ensures
        digits_in(s) == s,
    decreases s.len(),
{
    if s.len() > 0 {
        lemma_digits_in_digits(s.drop_last());
        assert(is_digit(s.last()));
        assert(s.drop_last().push(s.last()) =~= s);
    }
}

/// Collects the digits of `chars` from position `start_i` up to `end_shift`
/// positions before the end, passing over every other byte, and adds them up
/// from left to right.
#[verifier::rlimit(50)]
pub fn add_up(chars: &[u8], start_i: usize, end_shift: usize) -> (r: Result<
    Mantissa,
    ScientificError,
>)
    ensures
        match r {
            Ok(m) => {
                let run = digits_in(chars@.subrange(start_i as int, chars@.len() - end_shift));
                &&& start_i + end_shift <= chars@.len()
                &&& run.len() <= MAX_MANTISSA_DIGITS
                &&& m.value == digits_value(run)
                &&& m.digits == run.len()
            },
            Err(e) => if start_i + end_shift > chars@.len() {
                e == ScientificError::TooShort
            } else {
                &&& e == ScientificError::MantissaTooLong
                &&& digits_in(chars@.subrange(start_i as int, chars@.len() - end_shift)).len()
                    > MAX_MANTISSA_DIGITS
            },
        },
{
    let n = chars.len();
    if start_i > n || end_shift > n - start_i {
        return Err(ScientificError::TooShort);
    }
    let body = slice_subrange(chars, start_i, n - end_shift);
    let len = body.len();
    let mut value: u64 = 0;
    let mut digits: u8 = 0;
    let mut i: usize = 0;
    proof {
        assert(body@.subrange(0, 0) =~= Seq::<u8>::empty());
    }
    while i < len
        invariant
            len == body.len(),
            i <= len,
            start_i + end_shift <= chars@.len(),
            body@ == chars@.subrange(start_i as int, chars@.len() - end_shift),
            digits <= MAX_MANTISSA_DIGITS,
            digits == digits_in(body@.subrange(0, i as int)).len(),
            value == digits_value(digits_in(body@.subrange(0, i as int))),
        decreases len - i,
    {
        let b = body[i];
        proof {
            let seen = body@.subrange(0, i as int);
            let next = body@.subrange(0, i + 1);
            assert(next.drop_last() =~= seen);
            assert(next.last() == b);
            lemma_digits_in_shape(seen);
            lemma_digits_value_bound(digits_in(seen));
            lemma_digits_value_push(digits_in(seen), b);
            lemma_pow10_nineteen();
            if digits < 19 {
                lemma_pow10_monotonic(digits as nat, 18);
                assert(pow10(19) == 10 * pow10(18));
            }
        }
        if is_ascii_digit(b) {
            if digits as usize == MAX_MANTISSA_DIGITS {
                proof {
                    let next = body@.subrange(0, i + 1);
                    assert(body@ =~= next + body@.subrange(i + 1, len as int));
                    lemma_digits_in_concat(next, body@.subrange(i + 1, len as int));
                }
                return Err(ScientificError::MantissaTooLong);
            }
            value = value * 10 + (b - 0x30) as u64;
            digits = digits + 1;
        }
        i += 1;
    }
    proof {
        assert(body@.subrange(0, len as int) =~= body@);
    }
    Ok(Mantissa { value, digits })
}

/// Ten to the nineteenth fits in 64 bits.
pub proof fn lemma_pow10_nineteen()
    ensures
        pow10(19) == 10_000_000_000_000_000_000,
        pow10(19) <= u64::MAX,
{
    reveal_with_fuel(pow10, 20);
}

/// The powers of ten grow with the exponent.
pub proof fn lemma_pow10_monotonic(a: nat, b: nat)
    requires
        a <= b,
    ensures
        pow10(a) <= pow10(b),
        pow10(a) > 0,
    decreases b - a,
{
    lemma_pow10_add(a, 0);
    if a < b {
        lemma_pow10_monotonic(a + 1, b);
    }
}

/// Reads the two characters of an exponent.
pub fn parse_exponent(a: u8, b: u8) -> (r: Option<i8>)
    ensures
        match r {
            Some(e) => exponent_of(a, b) == Some(e as int),
            None => exponent_of(a, b) is None,
        },
{
    if !is_ascii_digit(b) {
        None
    } else if a == 0x2b {
        Some((b - 0x30) as i8)
    } else if a == 0x2d {
        Some(-((b - 0x30) as i8))
    } else if is_ascii_digit(a) {
        Some(((a - 0x30) * 10 + (b - 0x30)) as i8)
    } else {
        None
    }
}

/// Reads a number of the exponential sub-format.
///
/// The text is trimmed. A leading `-` makes the number negative. The last
/// two characters are the exponent; where the letter `e` stands before them
/// it is left out. The digits of what remains are the mantissa, which stands
/// behind an implied decimal point, so leading zeros count.
pub fn convert_scientific(value: &[u8]) -> (r: Result<Scientific, ScientificError>)
    ensures
        r == scientific_field(value@),
{
    let t = trim(value);
    let n = t.len();
    if n == 0 {
        return Err(ScientificError::Empty);
    }
    if n < 3 {
        return Err(ScientificError::TooShort);
    }
    let negative = t[0] == 0x2d;
    let start: usize = if negative {
        1
    } else {
        0
    };
    let shift: usize = if t[n - 3] == 0x65 {
        3
    } else {
        2
    };
    let mantissa = match add_up(t, start, shift) {
        Ok(m) => m,
        Err(e) => {
            return Err(e);
        },
    };
    match parse_exponent(t[n - 2], t[n - 1]) {
        None => Err(ScientificError::BadExponent),
        Some(exponent) => Ok(
            Scientific { negative, mantissa: mantissa.value, digits: mantissa.digits, exponent },
        ),
    }
}

/// The number of decimal digits of `c`; zero has one.
pub open spec fn decimal_len(c: nat) -> nat
    decreases c,
{
    if c < 10 {
        1
    } else {
        1 + decimal_len(c / 10)
    }
}

/// The five-digit mantissa `m` and the power of ten `s` such that `m × 10^s`
/// is the number of five significant digits nearest to `c`, a tie going up.
/// Zero gives a mantissa of zero and `s` of zero.
pub open spec fn five_digit_form(c: nat) -> (nat, int) {
    let len = decimal_len(c);
    if c == 0 {
        (0, 0)
    } else if len <= 5 {
        (c * pow10((5 - len) as nat), len - 5)
    } else {
        let unit = pow10((len - 5) as nat);
        let m = (2 * c + unit) / (2 * unit);
        if m == 100_000 {
            (10_000, len - 4)
        } else {
            (m, len - 5)
        }
    }
}

/// The power of ten that goes with the mantissa of `coefficient ×
/// 10^exponent`: zero for zero.
pub open spec fn five_digit_exponent(coefficient: nat, exponent: int) -> int {
    if coefficient == 0 {
        0
    } else {
        exponent + five_digit_form(coefficient).1
    }
}

/// A number of `n` digits lies between ten to the `n - 1` and ten to the `n`.
pub proof fn lemma_decimal_len_bounds(c: nat)
    requires
        c > 0,
    ensures
        pow10((decimal_len(c) - 1) as nat) <= c < pow10(decimal_len(c)),
    decreases c,
{
    reveal_with_fuel(pow10, 2);
    if c >= 10 {
        lemma_decimal_len_bounds(c / 10);
        let n = decimal_len(c / 10);
        assert(pow10(n + 1) == 10 * pow10(n));
        assert(pow10(n) == 10 * pow10((n - 1) as nat));
    }
}

/// The mantissa of a number that is not zero has exactly five digits, and
/// the number lies within half a unit of the mantissa's last digit.
#[verifier::rlimit(50)]
pub proof fn lemma_five_digit_form(c: nat)
    requires
        c > 0,
    ensures
        10_000 <= five_digit_form(c).0 <= 99_999,
        five_digit_form(c).1 <= 0 ==> five_digit_form(c).0 == c * pow10(
            (-five_digit_form(c).1) as nat,
        ),
        five_digit_form(c).1 > 0 ==> {
            let m = five_digit_form(c).0;
            let unit = pow10(five_digit_form(c).1 as nat);
            2 * (m * unit) <= 2 * c + unit && 2 * c < 2 * (m * unit) + unit
        },
{
    let len = decimal_len(c);
    lemma_decimal_len_bounds(c);
    lemma_pow10_values();
    if len <= 5 {
        let k = (5 - len) as nat;
        lemma_pow10_add((len - 1) as nat, k);
        lemma_pow10_add(len, k);
        let lo = pow10((len - 1) as nat);
        let hi = pow10(len);
        let p = pow10(k);
        assert(lo * p <= c * p) by (nonlinear_arith)
            requires
                lo <= c,
                p > 0,
        ;
        assert(c * p < hi * p) by (nonlinear_arith)
            requires
                c < hi,
                p > 0,
        ;
        assert(((len - 1) as nat + k) as nat == 4);
        assert((len + k) as nat == 5);
    } else {
        let d = (len - 5) as nat;
        let unit = pow10(d);
        lemma_pow10_add(4, d);
        lemma_pow10_add(5, d);
        assert((4 + d) as nat == (len - 1) as nat);
        assert((5 + d) as nat == len);
        let m = (2 * c + unit) / (2 * unit);
        let r = (2 * c + unit) % (2 * unit);
        assert(unit > 0);
        vstd::arithmetic::div_mod::lemma_fundamental_div_mod((2 * c + unit) as int, (2 * unit) as int);
        assert(2 * c + unit == (2 * unit) * m + r);
        assert(0 <= r < 2 * unit);
        assert((2 * unit) * m == 2 * (m * unit)) by (nonlinear_arith);
        assert(m >= 10_000) by (nonlinear_arith)
            requires
                2 * (m * unit) + r == 2 * c + unit,
                r < 2 * unit,
                10_000 * unit <= c,
                unit > 0,
        ;
        assert(m <= 100_000) by (nonlinear_arith)
            requires
                2 * (m * unit) + r == 2 * c + unit,
                r >= 0,
                c < 100_000 * unit,
                unit > 0,
        ;
        if m == 100_000 {
            assert(pow10((d + 1) as nat) == 10 * unit);
            assert(10_000 * (10 * unit) == m * unit) by (nonlinear_arith)
                requires
                    m == 100_000,
            ;
        }
    }
}

/// The number of decimal digits of `c`.
pub fn count_digits(c: u64) -> (len: u8)
    ensures
        len == decimal_len(c as nat),
        1 <= len <= 20,
{
    let mut q: u64 = c;
    let mut len: u8 = 1;
    proof {
        lemma_pow10_nineteen();
        if c > 0 {
            lemma_decimal_len_bounds(c as nat);
            if decimal_len(c as nat) > 20 {
                lemma_pow10_monotonic(20, (decimal_len(c as nat) - 1) as nat);
                assert(pow10(20) == 10 * pow10(19));
            }
        }
    }
    while q >= 10
        invariant
            1 <= len,
            decimal_len(c as nat) == len - 1 + decimal_len(q as nat),
            decimal_len(c as nat) <= 20,
        decreases q,
    {
        q = q / 10;
        len = len + 1;
    }
    len
}

/// Ten to the power `e`.
pub fn power_of_ten(e: u8) -> (p: u64)
    requires
        e <= 19,
    ensures
        p == pow10(e as nat),
{
    let mut p: u64 = 1;
    let mut i: u8 = 0;
    while i < e
        invariant
            i <= e <= 19,
            p == pow10(i as nat),
        decreases e - i,
    {
        proof {
            lemma_pow10_nineteen();
            lemma_pow10_monotonic((i + 1) as nat, 19);
            assert(pow10((i + 1) as nat) == 10 * pow10(i as nat));
        }
        p = p * 10;
        i = i + 1;
    }
    p
}

/// Brings the decimal number `coefficient × 10^exponent` to five significant
/// digits: the result `(m, e)` stands for `m × 10^e`, the nearest such number,
/// and for zero it is `(0, 0)`.
#[verifier::rlimit(50)]
pub fn to_tle_scientific(coefficient: u64, exponent: i32) -> (r: (u32, i64))
    ensures
        r.0 == five_digit_form(coefficient as nat).0,
        r.1 == five_digit_exponent(coefficient as nat, exponent as int),
        coefficient > 0 ==> 10_000 <= r.0 <= 99_999,
{
    if coefficient == 0 {
        return (0, 0);
    }
    let len = count_digits(coefficient);
    proof {
        lemma_five_digit_form(coefficient as nat);
        lemma_decimal_len_bounds(coefficient as nat);
    }
    if len <= 5 {
        let p = power_of_ten(5 - len);
        proof {
            lemma_pow10_values();
        }
        let m: u64 = coefficient * p;
        (m as u32, exponent as i64 + (len as i64 - 5))
    } else {
        let unit = power_of_ten(len - 5);
        let twice: u128 = 2 * (coefficient as u128) + unit as u128;
        let m: u128 = twice / (2 * (unit as u128));
        if m == 100_000 {
            (10_000, exponent as i64 + (len as i64 - 4))
        } else {
            (m as u32, exponent as i64 + (len as i64 - 5))
        }
    }
}

impl Scientific {
    /// The form that a record column can hold: five mantissa digits and an
    /// exponent of one digit.
    pub open spec fn is_canonical(self) -> bool {
        &&& self.digits == 5
        &&& self.mantissa <= 99_999
        &&& -9 <= self.exponent <= 9
    }

    /// Tells whether the value is in the form that a record column can hold.
    pub fn canonical(&self) -> (r: bool)
        ensures
            r == self.is_canonical(),
    {
        self.digits == 5 && self.mantissa <= 99_999 && -9 <= self.exponent && self.exponent <= 9
    }

    /// The same number with its mantissa filled up to five digits by zeros
    /// at its end, where it has no more than five and the exponent is a
    /// single digit.
    pub open spec fn canonical_form(self) -> Option<Scientific> {
        if self.digits <= 5 && -9 <= self.exponent <= 9 && self.mantissa < pow10(
            self.digits as nat,
        ) {
            Some(
                Scientific {
                    negative: self.negative,
                    mantissa: (self.mantissa * pow10((5 - self.digits) as nat)) as u64,
                    digits: 5,
                    exponent: self.exponent,
                },
            )
        } else {
            None
        }
    }

    /// Fills the mantissa up to five digits.
    pub fn to_canonical(&self) -> (r: Option<Scientific>)
        ensures
            r == self.canonical_form(),
            r matches Some(c) ==> c.is_canonical(),
    {
        if self.digits > 5 || self.exponent < -9 || self.exponent > 9 {
            return None;
        }
        let limit = power_of_ten(self.digits);
        if self.mantissa >= limit {
            return None;
        }
        let p = power_of_ten(5 - self.digits);
        proof {
            lemma_pow10_values();
            lemma_pow10_add(self.digits as nat, (5 - self.digits) as nat);
            let m = self.mantissa as nat;
            let l = pow10(self.digits as nat);
            let q = pow10((5 - self.digits) as nat);
            assert(m * q < l * q) by (nonlinear_arith)
                requires
                    m < l,
                    q > 0,
            ;
            assert((self.digits as nat + (5 - self.digits) as nat) as nat == 5);
        }
        Some(
            Scientific {
                negative: self.negative,
                mantissa: self.mantissa * p,
                digits: 5,
                exponent: self.exponent,
            },
        )
    }

    /// The column form of `± mantissa × 10^exponent`, where `mantissa` has at
    /// most five digits and the exponent in front of the implied point,
    /// `exponent + 5`, is a single digit; a mantissa of zero has exponent zero.
    pub open spec fn of_parts(negative: bool, mantissa: int, exponent: int) -> Option<
        Scientific,
    > {
        if mantissa < 0 || mantissa > 99_999 {
            None
        } else if mantissa == 0 {
            Some(Scientific { negative, mantissa: 0, digits: 5, exponent: 0 })
        } else if -14 <= exponent <= 4 {
            Some(
                Scientific {
                    negative,
                    mantissa: mantissa as u64,
                    digits: 5,
                    exponent: (exponent + 5) as i8,
                },
            )
        } else {
            None
        }
    }

    /// Builds the column form from a sign, a mantissa and a power of ten, as
    /// [`to_tle_scientific`] gives them.
    pub fn from_parts(negative: bool, mantissa: u32, exponent: i64) -> (r: Option<Scientific>)
        ensures
            r == Self::of_parts(negative, mantissa as int, exponent as int),
            r matches Some(c) ==> c.is_canonical(),
    {
        if mantissa > 99_999 {
            None
        } else if mantissa == 0 {
            Some(Scientific { negative, mantissa: 0, digits: 5, exponent: 0 })
        } else if -14 <= exponent && exponent <= 4 {
            Some(
                Scientific {
                    negative,
                    mantissa: mantissa as u64,
                    digits: 5,
                    exponent: (exponent + 5) as i8,
                },
            )
        } else {
            None
        }
    }

    /// The mantissa as it is written behind the decimal point.
    pub open spec fn mantissa_text(self) -> Seq<u8> {
        if self.digits == 0 {
            seq![0x30u8]
        } else {
            zero_padded(self.mantissa as nat, self.digits as nat)
        }
    }

    /// The exponent as it is written behind the letter `e`.
    pub open spec fn exponent_text(self) -> Seq<u8> {
        if self.exponent < 0 {
            seq![0x2du8] + strip_zeros(zero_padded((-self.exponent) as nat, 3))
        } else {
            strip_zeros(zero_padded(self.exponent as nat, 3))
        }
    }

    /// The number spelled as `[-]0.<mantissa>e<exponent>`.
    pub open spec fn numeric_text_of(self) -> Seq<u8> {
        (if self.negative {
            seq![0x2du8]
        } else {
            Seq::<u8>::empty()
        }) + seq![0x30u8, 0x2eu8] + self.mantissa_text() + seq![0x65u8] + self.exponent_text()
    }

    /// Spells the number as `[-]0.<mantissa>e<exponent>`, the form in which
    /// a floating-point parser takes it.
    #[verifier::rlimit(50)]
    pub fn numeric_text(&self) -> (r: Vec<u8>)
        ensures
            r@ == self.numeric_text_of(),
    {
        let mut out: Vec<u8> = Vec::new();
        if self.negative {
            out.push(0x2d);
        }
        out.push(0x30);
        out.push(0x2e);
        let ghost head = out@;
        assert(head =~= (if self.negative {
            seq![0x2du8]
        } else {
            Seq::<u8>::empty()
        }) + seq![0x30u8, 0x2eu8]);
        if self.digits == 0 {
            out.push(0x30);
            assert(out@ =~= head + self.mantissa_text());
        } else {
            push_zero_padded(&mut out, self.mantissa, self.digits as usize);
        }
        out.push(0x65);
        let ghost body = out@;
        assert(body =~= head + self.mantissa_text() + seq![0x65u8]);
        if self.exponent < 0 {
            out.push(0x2d);
            push_decimal(&mut out, (-(self.exponent as i64)) as u64, 3);
            assert(out@ =~= body + self.exponent_text());
        } else {
            push_decimal(&mut out, self.exponent as u64, 3);
        }
        out
    }

    /// The eight columns of the value in a record: a sign, five mantissa
    /// digits, the sign of the exponent and its digit. A value that is not
    /// negative gets `plus` for its sign; an exponent of zero is written `-0`.
    pub open spec fn column_text(self, plus: u8) -> Seq<u8> {
        seq![if self.negative {
            0x2du8
        } else {
            plus
        }] + zero_padded(self.mantissa as nat, 5) + seq![
            if self.exponent > 0 {
                0x2bu8
            } else {
                0x2du8
            },
            (0x30 + if self.exponent < 0 {
                -self.exponent
            } else {
                self.exponent as int
            }) as u8,
        ]
    }

    /// Appends the eight columns of the value.
    pub fn push_column(&self, out: &mut Vec<u8>, plus: u8)
        requires
            self.is_canonical(),
        ensures
            final(out)@ == old(out)@ + self.column_text(plus),
    {
        out.push(if self.negative {
            0x2d
        } else {
            plus
        });
        push_zero_padded(out, self.mantissa, 5);
        if self.exponent > 0 {
            out.push(0x2b);
            out.push(0x30 + self.exponent as u8);
        } else {
            out.push(0x2d);
            out.push(0x30 + (-self.exponent) as u8);
        }
        proof {
            assert(out@ =~= old(out)@ + self.column_text(plus));
        }
    }
}

/// Reading the eight columns of a value gives the value back, whether a
/// space or a plus sign stands for the sign of what is not negative.
#[verifier::rlimit(50)]
pub proof fn lemma_column_round_trip(v: Scientific, plus: u8)
    requires
        v.is_canonical(),
        plus == 0x20 || plus == 0x2b,
    ensures
        v.column_text(plus).len() == 8,
        scientific_field(v.column_text(plus)) == Ok::<Scientific, ScientificError>(v),
{
    let sign = if v.negative {
        0x2du8
    } else {
        plus
    };
    let d = zero_padded(v.mantissa as nat, 5);
    let magnitude: int = if v.exponent < 0 {
        -v.exponent
    } else {
        v.exponent as int
    };
    let es = if v.exponent > 0 {
        0x2bu8
    } else {
        0x2du8
    };
    let ed = (0x30 + magnitude) as u8;
    let tail = seq![es, ed];
    let text = v.column_text(plus);
    lemma_pow10_values();
    lemma_zero_padded_shape(v.mantissa as nat, 5);
    lemma_zero_padded_value(v.mantissa as nat, 5);
    lemma_digits_in_digits(d);
    assert(text =~= seq![sign] + d + tail);
    assert(is_digit(d[0]) && is_digit(d[4]));
    let t = trimmed(text);
    if sign == 0x20 {
        let rest = d + tail;
        assert(text =~= spaces(1) + rest);
        lemma_trim_start_spaces(1, rest);
        assert(rest[0] == d[0]);
        assert(trim_start(rest) == rest);
        assert(rest.last() == ed);
        assert(t == rest);
        assert(t.subrange(0, 5) =~= d);
    } else {
        assert(text[0] == sign);
        assert(text.last() == ed);
        assert(t == text);
        if v.negative {
            assert(t.subrange(1, 6) =~= d);
        } else {
            assert(t.subrange(0, 6) =~= seq![sign] + d);
            lemma_digits_in_concat(seq![sign], d);
            let one = seq![sign];
            assert(one.drop_last() =~= Seq::<u8>::empty());
            assert(digits_in(one.drop_last()) =~= Seq::<u8>::empty());
            assert(one.last() == sign);
            assert(!is_digit(sign));
            assert(digits_in(one) =~= Seq::<u8>::empty());
            assert(Seq::<u8>::empty() + d =~= d);
        }
    }
}

/// Writing and reading back keeps a number to the five digits of the
/// format: the decimal number `coefficient × 10^exponent`, brought to five
/// significant digits and written in its eight columns, reads back as
/// exactly the number of five digits that was written, and that number lies
/// within half a unit of its last digit of the number that was given.
#[verifier::rlimit(50)]
pub proof fn lemma_encode_decode(negative: bool, coefficient: u64, exponent: i32, plus: u8)
    requires
        plus == 0x20 || plus == 0x2b,
        Scientific::of_parts(
            negative,
            five_digit_form(coefficient as nat).0 as int,
            five_digit_exponent(coefficient as nat, exponent as int),
        ) is Some,
    ensures
        ({
            let m = five_digit_form(coefficient as nat).0;
            let shift = five_digit_form(coefficient as nat).1;
            let v = Scientific::of_parts(
                negative,
                m as int,
                five_digit_exponent(coefficient as nat, exponent as int),
            )->0;
            &&& scientific_field(v.column_text(plus)) == Ok::<Scientific, ScientificError>(v)
            &&& v.negative == negative
            &&& v.mantissa == m
            &&& coefficient > 0 ==> v.exponent == exponent + shift + 5
            &&& coefficient > 0 && shift <= 0 ==> m == coefficient * pow10((-shift) as nat)
            &&& coefficient > 0 && shift > 0 ==> 2 * (m * pow10(shift as nat)) <= 2 * coefficient
                + pow10(shift as nat) && 2 * coefficient < 2 * (m * pow10(shift as nat)) + pow10(
                shift as nat,
            )
        }),
{
    let m = five_digit_form(coefficient as nat).0;
    let v = Scientific::of_parts(
        negative,
        m as int,
        five_digit_exponent(coefficient as nat, exponent as int),
    )->0;
    if coefficient > 0 {
        lemma_five_digit_form(coefficient as nat);
    }
    lemma_column_round_trip(v, plus);
}

} // verus!
