//! Bytes as text: white space, trimming, and runs of decimal digits.
//!
//! Everything the record codec reads or writes is built from the few
//! functions here, and each of them comes with the lemma that reading back
//! what was written gives the number that was written.

use vstd::prelude::*;
use vstd::slice::{slice_subrange, slice_to_vec};

verus! {

/// The ASCII white space that trimming removes: tab, line feed, vertical tab,
/// form feed, carriage return and space.
pub open spec fn is_space(b: u8) -> bool {
    b == 0x20 || (0x09 <= b && b <= 0x0d)
}

/// The ten decimal digits.
pub open spec fn is_digit(b: u8) -> bool {
    0x30 <= b && b <= 0x39
}

/// Every byte of `s` is a decimal digit.
pub open spec fn all_digits(s: Seq<u8>) -> bool {
    forall|i: int| 0 <= i < s.len() ==> is_digit(#[trigger] s[i])
}

/// The number that a run of digits spells, most significant digit first.
pub open spec fn digits_value(s: Seq<u8>) -> nat
    decreases s.len(),
{
    if s.len() == 0 {
        0
    } else {
        digits_value(s.drop_last()) * 10 + (s.last() - 0x30) as nat
    }
}

/// Ten to the power `e`.
pub open spec fn pow10(e: nat) -> nat
    decreases e,
{
    if e == 0 {
        1
    } else {
        10 * pow10((e - 1) as nat)
    }
}

/// The last `width` decimal digits of `n`, with zeros in front where `n` is short.
pub open spec fn zero_padded(n: nat, width: nat) -> Seq<u8>
    decreases width,
{
    if width == 0 {
        Seq::empty()
    } else {
        zero_padded(n / 10, (width - 1) as nat).push((0x30 + n % 10) as u8)
    }
}

/// `n` copies of the space character.
pub open spec fn spaces(n: nat) -> Seq<u8> {
    Seq::new(n, |i: int| 0x20u8)
}

/// `n` copies of the digit zero.
pub open spec fn zeros(n: nat) -> Seq<u8> {
    Seq::new(n, |i: int| 0x30u8)
}

/// `s` with every leading zero but the last character turned into a space:
/// the right-justified form of a zero-padded number.
pub open spec fn blank_leading(s: Seq<u8>) -> Seq<u8>
    decreases s.len(),
{
    if s.len() > 1 && s[0] == 0x30 {
        seq![0x20u8] + blank_leading(s.drop_first())
    } else {
        s
    }
}

/// `s` without its leading zeros, of which the last character is always kept.
pub open spec fn strip_zeros(s: Seq<u8>) -> Seq<u8>
    decreases s.len(),
{
    if s.len() > 1 && s[0] == 0x30 {
        strip_zeros(s.drop_first())
    } else {
        s
    }
}

/// `s` without the white space at its front.
pub open spec fn trim_start(s: Seq<u8>) -> Seq<u8>
    decreases s.len(),
{
    if s.len() > 0 && is_space(s[0]) {
        trim_start(s.drop_first())
    } else {
        s
    }
}

/// `s` without the white space at its end.
pub open spec fn trim_end(s: Seq<u8>) -> Seq<u8>
    decreases s.len(),
{
    if s.len() > 0 && is_space(s.last()) {
        trim_end(s.drop_last())
    } else {
        s
    }
}

/// `s` without the white space at either end.
pub open spec fn trimmed(s: Seq<u8>) -> Seq<u8> {
    trim_end(trim_start(s))
}

/// `s` has no white space at either end.
pub open spec fn is_trimmed(s: Seq<u8>) -> bool {
    s.len() > 0 ==> !is_space(s[0]) && !is_space(s.last())
}

/// The position of the first `b` in `s`, or the length of `s` where there is none.
pub open spec fn first_index_of(s: Seq<u8>, b: u8) -> nat
    decreases s.len(),
{
    if s.len() == 0 || s[0] == b {
        0
    } else {
        1 + first_index_of(s.drop_first(), b)
    }
}

/// What an unsigned whole number field holds: the text must be a non-empty
/// run of digits.
pub open spec fn uint_field(t: Seq<u8>) -> Option<nat> {
    if t.len() > 0 && all_digits(t) {
        Some(digits_value(t))
    } else {
        None
    }
}

/// The digits before the decimal point of a fixed-point text.
pub open spec fn whole_part(t: Seq<u8>) -> Seq<u8> {
    t.subrange(0, first_index_of(t, 0x2e) as int)
}

/// The digits after the decimal point of a fixed-point text; empty where
/// there is no point.
pub open spec fn fraction_part(t: Seq<u8>) -> Seq<u8> {
    let dot = first_index_of(t, 0x2e);
    if dot < t.len() {
        t.subrange(dot as int + 1, t.len() as int)
    } else {
        Seq::empty()
    }
}

/// What an unsigned fixed-point field with `frac` decimals holds, counted
/// in units of ten to the minus `frac`: digits, then optionally a point and
/// at most `frac` more digits, with at least one digit in all.
pub open spec fn fixed_field(t: Seq<u8>, frac: nat) -> Option<nat> {
    let whole = whole_part(t);
    let fraction = fraction_part(t);
    if all_digits(whole) && all_digits(fraction) && whole.len() + fraction.len() > 0
        && fraction.len() <= frac {
        Some(digits_value(whole + fraction + zeros((frac - fraction.len()) as nat)))
    } else {
        None
    }
}

/// Appending a digit multiplies the value by ten and adds the digit.
pub proof fn lemma_digits_value_push(s: Seq<u8>, d: u8)
    ensures
        digits_value(s.push(d)) == digits_value(s) * 10 + (d - 0x30) as nat,
{
    assert(s.push(d).drop_last() =~= s);
}

/// A run of digits of length `n` spells a number below ten to the `n`.
pub proof fn lemma_digits_value_bound(s: Seq<u8>)
    requires
        all_digits(s),
    ensures
        digits_value(s) < pow10(s.len()),
    decreases s.len(),
{
    if s.len() > 0 {
        lemma_digits_value_bound(s.drop_last());
        assert(is_digit(s.last()));
    }
}

/// The value of two runs written one after the other.
pub proof fn lemma_digits_value_concat(a: Seq<u8>, b: Seq<u8>)
    ensures
        digits_value(a + b) == digits_value(a) * pow10(b.len()) + digits_value(b),
    decreases b.len(),
{
    if b.len() == 0 {
        assert(a + b =~= a);
        assert(pow10(b.len()) == 1);
        assert(digits_value(b) == 0);
        assert(digits_value(a) * 1 == digits_value(a));
    } else {
        lemma_digits_value_concat(a, b.drop_last());
        assert((a + b).drop_last() =~= a + b.drop_last());
        assert((a + b).last() == b.last());
        let va = digits_value(a);
        let p = pow10((b.len() - 1) as nat);
        let vb = digits_value(b.drop_last());
        assert(pow10(b.len()) == 10 * p);
        assert(digits_value(a + b.drop_last()) == va * p + vb);
        assert((va * p + vb) * 10 == va * (10 * p) + vb * 10) by (nonlinear_arith);
        let d = (b.last() - 0x30) as nat;
        assert(digits_value(a + b) == (va * p + vb) * 10 + d);
        assert(digits_value(b) == vb * 10 + d);
    }
}

/// Zeros in front of a run do not change its value.
pub proof fn lemma_digits_value_zeros_front(n: nat, s: Seq<u8>)
    ensures
        digits_value(zeros(n) + s) == digits_value(s),
{
    lemma_digits_value_concat(zeros(n), s);
    lemma_digits_value_zeros(n);
    assert(0 * pow10(s.len()) == 0);
}

/// A run of zeros spells zero.
pub proof fn lemma_digits_value_zeros(n: nat)
    ensures
        digits_value(zeros(n)) == 0,
        all_digits(zeros(n)),
    decreases n,
{
    if n > 0 {
        lemma_digits_value_zeros((n - 1) as nat);
        assert(zeros(n).drop_last() =~= zeros((n - 1) as nat));
    }
}

/// A prefix of a run of digits spells no more than the whole run.
pub proof fn lemma_digits_value_prefix(s: Seq<u8>, k: int)
    requires
        all_digits(s),
        0 <= k <= s.len(),
    ensures
        digits_value(s.subrange(0, k)) <= digits_value(s),
    decreases s.len() - k,
{
    if k < s.len() {
        lemma_digits_value_prefix(s, k + 1);
        let next = s.subrange(0, k + 1);
        assert(next.drop_last() =~= s.subrange(0, k));
        assert(is_digit(s[k]));
        assert(next.last() == s[k]);
    } else {
        assert(s.subrange(0, k) =~= s);
    }
}

/// The powers of ten that the record's columns need.
pub proof fn lemma_pow10_values()
    ensures
        pow10(0) == 1,
        pow10(1) == 10,
        pow10(2) == 100,
        pow10(3) == 1_000,
        pow10(4) == 10_000,
        pow10(5) == 100_000,
        pow10(6) == 1_000_000,
        pow10(7) == 10_000_000,
        pow10(8) == 100_000_000,
        pow10(9) == 1_000_000_000,
        pow10(10) == 10_000_000_000,
        pow10(11) == 100_000_000_000,
        pow10(12) == 1_000_000_000_000,
{
    reveal_with_fuel(pow10, 14);
}

/// Ten to the `a + b` is the product of ten to the `a` and ten to the `b`.
pub proof fn lemma_pow10_add(a: nat, b: nat)
    ensures
        pow10(a + b) == pow10(a) * pow10(b),
        pow10(a) > 0,
    decreases a,
{
    if a > 0 {
        lemma_pow10_add((a - 1) as nat, b);
        let x = pow10((a - 1) as nat);
        let y = pow10(b);
        assert(((a - 1) as nat + b) as nat == (a + b - 1) as nat);
        assert(pow10(a + b) == 10 * pow10((a + b - 1) as nat));
        assert(pow10(a) == 10 * x);
        assert(10 * (x * y) == (10 * x) * y) by (nonlinear_arith);
    } else {
        assert(1 * pow10(b) == pow10(b));
    }
}

/// A zero-padded number has the width asked for and holds digits only.
pub proof fn lemma_zero_padded_shape(n: nat, width: nat)
    ensures
        zero_padded(n, width).len() == width,
        all_digits(zero_padded(n, width)),
    decreases width,
{
    if width > 0 {
        lemma_zero_padded_shape(n / 10, (width - 1) as nat);
    }
}

/// Reading a zero-padded number back gives the number, where it fits the width.
pub proof fn lemma_zero_padded_value(n: nat, width: nat)
    requires
        n < pow10(width),
    ensures
        digits_value(zero_padded(n, width)) == n,
    decreases width,
{
    if width > 0 {
        let rest = zero_padded(n / 10, (width - 1) as nat);
        lemma_zero_padded_value(n / 10, (width - 1) as nat);
        lemma_digits_value_push(rest, (0x30 + n % 10) as u8);
    }
}

/// Blanking leading zeros keeps the length.
pub proof fn lemma_blank_leading_len(s: Seq<u8>)
    ensures
        blank_leading(s).len() == s.len(),
    decreases s.len(),
{
    if s.len() > 1 && s[0] == 0x30 {
        lemma_blank_leading_len(s.drop_first());
    }
}

/// Stripping leading zeros from a run of digits leaves a non-empty run of
/// digits with the same value, whatever digits follow it.
pub proof fn lemma_strip_zeros(s: Seq<u8>, tail: Seq<u8>)
    requires
        s.len() > 0,
        all_digits(s),
    ensures
        strip_zeros(s).len() > 0,
        all_digits(strip_zeros(s)),
        digits_value(strip_zeros(s) + tail) == digits_value(s + tail),
    decreases s.len(),
{
    if s.len() > 1 && s[0] == 0x30 {
        let rest = s.drop_first();
        assert(forall|i: int| 0 <= i < rest.len() ==> rest[i] == s[i + 1]);
        lemma_strip_zeros(rest, tail);
        assert(s + tail =~= zeros(1) + (rest + tail));
        lemma_digits_value_zeros_front(1, rest + tail);
    }
}

/// Trimming the front of a blanked number, followed by anything, leaves the
/// stripped number followed by the same.
pub proof fn lemma_trim_start_blank_leading(s: Seq<u8>, tail: Seq<u8>)
    requires
        s.len() > 0,
        all_digits(s),
    ensures
        trim_start(blank_leading(s) + tail) == strip_zeros(s) + tail,
    decreases s.len(),
{
    if s.len() > 1 && s[0] == 0x30 {
        let rest = s.drop_first();
        assert(forall|i: int| 0 <= i < rest.len() ==> rest[i] == s[i + 1]);
        lemma_trim_start_blank_leading(rest, tail);
        let whole = blank_leading(s) + tail;
        assert(whole[0] == 0x20);
        assert(whole.drop_first() =~= blank_leading(rest) + tail);
    } else {
        let whole = s + tail;
        assert(is_digit(s[0]));
        assert(whole[0] == s[0]);
    }
}

/// Spaces in front of text are trimmed away.
pub proof fn lemma_trim_start_spaces(n: nat, s: Seq<u8>)
    ensures
        trim_start(spaces(n) + s) == trim_start(s),
    decreases n,
{
    if n == 0 {
        assert(spaces(n) + s =~= s);
    } else {
        lemma_trim_start_spaces((n - 1) as nat, s);
        let whole = spaces(n) + s;
        assert(whole[0] == 0x20);
        assert(whole.drop_first() =~= spaces((n - 1) as nat) + s);
    }
}

/// Spaces after text are trimmed away.
pub proof fn lemma_trim_end_spaces(s: Seq<u8>, n: nat)
    ensures
        trim_end(s + spaces(n)) == trim_end(s),
    decreases n,
{
    if n == 0 {
        assert(s + spaces(n) =~= s);
    } else {
        lemma_trim_end_spaces(s, (n - 1) as nat);
        let whole = s + spaces(n);
        assert(whole.last() == 0x20);
        assert(whole.drop_last() =~= s + spaces((n - 1) as nat));
    }
}

/// What trimming the front leaves is a suffix of the text that starts with
/// something other than white space.
pub proof fn lemma_trim_start_shape(s: Seq<u8>)
    ensures
        trim_start(s).len() <= s.len(),
        trim_start(s) == s.subrange(s.len() - trim_start(s).len(), s.len() as int),
        trim_start(s).len() > 0 ==> !is_space(trim_start(s)[0]),
    decreases s.len(),
{
    if s.len() > 0 && is_space(s[0]) {
        lemma_trim_start_shape(s.drop_first());
        let t = trim_start(s);
        assert(t =~= s.subrange(s.len() - t.len(), s.len() as int));
    } else {
        assert(s =~= s.subrange(0, s.len() as int));
    }
}

/// What trimming the end leaves is a prefix of the text that ends with
/// something other than white space.
pub proof fn lemma_trim_end_shape(s: Seq<u8>)
    ensures
        trim_end(s).len() <= s.len(),
        trim_end(s) == s.subrange(0, trim_end(s).len() as int),
        trim_end(s).len() > 0 ==> !is_space(trim_end(s).last()),
    decreases s.len(),
{
    if s.len() > 0 && is_space(s.last()) {
        lemma_trim_end_shape(s.drop_last());
        let t = trim_end(s);
        assert(t =~= s.subrange(0, t.len() as int));
    } else {
        assert(s =~= s.subrange(0, s.len() as int));
    }
}

/// Trimmed text has no white space at either end and is no longer than the text.
pub proof fn lemma_trimmed_shape(s: Seq<u8>)
    ensures
        is_trimmed(trimmed(s)),
        trimmed(s).len() <= s.len(),
{
    lemma_trim_start_shape(s);
    let t = trim_start(s);
    lemma_trim_end_shape(t);
    let u = trim_end(t);
    if u.len() > 0 {
        assert(u[0] == t[0]);
    }
}

/// In a run of digits followed by `b`, which is no digit, the first `b` stands
/// right after the run.
pub proof fn lemma_first_index_after_digits(s: Seq<u8>, b: u8, tail: Seq<u8>)
    requires
        all_digits(s),
        !is_digit(b),
    ensures
        first_index_of(s + seq![b] + tail, b) == s.len(),
    decreases s.len(),
{
    let whole = s + seq![b] + tail;
    if s.len() == 0 {
        assert(whole[0] == b);
    } else {
        assert(whole[0] == s[0]);
        assert(is_digit(s[0]));
        let rest = s.drop_first();
        assert(forall|i: int| 0 <= i < rest.len() ==> rest[i] == s[i + 1]);
        lemma_first_index_after_digits(rest, b, tail);
        assert(whole.drop_first() =~= rest + seq![b] + tail);
    }
}

/// Tells whether a byte is ASCII white space.
pub fn is_whitespace(b: u8) -> (r: bool)
    ensures
        r == is_space(b),
{
    b == 0x20 || (0x09 <= b && b <= 0x0d)
}

/// Tells whether a byte is a decimal digit.
pub fn is_ascii_digit(b: u8) -> (r: bool)
    ensures
        r == is_digit(b),
{
    0x30 <= b && b <= 0x39
}

/// The part of `s` between its leading and its trailing white space.
pub fn trim(s: &[u8]) -> (r: &[u8])
    ensures
        r@ == trimmed(s@),
{
    let n = s.len();
    let mut start: usize = 0;
    proof {
        assert(s@.subrange(0, n as int) =~= s@);
    }
    while start < n && is_whitespace(s[start])
        invariant
            n == s.len(),
            start <= n,
            trim_start(s@) == trim_start(s@.subrange(start as int, n as int)),
        decreases n - start,
    {
        proof {
            let cur = s@.subrange(start as int, n as int);
            assert(cur[0] == s@[start as int]);
            assert(cur.drop_first() =~= s@.subrange(start + 1, n as int));
        }
        start += 1;
    }
    let ghost front = s@.subrange(start as int, n as int);
    proof {
        if start < n {
            assert(front[0] == s@[start as int]);
        }
    }
    let mut end: usize = n;
    while end > start && is_whitespace(s[end - 1])
        invariant
            n == s.len(),
            start <= end <= n,
            front == s@.subrange(start as int, n as int),
            trim_end(front) == trim_end(s@.subrange(start as int, end as int)),
        decreases end,
    {
        proof {
            let cur = s@.subrange(start as int, end as int);
            assert(cur.last() == s@[end - 1]);
            assert(cur.drop_last() =~= s@.subrange(start as int, end - 1));
        }
        end -= 1;
    }
    proof {
        let cur = s@.subrange(start as int, end as int);
        if end > start {
            assert(cur.last() == s@[end - 1]);
        }
    }
    slice_subrange(s, start, end)
}

/// The position of the first `b` in `s`, or the length of `s`.
pub fn find_byte(s: &[u8], b: u8) -> (r: usize)
    ensures
        r == first_index_of(s@, b),
        r <= s.len(),
{
    let n = s.len();
    let mut i: usize = 0;
    proof {
        assert(s@.subrange(0, n as int) =~= s@);
    }
    while i < n && s[i] != b
        invariant
            n == s.len(),
            i <= n,
            first_index_of(s@, b) == i + first_index_of(s@.subrange(i as int, n as int), b),
        decreases n - i,
    {
        proof {
            let cur = s@.subrange(i as int, n as int);
            assert(cur[0] == s@[i as int]);
            assert(cur.drop_first() =~= s@.subrange(i + 1, n as int));
        }
        i += 1;
    }
    proof {
        let cur = s@.subrange(i as int, n as int);
        if i < n {
            assert(cur[0] == s@[i as int]);
        }
    }
    i
}

/// Tells whether `s` holds digits only.
pub fn is_digit_run(s: &[u8]) -> (r: bool)
    ensures
        r == all_digits(s@),
{
    let n = s.len();
    let mut i: usize = 0;
    while i < n
        invariant
            n == s.len(),
            i <= n,
            forall|j: int| 0 <= j < i ==> is_digit(#[trigger] s@[j]),
        decreases n - i,
    {
        if !is_ascii_digit(s[i]) {
            return false;
        }
        i += 1;
    }
    true
}

/// Reads an unsigned whole number: `Some` exactly where the text is a
/// non-empty run of digits whose value fits in 64 bits.
pub fn parse_uint(t: &[u8]) -> (r: Option<u64>)
    ensures
        match r {
            Some(v) => uint_field(t@) == Some(v as nat),
            None => uint_field(t@) is None || uint_field(t@)->0 > u64::MAX,
        },
{
    if t.len() == 0 || !is_digit_run(t) {
        return None;
    }
    let r = accumulate_digits(t, 0, Ghost(Seq::empty()));
    proof {
        assert(Seq::<u8>::empty() + t@ =~= t@);
    }
    r
}

/// Carries on reading digits: `acc` is the value of the digits `before`
/// read so far, and the result is the value of `before` followed by `t`,
/// or `None` where that does not fit in 64 bits.
fn accumulate_digits(t: &[u8], acc: u64, Ghost(before): Ghost<Seq<u8>>) -> (r: Option<u64>)
    requires
        all_digits(t@),
        all_digits(before),
        acc == digits_value(before),
    ensures
        match r {
            Some(v) => v == digits_value(before + t@),
            None => digits_value(before + t@) > u64::MAX,
        },
{
    let n = t.len();
    let mut value: u64 = acc;
    let mut i: usize = 0;
    let ghost whole = before + t@;
    proof {
        assert(whole.subrange(0, before.len() as int) =~= before);
    }
    while i < n
        invariant
            n == t.len(),
            i <= n,
            all_digits(t@),
            all_digits(before),
            whole == before + t@,
            value == digits_value(whole.subrange(0, before.len() + i)),
        decreases n - i,
    {
        let d: u64 = (t[i] - 0x30) as u64;
        proof {
            let k = before.len() + i;
            assert(whole[k as int] == t@[i as int]);
            assert(is_digit(t@[i as int]));
            assert(whole.subrange(0, k + 1) =~= whole.subrange(0, k as int).push(t@[i as int]));
            lemma_digits_value_push(whole.subrange(0, k as int), t@[i as int]);
            assert(all_digits(whole));
            lemma_digits_value_prefix(whole, k + 1);
        }
        if value > (u64::MAX - d) / 10 {
            return None;
        }
        value = value * 10 + d;
        i += 1;
    }
    proof {
        assert(whole.subrange(0, before.len() + n) =~= whole);
    }
    Some(value)
}

/// Reads an unsigned fixed-point number with at most `frac` decimals, in
/// units of ten to the minus `frac`: `Some` exactly where the text is well
/// formed and the count fits in 64 bits.
#[verifier::rlimit(50)]
pub fn parse_fixed(t: &[u8], frac: usize) -> (r: Option<u64>)
    ensures
        match r {
            Some(v) => fixed_field(t@, frac as nat) == Some(v as nat),
            None => fixed_field(t@, frac as nat) is None || fixed_field(t@, frac as nat)->0
                > u64::MAX,
        },
{
    let n = t.len();
    let dot = find_byte(t, 0x2e);
    let whole = slice_subrange(t, 0, dot);
    let fraction = if dot < n {
        slice_subrange(t, dot + 1, n)
    } else {
        slice_subrange(t, 0, 0)
    };
    assert(whole@ == whole_part(t@));
    assert(fraction@ =~= fraction_part(t@));
    if !is_digit_run(whole) || !is_digit_run(fraction) || (whole.len() == 0 && fraction.len()
        == 0) || fraction.len() > frac {
        return None;
    }
    let ghost digits = whole@ + fraction@;
    let ghost full = digits + zeros((frac - fraction.len()) as nat);
    proof {
        lemma_digits_value_zeros((frac - fraction.len()) as nat);
        assert(all_digits(digits));
        assert(all_digits(full));
        assert(full.subrange(0, whole@.len() as int) =~= whole@);
        assert(full.subrange(0, digits.len() as int) =~= digits);
        assert(Seq::<u8>::empty() + whole@ =~= whole@);
        lemma_digits_value_prefix(full, whole@.len() as int);
        lemma_digits_value_prefix(full, digits.len() as int);
    }
    let mut value: u64 = match accumulate_digits(whole, 0, Ghost(Seq::empty())) {
        Some(v) => v,
        None => {
            return None;
        },
    };
    value = match accumulate_digits(fraction, value, Ghost(whole@)) {
        Some(v) => v,
        None => {
            return None;
        },
    };
    let mut k: usize = fraction.len();
    assert(fixed_field(t@, frac as nat) == Some(digits_value(full)));
    while k < frac
        invariant
            fraction.len() <= k <= frac,
            fixed_field(t@, frac as nat) == Some(digits_value(full)),
            all_digits(full),
            full == digits + zeros((frac - fraction.len()) as nat),
            digits.len() == whole.len() + fraction.len(),
            value == digits_value(full.subrange(0, whole.len() + k)),
        decreases frac - k,
    {
        proof {
            let m = whole.len() + k;
            assert(full[m as int] == 0x30);
            assert(full.subrange(0, m + 1) =~= full.subrange(0, m as int).push(0x30u8));
            lemma_digits_value_push(full.subrange(0, m as int), 0x30u8);
            lemma_digits_value_prefix(full, m + 1);
        }
        if value > u64::MAX / 10 {
            return None;
        }
        value = value * 10;
        k += 1;
    }
    proof {
        assert(full.subrange(0, whole.len() + frac) =~= full);
    }
    Some(value)
}

/// Appends `count` spaces.
pub fn push_spaces(out: &mut Vec<u8>, count: usize)
    ensures
        final(out)@ == old(out)@ + spaces(count as nat),
{
    let mut i: usize = 0;
    proof {
        assert(out@ + spaces(0) =~= out@);
    }
    while i < count
        invariant
            i <= count,
            out@ == old(out)@ + spaces(i as nat),
        decreases count - i,
    {
        out.push(0x20);
        proof {
            assert(spaces(i as nat).push(0x20u8) =~= spaces((i + 1) as nat));
            assert(out@ =~= old(out)@ + spaces((i + 1) as nat));
        }
        i += 1;
    }
}

/// Zero written with any number of digits is a run of zeros.
pub proof fn lemma_zero_padded_zero(width: nat)
    ensures
        zero_padded(0, width) == zeros(width),
    decreases width,
{
    if width > 0 {
        lemma_zero_padded_zero((width - 1) as nat);
        assert(zeros((width - 1) as nat).push(0x30u8) =~= zeros(width));
    } else {
        assert(zero_padded(0, width) =~= zeros(width));
    }
}

/// A number of at most `digits` digits, written wider, has zeros in front
/// of its `digits` digits.
pub proof fn lemma_zero_padded_wide(n: nat, width: nat, digits: nat)
    requires
        digits <= width,
        n < pow10(digits),
    ensures
        zero_padded(n, width) == zeros((width - digits) as nat) + zero_padded(n, digits),
    decreases digits,
{
    if digits == 0 {
        lemma_zero_padded_zero(width);
        assert(zeros(width) + zero_padded(n, 0) =~= zeros(width));
    } else {
        lemma_zero_padded_wide(n / 10, (width - 1) as nat, (digits - 1) as nat);
        let front = zeros((width - digits) as nat);
        let d = (0x30 + n % 10) as u8;
        assert((front + zero_padded(n / 10, (digits - 1) as nat)).push(d) =~= front + zero_padded(
            n / 10,
            (digits - 1) as nat,
        ).push(d));
    }
}

/// Appends `count` zeros.
pub fn push_zeros(out: &mut Vec<u8>, count: usize)
    ensures
        final(out)@ == old(out)@ + zeros(count as nat),
{
    let mut i: usize = 0;
    proof {
        assert(out@ + zeros(0) =~= out@);
    }
    while i < count
        invariant
            i <= count,
            out@ == old(out)@ + zeros(i as nat),
        decreases count - i,
    {
        out.push(0x30);
        proof {
            assert(zeros(i as nat).push(0x30u8) =~= zeros((i + 1) as nat));
            assert(out@ =~= old(out)@ + zeros((i + 1) as nat));
        }
        i += 1;
    }
}

/// Appends the last `width` decimal digits of `n`, of which there are at
/// most twenty.
fn push_digits(out: &mut Vec<u8>, n: u64, width: usize)
    requires
        width <= 20,
    ensures
        final(out)@ == old(out)@ + zero_padded(n as nat, width as nat),
    decreases width,
{
    if width > 0 {
        push_digits(out, n / 10, width - 1);
        let d: u8 = (n % 10) as u8;
        out.push(0x30 + d);
        proof {
            let rest = zero_padded((n / 10) as nat, (width - 1) as nat);
            assert(out@ =~= old(out)@ + rest.push((0x30 + n as nat % 10) as u8));
        }
    } else {
        proof {
            assert(out@ =~= old(out)@ + zero_padded(n as nat, 0));
        }
    }
}

/// Appends the last `width` decimal digits of `n`, zero padded.
pub fn push_zero_padded(out: &mut Vec<u8>, n: u64, width: usize)
    ensures
        final(out)@ == old(out)@ + zero_padded(n as nat, width as nat),
{
    if width > 20 {
        push_zeros(out, width - 20);
        push_digits(out, n, 20);
        proof {
            lemma_pow10_add(10, 10);
            lemma_pow10_values();
            lemma_zero_padded_wide(n as nat, width as nat, 20);
            assert(out@ =~= old(out)@ + (zeros((width - 20) as nat) + zero_padded(n as nat, 20)));
        }
    } else {
        push_digits(out, n, width);
    }
}

/// Appends the last `width` decimal digits of `n`, right justified: leading
/// zeros are written as spaces.
#[verifier::rlimit(50)]
pub fn push_blanked(out: &mut Vec<u8>, n: u64, width: usize)
    ensures
        final(out)@ == old(out)@ + blank_leading(zero_padded(n as nat, width as nat)),
{
    let mut digits: Vec<u8> = Vec::new();
    push_zero_padded(&mut digits, n, width);
    let ghost d = digits@;
    let len = digits.len();
    let mut i: usize = 0;
    proof {
        assert(d =~= zero_padded(n as nat, width as nat));
        assert(d.subrange(0, len as int) =~= d);
        assert(spaces(0) + blank_leading(d) =~= blank_leading(d));
        assert(out@ + spaces(0) =~= out@);
    }
    while len > 0 && i < len - 1 && digits[i] == 0x30
        invariant
            len == digits.len(),
            d == digits@,
            i <= len,
            blank_leading(d) == spaces(i as nat) + blank_leading(d.subrange(i as int, len as int)),
            out@ == old(out)@ + spaces(i as nat),
        decreases len - i,
    {
        out.push(0x20);
        proof {
            let cur = d.subrange(i as int, len as int);
            assert(cur[0] == d[i as int]);
            assert(cur.drop_first() =~= d.subrange(i + 1, len as int));
            assert(spaces(i as nat) + (seq![0x20u8] + blank_leading(cur.drop_first())) =~= spaces(
                (i + 1) as nat,
            ) + blank_leading(cur.drop_first()));
            assert(out@ =~= old(out)@ + spaces((i + 1) as nat));
        }
        i += 1;
    }
    proof {
        let cur = d.subrange(i as int, len as int);
        if i + 1 < len {
            assert(cur[0] == d[i as int]);
        }
        assert(blank_leading(cur) == cur);
    }
    let rest = slice_subrange(digits.as_slice(), i, len);
    out.extend_from_slice(rest);
    proof {
        assert(out@ =~= old(out)@ + (spaces(i as nat) + d.subrange(i as int, len as int)));
    }
}

/// Appends the last `width` decimal digits of `n` without their leading
/// zeros, of which the last digit is always kept.
pub fn push_decimal(out: &mut Vec<u8>, n: u64, width: usize)
    ensures
        final(out)@ == old(out)@ + strip_zeros(zero_padded(n as nat, width as nat)),
{
    let mut digits: Vec<u8> = Vec::new();
    push_zero_padded(&mut digits, n, width);
    let ghost d = digits@;
    let len = digits.len();
    let mut i: usize = 0;
    proof {
        assert(d =~= zero_padded(n as nat, width as nat));
        assert(d.subrange(0, len as int) =~= d);
    }
    while len > 0 && i < len - 1 && digits[i] == 0x30
        invariant
            len == digits.len(),
            d == digits@,
            i <= len,
            strip_zeros(d) == strip_zeros(d.subrange(i as int, len as int)),
        decreases len - i,
    {
        proof {
            let cur = d.subrange(i as int, len as int);
            assert(cur[0] == d[i as int]);
            assert(cur.drop_first() =~= d.subrange(i + 1, len as int));
        }
        i += 1;
    }
    proof {
        let cur = d.subrange(i as int, len as int);
        if len > 0 && i < len - 1 {
            assert(cur[0] == d[i as int]);
        }
        assert(strip_zeros(cur) == cur);
    }
    out.extend_from_slice(slice_subrange(digits.as_slice(), i, len));
}

/// Appends `s` and then spaces up to `width` columns; a longer `s` is
/// written whole.
pub fn push_left_justified(out: &mut Vec<u8>, s: &[u8], width: usize)
    ensures
        final(out)@ == old(out)@ + left_justified(s@, width as nat),
{
    out.extend_from_slice(s);
    if s.len() < width {
        push_spaces(out, width - s.len());
    } else {
        proof {
            assert(s@ + spaces(0) =~= s@);
        }
    }
    proof {
        assert(out@ =~= old(out)@ + left_justified(s@, width as nat));
    }
}

/// `s` followed by spaces up to `width` columns.
pub open spec fn left_justified(s: Seq<u8>, width: nat) -> Seq<u8> {
    s + spaces(if s.len() < width {
        (width - s.len()) as nat
    } else {
        0
    })
}

/// A fixed-point number of `whole` digits before the point and `frac` after
/// it, right justified: `v` counts units of ten to the minus `frac`.
pub open spec fn fixed_text(v: nat, whole: nat, frac: nat) -> Seq<u8> {
    let d = zero_padded(v, whole + frac);
    blank_leading(d.subrange(0, whole as int)) + seq![0x2eu8] + d.subrange(
        whole as int,
        (whole + frac) as int,
    )
}

/// The same number with its leading zeros written out.
pub open spec fn fixed_text_zero_padded(v: nat, whole: nat, frac: nat) -> Seq<u8> {
    let d = zero_padded(v, whole + frac);
    d.subrange(0, whole as int) + seq![0x2eu8] + d.subrange(whole as int, (whole + frac) as int)
}

/// Appends a fixed-point number, right justified.
#[verifier::rlimit(50)]
pub fn push_fixed(out: &mut Vec<u8>, v: u64, whole: usize, frac: usize)
    requires
        whole + frac <= usize::MAX,
    ensures
        final(out)@ == old(out)@ + fixed_text(v as nat, whole as nat, frac as nat),
{
    let mut digits: Vec<u8> = Vec::new();
    push_zero_padded(&mut digits, v, whole + frac);
    proof {
        lemma_zero_padded_shape(v as nat, (whole + frac) as nat);
        assert(digits@ =~= zero_padded(v as nat, (whole + frac) as nat));
    }
    let ghost d = digits@;
    let mut head: Vec<u8> = Vec::new();
    let lead = slice_subrange(digits.as_slice(), 0, whole);
    let mut i: usize = 0;
    proof {
        assert(lead@.subrange(0, whole as int) =~= lead@);
        assert(spaces(0) + blank_leading(lead@) =~= blank_leading(lead@));
        assert(out@ + spaces(0) =~= out@);
    }
    while whole > 0 && i < whole - 1 && lead[i] == 0x30
        invariant
            whole == lead.len(),
            i <= whole,
            blank_leading(lead@) == spaces(i as nat) + blank_leading(
                lead@.subrange(i as int, whole as int),
            ),
            out@ == old(out)@ + spaces(i as nat),
        decreases whole - i,
    {
        out.push(0x20);
        proof {
            let cur = lead@.subrange(i as int, whole as int);
            assert(cur[0] == lead@[i as int]);
            assert(cur.drop_first() =~= lead@.subrange(i + 1, whole as int));
            assert(spaces(i as nat) + (seq![0x20u8] + blank_leading(cur.drop_first())) =~= spaces(
                (i + 1) as nat,
            ) + blank_leading(cur.drop_first()));
            assert(out@ =~= old(out)@ + spaces((i + 1) as nat));
        }
        i += 1;
    }
    proof {
        let cur = lead@.subrange(i as int, whole as int);
        if i + 1 < whole {
            assert(cur[0] == lead@[i as int]);
        }
        assert(blank_leading(cur) == cur);
    }
    out.extend_from_slice(slice_subrange(lead, i, whole));
    out.push(0x2e);
    out.extend_from_slice(slice_subrange(digits.as_slice(), whole, whole + frac));
    proof {
        assert(out@ =~= old(out)@ + fixed_text(v as nat, whole as nat, frac as nat));
    }
}

/// Appends a fixed-point number with its leading zeros written out.
pub fn push_fixed_zero_padded(out: &mut Vec<u8>, v: u64, whole: usize, frac: usize)
    requires
        whole + frac <= usize::MAX,
    ensures
        final(out)@ == old(out)@ + fixed_text_zero_padded(v as nat, whole as nat, frac as nat),
{
    let mut digits: Vec<u8> = Vec::new();
    push_zero_padded(&mut digits, v, whole + frac);
    proof {
        lemma_zero_padded_shape(v as nat, (whole + frac) as nat);
        assert(digits@ =~= zero_padded(v as nat, (whole + frac) as nat));
    }
    out.extend_from_slice(slice_subrange(digits.as_slice(), 0, whole));
    out.push(0x2e);
    out.extend_from_slice(slice_subrange(digits.as_slice(), whole, whole + frac));
    proof {
        assert(out@ =~= old(out)@ + fixed_text_zero_padded(
            v as nat,
            whole as nat,
            frac as nat,
        ));
    }
}

/// A zero-padded whole number reads back as the number.
pub proof fn lemma_zero_padded_round_trip(n: nat, width: nat)
    requires
        width > 0,
        n < pow10(width),
    ensures
        uint_field(trimmed(zero_padded(n, width))) == Some(n),
{
    lemma_zero_padded_shape(n, width);
    lemma_zero_padded_value(n, width);
    let d = zero_padded(n, width);
    assert(is_digit(d[0]) && is_digit(d.last()));
}

/// A right-justified fixed-point number reads back as the number.
#[verifier::rlimit(50)]
pub proof fn lemma_fixed_round_trip(v: nat, whole: nat, frac: nat)
    requires
        whole > 0,
        v < pow10(whole + frac),
    ensures
        fixed_text(v, whole, frac).len() == whole + 1 + frac,
        fixed_field(trimmed(fixed_text(v, whole, frac)), frac) == Some(v),
{
    lemma_zero_padded_shape(v, whole + frac);
    lemma_zero_padded_value(v, whole + frac);
    let d = zero_padded(v, whole + frac);
    let ip = d.subrange(0, whole as int);
    let fp = d.subrange(whole as int, (whole + frac) as int);
    let tail = seq![0x2eu8] + fp;
    assert(d =~= ip + fp);
    assert(all_digits(ip));
    assert(all_digits(fp));
    lemma_blank_leading_len(ip);
    lemma_trim_start_blank_leading(ip, tail);
    lemma_strip_zeros(ip, fp);
    let text = fixed_text(v, whole, frac);
    assert(text =~= blank_leading(ip) + tail);
    let t = strip_zeros(ip) + tail;
    assert(t.last() == if frac == 0 {
        0x2eu8
    } else {
        fp.last()
    });
    if frac > 0 {
        assert(is_digit(fp.last()));
    }
    assert(trimmed(text) == t);
    assert(t =~= strip_zeros(ip) + seq![0x2eu8] + fp);
    lemma_first_index_after_digits(strip_zeros(ip), 0x2eu8, fp);
    assert(whole_part(t) =~= strip_zeros(ip));
    assert(fraction_part(t) =~= fp);
    assert(strip_zeros(ip) + fp + zeros(0) =~= strip_zeros(ip) + fp);
}

/// A fixed-point number with its leading zeros written out reads back as
/// the number.
#[verifier::rlimit(50)]
pub proof fn lemma_fixed_zero_padded_round_trip(v: nat, whole: nat, frac: nat)
    requires
        whole + frac > 0,
        v < pow10(whole + frac),
    ensures
        fixed_text_zero_padded(v, whole, frac).len() == whole + 1 + frac,
        fixed_field(fixed_text_zero_padded(v, whole, frac), frac) == Some(v),
        frac > 0 ==> trimmed(fixed_text_zero_padded(v, whole, frac)) == fixed_text_zero_padded(
            v,
            whole,
            frac,
        ),
{
    lemma_zero_padded_shape(v, whole + frac);
    lemma_zero_padded_value(v, whole + frac);
    let d = zero_padded(v, whole + frac);
    let ip = d.subrange(0, whole as int);
    let fp = d.subrange(whole as int, (whole + frac) as int);
    assert(d =~= ip + fp);
    assert(all_digits(ip));
    assert(all_digits(fp));
    let t = fixed_text_zero_padded(v, whole, frac);
    assert(t =~= ip + seq![0x2eu8] + fp);
    lemma_first_index_after_digits(ip, 0x2eu8, fp);
    assert(whole_part(t) =~= ip);
    assert(fraction_part(t) =~= fp);
    assert(ip + fp + zeros(0) =~= ip + fp);
    if frac > 0 {
        assert(is_digit(fp.last()));
        assert(t.last() == fp.last());
        if whole > 0 {
            assert(is_digit(ip[0]));
            assert(t[0] == ip[0]);
        } else {
            assert(t[0] == 0x2eu8);
        }
    }
}

/// Text without white space at its ends, left justified in a column, reads
/// back as itself.
pub proof fn lemma_left_justified_round_trip(s: Seq<u8>, width: nat)
    requires
        is_trimmed(s),
    ensures
        trimmed(left_justified(s, width)) == s,
{
    let k: nat = if s.len() < width {
        (width - s.len()) as nat
    } else {
        0
    };
    let text = s + spaces(k);
    if s.len() == 0 {
        lemma_trim_start_spaces(k, s);
        assert(spaces(k) + s =~= text);
    } else {
        assert(text[0] == s[0]);
        lemma_trim_end_spaces(s, k);
    }
}

/// What a signed fixed-point field holds: an optional sign, then an
/// unsigned fixed-point number.
pub open spec fn signed_fixed_field(t: Seq<u8>, frac: nat) -> Option<int> {
    if t.len() > 0 && t[0] == 0x2d {
        match fixed_field(t.subrange(1, t.len() as int), frac) {
            Some(v) => Some(-(v as int)),
            None => None,
        }
    } else if t.len() > 0 && t[0] == 0x2b {
        match fixed_field(t.subrange(1, t.len() as int), frac) {
            Some(v) => Some(v as int),
            None => None,
        }
    } else {
        match fixed_field(t, frac) {
            Some(v) => Some(v as int),
            None => None,
        }
    }
}

/// Reads a signed fixed-point number: `Some` exactly where the text is well
/// formed and the count fits in 64 bits with its sign.
pub fn parse_signed_fixed(t: &[u8], frac: usize) -> (r: Option<i64>)
    ensures
        match r {
            Some(v) => signed_fixed_field(t@, frac as nat) == Some(v as int),
            None => signed_fixed_field(t@, frac as nat) matches Some(v) ==> v > i64::MAX || v
                < -i64::MAX,
        },
{
    let n = t.len();
    let negative = n > 0 && t[0] == 0x2d;
    let signed = negative || (n > 0 && t[0] == 0x2b);
    let body = if signed {
        slice_subrange(t, 1, n)
    } else {
        t
    };
    match parse_fixed(body, frac) {
        Some(v) => {
            if v > i64::MAX as u64 {
                None
            } else if negative {
                Some(-(v as i64))
            } else {
                Some(v as i64)
            }
        },
        None => None,
    }
}

/// A signed fixed-point number below one as a record writes it: a sign, a
/// point and `frac` digits.
pub open spec fn signed_fraction_text(v: int, frac: nat) -> Seq<u8> {
    seq![if v < 0 {
        0x2du8
    } else {
        0x2bu8
    }, 0x2eu8] + zero_padded((if v < 0 {
        -v
    } else {
        v
    }) as nat, frac)
}

/// Appends a signed fixed-point number below one.
pub fn push_signed_fraction(out: &mut Vec<u8>, v: i64, frac: usize)
    ensures
        final(out)@ == old(out)@ + signed_fraction_text(v as int, frac as nat),
{
    let magnitude: u64 = if v < 0 {
        out.push(0x2d);
        (-(v as i128)) as u64
    } else {
        out.push(0x2b);
        v as u64
    };
    out.push(0x2e);
    push_zero_padded(out, magnitude, frac);
    proof {
        assert(out@ =~= old(out)@ + signed_fraction_text(v as int, frac as nat));
    }
}

/// A signed fraction reads back as the number.
#[verifier::rlimit(50)]
pub proof fn lemma_signed_fraction_round_trip(v: int, frac: nat)
    requires
        frac > 0,
        -pow10(frac) < v < pow10(frac),
    ensures
        signed_fraction_text(v, frac).len() == frac + 2,
        signed_fixed_field(trimmed(signed_fraction_text(v, frac)), frac) == Some(v),
{
    let magnitude = (if v < 0 {
        -v
    } else {
        v
    }) as nat;
    let d = zero_padded(magnitude, frac);
    lemma_zero_padded_shape(magnitude, frac);
    lemma_zero_padded_value(magnitude, frac);
    let text = signed_fraction_text(v, frac);
    assert(is_digit(d.last()));
    assert(text.last() == d.last());
    assert(trimmed(text) == text);
    let body = text.subrange(1, text.len() as int);
    let empty = Seq::<u8>::empty();
    assert(body =~= empty + seq![0x2eu8] + d);
    lemma_first_index_after_digits(empty, 0x2eu8, d);
    assert(whole_part(body) =~= empty);
    assert(fraction_part(body) =~= d);
    assert(empty + d + zeros(0) =~= d);
}

/// With a zero and a point in front of it, a run of `frac` digits reads as
/// the number that the digits spell.
#[verifier::rlimit(50)]
pub proof fn lemma_unit_fraction_round_trip(v: nat, frac: nat)
    requires
        frac > 0,
        v < pow10(frac),
    ensures
        trimmed(zero_padded(v, frac)) == zero_padded(v, frac),
        fixed_field(seq![0x30u8, 0x2eu8] + zero_padded(v, frac), frac) == Some(v),
{
    let d = zero_padded(v, frac);
    lemma_zero_padded_shape(v, frac);
    lemma_zero_padded_value(v, frac);
    assert(is_digit(d[0]) && is_digit(d.last()));
    let text = seq![0x30u8, 0x2eu8] + d;
    assert(text =~= zeros(1) + seq![0x2eu8] + d);
    lemma_digits_value_zeros(1);
    lemma_first_index_after_digits(zeros(1), 0x2eu8, d);
    assert(whole_part(text) =~= zeros(1));
    assert(fraction_part(text) =~= d);
    assert(zeros(1) + d + zeros(0) =~= zeros(1) + d);
    lemma_digits_value_zeros_front(1, d);
}

/// A number written without leading zeros is a non-empty run of digits
/// that spells the number.
pub proof fn lemma_decimal_text(n: nat, width: nat)
    requires
        width > 0,
        n < pow10(width),
    ensures
        strip_zeros(zero_padded(n, width)).len() > 0,
        all_digits(strip_zeros(zero_padded(n, width))),
        digits_value(strip_zeros(zero_padded(n, width))) == n,
{
    let d = zero_padded(n, width);
    let empty = Seq::<u8>::empty();
    lemma_zero_padded_shape(n, width);
    lemma_zero_padded_value(n, width);
    lemma_strip_zeros(d, empty);
    assert(strip_zeros(d) + empty =~= strip_zeros(d));
    assert(d + empty =~= d);
}

/// The fields of a line: the stretches of it between the separators `sep`.
/// A line without a separator is one field, and so is an empty line.
pub open spec fn fields_of(s: Seq<u8>, sep: u8) -> Seq<Seq<u8>>
    decreases s.len(),
{
    let k = first_index_of(s, sep);
    if k < s.len() {
        seq![s.subrange(0, k as int)] + fields_of(s.subrange(k as int + 1, s.len() as int), sep)
    } else {
        seq![s]
    }
}

/// What each of a sequence of texts holds.
pub open spec fn texts_of(fields: Seq<Vec<u8>>) -> Seq<Seq<u8>> {
    fields.map_values(|f: Vec<u8>| f@)
}

/// Cuts a line into its fields at every separator.
pub fn split_fields(s: &[u8], sep: u8) -> (r: Vec<Vec<u8>>)
    ensures
        texts_of(r@) == fields_of(s@, sep),
{
    let mut out: Vec<Vec<u8>> = Vec::new();
    let mut rest = s;
    proof {
        assert(texts_of(out@) + fields_of(rest@, sep) =~= fields_of(s@, sep));
    }
    loop
        invariant
            fields_of(s@, sep) == texts_of(out@) + fields_of(rest@, sep),
        decreases rest@.len(),
    {
        let ghost before = out@;
        let k = find_byte(rest, sep);
        if k >= rest.len() {
            out.push(slice_to_vec(rest));
            proof {
                assert(texts_of(out@) =~= texts_of(before) + seq![rest@]);
            }
            return out;
        }
        out.push(slice_to_vec(slice_subrange(rest, 0, k)));
        proof {
            let head = rest@.subrange(0, k as int);
            let tail = rest@.subrange(k + 1, rest@.len() as int);
            assert(texts_of(out@) =~= texts_of(before) + seq![head]);
            assert(texts_of(before) + (seq![head] + fields_of(tail, sep)) =~= texts_of(out@)
                + fields_of(tail, sep));
        }
        rest = slice_subrange(rest, k + 1, rest.len());
    }
}

} // verus!
