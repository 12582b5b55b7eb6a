//! Exact decimal numbers.
//!
//! Numeric conditions compare a number of the document with a number written
//! in a rule. Both are decimal numerals, and they are compared as the exact
//! rationals that the numerals write, digit by digit, with no rounding.

use crate::text::{all_digits, digit_of, digit_value, is_digit, numeral_value};
use vstd::prelude::*;

verus! {

/// The most digits that the mantissa of a number may have.
pub const MAX_DIGITS: usize = 4096;

/// The largest magnitude of the power of ten of a number.
pub const MAX_EXPONENT: i64 = 4096;

/// The exponent of the tolerance: the tolerance is
/// `tolerance_mantissa() * 10^TOLERANCE_EXPONENT`.
pub const TOLERANCE_EXPONENT: i64 = -52;

/// Ten to the power `n`.
pub open spec fn pow10(n: nat) -> nat
    decreases n,
{
    if n == 0 {
        1
    } else {
        10 * pow10((n - 1) as nat)
    }
}

/// The mantissa of the tolerance within which two numbers count as equal.
/// It is 5^52, so the tolerance `5^52 * 10^-52` is exactly `2^-52`.
pub open spec fn tolerance_mantissa() -> nat {
    2220446049250313080847263336181640625
}

/// The tolerance times 2^52 is one: `5^52 * 2^52 == 10^52`.
pub proof fn tolerance_is_two_to_the_minus_52()
    ensures
        tolerance_mantissa() * 4503599627370496 == pow10(52),
{
    reveal_with_fuel(pow10, 53);
}

/// A decimal number: `mantissa * 10^exponent`, negated if `negative`.
pub struct Number {
    pub negative: bool,
    pub mantissa: nat,
    pub exponent: int,
}

impl Number {
    /// The mantissa with the sign.
    pub open spec fn signed(self) -> int {
        if self.negative {
            -(self.mantissa as int)
        } else {
            self.mantissa as int
        }
    }

    /// The number in units of `10^base`, an integer for `base <= exponent`.
    pub open spec fn scaled(self, base: int) -> int {
        self.signed() * pow10((self.exponent - base) as nat)
    }
}

/// The smaller of two integers.
pub open spec fn min_int(a: int, b: int) -> int {
    if a <= b {
        a
    } else {
        b
    }
}

/// The distance of an integer from zero.
pub open spec fn abs_int(a: int) -> int {
    if a < 0 {
        -a
    } else {
        a
    }
}

/// `a < b`, as rationals.
pub open spec fn number_less(a: Number, b: Number) -> bool {
    let base = min_int(a.exponent, b.exponent);
    a.scaled(base) < b.scaled(base)
}

/// `|a - b| < 2^-52`, as rationals.
pub open spec fn number_near(a: Number, b: Number) -> bool {
    let base = min_int(min_int(a.exponent, b.exponent), TOLERANCE_EXPONENT as int);
    abs_int(a.scaled(base) - b.scaled(base)) < tolerance_mantissa() * pow10(
        (TOLERANCE_EXPONENT - base) as nat,
    )
}

/// The number that a sequence of decimal digits writes, the most significant
/// digit first.
pub open spec fn digits_value(ds: Seq<u8>) -> nat
    decreases ds.len(),
{
    if ds.len() == 0 {
        0
    } else {
        digits_value(ds.drop_last()) * 10 + ds.last() as nat
    }
}

/// Every element is a decimal digit.
pub open spec fn decimal_digits(ds: Seq<u8>) -> bool {
    forall|i: int| 0 <= i < ds.len() ==> #[trigger] ds[i] < 10
}

/// How many ASCII digits stand in `s` from index `from` on without a gap.
pub open spec fn digit_run(s: Seq<char>, from: int) -> int
    decreases s.len() - from,
{
    if from < 0 || from >= s.len() || !is_digit(s[from]) {
        0
    } else {
        1 + digit_run(s, from + 1)
    }
}

/// Where the parts of a numeral begin and end. A numeral is an optional
/// sign, digits with an optional decimal point among them, and an optional
/// exponent part: `e` or `E`, an optional sign, digits.
pub struct NumeralShape {
    /// The index behind the sign.
    pub int_start: int,
    /// The index behind the digits before the point.
    pub int_end: int,
    /// The index of the first digit behind the point, or `int_end`.
    pub frac_start: int,
    /// The index behind the digits behind the point.
    pub frac_end: int,
    /// Whether an `e` or `E` follows.
    pub has_exp: bool,
    /// Whether the exponent has a minus sign.
    pub exp_negative: bool,
    /// The index of the first digit of the exponent.
    pub exp_start: int,
    /// The index behind the digits of the exponent.
    pub exp_end: int,
}

/// The index behind the sign of the numeral, if it has one.
pub open spec fn int_start_of(s: Seq<char>) -> int {
    if s.len() > 0 && (s[0] == '-' || s[0] == '+') {
        1
    } else {
        0
    }
}

/// The index behind the decimal point, if one stands at `int_end`.
pub open spec fn frac_start_of(s: Seq<char>, int_end: int) -> int {
    if int_end < s.len() && s[int_end] == '.' {
        int_end + 1
    } else {
        int_end
    }
}

/// The index behind the digits that follow a decimal point at `int_end`.
pub open spec fn frac_end_of(s: Seq<char>, int_end: int) -> int {
    if int_end < s.len() && s[int_end] == '.' {
        int_end + 1 + digit_run(s, int_end + 1)
    } else {
        int_end
    }
}

/// An exponent part begins at `at`.
pub open spec fn has_exp_at(s: Seq<char>, at: int) -> bool {
    at < s.len() && (s[at] == 'e' || s[at] == 'E')
}

/// The index of the first digit of an exponent part that begins at `at`.
pub open spec fn exp_start_of(s: Seq<char>, at: int) -> int {
    if has_exp_at(s, at) {
        if at + 1 < s.len() && (s[at + 1] == '-' || s[at + 1] == '+') {
            at + 2
        } else {
            at + 1
        }
    } else {
        at
    }
}

/// The parts of `s`, read from the left.
pub open spec fn shape_of(s: Seq<char>) -> NumeralShape {
    let int_start = int_start_of(s);
    let int_end = int_start + digit_run(s, int_start);
    let frac_end = frac_end_of(s, int_end);
    let exp_start = exp_start_of(s, frac_end);
    NumeralShape {
        int_start,
        int_end,
        frac_start: frac_start_of(s, int_end),
        frac_end,
        has_exp: has_exp_at(s, frac_end),
        exp_negative: has_exp_at(s, frac_end) && frac_end + 1 < s.len() && s[frac_end + 1] == '-',
        exp_start,
        exp_end: if has_exp_at(s, frac_end) {
            exp_start + digit_run(s, exp_start)
        } else {
            exp_start
        },
    }
}

/// The digits of the mantissa: those before and those behind the point.
pub open spec fn mantissa_of(s: Seq<char>, shape: NumeralShape) -> Seq<char> {
    s.subrange(shape.int_start, shape.int_end) + s.subrange(shape.frac_start, shape.frac_end)
}

/// The power of ten: the exponent that is written, less the number of digits
/// behind the point.
pub open spec fn exponent_of(s: Seq<char>, shape: NumeralShape) -> int {
    let written = numeral_value(s.subrange(shape.exp_start, shape.exp_end)) as int;
    (if shape.exp_negative {
        -written
    } else {
        written
    }) - (shape.frac_end - shape.frac_start)
}

/// The number that the numeral `s` writes: an optional sign, digits with an
/// optional decimal point among them (at least one digit in all), and an
/// optional exponent part (`e` or `E`, an optional sign, one or more digits).
/// `None` where `s` is no such numeral, where it has more than `MAX_DIGITS`
/// mantissa digits, or where its power of ten is beyond `MAX_EXPONENT`.
pub open spec fn parsed_number(s: Seq<char>) -> Option<Number> {
    let shape = shape_of(s);
    let mantissa = mantissa_of(s, shape);
    let exponent = exponent_of(s, shape);
    if mantissa.len() >= 1 && (shape.has_exp ==> shape.exp_end > shape.exp_start) && shape.exp_end
        == s.len() && mantissa.len() <= MAX_DIGITS && -MAX_EXPONENT <= exponent <= MAX_EXPONENT {
        Some(
            Number {
                negative: s.len() > 0 && s[0] == '-',
                mantissa: numeral_value(mantissa),
                exponent,
            },
        )
    } else {
        None
    }
}

/// A decimal number held as its digits.
pub struct Decimal {
    negative: bool,
    digits: Vec<u8>,
    exponent: i64,
}

impl View for Decimal {
    type V = Number;

    closed spec fn view(&self) -> Number {
        Number {
            negative: self.negative,
            mantissa: digits_value(self.digits@),
            exponent: self.exponent as int,
        }
    }
}

impl Decimal {
    /// The digits are decimal digits, and the size is within the limits.
    pub closed spec fn wf(&self) -> bool {
        &&& self.digits@.len() <= MAX_DIGITS
        &&& decimal_digits(self.digits@)
        &&& -MAX_EXPONENT <= self.exponent <= MAX_EXPONENT
    }

    /// The number in units of `10^base` is what its digits write when zeros
    /// are put behind them down to that unit, with the sign.
    proof fn lemma_scaled(&self, base: int, x: nat)
        requires
            base <= self.exponent,
            x == digits_value(self.digits@) * pow10((self.exponent - base) as nat),
        ensures
            self@.scaled(base) == if self.negative {
                -(x as int)
            } else {
                x as int
            },
    {
        let m = digits_value(self.digits@);
        let p = pow10((self.exponent - base) as nat);
        assert(self@.scaled(base) == self@.signed() * p);
        assert((-(m as int)) * p == -((m * p) as int)) by (nonlinear_arith);
    }

    /// Whether this number is smaller than `other`.
    pub fn less(&self, other: &Decimal) -> (r: bool)
        requires
            self.wf(),
            other.wf(),
        ensures
            r == number_less(self@, other@),
    {
        let base: i64 = if self.exponent <= other.exponent {
            self.exponent
        } else {
            other.exponent
        };
        let a0 = aligned(&self.digits, self.exponent, base);
        let b0 = aligned(&other.digits, other.exponent, base);
        let n: usize = if a0.len() >= b0.len() {
            a0.len()
        } else {
            b0.len()
        };
        let a = padded(&a0, n);
        let b = padded(&b0, n);
        proof {
            self.lemma_scaled(base as int, digits_value(a@));
            other.lemma_scaled(base as int, digits_value(b@));
        }
        if !self.negative && !other.negative {
            magnitude_less(&a, &b)
        } else if self.negative && other.negative {
            magnitude_less(&b, &a)
        } else if self.negative {
            !(is_zero(&a) && is_zero(&b))
        } else {
            false
        }
    }

    /// Whether this number and `other` differ by less than `2^-52`.
    pub fn near(&self, other: &Decimal) -> (r: bool)
        requires
            self.wf(),
            other.wf(),
        ensures
            r == number_near(self@, other@),
    {
        let lower: i64 = if self.exponent <= other.exponent {
            self.exponent
        } else {
            other.exponent
        };
        let base: i64 = if lower <= TOLERANCE_EXPONENT {
            lower
        } else {
            TOLERANCE_EXPONENT
        };
        let a0 = aligned(&self.digits, self.exponent, base);
        let b0 = aligned(&other.digits, other.exponent, base);
        let t = tolerance_digits();
        let e0 = aligned(&t, TOLERANCE_EXPONENT, base);
        let m: usize = if a0.len() >= b0.len() {
            a0.len()
        } else {
            b0.len()
        };
        let n: usize = if m >= e0.len() {
            m
        } else {
            e0.len()
        };
        let a = padded(&a0, n);
        let b = padded(&b0, n);
        let e = padded(&e0, n);
        proof {
            self.lemma_scaled(base as int, digits_value(a@));
            other.lemma_scaled(base as int, digits_value(b@));
        }
        if self.negative == other.negative {
            let d = if magnitude_less(&a, &b) {
                difference(&b, &a)
            } else {
                difference(&a, &b)
            };
            magnitude_less(&d, &e)
        } else if magnitude_less(&b, &e) {
            let room = difference(&e, &b);
            magnitude_less(&a, &room)
        } else {
            false
        }
    }
}

/// Appending a digit multiplies by ten and adds the digit.
proof fn lemma_push_digit(ds: Seq<u8>, d: u8)
    ensures
        digits_value(ds.push(d)) == digits_value(ds) * 10 + d,
{
    assert(ds.push(d).drop_last() == ds);
}

/// A digit in front counts for its power of ten.
proof fn lemma_prepend_digit(d: u8, t: Seq<u8>)
    ensures
        digits_value(seq![d] + t) == d * pow10(t.len()) + digits_value(t),
    decreases t.len(),
{
    if t.len() == 0 {
        assert(seq![d] + t == seq![d]);
        assert(seq![d].drop_last() == Seq::<u8>::empty());
        assert(digits_value(Seq::<u8>::empty()) == 0);
        assert(digits_value(seq![d]) == d);
        assert(pow10(0) == 1);
        assert(d * pow10(0) == d) by (nonlinear_arith)
            requires
                pow10(0) == 1,
        ;
    } else {
        let whole = seq![d] + t;
        let front = t.drop_last();
        assert(whole.drop_last() == seq![d] + front);
        assert(whole.last() == t.last());
        lemma_prepend_digit(d, front);
        let p = pow10(front.len());
        assert(pow10(t.len()) == 10 * p);
        assert(digits_value(whole) == digits_value(seq![d] + front) * 10 + t.last());
        assert(digits_value(t) == digits_value(front) * 10 + t.last());
        assert((d * p + digits_value(front)) * 10 == d * (10 * p) + digits_value(front) * 10)
            by (nonlinear_arith);
    }
}

/// `n` decimal digits write a number below `10^n`.
proof fn lemma_digits_bound(ds: Seq<u8>)
    requires
        decimal_digits(ds),
    ensures
        digits_value(ds) < pow10(ds.len()),
    decreases ds.len(),
{
    if ds.len() > 0 {
        assert(decimal_digits(ds.drop_last())) by {
            assert forall|i: int| 0 <= i < ds.drop_last().len() implies #[trigger] ds.drop_last()[i]
                < 10 by {
                assert(ds.drop_last()[i] == ds[i]);
            }
        }
        lemma_digits_bound(ds.drop_last());
        assert(ds.last() < 10);
    }
}

/// What the digits from index `i` on write.
spec fn low_value(ds: Seq<u8>, i: int) -> nat {
    digits_value(ds.skip(i))
}

/// The digit at `i` counts for its power of ten before the digits behind it.
proof fn lemma_low_value_step(ds: Seq<u8>, i: int)
    requires
        0 <= i < ds.len(),
    ensures
        low_value(ds, i) == ds[i] * pow10((ds.len() - i - 1) as nat) + low_value(ds, i + 1),
{
    assert(ds.skip(i) == seq![ds[i]] + ds.skip(i + 1));
    lemma_prepend_digit(ds[i], ds.skip(i + 1));
}

/// Appends the decimal digit `d`.
fn push_digit(v: &mut Vec<u8>, d: u8)
    requires
        d < 10,
        decimal_digits(old(v)@),
    ensures
        final(v)@ == old(v)@.push(d),
        decimal_digits(final(v)@),
        digits_value(final(v)@) == digits_value(old(v)@) * 10 + d,
{
    proof {
        lemma_push_digit(v@, d);
    }
    v.push(d);
}

/// The digits of the tolerance mantissa.
fn tolerance_digits() -> (out: Vec<u8>)
    ensures
        decimal_digits(out@),
        digits_value(out@) == tolerance_mantissa(),
        out@.len() == 37,
{
    let mut out: Vec<u8> = Vec::new();
    assert(digits_value(out@) == 0);
    push_digit(&mut out, 2);
    push_digit(&mut out, 2);
    push_digit(&mut out, 2);
    push_digit(&mut out, 0);
    push_digit(&mut out, 4);
    push_digit(&mut out, 4);
    push_digit(&mut out, 6);
    push_digit(&mut out, 0);
    push_digit(&mut out, 4);
    push_digit(&mut out, 9);
    push_digit(&mut out, 2);
    push_digit(&mut out, 5);
    push_digit(&mut out, 0);
    push_digit(&mut out, 3);
    push_digit(&mut out, 1);
    push_digit(&mut out, 3);
    push_digit(&mut out, 0);
    push_digit(&mut out, 8);
    push_digit(&mut out, 0);
    push_digit(&mut out, 8);
    push_digit(&mut out, 4);
    push_digit(&mut out, 7);
    push_digit(&mut out, 2);
    push_digit(&mut out, 6);
    push_digit(&mut out, 3);
    push_digit(&mut out, 3);
    push_digit(&mut out, 3);
    push_digit(&mut out, 6);
    push_digit(&mut out, 1);
    push_digit(&mut out, 8);
    push_digit(&mut out, 1);
    push_digit(&mut out, 6);
    push_digit(&mut out, 4);
    push_digit(&mut out, 0);
    push_digit(&mut out, 6);
    push_digit(&mut out, 2);
    push_digit(&mut out, 5);
    out
}

/// The digits of `digits * 10^(exponent - base)`: `digits` followed by
/// `exponent - base` zeros.
fn aligned(digits: &Vec<u8>, exponent: i64, base: i64) -> (out: Vec<u8>)
    requires
        decimal_digits(digits@),
        digits@.len() <= MAX_DIGITS,
        -MAX_EXPONENT <= base <= exponent <= MAX_EXPONENT,
    ensures
        decimal_digits(out@),
        out@.len() == digits@.len() + (exponent - base),
        digits_value(out@) == digits_value(digits@) * pow10((exponent - base) as nat),
{
    let mut out: Vec<u8> = Vec::new();
    let mut i: usize = 0;
    while i < digits.len()
        invariant
            i <= digits.len(),
            decimal_digits(digits@),
            out@ == digits@.take(i as int),
        decreases digits.len() - i,
    {
        out.push(digits[i]);
        assert(digits@.take(i + 1) == digits@.take(i as int).push(digits@[i as int]));
        i = i + 1;
    }
    assert(digits@.take(digits.len() as int) == digits@);
    let zeros: i64 = exponent - base;
    let mut k: i64 = 0;
    assert(digits_value(digits@) * pow10(0) == digits_value(digits@)) by (nonlinear_arith)
        requires
            pow10(0) == 1,
    ;
    while k < zeros
        invariant
            0 <= k <= zeros <= 2 * MAX_EXPONENT,
            digits@.len() <= MAX_DIGITS,
            decimal_digits(out@),
            out@.len() == digits@.len() + k,
            digits_value(out@) == digits_value(digits@) * pow10(k as nat),
        decreases zeros - k,
    {
        let ghost before = digits_value(out@);
        push_digit(&mut out, 0);
        assert(pow10((k + 1) as nat) == 10 * pow10(k as nat));
        assert(before * 10 == digits_value(digits@) * (10 * pow10(k as nat))) by (nonlinear_arith)
            requires
                before == digits_value(digits@) * pow10(k as nat),
        ;
        k = k + 1;
    }
    out
}

/// The same number written with `n` digits: zeros in front.
fn padded(digits: &Vec<u8>, n: usize) -> (out: Vec<u8>)
    requires
        decimal_digits(digits@),
        digits@.len() <= n,
    ensures
        decimal_digits(out@),
        out@.len() == n,
        digits_value(out@) == digits_value(digits@),
{
    let mut out: Vec<u8> = Vec::new();
    let lead: usize = n - digits.len();
    let mut k: usize = 0;
    while k < lead
        invariant
            k <= lead,
            decimal_digits(out@),
            out@.len() == k,
            digits_value(out@) == 0,
        decreases lead - k,
    {
        push_digit(&mut out, 0);
        k = k + 1;
    }
    let mut i: usize = 0;
    while i < digits.len()
        invariant
            i <= digits.len(),
            lead + digits.len() == n,
            decimal_digits(digits@),
            decimal_digits(out@),
            out@.len() == lead + i,
            digits_value(out@) == digits_value(digits@.take(i as int)),
        decreases digits.len() - i,
    {
        push_digit(&mut out, digits[i]);
        proof {
            assert(digits@.take(i + 1) == digits@.take(i as int).push(digits@[i as int]));
            lemma_push_digit(digits@.take(i as int), digits@[i as int]);
        }
        i = i + 1;
    }
    assert(digits@.take(digits.len() as int) == digits@);
    out
}

/// Whether the digits write zero.
fn is_zero(a: &Vec<u8>) -> (r: bool)
    requires
        decimal_digits(a@),
    ensures
        r == (digits_value(a@) == 0),
{
    let mut i: usize = 0;
    while i < a.len()
        invariant
            i <= a.len(),
            decimal_digits(a@),
            digits_value(a@.take(i as int)) == 0,
        decreases a.len() - i,
    {
        proof {
            assert(a@.take(i + 1) == a@.take(i as int).push(a@[i as int]));
            lemma_push_digit(a@.take(i as int), a@[i as int]);
        }
        if a[i] != 0 {
            proof {
                lemma_value_prefix(a@, i + 1);
            }
            return false;
        }
        i = i + 1;
    }
    assert(a@.take(a.len() as int) == a@);
    true
}

/// A sequence of digits writes at least what each initial segment writes.
proof fn lemma_value_prefix(ds: Seq<u8>, k: int)
    requires
        0 <= k <= ds.len(),
    ensures
        digits_value(ds.take(k)) <= digits_value(ds),
    decreases ds.len() - k,
{
    if k == ds.len() {
        assert(ds.take(k) == ds);
    } else {
        assert(ds.take(k + 1).drop_last() == ds.take(k));
        lemma_value_prefix(ds, k + 1);
    }
}

/// Whether `a` writes a smaller number than `b`, both of one length.
fn magnitude_less(a: &Vec<u8>, b: &Vec<u8>) -> (r: bool)
    requires
        decimal_digits(a@),
        decimal_digits(b@),
        a@.len() == b@.len(),
    ensures
        r == (digits_value(a@) < digits_value(b@)),
{
    // 0: equal so far, 1: a is smaller, 2: a is larger
    let mut state: u8 = 0;
    let mut i: usize = 0;
    while i < a.len()
        invariant
            i <= a.len(),
            a@.len() == b@.len(),
            decimal_digits(a@),
            decimal_digits(b@),
            state == 0 || state == 1 || state == 2,
            state == 0 ==> digits_value(a@.take(i as int)) == digits_value(b@.take(i as int)),
            state == 1 ==> digits_value(a@.take(i as int)) < digits_value(b@.take(i as int)),
            state == 2 ==> digits_value(a@.take(i as int)) > digits_value(b@.take(i as int)),
        decreases a.len() - i,
    {
        proof {
            assert(a@.take(i + 1) == a@.take(i as int).push(a@[i as int]));
            assert(b@.take(i + 1) == b@.take(i as int).push(b@[i as int]));
            lemma_push_digit(a@.take(i as int), a@[i as int]);
            lemma_push_digit(b@.take(i as int), b@[i as int]);
        }
        if state == 0 {
            if a[i] < b[i] {
                state = 1;
            } else if a[i] > b[i] {
                state = 2;
            }
        }
        i = i + 1;
    }
    assert(a@.take(a.len() as int) == a@);
    assert(b@.take(b.len() as int) == b@);
    state == 1
}

/// The digits of `a - b`, for `a` and `b` of one length and `a` no smaller
/// than `b`.
fn difference(a: &Vec<u8>, b: &Vec<u8>) -> (out: Vec<u8>)
    requires
        decimal_digits(a@),
        decimal_digits(b@),
        a@.len() == b@.len(),
        digits_value(a@) >= digits_value(b@),
    ensures
        decimal_digits(out@),
        out@.len() == a@.len(),
        digits_value(out@) == digits_value(a@) - digits_value(b@),
{
    let n: usize = a.len();
    let mut out: Vec<u8> = Vec::new();
    let mut k: usize = 0;
    while k < n
        invariant
            k <= n,
            out@.len() == k,
            decimal_digits(out@),
        decreases n - k,
    {
        out.push(0);
        k = k + 1;
    }
    let mut borrow: u8 = 0;
    let mut i: usize = n;
    assert(a@.skip(n as int) == Seq::<u8>::empty());
    assert(b@.skip(n as int) == Seq::<u8>::empty());
    assert(out@.skip(n as int) == Seq::<u8>::empty());
    while i > 0
        invariant
            i <= n,
            n == a@.len(),
            n == b@.len(),
            n == out@.len(),
            decimal_digits(a@),
            decimal_digits(b@),
            decimal_digits(out@),
            borrow == 0 || borrow == 1,
            low_value(out@, i as int) + low_value(b@, i as int) == low_value(a@, i as int)
                + borrow * pow10((n - i) as nat),
        decreases i,
    {
        let ghost p = pow10((n - i) as nat);
        let ghost old_out = out@;
        let ghost old_borrow = borrow;
        let da: u8 = a[i - 1];
        let db: u8 = b[i - 1] + borrow;
        let digit: u8 = if da >= db {
            da - db
        } else {
            da + 10 - db
        };
        let next_borrow: u8 = if da >= db {
            0
        } else {
            1
        };
        out.set(i - 1, digit);
        proof {
            assert(out@.skip(i as int) == old_out.skip(i as int));
            lemma_low_value_step(out@, i - 1);
            lemma_low_value_step(a@, i - 1);
            lemma_low_value_step(b@, i - 1);
            assert(pow10((n - i + 1) as nat) == 10 * p);
            assert(digit + b@[i - 1] + old_borrow == da + 10 * next_borrow);
            assert(digit * p + low_value(old_out, i as int) + (b@[i - 1] * p + low_value(
                b@,
                i as int,
            )) == da * p + low_value(a@, i as int) + next_borrow * (10 * p)) by (nonlinear_arith)
                requires
                    digit + b@[i - 1] + old_borrow == da + 10 * next_borrow,
                    low_value(old_out, i as int) + low_value(b@, i as int) == low_value(
                        a@,
                        i as int,
                    ) + old_borrow * p,
            ;
            assert forall|j: int| 0 <= j < out@.len() implies #[trigger] out@[j] < 10 by {
                if j != i - 1 {
                    assert(out@[j] == old_out[j]);
                }
            }
        }
        borrow = next_borrow;
        i = i - 1;
    }
    proof {
        assert(out@.skip(0) == out@);
        assert(a@.skip(0) == a@);
        assert(b@.skip(0) == b@);
        lemma_digits_bound(out@);
        assert(borrow * pow10(n as nat) == if borrow == 0 {
            0
        } else {
            pow10(n as nat)
        }) by (nonlinear_arith)
            requires
                borrow == 0 || borrow == 1,
        ;
    }
    out
}


/// The numbers that a run of digit characters stands for, one by one.
spec fn digit_bytes(s: Seq<char>) -> Seq<u8> {
    s.map_values(|c: char| digit_value(c) as u8)
}

/// What the digit characters write is what their numbers write.
proof fn lemma_digit_bytes_value(s: Seq<char>)
    requires
        all_digits(s),
    ensures
        digits_value(digit_bytes(s)) == numeral_value(s),
        decimal_digits(digit_bytes(s)),
    decreases s.len(),
{
    if s.len() > 0 {
        let front = s.drop_last();
        assert(all_digits(front)) by {
            assert forall|i: int| 0 <= i < front.len() implies is_digit(#[trigger] front[i]) by {
                assert(front[i] == s[i]);
            }
        }
        lemma_digit_bytes_value(front);
        assert(digit_bytes(s).drop_last() == digit_bytes(front));
        assert(is_digit(s.last()));
    }
    assert forall|i: int| 0 <= i < digit_bytes(s).len() implies #[trigger] digit_bytes(s)[i]
        < 10 by {
        assert(is_digit(s[i]));
    }
}

/// Reads the digits that stand at `from`, appending what they stand for to
/// `digits`, and returns the index behind the last of them.
fn scan_digits(cs: &Vec<char>, from: usize, digits: &mut Vec<u8>) -> (to: usize)
    requires
        from <= cs@.len(),
    ensures
        from <= to <= cs@.len(),
        to == from + digit_run(cs@, from as int),
        all_digits(cs@.subrange(from as int, to as int)),
        final(digits)@ == old(digits)@ + digit_bytes(cs@.subrange(from as int, to as int)),
{
    let mut i: usize = from;
    assert(cs@.subrange(from as int, from as int) == Seq::<char>::empty());
    assert(digits@ == digits@ + digit_bytes(Seq::<char>::empty()));
    loop
        invariant_except_break
            from <= i <= cs@.len(),
            digit_run(cs@, from as int) == (i - from) + digit_run(cs@, i as int),
            all_digits(cs@.subrange(from as int, i as int)),
            digits@ == old(digits)@ + digit_bytes(cs@.subrange(from as int, i as int)),
        ensures
            from <= i <= cs@.len(),
            i == from + digit_run(cs@, from as int),
            all_digits(cs@.subrange(from as int, i as int)),
            digits@ == old(digits)@ + digit_bytes(cs@.subrange(from as int, i as int)),
        decreases cs@.len() - i,
    {
        if i >= cs.len() {
            break ;
        }
        match digit_of(cs[i]) {
            None => {
                break ;
            },
            Some(d) => {
                let ghost before = cs@.subrange(from as int, i as int);
                let ghost after = cs@.subrange(from as int, i + 1);
                assert(after == before.push(cs@[i as int]));
                assert(digit_bytes(after) == digit_bytes(before).push(d));
                assert forall|j: int| 0 <= j < after.len() implies is_digit(#[trigger] after[j]) by {
                    if j < before.len() {
                        assert(after[j] == before[j]);
                    }
                }
                digits.push(d);
                assert(digits@ == old(digits)@ + digit_bytes(after));
                i = i + 1;
            },
        }
    }
    i
}

/// The ceiling at which the digits of an exponent stop being accumulated.
const EXPONENT_CEILING: usize = 100000;

/// `v`, held down to the ceiling.
spec fn capped(v: nat) -> nat {
    if v >= EXPONENT_CEILING {
        EXPONENT_CEILING as nat
    } else {
        v
    }
}

/// Reads the digits that stand at `from` and returns the index behind the
/// last of them with the number they write, held down to the ceiling.
fn scan_exponent(cs: &Vec<char>, from: usize) -> (r: (usize, usize))
    requires
        from <= cs@.len(),
    ensures
        from <= r.0 <= cs@.len(),
        r.0 == from + digit_run(cs@, from as int),
        r.1 == capped(numeral_value(cs@.subrange(from as int, r.0 as int))),
{
    let mut i: usize = from;
    let mut acc: usize = 0;
    assert(cs@.subrange(from as int, from as int) == Seq::<char>::empty());
    loop
        invariant_except_break
            from <= i <= cs@.len(),
            digit_run(cs@, from as int) == (i - from) + digit_run(cs@, i as int),
            acc == capped(numeral_value(cs@.subrange(from as int, i as int))),
        ensures
            from <= i <= cs@.len(),
            i == from + digit_run(cs@, from as int),
            acc == capped(numeral_value(cs@.subrange(from as int, i as int))),
        decreases cs@.len() - i,
    {
        if i >= cs.len() {
            break ;
        }
        match digit_of(cs[i]) {
            None => {
                break ;
            },
            Some(d) => {
                let ghost before = cs@.subrange(from as int, i as int);
                let ghost after = cs@.subrange(from as int, i + 1);
                assert(after.drop_last() == before);
                assert(after.last() == cs@[i as int]);
                let next: usize = acc * 10 + d as usize;
                acc = if next >= EXPONENT_CEILING {
                    EXPONENT_CEILING
                } else {
                    next
                };
                i = i + 1;
            },
        }
    }
    (i, acc)
}

/// Reads a decimal numeral.
pub fn parse_decimal(cs: &Vec<char>) -> (r: Option<Decimal>)
    ensures
        match r {
            Some(d) => d.wf() && parsed_number(cs@) == Some(d@),
            None => parsed_number(cs@) is None,
        },
{
    let ghost shape = shape_of(cs@);
    let n: usize = cs.len();
    let negative: bool = n > 0 && cs[0] == '-';
    let p0: usize = if n > 0 && (cs[0] == '-' || cs[0] == '+') {
        1
    } else {
        0
    };
    assert(p0 == shape.int_start);
    let mut digits: Vec<u8> = Vec::new();
    let p1 = scan_digits(cs, p0, &mut digits);
    assert(p1 == shape.int_end);
    let ghost int_digits = cs@.subrange(p0 as int, p1 as int);
    assert(digits@ == digit_bytes(int_digits));
    let has_point: bool = p1 < n && cs[p1] == '.';
    let p2: usize = if has_point {
        p1 + 1
    } else {
        p1
    };
    assert(p2 == shape.frac_start);
    let p3: usize = if has_point {
        scan_digits(cs, p2, &mut digits)
    } else {
        p2
    };
    assert(p3 == shape.frac_end);
    let ghost frac_digits = cs@.subrange(p2 as int, p3 as int);
    let ghost mantissa = mantissa_of(cs@, shape);
    proof {
        assert(cs@.subrange(p2 as int, p2 as int) == Seq::<char>::empty());
        assert(all_digits(frac_digits));
        assert(mantissa == int_digits + frac_digits);
        assert(digits@ == digit_bytes(int_digits) + digit_bytes(frac_digits));
        assert(digits@ == digit_bytes(mantissa));
        assert(all_digits(mantissa)) by {
            assert forall|j: int| 0 <= j < mantissa.len() implies is_digit(
                #[trigger] mantissa[j],
            ) by {
                if j < int_digits.len() {
                    assert(mantissa[j] == int_digits[j]);
                } else {
                    assert(mantissa[j] == frac_digits[j - int_digits.len()]);
                }
            }
        }
        lemma_digit_bytes_value(mantissa);
    }
    let has_exp: bool = p3 < n && (cs[p3] == 'e' || cs[p3] == 'E');
    assert(has_exp == shape.has_exp);
    let exp_negative: bool = has_exp && p3 + 1 < n && cs[p3 + 1] == '-';
    assert(exp_negative == shape.exp_negative);
    let p5: usize = if has_exp {
        if p3 + 1 < n && (cs[p3 + 1] == '-' || cs[p3 + 1] == '+') {
            p3 + 2
        } else {
            p3 + 1
        }
    } else {
        p3
    };
    assert(p5 == shape.exp_start);
    let (p6, exp_value) = if has_exp {
        scan_exponent(cs, p5)
    } else {
        (p5, 0)
    };
    proof {
        assert(cs@.subrange(p5 as int, p5 as int) == Seq::<char>::empty());
        assert(p6 == shape.exp_end);
        assert(exp_value == capped(numeral_value(cs@.subrange(p5 as int, p6 as int))));
    }
    finish_number(cs, negative, digits, p2, p3, has_exp, exp_negative, p5, p6, exp_value)
}

/// Puts the parts of a numeral together, or refuses it.
fn finish_number(
    cs: &Vec<char>,
    negative: bool,
    digits: Vec<u8>,
    p2: usize,
    p3: usize,
    has_exp: bool,
    exp_negative: bool,
    p5: usize,
    p6: usize,
    exp_value: usize,
) -> (r: Option<Decimal>)
    requires
        p2 <= p3 <= p5 <= p6 <= cs@.len(),
        decimal_digits(digits@),
        digits@.len() == mantissa_of(cs@, shape_of(cs@)).len(),
        digits_value(digits@) == numeral_value(mantissa_of(cs@, shape_of(cs@))),
        negative == (cs@.len() > 0 && cs@[0] == '-'),
        p2 == shape_of(cs@).frac_start,
        p3 == shape_of(cs@).frac_end,
        has_exp == shape_of(cs@).has_exp,
        exp_negative == shape_of(cs@).exp_negative,
        p5 == shape_of(cs@).exp_start,
        p6 == shape_of(cs@).exp_end,
        exp_value == capped(numeral_value(cs@.subrange(p5 as int, p6 as int))),
        p3 - p2 <= digits@.len(),
    ensures
        match r {
            Some(d) => d.wf() && parsed_number(cs@) == Some(d@),
            None => parsed_number(cs@) is None,
        },
{
    if digits.len() == 0 || digits.len() > MAX_DIGITS || (has_exp && p6 == p5) || p6 != cs.len() {
        return None;
    }
    if exp_value >= EXPONENT_CEILING {
        return None;
    }
    let fraction: i64 = (p3 - p2) as i64;
    let exponent: i64 = if exp_negative {
        -(exp_value as i64) - fraction
    } else {
        exp_value as i64 - fraction
    };
    assert(exponent == exponent_of(cs@, shape_of(cs@)));
    if exponent < -MAX_EXPONENT || exponent > MAX_EXPONENT {
        return None;
    }
    Some(Decimal { negative, digits, exponent })
}

/// Reads a decimal numeral from a string.
pub fn parse_number(text: &str) -> (r: Option<Decimal>)
    ensures
        match r {
            Some(d) => d.wf() && parsed_number(text@) == Some(d@),
            None => parsed_number(text@) is None,
        },
{
    let cs = crate::text::chars_of(text);
    parse_decimal(&cs)
}

} // verus!
