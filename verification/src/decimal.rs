//! Exact fixed-point numbers for money.
//!
//! A [`Decimal`] holds the same state as `rust_decimal::Decimal`: a sign
//! bit, a 96-bit magnitude and a scale (number of fractional digits, at most
//! 28). Parsing and addition are done by `rust_decimal` itself; rendering,
//! negation and the small constructors are plain arithmetic on those parts.

use vstd::prelude::*;
use std::str::FromStr;

use crate::text::push_char;

verus! {

/// `2^96`: every magnitude is below it.
pub open spec fn pow96() -> int {
    0x1_0000_0000_0000_0000_0000_0000int
}

/// `10^n`.
pub open spec fn pow10(n: nat) -> nat
    decreases n,
{
    if n == 0 {
        1
    } else {
        10 * pow10((n - 1) as nat)
    }
}

/// The mathematical content of a [`Decimal`]: sign bit, magnitude, scale.
/// Its numeric value is `signed() / 10^scale`.
pub struct DecimalValue {
    pub negative: bool,
    pub magnitude: nat,
    pub scale: nat,
}

impl DecimalValue {
    /// Within the representable range.
    pub open spec fn valid(self) -> bool {
        self.magnitude < pow96() && self.scale <= 28
    }

    /// The signed mantissa.
    pub open spec fn signed(self) -> int {
        if self.negative {
            -self.magnitude
        } else {
            self.magnitude as int
        }
    }

    pub open spec fn is_zero(self) -> bool {
        self.magnitude == 0
    }

    /// Numeric equality (`1.0` equals `1.00`, `-0` equals `0`).
    pub open spec fn same_value(self, other: DecimalValue) -> bool {
        self.signed() * pow10(other.scale) == other.signed() * pow10(self.scale)
    }

    /// Numeric order.
    pub open spec fn less_than(self, other: DecimalValue) -> bool {
        self.signed() * pow10(other.scale) < other.signed() * pow10(self.scale)
    }

    pub open spec fn negated(self) -> DecimalValue {
        DecimalValue { negative: !self.negative, ..self }
    }

    /// The signed mantissa rescaled to `scale` (which is at least `self.scale`).
    pub open spec fn at_scale(self, scale: nat) -> int {
        self.signed() * pow10((scale - self.scale) as nat)
    }
}

pub open spec fn max_nat(a: nat, b: nat) -> nat {
    if a >= b {
        a
    } else {
        b
    }
}

/// The exact sum of two non-zero decimals at the larger of their scales,
/// as a signed mantissa.
pub open spec fn exact_sum(a: DecimalValue, b: DecimalValue) -> int {
    let s = max_nat(a.scale, b.scale);
    a.at_scale(s) + b.at_scale(s)
}

pub open spec fn abs_int(n: int) -> nat {
    if n < 0 {
        (-n) as nat
    } else {
        n as nat
    }
}

/// What `rust_decimal` addition yields when the result fits: a zero left
/// operand yields the right one unchanged, a zero right operand the left
/// one, and otherwise the exact sum at the larger scale (a zero sum is
/// positive).
pub open spec fn add_value(a: DecimalValue, b: DecimalValue) -> DecimalValue {
    if a.magnitude == 0 {
        b
    } else if b.magnitude == 0 {
        a
    } else {
        let n = exact_sum(a, b);
        DecimalValue { negative: n < 0, magnitude: abs_int(n), scale: max_nat(a.scale, b.scale) }
    }
}

/// The addition of `a` and `b` stays within 96 bits without rounding.
pub open spec fn add_fits(a: DecimalValue, b: DecimalValue) -> bool {
    a.magnitude == 0 || b.magnitude == 0 || abs_int(exact_sum(a, b)) < pow96()
}

/// The decimal digits of `n`, most significant first; empty for zero.
pub open spec fn digits(n: nat) -> Seq<char>
    decreases n,
{
    if n == 0 {
        Seq::empty()
    } else {
        digits(n / 10).push(digit_char((n % 10) as nat))
    }
}

pub open spec fn digit_char(d: nat) -> char {
    (d + 48) as char
}

/// `n` copies of `c`.
pub open spec fn repeat_char(c: char, n: nat) -> Seq<char> {
    Seq::new(n, |i: int| c)
}

/// The magnitude's digits, left-padded with zeros to at least `scale + 1`.
pub open spec fn padded_digits(v: DecimalValue) -> Seq<char> {
    let d = digits(v.magnitude);
    if d.len() >= v.scale + 1 {
        d
    } else {
        repeat_char('0', (v.scale + 1 - d.len()) as nat) + d
    }
}

pub open spec fn whole_part(v: DecimalValue) -> Seq<char> {
    let p = padded_digits(v);
    p.take(p.len() - v.scale)
}

pub open spec fn fraction_part(v: DecimalValue) -> Seq<char> {
    let p = padded_digits(v);
    p.skip(p.len() - v.scale)
}

pub open spec fn sign_text(v: DecimalValue) -> Seq<char> {
    if v.negative {
        seq!['-']
    } else {
        Seq::empty()
    }
}

/// `Display` of a decimal: sign, integer digits, and — when the scale is
/// positive — a point and exactly `scale` fractional digits.
pub open spec fn decimal_text(v: DecimalValue) -> Seq<char> {
    if v.scale > 0 {
        sign_text(v) + whole_part(v) + seq!['.'] + fraction_part(v)
    } else {
        sign_text(v) + whole_part(v)
    }
}

/// The first `n` characters of `s`, padded on the right with zeros.
pub open spec fn take_or_pad(s: Seq<char>, n: nat) -> Seq<char> {
    if s.len() >= n {
        s.take(n as int)
    } else {
        s + repeat_char('0', (n - s.len()) as nat)
    }
}

/// `Display` with a precision `prec`: the fraction is cut (not rounded) or
/// zero-padded to `prec` digits; a precision beyond 28 is padded with
/// further zeros.
pub open spec fn decimal_text_prec(v: DecimalValue, prec: nat) -> Seq<char> {
    let p: nat = if prec > 28 { 28 } else { prec };
    let extra: nat = if prec > 28 { (prec - 28) as nat } else { 0 };
    if prec > 0 {
        sign_text(v) + whole_part(v) + seq!['.'] + take_or_pad(fraction_part(v), p)
            + repeat_char('0', extra)
    } else {
        sign_text(v) + whole_part(v)
    }
}

/// The value held by a (sign, magnitude, scale) triple.
pub open spec fn triple_value(t: (bool, u128, u32)) -> DecimalValue {
    DecimalValue { negative: t.0, magnitude: t.1 as nat, scale: t.2 as nat }
}

/// The canonical text of an in-range value parses back to that value (the
/// sign of a zero dropped).
pub open spec fn parses_canonically(s: Seq<char>, r: Result<(bool, u128, u32), String>) -> bool {
    forall|v: DecimalValue|
        #![trigger decimal_text(v)]
        v.valid() && s == decimal_text(v) ==> r == Ok::<(bool, u128, u32), String>(
            (v.negative && v.magnitude != 0, v.magnitude as u128, v.scale as u32),
        )
}

/// What parsing a number's text yields: the value of a canonical text (as
/// `Display` writes it, with the sign of a zero dropped), and otherwise what
/// `rust_decimal`'s `FromStr` makes of it.
pub open spec fn number_parse(s: Seq<char>) -> Result<(bool, int, int), Seq<char>> {
    if exists|v: DecimalValue| #![trigger decimal_text(v)] v.valid() && s == decimal_text(v) {
        let v = choose|v: DecimalValue| #![trigger decimal_text(v)] v.valid() && s == decimal_text(v);
        Ok((v.negative && v.magnitude != 0, v.magnitude as int, v.scale as int))
    } else {
        decimal_parse(s)
    }
}

/// When the sum fits, `r` is [`add_value`].
pub open spec fn sums_exactly(a: (bool, u128, u32), b: (bool, u128, u32), r: Option<(bool, u128, u32)>) -> bool {
    add_fits(triple_value(a), triple_value(b)) ==> (r matches Some(t) && triple_value(t) == add_value(
        triple_value(a),
        triple_value(b),
    ))
}

/// What `rust_decimal`'s `FromStr` makes of `s`: the sign bit, magnitude and
/// scale of the parsed number, or the text of the error.
pub uninterp spec fn decimal_parse(s: Seq<char>) -> Result<(bool, int, int), Seq<char>>;

/// What `rust_decimal`'s `checked_add` yields for two decimals given by
/// their parts.
pub uninterp spec fn decimal_checked_sum(
    a_negative: bool,
    a_magnitude: int,
    a_scale: int,
    b_negative: bool,
    b_magnitude: int,
    b_scale: int,
) -> Option<(bool, int, int)>;

/// Calls `rust_decimal::Decimal::from_str`. Claims: the result is the named
/// `decimal_parse` of the text; a parsed value is within range (a zero may
/// keep a minus sign, as text with an exponent can give); and the canonical text of an in-range value (as its
/// `Display` writes it) parses back to that value, the sign of a zero
/// dropped.
#[verifier::external_body]
fn rd_from_str(s: &str) -> (r: Result<(bool, u128, u32), String>)
    ensures
        match r {
            Ok(t) => decimal_parse(s@) == Ok::<(bool, int, int), Seq<char>>(
                (t.0, t.1 as int, t.2 as int),
            ) && t.1 < pow96() && t.2 <= 28,
            Err(e) => decimal_parse(s@) == Err::<(bool, int, int), Seq<char>>(e@),
        },
        parses_canonically(s@, r),
{
    match rust_decimal::Decimal::from_str(s) {
        Ok(d) => Ok((d.is_sign_negative(), d.mantissa().unsigned_abs(), d.scale())),
        Err(e) => Err(e.to_string()),
    }
}

/// Calls `rust_decimal::Decimal::checked_add` on two in-range decimals given
/// by their parts. Claims: the result is the named `decimal_checked_sum`,
/// and when the sum fits (see [`add_fits`]) it is [`add_value`].
#[verifier::external_body]
fn rd_checked_add(a: (bool, u128, u32), b: (bool, u128, u32)) -> (r: Option<(bool, u128, u32)>)
    requires
        a.1 < pow96() && a.2 <= 28,
        b.1 < pow96() && b.2 <= 28,
    ensures
        r matches Some(t) ==> decimal_checked_sum(a.0, a.1 as int, a.2 as int, b.0, b.1 as int, b.2 as int)
            == Some((t.0, t.1 as int, t.2 as int)) && t.1 < pow96() && t.2 <= 28,
        r is None ==> decimal_checked_sum(a.0, a.1 as int, a.2 as int, b.0, b.1 as int, b.2 as int)
            is None,
        sums_exactly(a, b, r),
{
    let mut x = rust_decimal::Decimal::from_i128_with_scale(a.1 as i128, a.2);
    x.set_sign_negative(a.0);
    let mut y = rust_decimal::Decimal::from_i128_with_scale(b.1 as i128, b.2);
    y.set_sign_negative(b.0);
    match x.checked_add(y) {
        Some(d) => Some((d.is_sign_negative(), d.mantissa().unsigned_abs(), d.scale())),
        None => None,
    }
}

/// Calls `<` of `rust_decimal::Decimal` (numeric order) on two in-range
/// decimals given by their parts; claims it is the numeric order.
#[verifier::external_body]
fn rd_less_than(a: (bool, u128, u32), b: (bool, u128, u32)) -> (r: bool)
    requires
        a.1 < pow96() && a.2 <= 28,
        b.1 < pow96() && b.2 <= 28,
    ensures
        r == triple_value(a).less_than(triple_value(b)),
{
    let mut x = rust_decimal::Decimal::from_i128_with_scale(a.1 as i128, a.2);
    x.set_sign_negative(a.0);
    let mut y = rust_decimal::Decimal::from_i128_with_scale(b.1 as i128, b.2);
    y.set_sign_negative(b.0);
    x < y
}

/// An exact decimal number: sign bit, 96-bit magnitude, scale up to 28.
#[derive(Clone, Copy, Debug)]
pub struct Decimal {
    negative: bool,
    magnitude: u128,
    scale: u32,
}

impl View for Decimal {
    type V = DecimalValue;

    closed spec fn view(&self) -> DecimalValue {
        DecimalValue { negative: self.negative, magnitude: self.magnitude as nat, scale: self.scale as nat }
    }
}

impl PartialEq for Decimal {
    fn eq(&self, other: &Self) -> (r: bool) {
        self.value_eq(other)
    }
}

impl vstd::std_specs::cmp::PartialEqSpecImpl for Decimal {
    open spec fn obeys_eq_spec() -> bool {
        true
    }

    open spec fn eq_spec(&self, other: &Self) -> bool {
        self@.same_value(other@)
    }
}

impl Eq for Decimal {}

pub proof fn lemma_pow10_positive(n: nat)
    ensures
        pow10(n) >= 1,
    decreases n,
{
    if n > 0 {
        lemma_pow10_positive((n - 1) as nat);
    }
}

/// `10^i <= 10^j` for `i <= j`.
proof fn lemma_pow10_mono(i: nat, j: nat)
    requires
        i <= j,
    ensures
        pow10(i) <= pow10(j),
    decreases j,
{
    if i < j {
        lemma_pow10_mono(i, (j - 1) as nat);
        lemma_pow10_positive((j - 1) as nat);
    }
}

/// `m * 10^d`, or `None` when that exceeds `u128`.
fn scale_up(m: u128, d: u32) -> (r: Option<u128>)
    ensures
        r matches Some(x) ==> x == m * pow10(d as nat),
        r is None ==> m * pow10(d as nat) > u128::MAX,
{
    let mut acc: u128 = m;
    let mut i: u32 = 0;
    assert(pow10(0) == 1);
    assert(acc == m * pow10(0)) by (nonlinear_arith)
        requires
            acc == m,
            pow10(0) == 1,
    ;
    while i < d
        invariant
            i <= d,
            acc == m * pow10(i as nat),
        decreases d - i,
    {
        let ghost p = pow10(i as nat);
        assert(pow10((i + 1) as nat) == 10 * p);
        assert(m * pow10((i + 1) as nat) == acc * 10) by (nonlinear_arith)
            requires
                acc == m * p,
                pow10((i + 1) as nat) == 10 * p,
        ;
        match acc.checked_mul(10) {
            Some(x) => {
                acc = x;
            },
            None => {
                proof {
                    lemma_pow10_mono((i + 1) as nat, d as nat);
                    let q = pow10((i + 1) as nat);
                    let qd = pow10(d as nat);
                    assert(m * q <= m * qd) by (nonlinear_arith)
                        requires
                            q <= qd,
                            m >= 0,
                    ;
                }
                return None;
            },
        }
        i += 1;
    }
    Some(acc)
}

proof fn lemma_digits_len_bound(n: nat, k: nat)
    requires
        n < pow10(k),
    ensures
        digits(n).len() <= k,
        forall|i: int| 0 <= i < digits(n).len() ==> '0' <= #[trigger] digits(n)[i] <= '9',
    decreases n,
{
    if n > 0 {
        assert(k > 0);
        assert(pow10(k) == 10 * pow10((k - 1) as nat));
        lemma_digits_len_bound(n / 10, (k - 1) as nat);
    }
}

proof fn lemma_digits_len(n: nat)
    requires
        n < pow96(),
    ensures
        digits(n).len() <= 29,
        forall|i: int| 0 <= i < digits(n).len() ==> '0' <= #[trigger] digits(n)[i] <= '9',
{
    reveal_with_fuel(pow10, 30);
    assert(pow10(29) == 100000000000000000000000000000nat);
    lemma_digits_len_bound(n, 29);
}

proof fn lemma_digits_bound(n: nat)
    ensures
        n < pow10(digits(n).len()),
        digits(n).len() > 0 ==> n >= pow10((digits(n).len() - 1) as nat),
    decreases n,
{
    if n > 0 {
        lemma_digits_bound(n / 10);
        let k = digits(n / 10).len();
        assert(pow10(k + 1) == 10 * pow10(k));
        if k > 0 {
            assert(pow10(k) == 10 * pow10((k - 1) as nat));
        }
    }
}

impl Decimal {
    #[verifier::type_invariant]
    spec fn inv(self) -> bool {
        self.magnitude < pow96() && self.scale <= 28
    }

    /// Every decimal is within range.
    pub fn valid(&self) -> (r: bool)
        ensures
            r,
            self@.valid(),
    {
        proof {
            use_type_invariant(self);
        }
        true
    }

    fn parts(&self) -> (r: (bool, u128, u32))
        ensures
            r.0 == self@.negative,
            r.1 == self@.magnitude,
            r.2 == self@.scale,
            r.1 < pow96() && r.2 <= 28,
    {
        proof {
            use_type_invariant(self);
        }
        (self.negative, self.magnitude, self.scale)
    }

    /// Builds a decimal from its parts, if they are in range.
    pub fn from_parts(negative: bool, magnitude: u128, scale: u32) -> (r: Option<Decimal>)
        ensures
            r matches Some(d) ==> d@ == (DecimalValue {
                negative,
                magnitude: magnitude as nat,
                scale: scale as nat,
            }),
            r is Some <==> magnitude < pow96() && scale <= 28,
    {
        if magnitude < 0x1_0000_0000_0000_0000_0000_0000u128 && scale <= 28 {
            Some(Decimal { negative, magnitude, scale })
        } else {
            None
        }
    }

    /// The sign bit.
    pub fn is_sign_negative(&self) -> (r: bool)
        ensures
            r == self@.negative,
    {
        self.negative
    }

    /// The magnitude (the mantissa without its sign).
    pub fn magnitude(&self) -> (r: u128)
        ensures
            r == self@.magnitude,
            r < pow96(),
    {
        proof {
            use_type_invariant(self);
        }
        self.magnitude
    }

    /// The number of fractional digits.
    pub fn scale(&self) -> (r: u32)
        ensures
            r == self@.scale,
            r <= 28,
    {
        proof {
            use_type_invariant(self);
        }
        self.scale
    }

    /// Zero, at scale 0.
    pub fn zero() -> (r: Decimal)
        ensures
            r@ == (DecimalValue { negative: false, magnitude: 0, scale: 0 }),
    {
        Decimal { negative: false, magnitude: 0, scale: 0 }
    }

    /// `num / 10^scale` (`Decimal::new`); the scale must be at most 28.
    pub fn new(num: i64, scale: u32) -> (r: Decimal)
        requires
            scale <= 28,
        ensures
            r@ == (DecimalValue { negative: num < 0, magnitude: abs_int(num as int), scale: scale as nat }),
    {
        let magnitude: u128 = if num < 0 {
            (0i128 - (num as i128)) as u128
        } else {
            num as u128
        };
        Decimal { negative: num < 0, magnitude, scale }
    }

    /// A whole number (`Decimal::from(usize)`).
    pub fn from_usize(n: usize) -> (r: Decimal)
        ensures
            r@ == (DecimalValue { negative: false, magnitude: n as nat, scale: 0 }),
    {
        assert(n < pow96()) by {
            assert(usize::MAX < 0x1_0000_0000_0000_0000int);
        }
        Decimal { negative: false, magnitude: n as u128, scale: 0 }
    }

    pub fn is_zero(&self) -> (r: bool)
        ensures
            r == self@.is_zero(),
    {
        self.magnitude == 0
    }

    /// Flips the sign bit (`Neg`); a zero becomes a negative zero.
    pub fn neg(&self) -> (r: Decimal)
        ensures
            r@ == self@.negated(),
    {
        proof {
            use_type_invariant(self);
        }
        Decimal { negative: !self.negative, magnitude: self.magnitude, scale: self.scale }
    }

    /// Clears the sign bit.
    pub fn abs(&self) -> (r: Decimal)
        ensures
            r@ == (DecimalValue { negative: false, ..self@ }),
    {
        proof {
            use_type_invariant(self);
        }
        Decimal { negative: false, magnitude: self.magnitude, scale: self.scale }
    }

    /// Addition through `rust_decimal`; `None` when it overflows. When the
    /// exact sum fits it is [`add_value`].
    pub fn checked_add(&self, other: &Decimal) -> (r: Option<Decimal>)
        ensures
            match r {
                Some(d) => decimal_checked_sum(
                    self@.negative, self@.magnitude as int, self@.scale as int,
                    other@.negative, other@.magnitude as int, other@.scale as int,
                ) == Some((d@.negative, d@.magnitude as int, d@.scale as int)),
                None => decimal_checked_sum(
                    self@.negative, self@.magnitude as int, self@.scale as int,
                    other@.negative, other@.magnitude as int, other@.scale as int,
                ) is None,
            },
            add_fits(self@, other@) ==> (r matches Some(d) && d@ == add_value(self@, other@)),
    {
        let a = self.parts();
        let b = other.parts();
        match rd_checked_add(a, b) {
            Some(t) => Some(Decimal { negative: t.0, magnitude: t.1, scale: t.2 }),
            None => None,
        }
    }

    /// Whether `self + other` is exact within 96 bits ([`add_fits`]).
    pub fn add_fits_with(&self, other: &Decimal) -> (r: bool)
        ensures
            r == add_fits(self@, other@),
    {
        proof {
            use_type_invariant(self);
            use_type_invariant(other);
        }
        if self.magnitude == 0 || other.magnitude == 0 {
            return true;
        }
        let (lo, hi) = if self.scale <= other.scale {
            (self, other)
        } else {
            (other, self)
        };
        proof {
            use_type_invariant(lo);
            use_type_invariant(hi);
        }
        let d: u32 = hi.scale - lo.scale;
        let ghost s = max_nat(self@.scale, other@.scale);
        assert(s == hi@.scale);
        assert(exact_sum(self@, other@) == lo@.signed() * pow10(d as nat) + hi@.signed()) by {
            assert(pow10(0) == 1);
            assert((s - hi@.scale) as nat == 0nat);
            assert(hi@.at_scale(s) == hi@.signed() * pow10(0nat));
            assert(hi@.at_scale(s) == hi@.signed());
            assert((s - lo@.scale) as nat == d as nat);
            assert(lo@.at_scale(s) == lo@.signed() * pow10(d as nat));
        }
        let ghost p = pow10(d as nat);
        let ghost lm: int = lo@.magnitude as int;
        proof {
            if lo.negative {
                assert(lo@.signed() * p == -(lm * p)) by (nonlinear_arith)
                    requires
                        lo@.signed() == -lm,
                ;
            } else {
                assert(lo@.signed() * p == lm * p) by (nonlinear_arith)
                    requires
                        lo@.signed() == lm,
                ;
            }
        }
        match scale_up(lo.magnitude, d) {
            None => {
                proof {
                    lemma_pow10_positive(d as nat);
                }
                false
            },
            Some(x) => {
                let y = hi.magnitude;
                if lo.negative == hi.negative {
                    x < 0x1_0000_0000_0000_0000_0000_0000u128 && y < 0x1_0000_0000_0000_0000_0000_0000u128 - x
                } else if x >= y {
                    x - y < 0x1_0000_0000_0000_0000_0000_0000u128
                } else {
                    y - x < 0x1_0000_0000_0000_0000_0000_0000u128
                }
            },
        }
    }

    /// Addition for sums known to fit.
    pub fn add(&self, other: &Decimal) -> (r: Decimal)
        requires
            add_fits(self@, other@),
        ensures
            r@ == add_value(self@, other@),
    {
        match self.checked_add(other) {
            Some(d) => d,
            None => {
                assert(false);
                Decimal::zero()
            },
        }
    }

    /// Numeric `<`.
    pub fn lt(&self, other: &Decimal) -> (r: bool)
        ensures
            r == self@.less_than(other@),
    {
        rd_less_than(self.parts(), other.parts())
    }

    /// Numeric equality.
    pub fn value_eq(&self, other: &Decimal) -> (r: bool)
        ensures
            r == self@.same_value(other@),
    {
        let a = self.parts();
        let b = other.parts();
        let x = rd_less_than(a, b);
        let y = rd_less_than(b, a);
        proof {
            let av = self@;
            let bv = other@;
            let l = av.signed() * pow10(bv.scale);
            let rr = bv.signed() * pow10(av.scale);
            assert(x == (l < rr));
            assert(y == (rr < l));
        }
        !x && !y
    }

    /// Parses a decimal with `rust_decimal`'s `FromStr`; the error is its
    /// message.
    pub fn parse(s: &str) -> (r: Result<Decimal, String>)
        ensures
            match r {
                Ok(d) => number_parse(s@) == Ok::<(bool, int, int), Seq<char>>(
                    (d@.negative, d@.magnitude as int, d@.scale as int),
                ),
                Err(e) => number_parse(s@) == Err::<(bool, int, int), Seq<char>>(e@),
            },
            forall|v: DecimalValue|
                #![trigger decimal_text(v)]
                v.valid() && s@ == decimal_text(v) ==> (r matches Ok(d) && d@ == (DecimalValue {
                    negative: v.negative && v.magnitude != 0,
                    ..v
                })),
    {
        let r = rd_from_str(s);
        proof {
            if exists|v: DecimalValue| #![trigger decimal_text(v)] v.valid() && s@ == decimal_text(v) {
                let v = choose|v: DecimalValue| #![trigger decimal_text(v)] v.valid() && s@ == decimal_text(v);
                assert(parses_canonically(s@, r));
                assert(v.valid() && s@ == decimal_text(v));
            }
        }
        match r {
            Ok(t) => Ok(Decimal { negative: t.0, magnitude: t.1, scale: t.2 }),
            Err(e) => Err(e),
        }
    }

    /// The decimal digits of the magnitude.
    fn digit_chars(&self) -> (r: Vec<char>)
        ensures
            r@ == digits(self@.magnitude),
    {
        let mut rev: Vec<char> = Vec::new();
        let mut n: u128 = self.magnitude;
        while n > 0
            invariant
                digits(self@.magnitude) == digits(n as nat) + rev@.reverse(),
            decreases n,
        {
            let d = (n % 10) as u32;
            let c = crate::text::digit_to_char(d);
            proof {
                assert(digits(n as nat) == digits((n / 10) as nat).push(digit_char((n % 10) as nat)));
            }
            rev.push(c);
            n = n / 10;
        }
        let mut out: Vec<char> = Vec::new();
        let mut i: usize = rev.len();
        while i > 0
            invariant
                i <= rev.len(),
                out@ == rev@.skip(i as int).reverse(),
            decreases i,
        {
            i -= 1;
            out.push(rev[i]);
            assert(rev@.skip(i as int).reverse() =~= rev@.skip(i + 1).reverse().push(rev@[i as int]));
        }
        assert(rev@.skip(0) =~= rev@);
        out
    }

    /// `Display`: see [`decimal_text`].
    pub fn to_string(&self) -> (r: String)
        ensures
            r@ == decimal_text(self@),
    {
        let t = self.text_parts();
        let mut out = String::new();
        if self.negative {
            push_char(&mut out, '-');
        }
        let mut i: usize = 0;
        while i < t.0.len()
            invariant
                i <= t.0.len(),
                out@ == sign_text(self@) + t.0@.take(i as int),
            decreases t.0.len() - i,
        {
            push_char(&mut out, t.0[i]);
            assert(t.0@.take(i as int).push(t.0@[i as int]) =~= t.0@.take(i + 1));
            i += 1;
        }
        assert(t.0@.take(t.0.len() as int) =~= t.0@);
        if self.scale > 0 {
            push_char(&mut out, '.');
            let mut j: usize = 0;
            while j < t.1.len()
                invariant
                    j <= t.1.len(),
                    out@ == sign_text(self@) + whole_part(self@) + seq!['.'] + t.1@.take(j as int),
                decreases t.1.len() - j,
            {
                push_char(&mut out, t.1[j]);
                assert(t.1@.take(j as int).push(t.1@[j as int]) =~= t.1@.take(j + 1));
                j += 1;
            }
            assert(t.1@.take(t.1.len() as int) =~= t.1@);
        }
        out
    }

    /// The integer and fractional digit strings.
    fn text_parts(&self) -> (r: (Vec<char>, Vec<char>))
        ensures
            r.0@ == whole_part(self@),
            r.1@ == fraction_part(self@),
            r.1@.len() == self@.scale,
    {
        proof {
            use_type_invariant(self);
            lemma_digits_len(self@.magnitude);
        }
        let d = self.digit_chars();
        let sc = self.scale as usize;
        let mut padded: Vec<char> = Vec::new();
        if d.len() < sc + 1 {
            let mut k: usize = 0;
            while k < sc + 1 - d.len()
                invariant
                    sc <= 28,
                    d.len() < sc + 1,
                    k <= sc + 1 - d.len(),
                    padded@ == repeat_char('0', k as nat),
                decreases sc + 1 - d.len() - k,
            {
                padded.push('0');
                assert(repeat_char('0', k as nat).push('0') =~= repeat_char('0', (k + 1) as nat));
                k += 1;
            }
        }
        let mut m: usize = 0;
        let base = padded.len();
        while m < d.len()
            invariant
                m <= d.len(),
                base == padded.len() - m,
                padded@ == padded@.take(base as int) + d@.take(m as int),
                base == (if d.len() < sc + 1 { sc + 1 - d.len() } else { 0 }),
                padded@.take(base as int) == repeat_char('0', base as nat),
            decreases d.len() - m,
        {
            padded.push(d[m]);
            assert(padded@.take(base as int) =~= repeat_char('0', base as nat));
            assert(d@.take(m as int).push(d@[m as int]) =~= d@.take(m + 1));
            m += 1;
        }
        assert(d@.take(d.len() as int) =~= d@);
        assert(padded@ =~= padded_digits(self@)) by {
            if d.len() >= sc + 1 {
                assert(padded@.take(0) =~= Seq::<char>::empty());
            }
        }
        let split = padded.len() - sc;
        let mut whole: Vec<char> = Vec::new();
        let mut frac: Vec<char> = Vec::new();
        let mut q: usize = 0;
        while q < padded.len()
            invariant
                q <= padded.len(),
                split <= padded.len(),
                q <= split ==> whole@ == padded@.take(q as int) && frac@.len() == 0,
                q > split ==> whole@ == padded@.take(split as int) && frac@ == padded@.subrange(
                    split as int,
                    q as int,
                ),
            decreases padded.len() - q,
        {
            if q < split {
                whole.push(padded[q]);
                assert(padded@.take(q as int).push(padded@[q as int]) =~= padded@.take(q + 1));
            } else {
                frac.push(padded[q]);
                assert(padded@.subrange(split as int, q as int).push(padded@[q as int])
                    =~= padded@.subrange(split as int, q + 1));
            }
            q += 1;
        }
        assert(padded@.subrange(split as int, padded.len() as int) =~= padded@.skip(split as int));
        if sc == 0 {
            assert(whole@ =~= padded@.take(split as int));
            assert(frac@ =~= padded@.skip(split as int));
        }
        (whole, frac)
    }

    /// `Display` with a precision (`format!("{:.*}", prec, d)`): see
    /// [`decimal_text_prec`].
    pub fn to_string_with_precision(&self, prec: usize) -> (r: String)
        ensures
            r@ == decimal_text_prec(self@, prec as nat),
    {
        let t = self.text_parts();
        let p: usize = if prec > 28 { 28 } else { prec };
        let extra: usize = if prec > 28 { prec - 28 } else { 0 };
        let mut out = String::new();
        if self.negative {
            push_char(&mut out, '-');
        }
        let mut i: usize = 0;
        while i < t.0.len()
            invariant
                i <= t.0.len(),
                out@ == sign_text(self@) + t.0@.take(i as int),
            decreases t.0.len() - i,
        {
            push_char(&mut out, t.0[i]);
            assert(t.0@.take(i as int).push(t.0@[i as int]) =~= t.0@.take(i + 1));
            i += 1;
        }
        assert(t.0@.take(t.0.len() as int) =~= t.0@);
        if prec > 0 {
            push_char(&mut out, '.');
            let ghost pre = out@;
            let mut j: usize = 0;
            while j < p
                invariant
                    j <= p,
                    p <= 28,
                    out@ == pre + take_or_pad(t.1@, p as nat).take(j as int),
                    take_or_pad(t.1@, p as nat).len() == p,
                decreases p - j,
            {
                let c = if j < t.1.len() { t.1[j] } else { '0' };
                assert(c == take_or_pad(t.1@, p as nat)[j as int]);
                push_char(&mut out, c);
                assert(take_or_pad(t.1@, p as nat).take(j as int).push(c) =~= take_or_pad(
                    t.1@,
                    p as nat,
                ).take(j + 1));
                j += 1;
            }
            assert(take_or_pad(t.1@, p as nat).take(p as int) =~= take_or_pad(t.1@, p as nat));
            let ghost mid = out@;
            let mut k: usize = 0;
            while k < extra
                invariant
                    k <= extra,
                    out@ == mid + repeat_char('0', k as nat),
                decreases extra - k,
            {
                push_char(&mut out, '0');
                assert(repeat_char('0', k as nat).push('0') =~= repeat_char('0', (k + 1) as nat));
                k += 1;
            }
        }
        out
    }
}

} // verus!
