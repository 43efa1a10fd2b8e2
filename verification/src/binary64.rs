//! Double-precision numbers of IEEE 754 (binary64), held by their bit patterns.
//!
//! Every operation is carried out on exact integers and rounded once, to the
//! nearest representable number, ties to even. So the results are those of the
//! machine's own double-precision arithmetic, and what they are can be stated.

use crate::natural::Natural;
use vstd::arithmetic::power2::{lemma2_to64, lemma2_to64_rest, lemma_pow2_adds, lemma_pow2_pos, lemma_pow2_unfold, pow2};
use vstd::prelude::*;

verus! {

/// The bit pattern of positive infinity, above those of all finite magnitudes.
pub const INFINITY_BITS: u64 = 0x7ff0_0000_0000_0000;

/// The bit that marks a negative number.
pub const SIGN_BIT: u64 = 0x8000_0000_0000_0000;

/// One more than the largest fraction field.
pub const FRACTION_SPAN: u64 = 0x10_0000_0000_0000;

/// The bit pattern of one.
pub const ONE_BITS: u64 = 0x3ff0_0000_0000_0000;

/// How many of the smallest positive magnitude make up one, as a power of two.
pub const UNIT_EXPONENT: u32 = 1074;

/// What a pattern without its sign bit stands for, counted in the smallest
/// positive magnitude. Infinity counts as the power of two that would follow the
/// largest finite magnitude.
pub open spec fn magnitude(b: int) -> nat {
    let exponent = b / (FRACTION_SPAN as int);
    let fraction = b % (FRACTION_SPAN as int);
    if exponent <= 0 {
        fraction as nat
    } else {
        (FRACTION_SPAN + fraction) as nat * pow2((exponent - 1) as nat)
    }
}

/// How far the magnitude of `b` is from `p / q`, times `q`.
pub open spec fn distance(p: nat, q: nat, b: int) -> nat {
    let m = magnitude(b) * q;
    if m <= p {
        (p - m) as nat
    } else {
        (m - p) as nat
    }
}

/// Whether `b` is the pattern whose magnitude is nearest to `p / q`, and on a tie
/// the even one.
pub open spec fn rounds_to(p: nat, q: nat, b: u64) -> bool {
    &&& b <= INFINITY_BITS
    &&& forall|c: int|
        0 <= c <= INFINITY_BITS && c != b ==> {
            ||| distance(p, q, b as int) < #[trigger] distance(p, q, c)
            ||| distance(p, q, b as int) == distance(p, q, c) && b % 2 == 0
        }
}

/// The pattern nearest to `p / q`.
pub open spec fn rounded(p: nat, q: nat) -> u64 {
    choose|b: u64| rounds_to(p, q, b)
}

/// A double-precision number.
#[derive(Clone, Copy, Debug)]
pub struct Binary64 {
    pub bits: u64,
}

proof fn lemma_magnitude_step(b: int)
    requires
        0 <= b,
    ensures
        magnitude(b) < magnitude(b + 1),
{
    let span = FRACTION_SPAN as int;
    let e = b / span;
    let f = b % span;
    lemma2_to64();
    if f + 1 < span {
        assert((b + 1) / span == e && (b + 1) % span == f + 1);
        if e > 0 {
            let w = pow2((e - 1) as nat);
            lemma_pow2_pos((e - 1) as nat);
            assert((span + f + 1) * w > (span + f) * w) by (nonlinear_arith)
                requires
                    w > 0,
            ;
        }
    } else {
        assert((b + 1) / span == e + 1 && (b + 1) % span == 0);
        if e > 0 {
            let w = pow2((e - 1) as nat);
            lemma_pow2_pos((e - 1) as nat);
            lemma_pow2_unfold(e as nat);
            assert(span * (2 * w) > (span + f) * w) by (nonlinear_arith)
                requires
                    w > 0,
                    f < span,
            ;
            assert(magnitude(b + 1) == span * (2 * w));
        } else {
            assert(magnitude(b + 1) == span * pow2(0));
        }
    }
}

/// Patterns without a sign bit are ordered as their magnitudes.
pub proof fn lemma_magnitude_increases(a: int, b: int)
    requires
        0 <= a < b,
    ensures
        magnitude(a) < magnitude(b),
    decreases b - a,
{
    if a + 1 < b {
        lemma_magnitude_increases(a, b - 1);
    }
    lemma_magnitude_step(b - 1);
}

proof fn lemma_scaled(a: int, b: int, q: nat)
    requires
        0 <= a < b,
        q > 0,
    ensures
        magnitude(a) * q < magnitude(b) * q,
{
    lemma_magnitude_increases(a, b);
    let (x, y) = (magnitude(a), magnitude(b));
    assert(x * q < y * q) by (nonlinear_arith)
        requires
            x < y,
            q > 0,
    ;
}

/// At most one pattern is nearest.
pub proof fn lemma_rounded_unique(p: nat, q: nat, b: u64)
    requires
        q > 0,
        rounds_to(p, q, b),
    ensures
        rounded(p, q) == b,
{
    let r = rounded(p, q);
    if r != b {
        lemma_two_nearest(p, q, b, r);
    }
}

proof fn lemma_two_nearest(p: nat, q: nat, a: u64, b: u64)
    requires
        q > 0,
        rounds_to(p, q, a),
        rounds_to(p, q, b),
    ensures
        a == b,
{
    if a != b {
        let (x, y) = (distance(p, q, a as int), distance(p, q, b as int));
        assert(x == y && a % 2 == 0 && b % 2 == 0);
        let (low, high) = if a < b { (a, b) } else { (b, a) };
        // Both are even, so a pattern lies between them, and it is nearer.
        let c = low as int + 1;
        assert(c < high);
        lemma_scaled(low as int, c, q);
        lemma_scaled(c, high as int, q);
        assert(distance(p, q, c) < x);
    }
}

/// Between two neighbouring patterns the nearer one is nearest of all.
proof fn lemma_rounds_between(p: nat, q: nat, low: u64, b: u64)
    requires
        q > 0,
        low < INFINITY_BITS,
        magnitude(low as int) * q <= p < magnitude(low + 1) * q,
        b == low || b == low + 1,
        ({
            let middle = (magnitude(low as int) + magnitude(low + 1)) * q;
            &&& b == low ==> 2 * p < middle || 2 * p == middle && low % 2 == 0
            &&& b == low + 1 ==> 2 * p > middle || 2 * p == middle && low % 2 == 1
        }),
    ensures
        rounds_to(p, q, b),
{
    let (x, y) = (magnitude(low as int), magnitude(low + 1));
    assert((x + y) * q == x * q + y * q) by (nonlinear_arith);
    assert forall|c: int| 0 <= c <= INFINITY_BITS && c != b implies {
        ||| distance(p, q, b as int) < #[trigger] distance(p, q, c)
        ||| distance(p, q, b as int) == distance(p, q, c) && b % 2 == 0
    } by {
        if c < low {
            lemma_scaled(c, low as int, q);
        }
        if c > low + 1 {
            lemma_scaled(low + 1, c, q);
        }
    }
}

proof fn lemma_rounds_to_infinity(p: nat, q: nat)
    requires
        q > 0,
        magnitude(INFINITY_BITS as int) * q <= p,
    ensures
        rounds_to(p, q, INFINITY_BITS),
{
    assert forall|c: int| 0 <= c <= INFINITY_BITS && c != INFINITY_BITS implies distance(
        p,
        q,
        INFINITY_BITS as int,
    ) < #[trigger] distance(p, q, c) by {
        lemma_scaled(c, INFINITY_BITS as int, q);
    }
}

proof fn lemma_bracket(p: nat, q: nat, high: int) -> (low: u64)
    requires
        q > 0,
        0 < high <= INFINITY_BITS,
        p < magnitude(high) * q,
    ensures
        low < INFINITY_BITS,
        magnitude(low as int) * q <= p < magnitude(low + 1) * q,
    decreases high,
{
    if magnitude(high - 1) * q <= p {
        (high - 1) as u64
    } else if high == 1 {
        assert(magnitude(0) * q == 0) by (nonlinear_arith)
            requires
                magnitude(0) == 0,
        ;
        0
    } else {
        lemma_bracket(p, q, high - 1)
    }
}

/// Every ratio has a nearest pattern.
pub proof fn lemma_rounded_exists(p: nat, q: nat)
    requires
        q > 0,
    ensures
        rounds_to(p, q, rounded(p, q)),
{
    if magnitude(INFINITY_BITS as int) * q <= p {
        lemma_rounds_to_infinity(p, q);
    } else {
        let low = lemma_bracket(p, q, INFINITY_BITS as int);
        let middle = (magnitude(low as int) + magnitude(low + 1)) * q;
        let b = if 2 * p < middle || 2 * p == middle && low % 2 == 0 {
            low
        } else {
            (low + 1) as u64
        };
        lemma_rounds_between(p, q, low, b);
    }
}

/// Rounding does not go below a magnitude that the exact ratio reaches.
pub proof fn lemma_rounded_at_least(p: nat, q: nat, c: u64)
    requires
        q > 0,
        c <= INFINITY_BITS,
        magnitude(c as int) * q <= p,
    ensures
        c <= rounded(p, q),
{
    lemma_rounded_exists(p, q);
    let r = rounded(p, q);
    if r < c {
        lemma_scaled(r as int, c as int, q);
        assert(distance(p, q, c as int) < distance(p, q, r as int));
    }
}

/// Rounding does not go above a magnitude that bounds the exact ratio.
pub proof fn lemma_rounded_at_most(p: nat, q: nat, c: u64)
    requires
        q > 0,
        c <= INFINITY_BITS,
        p <= magnitude(c as int) * q,
    ensures
        rounded(p, q) <= c,
{
    lemma_rounded_exists(p, q);
    let r = rounded(p, q);
    if r > c {
        lemma_scaled(c as int, r as int, q);
        assert(distance(p, q, c as int) < distance(p, q, r as int));
    }
}

/// Rounding keeps the order of ratios over one denominator.
pub proof fn lemma_rounded_monotone(p1: nat, p2: nat, q: nat)
    requires
        q > 0,
        p1 <= p2,
    ensures
        rounded(p1, q) <= rounded(p2, q),
{
    lemma_rounded_exists(p1, q);
    lemma_rounded_exists(p2, q);
    let (a, b) = (rounded(p1, q), rounded(p2, q));
    if a > b {
        lemma_scaled(b as int, a as int, q);
        assert(distance(p1, q, a as int) <= distance(p1, q, b as int));
        assert(distance(p2, q, b as int) <= distance(p2, q, a as int));
        assert(p1 == p2);
    }
}

/// The magnitude of one is the unit.
pub proof fn lemma_one()
    ensures
        magnitude(ONE_BITS as int) == pow2(UNIT_EXPONENT as nat),
        magnitude(ONE_BITS as int - 1) == pow2(UNIT_EXPONENT as nat) - pow2(1021),
        magnitude(0) == 0,
        magnitude(1) == 1,
{
    lemma2_to64();
    lemma2_to64_rest();
    lemma_pow2_adds(52, 1022);
    lemma_pow2_adds(53, 1021);
    let span = FRACTION_SPAN as int;
    let b = ONE_BITS as int;
    assert(b / span == 1023 && b % span == 0);
    assert((b - 1) / span == 1022 && (b - 1) % span == span - 1);
    let w = pow2(1021);
    assert((2 * span - 1) * w == 2 * span * w - w) by (nonlinear_arith);
}

/// The nearest number to a ratio of moderate positive numbers is finite and
/// positive.
pub proof fn lemma_ratio_is_positive(numerator: nat, denominator: nat)
    requires
        1 <= numerator <= 0x100_0000_0000,
        1 <= denominator <= 0x100_0000_0000,
    ensures
        ratio(numerator, denominator).is_finite(),
        ratio(numerator, denominator).is_unsigned_amount(),
        ratio(numerator, denominator).number() > 0,
        ratio(numerator, denominator).bits <= 1063 * FRACTION_SPAN,
{
    lemma_one();
    lemma2_to64_rest();
    lemma_pow2_adds(40, 1034);
    lemma_pow2_adds(40, 1074);
    lemma_pow2_adds(52, 1062);
    lemma_pow2_pos(1034);
    let u = unit();
    let p = numerator * u;
    assert(denominator <= p) by (nonlinear_arith)
        requires
            p == numerator * u,
            numerator >= 1,
            u >= 0x100_0000_0000,
            denominator <= 0x100_0000_0000,
    ;
    lemma_rounded_at_least(p, denominator, 1);
    let c = (1063 * FRACTION_SPAN) as u64;
    assert(c as int / (FRACTION_SPAN as int) == 1063 && c as int % (FRACTION_SPAN as int) == 0);
    let m = magnitude(c as int);
    assert(m == 0x100_0000_0000 * u);
    assert(p <= m * denominator) by (nonlinear_arith)
        requires
            p == numerator * u,
            numerator <= 0x100_0000_0000,
            m == 0x100_0000_0000 * u,
            denominator >= 1,
    ;
    lemma_rounded_at_most(p, denominator, c);
    lemma_magnitude_increases(0, rounded(p, denominator) as int);
}

/// The magnitude that a pattern without a sign bit stands for.
fn magnitude_of(b: u64) -> (m: Natural)
    requires
        b <= INFINITY_BITS,
    ensures
        m@ == magnitude(b as int),
{
    let exponent: u64 = b / FRACTION_SPAN;
    let fraction: u64 = b % FRACTION_SPAN;
    if exponent == 0 {
        Natural::from_u64(fraction)
    } else {
        Natural::from_u64(FRACTION_SPAN + fraction).times(
            &Natural::power_of_two((exponent - 1) as u32),
        )
    }
}

/// The pattern nearest to `p / q`.
pub fn nearest(p: &Natural, q: &Natural) -> (b: u64)
    requires
        q@ > 0,
    ensures
        rounds_to(p@, q@, b),
        b == rounded(p@, q@),
{
    if magnitude_of(INFINITY_BITS).times(q).at_most(p) {
        proof {
            lemma_rounds_to_infinity(p@, q@);
            lemma_rounded_unique(p@, q@, INFINITY_BITS);
        }
        return INFINITY_BITS;
    }
    let mut low: u64 = 0;
    let mut high: u64 = INFINITY_BITS;
    proof {
        assert(magnitude(0) * q@ == 0) by (nonlinear_arith)
            requires
                magnitude(0) == 0,
        ;
    }
    while high - low > 1
        invariant
            low < high <= INFINITY_BITS,
            magnitude(low as int) * q@ <= p@ < magnitude(high as int) * q@,
        decreases high - low,
    {
        let middle: u64 = low + (high - low) / 2;
        if magnitude_of(middle).times(q).at_most(p) {
            low = middle;
        } else {
            high = middle;
        }
    }
    let middle = magnitude_of(low).plus(&magnitude_of(high)).times(q);
    let twice = p.plus(p);
    let b: u64 = if !middle.at_most(&twice) {
        low
    } else if !twice.at_most(&middle) {
        high
    } else if low % 2 == 0 {
        low
    } else {
        high
    };
    proof {
        lemma_rounds_between(p@, q@, low, b);
        lemma_rounded_unique(p@, q@, b);
    }
    b
}

/// The number one, counted in the smallest positive magnitude.
pub open spec fn unit() -> nat {
    pow2(UNIT_EXPONENT as nat)
}

/// Positive infinity.
pub open spec fn infinity() -> Binary64 {
    Binary64 { bits: INFINITY_BITS }
}

/// The number nearest to `numerator / denominator`.
pub open spec fn ratio(numerator: nat, denominator: nat) -> Binary64 {
    Binary64 { bits: rounded(numerator * unit(), denominator) }
}

/// `a + b` for numbers that are not negative.
pub open spec fn sum(a: Binary64, b: Binary64) -> Binary64 {
    if !a.is_finite() || !b.is_finite() {
        infinity()
    } else if a.bits == SIGN_BIT && b.bits == SIGN_BIT {
        a
    } else {
        Binary64 { bits: rounded((a.number() + b.number()) as nat, 1) }
    }
}

/// `a - b` for a positive finite `a` and a `b` between zero and `a`.
pub open spec fn difference(a: Binary64, b: Binary64) -> Binary64 {
    Binary64 { bits: rounded((a.number() - b.number()) as nat, 1) }
}

/// `a * b` for an `a` without a sign and a positive finite `b`.
pub open spec fn product(a: Binary64, b: Binary64) -> Binary64 {
    if !a.is_finite() {
        infinity()
    } else {
        Binary64 { bits: rounded((a.number() * b.number()) as nat, unit()) }
    }
}

/// `a / b` for an `a` without a sign and a positive finite `b`.
pub open spec fn quotient(a: Binary64, b: Binary64) -> Binary64 {
    if !a.is_finite() {
        infinity()
    } else {
        Binary64 { bits: rounded((a.number() * unit()) as nat, b.number() as nat) }
    }
}

/// The larger of two numbers, `a` where they are equal.
pub open spec fn larger(a: Binary64, b: Binary64) -> Binary64 {
    if a.number() < b.number() {
        b
    } else {
        a
    }
}

impl Binary64 {
    /// The pattern without its sign bit.
    pub open spec fn unsigned(self) -> int {
        self.bits as int % SIGN_BIT as int
    }

    pub open spec fn is_nan(self) -> bool {
        self.unsigned() > INFINITY_BITS
    }

    pub open spec fn is_finite(self) -> bool {
        self.unsigned() < INFINITY_BITS
    }

    /// What a pattern other than a NaN stands for, counted in the smallest
    /// positive magnitude.
    pub open spec fn number(self) -> int {
        if self.bits >= SIGN_BIT {
            -(magnitude(self.unsigned()) as int)
        } else {
            magnitude(self.unsigned()) as int
        }
    }

    /// Whether this is a number and not below zero.
    pub open spec fn is_amount(self) -> bool {
        !self.is_nan() && self.number() >= 0
    }

    /// Whether this is an amount whose sign bit is clear.
    pub open spec fn is_unsigned_amount(self) -> bool {
        self.bits <= INFINITY_BITS
    }

    /// Whether both are numbers, and equal: zero equals negative zero.
    pub open spec fn same_number(self, other: Binary64) -> bool {
        !self.is_nan() && !other.is_nan() && self.number() == other.number()
    }

    /// The number with this bit pattern.
    pub fn from_bits(bits: u64) -> (r: Binary64)
        ensures
            r.bits == bits,
    {
        Binary64 { bits }
    }

    /// The bit pattern of this number.
    pub fn to_bits(self) -> (bits: u64)
        ensures
            bits == self.bits,
    {
        self.bits
    }

    /// Whether this is neither infinite nor a NaN.
    pub fn finite(self) -> (r: bool)
        ensures
            r == self.is_finite(),
    {
        self.bits % SIGN_BIT < INFINITY_BITS
    }

    /// Whether both are numbers and `self <= other`.
    pub fn at_most(self, other: Binary64) -> (r: bool)
        ensures
            r == (!self.is_nan() && !other.is_nan() && self.number() <= other.number()),
    {
        let a: u64 = self.bits % SIGN_BIT;
        let b: u64 = other.bits % SIGN_BIT;
        if a > INFINITY_BITS || b > INFINITY_BITS {
            return false;
        }
        proof {
            lemma_numbers_ordered(self, other);
        }
        if self.bits >= SIGN_BIT {
            if other.bits >= SIGN_BIT {
                b <= a
            } else {
                true
            }
        } else if other.bits >= SIGN_BIT {
            a == 0 && b == 0
        } else {
            a <= b
        }
    }

    /// Whether both are numbers and `self < other`.
    pub fn below(self, other: Binary64) -> (r: bool)
        ensures
            r == (!self.is_nan() && !other.is_nan() && self.number() < other.number()),
    {
        self.at_most(other) && !other.at_most(self)
    }

    /// Whether this is finite and at least zero.
    pub fn finite_amount(self) -> (r: bool)
        ensures
            r == (self.is_finite() && self.is_amount()),
    {
        self.finite() && Binary64 { bits: 0 }.at_most(self)
    }

    /// Whether both are numbers and equal.
    pub fn equals(self, other: Binary64) -> (r: bool)
        ensures
            r == self.same_number(other),
    {
        self.at_most(other) && other.at_most(self)
    }

    /// The number nearest to `numerator / denominator`.
    pub fn from_ratio(numerator: u64, denominator: u64) -> (r: Binary64)
        requires
            denominator > 0,
        ensures
            r == ratio(numerator as nat, denominator as nat),
            r.is_unsigned_amount(),
    {
        let p = Natural::from_u64(numerator).times(&Natural::power_of_two(UNIT_EXPONENT));
        Binary64 { bits: nearest(&p, &Natural::from_u64(denominator)) }
    }

    fn magnitude_natural(self) -> (m: Natural)
        requires
            self.is_amount(),
        ensures
            m@ == self.number(),
    {
        proof {
            lemma_numbers_ordered(self, self);
        }
        magnitude_of(self.bits % SIGN_BIT)
    }

    /// `self + other`.
    pub fn plus(self, other: Binary64) -> (r: Binary64)
        requires
            self.is_amount(),
            other.is_amount(),
        ensures
            r == sum(self, other),
            r.is_amount(),
            self.is_unsigned_amount() || other.is_unsigned_amount() ==> r.is_unsigned_amount(),
    {
        if !self.finite() || !other.finite() {
            return Binary64 { bits: INFINITY_BITS };
        }
        if self.bits == SIGN_BIT && other.bits == SIGN_BIT {
            return self;
        }
        let p = self.magnitude_natural().plus(&other.magnitude_natural());
        Binary64 { bits: nearest(&p, &Natural::from_u64(1)) }
    }

    /// `self - other`.
    pub fn minus(self, other: Binary64) -> (r: Binary64)
        requires
            self.is_finite(),
            other.is_amount(),
            0 < self.number(),
            other.number() <= self.number(),
        ensures
            r == difference(self, other),
            r.is_unsigned_amount(),
    {
        let p = self.magnitude_natural().minus(&other.magnitude_natural());
        Binary64 { bits: nearest(&p, &Natural::from_u64(1)) }
    }

    /// `self * other`.
    pub fn times(self, other: Binary64) -> (r: Binary64)
        requires
            self.is_unsigned_amount(),
            other.is_finite(),
            other.number() > 0,
        ensures
            r == product(self, other),
            r.is_unsigned_amount(),
    {
        if !self.finite() {
            return Binary64 { bits: INFINITY_BITS };
        }
        let p = self.magnitude_natural().times(&other.magnitude_natural());
        proof {
            lemma_pow2_pos(UNIT_EXPONENT as nat);
        }
        Binary64 { bits: nearest(&p, &Natural::power_of_two(UNIT_EXPONENT)) }
    }

    /// `self / other`.
    pub fn over(self, other: Binary64) -> (r: Binary64)
        requires
            self.is_unsigned_amount(),
            other.is_finite(),
            other.number() > 0,
        ensures
            r == quotient(self, other),
            r.is_unsigned_amount(),
    {
        if !self.finite() {
            return Binary64 { bits: INFINITY_BITS };
        }
        let p = self.magnitude_natural().times(&Natural::power_of_two(UNIT_EXPONENT));
        Binary64 { bits: nearest(&p, &other.magnitude_natural()) }
    }

    /// Whether this is a number and at most the whole number `n`.
    pub fn at_most_whole(self, n: u32) -> (r: bool)
        ensures
            r == (!self.is_nan() && self.number() <= n * unit()),
    {
        if self.bits % SIGN_BIT > INFINITY_BITS {
            return false;
        }
        if self.bits >= SIGN_BIT {
            assert(0 <= n * unit()) by (nonlinear_arith);
            return true;
        }
        magnitude_of(self.bits).at_most(
            &Natural::from_u64(n as u64).times(&Natural::power_of_two(UNIT_EXPONENT)),
        )
    }
}

/// The order of two numbers, by their signs and patterns.
proof fn lemma_numbers_ordered(a: Binary64, b: Binary64)
    requires
        !a.is_nan(),
        !b.is_nan(),
    ensures
        a.unsigned() < b.unsigned() ==> magnitude(a.unsigned()) < magnitude(b.unsigned()),
        b.unsigned() < a.unsigned() ==> magnitude(b.unsigned()) < magnitude(a.unsigned()),
        a.unsigned() == 0 <==> magnitude(a.unsigned()) == 0,
        b.unsigned() == 0 <==> magnitude(b.unsigned()) == 0,
{
    if a.unsigned() < b.unsigned() {
        lemma_magnitude_increases(a.unsigned(), b.unsigned());
    }
    if b.unsigned() < a.unsigned() {
        lemma_magnitude_increases(b.unsigned(), a.unsigned());
    }
    if a.unsigned() > 0 {
        lemma_magnitude_increases(0, a.unsigned());
    }
    if b.unsigned() > 0 {
        lemma_magnitude_increases(0, b.unsigned());
    }
}

impl PartialEq for Binary64 {
    fn eq(&self, other: &Binary64) -> (r: bool) {
        self.equals(*other)
    }
}

impl vstd::std_specs::cmp::PartialEqSpecImpl for Binary64 {
    open spec fn obeys_eq_spec() -> bool {
        true
    }

    open spec fn eq_spec(&self, other: &Binary64) -> bool {
        self.same_number(*other)
    }
}

} // verus!
