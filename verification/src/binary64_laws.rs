//! What holds of sums, products and quotients of amounts.

use crate::binary64::{
    difference, distance, infinity, lemma_magnitude_increases, lemma_one, lemma_rounded_at_least,
    lemma_rounded_at_most, lemma_rounded_exists, lemma_rounded_monotone, lemma_rounded_unique,
    magnitude, product, quotient, ratio, rounded, rounds_to, sum, unit, Binary64, FRACTION_SPAN,
    INFINITY_BITS, ONE_BITS, SIGN_BIT,
};
use vstd::prelude::*;

verus! {

/// Patterns without a sign bit are ordered as their numbers.
pub proof fn lemma_pattern_order(a: Binary64, b: Binary64)
    requires
        a.bits <= b.bits <= INFINITY_BITS,
    ensures
        a.number() <= b.number(),
{
    if a.bits < b.bits {
        lemma_magnitude_increases(a.bits as int, b.bits as int);
    }
}

/// The patterns of amounts.
pub proof fn lemma_amount_pattern(a: Binary64)
    requires
        a.is_amount(),
    ensures
        a.bits == SIGN_BIT || a.bits <= INFINITY_BITS,
        a.number() == magnitude(a.unsigned()),
        a.bits == SIGN_BIT ==> a.number() == 0,
        !a.is_finite() ==> a == infinity(),
{
    if a.unsigned() > 0 {
        lemma_magnitude_increases(0, a.unsigned());
    }
}

/// A positive number has one pattern.
pub proof fn lemma_positive_pattern(a: Binary64, b: Binary64)
    requires
        a.same_number(b),
        a.number() > 0,
    ensures
        a == b,
{
    lemma_amount_pattern(a);
    lemma_amount_pattern(b);
    if a.bits < b.bits {
        lemma_magnitude_increases(a.unsigned(), b.unsigned());
    } else if b.bits < a.bits {
        lemma_magnitude_increases(b.unsigned(), a.unsigned());
    }
}

/// A sum is an amount, and at least as large as what is added.
pub proof fn lemma_sum_at_least(a: Binary64, b: Binary64)
    requires
        a.is_amount(),
        b.is_amount(),
    ensures
        sum(a, b).is_amount(),
        a.is_unsigned_amount() || b.is_unsigned_amount() ==> sum(a, b).is_unsigned_amount(),
        a.number() <= sum(a, b).number(),
        b.number() <= sum(a, b).number(),
{
    lemma_amount_pattern(a);
    lemma_amount_pattern(b);
    let s = sum(a, b);
    if !a.is_finite() || !b.is_finite() {
        assert(s == infinity());
        if a.bits != SIGN_BIT {
            lemma_pattern_order(a, s);
        } else {
            lemma_pattern_order(Binary64 { bits: 0 }, s);
        }
        if b.bits != SIGN_BIT {
            lemma_pattern_order(b, s);
        } else {
            lemma_pattern_order(Binary64 { bits: 0 }, s);
        }
    } else if a.bits == SIGN_BIT && b.bits == SIGN_BIT {
    } else {
        let p = (a.number() + b.number()) as nat;
        lemma_rounded_exists(p, 1);
        lemma_rounded_at_least(p, 1, a.unsigned() as u64);
        lemma_rounded_at_least(p, 1, b.unsigned() as u64);
        lemma_pattern_order(Binary64 { bits: a.unsigned() as u64 }, s);
        lemma_pattern_order(Binary64 { bits: b.unsigned() as u64 }, s);
    }
}

/// Adding more never gives less.
pub proof fn lemma_sum_monotone(a: Binary64, b: Binary64, c: Binary64, d: Binary64)
    requires
        a.is_amount(),
        b.is_amount(),
        c.is_amount(),
        d.is_amount(),
        a.number() <= c.number(),
        b.number() <= d.number(),
    ensures
        sum(a, b).number() <= sum(c, d).number(),
{
    lemma_amount_pattern(a);
    lemma_amount_pattern(b);
    lemma_amount_pattern(c);
    lemma_amount_pattern(d);
    lemma_sum_at_least(a, b);
    lemma_sum_at_least(c, d);
    if !c.is_finite() || !d.is_finite() {
        lemma_amount_pattern(sum(a, b));
        if sum(a, b).bits == SIGN_BIT {
            lemma_pattern_order(Binary64 { bits: 0 }, infinity());
        } else {
            lemma_pattern_order(sum(a, b), infinity());
        }
    } else {
        if !a.is_finite() {
            lemma_magnitude_increases(c.unsigned(), INFINITY_BITS as int);
        }
        if !b.is_finite() {
            lemma_magnitude_increases(d.unsigned(), INFINITY_BITS as int);
        }
        if a.bits == SIGN_BIT && b.bits == SIGN_BIT {
        } else {
            let p = (a.number() + b.number()) as nat;
            let q = (c.number() + d.number()) as nat;
            lemma_rounded_monotone(p, q, 1);
            lemma_rounded_exists(q, 1);
            if c.bits == SIGN_BIT && d.bits == SIGN_BIT {
                lemma_one();
                lemma_rounded_at_most(p, 1, 0);
            } else {
                lemma_pattern_order(
                    Binary64 { bits: rounded(p, 1) },
                    Binary64 { bits: rounded(q, 1) },
                );
            }
        }
    }
}

/// Dividing by at most one never gives less.
pub proof fn lemma_quotient_at_least(a: Binary64, b: Binary64)
    requires
        a.is_unsigned_amount(),
        b.is_finite(),
        0 < b.number() <= unit(),
    ensures
        quotient(a, b).is_unsigned_amount(),
        a.number() <= quotient(a, b).number(),
{
    lemma_amount_pattern(a);
    if a.is_finite() {
        let (n, u, q) = (a.number() as nat, unit(), b.number() as nat);
        assert(n * q <= n * u) by (nonlinear_arith)
            requires
                q <= u,
        ;
        lemma_rounded_exists(n * u, q);
        lemma_rounded_at_least(n * u, q, a.bits);
        lemma_pattern_order(a, quotient(a, b));
    }
}

/// Dividing more by the same never gives less.
pub proof fn lemma_quotient_monotone(a: Binary64, b: Binary64, divisor: Binary64)
    requires
        a.is_unsigned_amount(),
        b.is_unsigned_amount(),
        a.number() <= b.number(),
        divisor.is_finite(),
        0 < divisor.number(),
    ensures
        quotient(a, divisor).number() <= quotient(b, divisor).number(),
{
    let (u, q) = (unit(), divisor.number() as nat);
    let (m, n) = (a.number() as nat, b.number() as nat);
    lemma_rounded_exists(m * u, q);
    if !b.is_finite() {
        lemma_pattern_order(quotient(a, divisor), infinity());
    } else {
        if !a.is_finite() {
            lemma_magnitude_increases(b.bits as int, INFINITY_BITS as int);
        }
        assert(m * u <= n * u) by (nonlinear_arith)
            requires
                m <= n,
        ;
        lemma_rounded_exists(n * u, q);
        lemma_rounded_monotone(m * u, n * u, q);
        lemma_pattern_order(quotient(a, divisor), quotient(b, divisor));
    }
}

/// Dividing by one changes nothing.
pub proof fn lemma_quotient_by_one(a: Binary64)
    requires
        a.is_unsigned_amount(),
    ensures
        quotient(a, Binary64 { bits: ONE_BITS }) == a,
{
    lemma_one();
    if a.is_finite() {
        let u = unit();
        vstd::arithmetic::power2::lemma_pow2_pos(crate::binary64::UNIT_EXPONENT as nat);
        lemma_rounded_at_least((a.number() * u) as nat, u, a.bits);
        lemma_rounded_at_most((a.number() * u) as nat, u, a.bits);
    }
}

/// A ratio of multiples is rounded as the ratio itself.
pub proof fn lemma_rounded_scaled(p: nat, q: nat, k: nat)
    requires
        q > 0,
        k > 0,
    ensures
        rounded(p * k, q * k) == rounded(p, q),
{
    lemma_rounded_exists(p, q);
    let b = rounded(p, q);
    let (x, y) = (p * k, q * k);
    assert(y > 0) by (nonlinear_arith)
        requires
            y == q * k,
            q > 0,
            k > 0,
    ;
    assert forall|c: int| #[trigger] distance(x, y, c) == distance(p, q, c) * k by {
        let m = magnitude(c);
        assert(m * (q * k) == (m * q) * k) by (nonlinear_arith);
        if m * q <= p {
            assert((m * q) * k <= p * k && (p - m * q) * k == p * k - (m * q) * k)
                by (nonlinear_arith)
                requires
                    m * q <= p,
            ;
        } else {
            assert((m * q) * k > p * k && (m * q - p) * k == (m * q) * k - p * k)
                by (nonlinear_arith)
                requires
                    m * q > p,
                    k > 0,
            ;
        }
    }
    assert forall|c: int| 0 <= c <= INFINITY_BITS && c != b implies {
        ||| distance(x, y, b as int) < #[trigger] distance(x, y, c)
        ||| distance(x, y, b as int) == distance(x, y, c) && b % 2 == 0
    } by {
        let (d, e) = (distance(p, q, b as int), distance(p, q, c));
        assert(distance(x, y, b as int) == d * k);
        assert(d < e ==> d * k < e * k) by (nonlinear_arith)
            requires
                k > 0,
        ;
    }
    lemma_rounded_unique(x, y, b);
}

/// What has a pattern is rounded to it.
pub proof fn lemma_rounded_exact(b: u64, q: nat)
    requires
        b <= INFINITY_BITS,
        q > 0,
    ensures
        rounded(magnitude(b as int) * q, q) == b,
{
    lemma_rounded_at_least(magnitude(b as int) * q, q, b);
    lemma_rounded_at_most(magnitude(b as int) * q, q, b);
}

/// One is a factor that changes nothing.
pub proof fn lemma_product_by_one(a: Binary64)
    requires
        a.is_unsigned_amount(),
    ensures
        product(a, Binary64 { bits: ONE_BITS }) == a,
        a.is_finite() ==> product(Binary64 { bits: ONE_BITS }, a) == a,
{
    lemma_one();
    lemma_amount_pattern(a);
    vstd::arithmetic::power2::lemma_pow2_pos(crate::binary64::UNIT_EXPONENT as nat);
    if a.is_finite() {
        let (n, u) = (a.number(), unit() as int);
        assert(n * u == u * n) by (nonlinear_arith);
        lemma_rounded_exact(a.bits, unit());
    }
}

/// A ratio over one is rounded from the whole number.
pub proof fn lemma_ratio_one()
    ensures
        ratio(1, 1) == (Binary64 { bits: ONE_BITS }),
{
    lemma_one();
    lemma_rounded_exact(ONE_BITS, 1);
    assert(1 * unit() == unit() * 1);
}

/// A sum does not depend on the order of what is added.
pub proof fn sums_commute(a: Binary64, b: Binary64)
    ensures
        sum(a, b) == sum(b, a),
{
}

/// A finite sum, a product and a quotient are the numbers nearest to the exact ones.
pub proof fn results_are_nearest(a: Binary64, b: Binary64)
    requires
        a.is_unsigned_amount(),
        a.is_finite(),
        b.is_unsigned_amount(),
        b.is_finite(),
    ensures
        rounds_to((a.number() + b.number()) as nat, 1, sum(a, b).bits),
        rounds_to((a.number() * b.number()) as nat, unit(), product(a, b).bits),
        b.number() > 0 ==> rounds_to(
            (a.number() * unit()) as nat,
            b.number() as nat,
            quotient(a, b).bits,
        ),
        b.number() <= a.number() ==> rounds_to(
            (a.number() - b.number()) as nat,
            1,
            difference(a, b).bits,
        ),
{
    vstd::arithmetic::power2::lemma_pow2_pos(crate::binary64::UNIT_EXPONENT as nat);
    lemma_rounded_exists((a.number() + b.number()) as nat, 1);
    lemma_rounded_exists((a.number() * b.number()) as nat, unit());
    if b.number() > 0 {
        lemma_rounded_exists((a.number() * unit()) as nat, b.number() as nat);
    }
    if b.number() <= a.number() {
        lemma_rounded_exists((a.number() - b.number()) as nat, 1);
    }
}

/// Twice a number below half of the largest has a pattern.
pub proof fn lemma_double(a: Binary64) -> (b: u64)
    requires
        a.bits < INFINITY_BITS - FRACTION_SPAN,
    ensures
        b < INFINITY_BITS,
        magnitude(b as int) == 2 * a.number(),
{
    let span = FRACTION_SPAN as int;
    let n = a.bits as int;
    assert(a.unsigned() == n && a.number() == magnitude(n));
    vstd::arithmetic::power2::lemma2_to64();
    if n < span {
        assert(n / span == 0 && n % span == n);
        let c = 2 * n;
        if c < span {
            assert(c / span == 0 && c % span == c);
        } else {
            assert(c / span == 1 && c % span == c - span);
            assert(magnitude(c) == (span + (c - span)) * 1);
        }
        c as u64
    } else {
        let e = n / span;
        let c = n + span;
        assert(c / span == e + 1 && c % span == n % span);
        vstd::arithmetic::power2::lemma_pow2_unfold(e as nat);
        let (f, w) = (span + n % span, vstd::arithmetic::power2::pow2((e - 1) as nat));
        assert(f * (2 * w) == 2 * (f * w)) by (nonlinear_arith);
        assert(magnitude(c) == f * (2 * w) && magnitude(n) == f * w);
        c as u64
    }
}

/// A ratio is the number nearest to the exact one.
pub proof fn ratios_are_nearest(numerator: nat, denominator: nat)
    requires
        denominator > 0,
    ensures
        rounds_to(numerator * unit(), denominator, ratio(numerator, denominator).bits),
{
    lemma_rounded_exists(numerator * unit(), denominator);
}

} // verus!
