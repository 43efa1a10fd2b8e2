//! Natural numbers of any size, as little-endian digits of 32 bits.
//!
//! The arithmetic on binary64 values is decided by comparing exact products,
//! some of them thousands of bits long; this module computes those.

use vstd::arithmetic::power2::{lemma2_to64, lemma_pow2_adds, lemma_pow2_pos, pow2};
use vstd::prelude::*;

verus! {

/// The weight of the digit at position `i`.
pub open spec fn weight(i: nat) -> nat {
    pow2(32 * i)
}

/// The digit at position `i`, which is zero past the end.
pub open spec fn digit(s: Seq<u32>, i: int) -> nat {
    if 0 <= i < s.len() {
        s[i] as nat
    } else {
        0
    }
}

/// What the lowest `n` digits stand for.
pub open spec fn low_part(s: Seq<u32>, n: nat) -> nat
    decreases n,
{
    if n == 0 {
        0
    } else {
        low_part(s, (n - 1) as nat) + digit(s, n - 1) * weight((n - 1) as nat)
    }
}

/// A natural number. Leading zero digits are allowed.
pub struct Natural {
    digits: Vec<u32>,
}

impl View for Natural {
    type V = nat;

    closed spec fn view(&self) -> nat {
        low_part(self.digits@, self.digits@.len())
    }
}

proof fn lemma_weight_step(i: nat)
    ensures
        weight(i + 1) == weight(i) * 0x1_0000_0000,
        weight(i) > 0,
{
    lemma2_to64();
    lemma_pow2_adds(32 * i, 32);
    lemma_pow2_pos(32 * i);
    assert(32 * (i + 1) == 32 * i + 32);
}

proof fn lemma_low_part_bound(s: Seq<u32>, n: nat)
    ensures
        low_part(s, n) < weight(n),
    decreases n,
{
    if n == 0 {
        lemma2_to64();
    } else {
        let m = (n - 1) as nat;
        lemma_low_part_bound(s, m);
        lemma_weight_step(m);
        let d = digit(s, m as int);
        let w = weight(m);
        assert(d * w <= 0xffff_ffff * w) by (nonlinear_arith)
            requires
                d <= 0xffff_ffff,
        ;
    }
}

proof fn lemma_low_part_past_end(s: Seq<u32>, n: nat)
    requires
        n >= s.len(),
    ensures
        low_part(s, n) == low_part(s, s.len()),
    decreases n,
{
    if n > s.len() {
        lemma_low_part_past_end(s, (n - 1) as nat);
        let w = weight((n - 1) as nat);
        assert(0 * w == 0) by (nonlinear_arith);
    }
}

proof fn lemma_low_part_same(s: Seq<u32>, t: Seq<u32>, n: nat)
    requires
        forall|i: int| 0 <= i < n ==> digit(s, i) == digit(t, i),
    ensures
        low_part(s, n) == low_part(t, n),
    decreases n,
{
    if n > 0 {
        lemma_low_part_same(s, t, (n - 1) as nat);
    }
}

/// Appending a digit adds it with the weight of its position.
proof fn lemma_push(s: Seq<u32>, d: u32)
    ensures
        low_part(s.push(d), s.len()) == low_part(s, s.len()),
        low_part(s.push(d), s.len() + 1) == low_part(s, s.len()) + d * weight(s.len()),
{
    lemma_low_part_same(s, s.push(d), s.len());
}

impl Natural {
    fn digit_at(&self, i: usize) -> (d: u32)
        ensures
            d == digit(self.digits@, i as int),
    {
        if i < self.digits.len() {
            self.digits[i]
        } else {
            0
        }
    }

    /// The number `x`.
    pub fn from_u64(x: u64) -> (n: Natural)
        ensures
            n@ == x,
    {
        let low: u32 = (x % 0x1_0000_0000) as u32;
        let high: u32 = (x / 0x1_0000_0000) as u32;
        let digits = vec![low, high];
        proof {
            lemma2_to64();
            reveal_with_fuel(low_part, 3);
            assert(digits@ =~= seq![low, high]);
            assert(low_part(digits@, 2) == low * weight(0) + high * weight(1));
            let (w0, w1) = (weight(0), weight(1));
            assert(low * w0 + high * w1 == low + high * 0x1_0000_0000) by (nonlinear_arith)
                requires
                    w0 == 1,
                    w1 == 0x1_0000_0000,
            ;
        }
        Natural { digits }
    }

    /// `self + other`.
    pub fn plus(&self, other: &Natural) -> (sum: Natural)
        ensures
            sum@ == self@ + other@,
    {
        let n: usize = if self.digits.len() < other.digits.len() {
            other.digits.len()
        } else {
            self.digits.len()
        };
        let mut digits: Vec<u32> = Vec::new();
        let mut carry: u64 = 0;
        let mut i: usize = 0;
        while i < n
            invariant
                i <= n,
                carry <= 1,
                digits@.len() == i,
                low_part(digits@, i as nat) + carry * weight(i as nat) == low_part(
                    self.digits@,
                    i as nat,
                ) + low_part(other.digits@, i as nat),
            decreases n - i,
        {
            let a: u32 = self.digit_at(i);
            let b: u32 = other.digit_at(i);
            let total: u64 = a as u64 + b as u64 + carry;
            let d: u32 = (total % 0x1_0000_0000) as u32;
            let c: u64 = total / 0x1_0000_0000;
            proof {
                lemma_weight_step(i as nat);
                lemma_push(digits@, d);
                let w = weight(i as nat);
                assert(d * w + c * (w * 0x1_0000_0000) == a * w + b * w + carry * w)
                    by (nonlinear_arith)
                    requires
                        d + c * 0x1_0000_0000 == a + b + carry,
                ;
            }
            digits.push(d);
            carry = c;
            i += 1;
        }
        proof {
            lemma_push(digits@, carry as u32);
            lemma_low_part_past_end(self.digits@, n as nat);
            lemma_low_part_past_end(other.digits@, n as nat);
        }
        digits.push(carry as u32);
        Natural { digits }
    }

    /// `self - other`.
    pub fn minus(&self, other: &Natural) -> (difference: Natural)
        requires
            other@ <= self@,
        ensures
            difference@ == self@ - other@,
    {
        let n: usize = if self.digits.len() < other.digits.len() {
            other.digits.len()
        } else {
            self.digits.len()
        };
        let mut digits: Vec<u32> = Vec::new();
        let mut borrow: u64 = 0;
        let mut i: usize = 0;
        while i < n
            invariant
                i <= n,
                borrow <= 1,
                digits@.len() == i,
                low_part(digits@, i as nat) + low_part(other.digits@, i as nat) == low_part(
                    self.digits@,
                    i as nat,
                ) + borrow * weight(i as nat),
            decreases n - i,
        {
            let a: u32 = self.digit_at(i);
            let b: u32 = other.digit_at(i);
            let total: u64 = 0x1_0000_0000 + a as u64 - b as u64 - borrow;
            let d: u32 = (total % 0x1_0000_0000) as u32;
            let c: u64 = 1 - total / 0x1_0000_0000;
            proof {
                lemma_weight_step(i as nat);
                lemma_push(digits@, d);
                let w = weight(i as nat);
                assert(d * w + b * w + borrow * w == a * w + c * (w * 0x1_0000_0000))
                    by (nonlinear_arith)
                    requires
                        d + b + borrow == a + c * 0x1_0000_0000,
                ;
            }
            digits.push(d);
            borrow = c;
            i += 1;
        }
        proof {
            lemma_low_part_past_end(self.digits@, n as nat);
            lemma_low_part_past_end(other.digits@, n as nat);
            lemma_low_part_bound(digits@, n as nat);
            let w = weight(n as nat);
            assert(borrow == 1 ==> borrow * w == w);
            assert(borrow == 0 ==> borrow * w == 0);
        }
        Natural { digits }
    }

    /// `self * factor`.
    fn times_digit(&self, factor: u32) -> (product: Natural)
        ensures
            product@ == self@ * factor,
    {
        let n: usize = self.digits.len();
        let mut digits: Vec<u32> = Vec::new();
        let mut carry: u64 = 0;
        let mut i: usize = 0;
        assert(0 * factor == 0) by (nonlinear_arith);
        while i < n
            invariant
                i <= n,
                n == self.digits@.len(),
                carry <= 0xffff_ffff,
                digits@.len() == i,
                low_part(digits@, i as nat) + carry * weight(i as nat) == low_part(
                    self.digits@,
                    i as nat,
                ) * factor,
            decreases n - i,
        {
            let a: u32 = self.digits[i];
            assert(a * factor <= 0xffff_ffff * 0xffff_ffff) by (nonlinear_arith)
                requires
                    a <= 0xffff_ffff,
                    factor <= 0xffff_ffff,
            ;
            let total: u64 = a as u64 * factor as u64 + carry;
            let d: u32 = (total % 0x1_0000_0000) as u32;
            let c: u64 = total / 0x1_0000_0000;
            proof {
                lemma_weight_step(i as nat);
                lemma_push(digits@, d);
                let w = weight(i as nat);
                let below = low_part(self.digits@, i as nat);
                assert(d * w + c * (w * 0x1_0000_0000) == (a * w) * factor + carry * w)
                    by (nonlinear_arith)
                    requires
                        d + c * 0x1_0000_0000 == a * factor + carry,
                ;
                assert((below + a * w) * factor == below * factor + (a * w) * factor)
                    by (nonlinear_arith);
            }
            digits.push(d);
            carry = c;
            i += 1;
        }
        proof {
            lemma_push(digits@, carry as u32);
        }
        digits.push(carry as u32);
        Natural { digits }
    }

    /// `self` with `count` zero digits put below it.
    fn shifted(&self, count: usize) -> (r: Natural)
        ensures
            r@ == self@ * weight(count as nat),
    {
        let mut digits: Vec<u32> = Vec::new();
        let mut i: usize = 0;
        while i < count
            invariant
                i <= count,
                digits@.len() == i,
                low_part(digits@, i as nat) == 0,
            decreases count - i,
        {
            proof {
                lemma_push(digits@, 0);
                assert(0 * weight(i as nat) == 0);
            }
            digits.push(0);
            i += 1;
        }
        let n: usize = self.digits.len();
        let mut j: usize = 0;
        proof {
            let w = weight(count as nat);
            assert(0 * w == 0);
        }
        while j < n
            invariant
                j <= n,
                n == self.digits@.len(),
                digits@.len() == count + j,
                low_part(digits@, digits@.len()) == low_part(self.digits@, j as nat) * weight(
                    count as nat,
                ),
            decreases n - j,
        {
            let a: u32 = self.digits[j];
            proof {
                lemma_push(digits@, a);
                lemma_pow2_adds(32 * count as nat, 32 * j as nat);
                assert(32 * (count + j) == 32 * count + 32 * j);
                let w = weight(count as nat);
                let v = weight(j as nat);
                let below = low_part(self.digits@, j as nat);
                assert((below + a * v) * w == below * w + a * (w * v)) by (nonlinear_arith);
            }
            digits.push(a);
            j += 1;
        }
        Natural { digits }
    }

    /// `self * other`.
    pub fn times(&self, other: &Natural) -> (product: Natural)
        ensures
            product@ == self@ * other@,
    {
        let n: usize = self.digits.len();
        let mut product = Natural { digits: Vec::new() };
        let mut i: usize = 0;
        assert(0 * other@ == 0) by (nonlinear_arith);
        while i < n
            invariant
                i <= n,
                n == self.digits@.len(),
                product@ == low_part(self.digits@, i as nat) * other@,
            decreases n - i,
        {
            let a: u32 = self.digits[i];
            let row = other.times_digit(a).shifted(i);
            proof {
                let w = weight(i as nat);
                let below = low_part(self.digits@, i as nat);
                assert((below + a * w) * other@ == below * other@ + (other@ * a) * w)
                    by (nonlinear_arith);
            }
            product = product.plus(&row);
            i += 1;
        }
        product
    }

    /// Two to the power of `exponent`.
    pub fn power_of_two(exponent: u32) -> (n: Natural)
        ensures
            n@ == pow2(exponent as nat),
    {
        let whole: u32 = exponent / 32;
        let rest: u32 = exponent % 32;
        let mut top: u32 = 1;
        let mut i: u32 = 0;
        proof {
            lemma2_to64();
        }
        while i < rest
            invariant
                i <= rest < 32,
                top == pow2(i as nat),
            decreases rest - i,
        {
            proof {
                lemma2_to64();
                lemma_pow2_adds(i as nat, 1);
                vstd::arithmetic::power2::lemma_pow2_strictly_increases(i as nat, 31);
            }
            top = top * 2;
            i += 1;
        }
        proof {
            lemma_pow2_adds(rest as nat, 32 * whole as nat);
            assert(32 * whole + rest == exponent);
        }
        Natural::from_u64(top as u64).shifted(whole as usize)
    }

    /// Whether `self <= other`.
    pub fn at_most(&self, other: &Natural) -> (r: bool)
        ensures
            r == (self@ <= other@),
    {
        let n: usize = if self.digits.len() < other.digits.len() {
            other.digits.len()
        } else {
            self.digits.len()
        };
        proof {
            lemma_low_part_past_end(self.digits@, n as nat);
            lemma_low_part_past_end(other.digits@, n as nat);
        }
        let mut i: usize = n;
        while i > 0
            invariant
                i <= n,
                self@ - low_part(self.digits@, i as nat) == other@ - low_part(
                    other.digits@,
                    i as nat,
                ),
            decreases i,
        {
            i -= 1;
            let a: u32 = self.digit_at(i);
            let b: u32 = other.digit_at(i);
            proof {
                lemma_low_part_bound(self.digits@, i as nat);
                lemma_low_part_bound(other.digits@, i as nat);
                let w = weight(i as nat);
                assert(a < b ==> a * w + w <= b * w) by (nonlinear_arith);
                assert(b < a ==> b * w + w <= a * w) by (nonlinear_arith);
            }
            if a < b {
                return true;
            }
            if b < a {
                return false;
            }
        }
        true
    }
}

} // verus!
