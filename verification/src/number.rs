//! Double-precision numbers, held by their bit patterns.
//!
//! The library never adds or multiplies a coordinate.  What it does with one is compare it,
//! choose between two, and cut one down to a whole number, and all of that can be read off the
//! bits.

use vstd::arithmetic::div_mod::{
    lemma_div_denominator, lemma_div_is_ordered, lemma_div_is_ordered_by_denominator,
    lemma_div_multiples_vanish,
};
use vstd::arithmetic::power2::{
    lemma2_to64, lemma2_to64_rest, lemma_pow2_adds, lemma_pow2_pos, lemma_pow2_strictly_increases,
    lemma_pow2_unfold, pow2,
};
use vstd::bits::lemma_u64_shr_is_div;
use vstd::prelude::*;

verus! {

/// the number of mantissa patterns that share an exponent, 2^52
pub const MANTISSAS: u64 = 0x10_0000_0000_0000;

/// the sign bit on its own, 2^63
pub const SIGN: u64 = 0x8000_0000_0000_0000;

/// a number in the IEEE 754 binary64 format
#[derive(Clone, Copy, Debug, PartialEq, Eq, Structural)]
pub struct Number {
    pub bits: u64,
}

/// the pattern without its sign bit
pub open spec fn unsigned_bits(bits: u64) -> int {
    if bits >= SIGN {
        bits - SIGN
    } else {
        bits as int
    }
}

/// the magnitude that a pattern without a sign bit stands for, in units of the smallest
/// positive number, 2^-1074.  infinity comes out as the next magnitude after the largest
/// finite one.
pub open spec fn magnitude(pattern: int) -> int {
    let exponent = pattern / (MANTISSAS as int);
    let mantissa = pattern % (MANTISSAS as int);
    if exponent == 0 {
        mantissa
    } else {
        (MANTISSAS + mantissa) * pow2((exponent - 1) as nat)
    }
}

impl Number {
    /// whether this is one of the patterns that stand for no number
    pub open spec fn is_nan(self) -> bool {
        unsigned_bits(self.bits) > 2047 * MANTISSAS
    }

    /// the number itself, in units of the smallest positive number, 2^-1074
    pub open spec fn value(self) -> int {
        if self.bits >= SIGN {
            -magnitude(unsigned_bits(self.bits))
        } else {
            magnitude(unsigned_bits(self.bits))
        }
    }

    /// whether this is less than the other number
    pub open spec fn below(self, other: Number) -> bool {
        !self.is_nan() && !other.is_nan() && self.value() < other.value()
    }

    /// whether this is the same number as the other
    pub open spec fn same(self, other: Number) -> bool {
        !self.is_nan() && !other.is_nan() && self.value() == other.value()
    }

    /// the greater of the two, or the one that is a number
    pub open spec fn greater_of(self, other: Number) -> Number {
        if self.is_nan() || self.below(other) {
            other
        } else {
            self
        }
    }

    /// the lesser of the two, or the one that is a number
    pub open spec fn lesser_of(self, other: Number) -> Number {
        if self.is_nan() || other.below(self) {
            other
        } else {
            self
        }
    }

    /// the number with its fraction cut off, or the nearest end of the range 0 to 2^32 - 1.
    /// what is not a number comes out as 0.
    pub open spec fn whole(self) -> int {
        if self.is_nan() || self.value() < 0 {
            0
        } else if self.value() / (pow2(1074) as int) > u32::MAX {
            u32::MAX as int
        } else {
            self.value() / (pow2(1074) as int)
        }
    }
}

proof fn lemma_magnitude_step(a: int, b: int)
    requires
        0 <= a < b,
    ensures
        magnitude(a) < magnitude(b),
{
    let n = MANTISSAS as int;
    let ea = a / n;
    let eb = b / n;
    let fa = a % n;
    let fb = b % n;
    assert(a == ea * n + fa && b == eb * n + fb && 0 <= fa < n && 0 <= fb < n && 0 <= ea <= eb);
    lemma_pow2_unfold(1);
    if ea == eb {
        if ea > 0 {
            lemma_pow2_pos((ea - 1) as nat);
            let p = pow2((ea - 1) as nat) as int;
            assert((n + fa) * p < (n + fb) * p) by (nonlinear_arith)
                requires
                    fa < fb,
                    p > 0,
            ;
        }
    } else {
        lemma_pow2_pos((eb - 1) as nat);
        let q = pow2((eb - 1) as nat) as int;
        assert((n + fb) * q >= n * q) by (nonlinear_arith)
            requires
                fb >= 0,
                q > 0,
        ;
        if ea == 0 {
            assert(n * q >= n) by (nonlinear_arith)
                requires
                    q >= 1,
                    n > 0,
            ;
        } else {
            lemma_pow2_pos((ea - 1) as nat);
            let p = pow2((ea - 1) as nat) as int;
            if ea < eb - 1 {
                lemma_pow2_strictly_increases(ea as nat, (eb - 1) as nat);
            }
            lemma_pow2_unfold(ea as nat);
            assert(q >= 2 * p);
            assert((n + fa) * p < n * q) by (nonlinear_arith)
                requires
                    fa < n,
                    q >= 2 * p,
                    p > 0,
                    n > 0,
            ;
        }
    }
}

proof fn lemma_scaled_quotient(n: int, p: int, d: int)
    requires
        0 <= n,
        0 < p,
        0 < d,
    ensures
        (n * p) / (d * p) == n / d,
{
    assert(n * p == p * n) by (nonlinear_arith);
    assert(d * p == p * d) by (nonlinear_arith);
    assert(p * n >= 0) by (nonlinear_arith)
        requires
            0 <= n,
            0 < p,
    ;
    lemma_div_denominator(p * n, p, d);
    lemma_div_multiples_vanish(n, p);
}

/// the patterns without their sign bits stand in the same order as the magnitudes
pub proof fn law_patterns_are_ordered(a: int, b: int)
    requires
        0 <= a,
        0 <= b,
    ensures
        magnitude(a) >= 0,
        a < b <==> magnitude(a) < magnitude(b),
        a == b <==> magnitude(a) == magnitude(b),
{
    if a < b {
        lemma_magnitude_step(a, b);
    } else if b < a {
        lemma_magnitude_step(b, a);
    }
    if 0 < a {
        lemma_magnitude_step(0, a);
    }
}

impl Number {
    /// whether this is one of the patterns that stand for no number
    pub fn not_a_number(self) -> (b: bool)
        ensures
            b == self.is_nan(),
    {
        let pattern: u64 = if self.bits >= SIGN {
            self.bits - SIGN
        } else {
            self.bits
        };
        pattern > 2047 * MANTISSAS
    }

    /// whether this is less than the other number
    pub fn less_than(self, other: Number) -> (b: bool)
        ensures
            b == self.below(other),
    {
        proof {
            law_patterns_are_ordered(unsigned_bits(self.bits), unsigned_bits(other.bits));
            law_patterns_are_ordered(unsigned_bits(other.bits), unsigned_bits(self.bits));
            law_patterns_are_ordered(0, unsigned_bits(self.bits));
            law_patterns_are_ordered(0, unsigned_bits(other.bits));
        }
        if self.not_a_number() || other.not_a_number() {
            false
        } else if self.bits < SIGN {
            other.bits < SIGN && self.bits < other.bits
        } else if other.bits >= SIGN {
            other.bits < self.bits
        } else {
            self.bits > SIGN || other.bits > 0
        }
    }

    /// whether this is the same number as the other
    pub fn equals(self, other: Number) -> (b: bool)
        ensures
            b == self.same(other),
    {
        !self.not_a_number() && !other.not_a_number() && !self.less_than(other)
            && !other.less_than(self)
    }

    /// the greater of the two, or the one that is a number
    pub fn max(self, other: Number) -> (r: Number)
        ensures
            r == self.greater_of(other),
    {
        if self.not_a_number() || self.less_than(other) {
            other
        } else {
            self
        }
    }

    /// the number with its fraction cut off, or the nearest end of the range 0 to 2^32 - 1.
    /// what is not a number comes out as 0.
    pub fn to_whole(self) -> (n: u32)
        ensures
            n == self.whole(),
    {
        proof {
            law_patterns_are_ordered(0, unsigned_bits(self.bits));
            law_patterns_are_ordered(unsigned_bits(self.bits), 1023 * MANTISSAS);
            law_patterns_are_ordered(1055 * MANTISSAS, unsigned_bits(self.bits));
            lemma_pow2_pos(1074);
            lemma_pow2_adds(52, 1022);
            lemma_pow2_adds(32, 1074);
            lemma_pow2_adds(52, 1054);
            lemma2_to64();
            lemma2_to64_rest();
        }
        if self.not_a_number() || self.bits >= SIGN {
            proof {
                if !self.is_nan() && self.value() == 0 {
                    assert(0int / (pow2(1074) as int) == 0) by (nonlinear_arith)
                        requires
                            pow2(1074) > 0,
                    ;
                }
            }
            0
        } else if self.bits < 1023 * MANTISSAS {
            proof {
                vstd::arithmetic::div_mod::lemma_basic_div(self.value(), pow2(1074) as int);
            }
            0
        } else if self.bits >= 1055 * MANTISSAS {
            proof {
                let unit = pow2(1074) as int;
                assert(self.value() >= pow2(32) * unit);
                lemma_div_is_ordered(pow2(32) * unit, self.value(), unit);
                lemma_div_multiples_vanish(pow2(32) as int, unit);
            }
            u32::MAX
        } else {
            let exponent: u64 = self.bits / MANTISSAS;
            let significand: u64 = MANTISSAS + self.bits % MANTISSAS;
            let shift: u64 = 1075 - exponent;
            proof {
                let k = (exponent - 1) as nat;
                lemma_pow2_adds(shift as nat, k);
                lemma_pow2_pos(shift as nat);
                lemma_pow2_pos(k);
                lemma_u64_shr_is_div(significand, shift);
                let d = pow2(shift as nat) as int;
                let p = pow2(k) as int;
                assert(self.value() == significand * p);
                lemma_scaled_quotient(significand as int, p, d);
                if shift > 21 {
                    lemma_pow2_strictly_increases(21, shift as nat);
                }
                lemma_pow2_adds(32, 21);
                assert(significand as int / d <= u32::MAX) by {
                    lemma_div_is_ordered_by_denominator(significand as int, 0x20_0000, d);
                }
            }
            (significand >> shift) as u32
        }
    }

    /// the lesser of the two, or the one that is a number
    pub fn min(self, other: Number) -> (r: Number)
        ensures
            r == self.lesser_of(other),
    {
        if self.not_a_number() || other.less_than(self) {
            other
        } else {
            self
        }
    }
}

/// the greater and the lesser of two numbers are those two numbers, and what is not a number gives way
/// to what is one
pub proof fn law_the_greater_is_greater(a: Number, b: Number)
    ensures
        a.greater_of(b) == a || a.greater_of(b) == b,
        a.lesser_of(b) == a || a.lesser_of(b) == b,
        a.is_nan() ==> a.greater_of(b) == b && a.lesser_of(b) == b,
        b.is_nan() ==> a.greater_of(b) == a || a.is_nan(),
        b.is_nan() ==> a.lesser_of(b) == a || a.is_nan(),
        !a.is_nan() && !b.is_nan() ==> {
            &&& a.greater_of(b).value() >= a.value() && a.greater_of(b).value() >= b.value()
            &&& a.lesser_of(b).value() <= a.value() && a.lesser_of(b).value() <= b.value()
        },
{
}

/// a whole number of units is what is left of a number without its fraction, as far as there are such
/// whole numbers
pub proof fn law_the_fraction_is_cut_off(number: Number)
    ensures
        number.is_nan() || number.value() < 0 ==> number.whole() == 0,
        !number.is_nan() && 0 <= number.value() < 0x1_0000_0000 * pow2(1074) ==> number.whole()
            * pow2(1074) <= number.value() < (number.whole() + 1) * pow2(1074),
        !number.is_nan() && number.value() >= 0x1_0000_0000 * pow2(1074) ==> number.whole()
            == u32::MAX,
{
    lemma_pow2_pos(1074);
    let unit = pow2(1074) as int;
    let v = number.value();
    vstd::arithmetic::div_mod::lemma_fundamental_div_mod(v, unit);
    let q = v / unit;
    let m = v % unit;
    assert(0 <= m < unit) by {
        vstd::arithmetic::div_mod::lemma_mod_bound(v, unit);
    }
    assert(unit * q == q * unit) by (nonlinear_arith);
    assert((q + 1) * unit == q * unit + unit) by (nonlinear_arith);
    if !number.is_nan() && v >= 0x1_0000_0000 * unit {
        assert(q >= 0x1_0000_0000) by (nonlinear_arith)
            requires
                v >= 0x1_0000_0000 * unit,
                v == q * unit + m,
                0 <= m < unit,
        ;
    }
    if !number.is_nan() && 0 <= v < 0x1_0000_0000 * unit {
        assert(0 <= q < 0x1_0000_0000) by (nonlinear_arith)
            requires
                0 <= v < 0x1_0000_0000 * unit,
                v == q * unit + m,
                0 <= m < unit,
        ;
    }
}

/// the sign bit turns a number into its opposite
pub proof fn law_the_sign_bit_is_the_sign(bits: u64)
    requires
        bits < SIGN,
    ensures
        (Number { bits: (bits + SIGN) as u64 }).value() == -(Number { bits }).value(),
        (Number { bits: (bits + SIGN) as u64 }).is_nan() == (Number { bits }).is_nan(),
{
}

/// the next exponent stands for twice the number, and a pattern without an exponent for so many of
/// the smallest positive number
pub proof fn law_exponents_are_powers_of_two(pattern: int)
    requires
        0 <= pattern,
    ensures
        pattern < 0x10_0000_0000_0000 ==> magnitude(pattern) == pattern,
        0x10_0000_0000_0000 <= pattern < 0x20_0000_0000_0000 ==> magnitude(pattern) == pattern,
        pattern >= 0x10_0000_0000_0000 ==> magnitude(pattern + 0x10_0000_0000_0000) == 2
            * magnitude(pattern),
{
    let n = MANTISSAS as int;
    let exponent = pattern / n;
    let mantissa = pattern % n;
    assert((pattern + n) / n == exponent + 1);
    assert((pattern + n) % n == mantissa);
    lemma2_to64();
    if pattern >= n {
        lemma_pow2_unfold(exponent as nat);
        let p = pow2((exponent - 1) as nat) as int;
        assert((n + mantissa) * (2 * p) == 2 * ((n + mantissa) * p)) by (nonlinear_arith);
        if pattern < 2 * n {
            assert(exponent == 1);
            assert(mantissa == pattern - n);
            assert(p == 1);
            assert((n + mantissa) * p == n + mantissa) by (nonlinear_arith)
                requires
                    p == 1,
            ;
        }
    }
}

/// what is not a number has all bits of its exponent set and some of its mantissa.  of two that are
/// numbers, one is less than the other just if it stands for less, and the same just if it stands for
/// the same.
pub proof fn law_numbers_are_compared_by_what_they_stand_for(a: Number, b: Number)
    ensures
        a.bits < 0x8000_0000_0000_0000 ==> (a.is_nan() <==> a.bits > 0x7ff0_0000_0000_0000),
        a.bits >= 0x8000_0000_0000_0000 ==> (a.is_nan() <==> a.bits > 0xfff0_0000_0000_0000),
        a.below(b) <==> !a.is_nan() && !b.is_nan() && a.value() < b.value(),
        a.same(b) <==> !a.is_nan() && !b.is_nan() && a.value() == b.value(),
        (Number { bits: 0 }).value() == 0,
{
    law_exponents_are_powers_of_two(0);
}

} // verus!
