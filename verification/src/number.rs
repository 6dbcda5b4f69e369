//! IEEE-754 numbers held by their bit patterns.
//!
//! The library orders, compares, stores and routes numbers; it never adds or
//! multiplies them. For that the bit pattern is enough: sign and magnitude
//! give every number its place on the number line.

use vstd::arithmetic::mul::lemma_mul_inequality;
use vstd::arithmetic::power2::{
    lemma2_to64, lemma2_to64_rest, lemma_pow2_pos, lemma_pow2_strictly_increases,
    lemma_pow2_unfold, pow2,
};
use vstd::prelude::*;

verus! {

/// The bit pattern of one half in double precision.
pub const HALF: u64 = 0x3fe0_0000_0000_0000;

/// The bit pattern of one in double precision.
pub const ONE: u64 = 0x3ff0_0000_0000_0000;

/// The bit pattern of two in double precision.
pub const TWO: u64 = 0x4000_0000_0000_0000;

/// The bit pattern of one half in single precision.
pub const HALF_S: u32 = 0x3f00_0000;

/// The bit pattern of one in single precision.
pub const ONE_S: u32 = 0x3f80_0000;

/// The bit pattern of two in single precision.
pub const TWO_S: u32 = 0x4000_0000;

/// A single-precision number, held by its bit pattern.
#[derive(Clone, Copy, Debug, PartialEq, Eq, Structural)]
pub struct Single {
    /// The sign, exponent and significand bits.
    pub bits: u32,
}

/// A double-precision number, held by its bit pattern.
#[derive(Clone, Copy, Debug, PartialEq, Eq, Structural)]
pub struct Wide {
    /// The sign, exponent and significand bits.
    pub bits: u64,
}

impl Single {
    /// The distance from zero in the number line of bit patterns.
    pub open spec fn magnitude(self) -> int {
        if self.bits >= 0x8000_0000 { self.bits - 0x8000_0000 } else { self.bits as int }
    }

    /// Whether the pattern encodes no number at all.
    pub open spec fn nan(self) -> bool {
        self.magnitude() > 0x7f80_0000
    }

    /// The place of the number on the number line: order and equality of
    /// two numbers are order and equality of their places.
    pub open spec fn place(self) -> int {
        if self.bits >= 0x8000_0000 { -self.magnitude() } else { self.magnitude() }
    }

    /// The comparison `self < other`, false when either is not a number.
    pub open spec fn lt(self, other: Single) -> bool {
        !self.nan() && !other.nan() && self.place() < other.place()
    }

    /// The comparison `self <= other`, false when either is not a number.
    pub open spec fn le(self, other: Single) -> bool {
        !self.nan() && !other.nan() && self.place() <= other.place()
    }

    /// The comparison `self == other`: both zeros are equal, and what is not
    /// a number equals nothing.
    pub open spec fn same(self, other: Single) -> bool {
        !self.nan() && !other.nan() && self.place() == other.place()
    }

    /// Whether the number is an ordinary one, neither infinite nor "not a
    /// number".
    pub open spec fn finite(self) -> bool {
        self.magnitude() < 0x7f80_0000
    }

    /// The least number above this one; infinity and "not a number" stay as
    /// they are.
    pub open spec fn successor(self) -> Single {
        if self.nan() || self.bits == 0x7f80_0000 {
            self
        } else if self.magnitude() == 0 {
            Single { bits: 1 }
        } else if self.bits >= 0x8000_0000 {
            Single { bits: (self.bits - 1) as u32 }
        } else {
            Single { bits: (self.bits + 1) as u32 }
        }
    }

    /// The whole part of the number's distance from zero.
    pub open spec fn whole(self) -> int {
        let exponent = self.magnitude() / 0x80_0000;
        let significand = 0x80_0000 + self.magnitude() % 0x80_0000;
        if exponent < 127 {
            0
        } else if exponent < 150 {
            significand / (pow2((150 - exponent) as nat) as int)
        } else {
            significand * pow2((exponent - 150) as nat)
        }
    }

    /// The number as a count of at most `max`: the fraction is dropped, what
    /// lies outside is held at the ends, and "not a number" counts as zero.
    pub open spec fn count(self, max: int) -> int {
        if self.nan() || self.bits >= 0x8000_0000 {
            0
        } else if self.whole() > max {
            max
        } else {
            self.whole()
        }
    }

    /// The number zero.
    pub fn zero() -> (r: Single)
        ensures
            r == (Single { bits: 0 }),
    {
        Single { bits: 0 }
    }

    /// A quiet "not a number".
    pub fn not_a_number() -> (r: Single)
        ensures
            r == (Single { bits: 0x7fc0_0000 }),
            r.nan(),
    {
        Single { bits: 0x7fc0_0000 }
    }

    /// Whether the pattern encodes no number at all.
    pub fn is_nan(self) -> (r: bool)
        ensures
            r == self.nan(),
    {
        if self.bits >= 0x8000_0000 { self.bits > 0xff80_0000 } else { self.bits > 0x7f80_0000 }
    }

    /// The place of the number on the number line.
    pub fn key(self) -> (r: i64)
        ensures
            r == self.place(),
            -0x8000_0000 < r < 0x8000_0000,
    {
        if self.bits >= 0x8000_0000 {
            0x8000_0000i64 - self.bits as i64
        } else {
            self.bits as i64
        }
    }

    /// The comparison `self < other`.
    pub fn is_lt(self, other: Single) -> (r: bool)
        ensures
            r == self.lt(other),
    {
        !self.is_nan() && !other.is_nan() && self.key() < other.key()
    }

    /// The comparison `self <= other`.
    pub fn is_le(self, other: Single) -> (r: bool)
        ensures
            r == self.le(other),
    {
        !self.is_nan() && !other.is_nan() && self.key() <= other.key()
    }

    /// The comparison `self == other` of numbers.
    pub fn is_same(self, other: Single) -> (r: bool)
        ensures
            r == self.same(other),
    {
        !self.is_nan() && !other.is_nan() && self.key() == other.key()
    }

    /// The number with its sign flipped.
    pub open spec fn negated(self) -> Single {
        if self.bits >= 0x8000_0000 {
            Single { bits: (self.bits - 0x8000_0000) as u32 }
        } else {
            Single { bits: (self.bits + 0x8000_0000) as u32 }
        }
    }

    /// The number with its sign flipped.
    pub fn neg(self) -> (r: Single)
        ensures
            r == self.negated(),
    {
        if self.bits >= 0x8000_0000 {
            Single { bits: self.bits - 0x8000_0000 }
        } else {
            Single { bits: self.bits + 0x8000_0000 }
        }
    }

    /// The greater of two numbers; of a number and "not a number", the number.
    pub open spec fn greater(self, other: Single) -> Single {
        if self.nan() || self.lt(other) { other } else { self }
    }

    /// The greater of two numbers.
    pub fn max(self, other: Single) -> (r: Single)
        ensures
            r == self.greater(other),
    {
        if self.is_nan() || self.is_lt(other) { other } else { self }
    }

    /// This number held within `[lower, upper]`.
    pub open spec fn clamped(self, lower: Single, upper: Single) -> Single {
        if self.lt(lower) {
            lower
        } else if upper.lt(self) {
            upper
        } else {
            self
        }
    }

    /// This number held within `[lower, upper]`.
    pub fn clamp(self, lower: Single, upper: Single) -> (r: Single)
        ensures
            r == self.clamped(lower, upper),
    {
        if self.is_lt(lower) {
            lower
        } else if upper.is_lt(self) {
            upper
        } else {
            self
        }
    }

    /// The least number above this one.
    pub fn next_up(self) -> (r: Single)
        ensures
            r == self.successor(),
            !self.nan() && self.bits != 0x7f80_0000 ==> r.place() == self.place() + 1 && !r.nan(),
    {
        if self.is_nan() || self.bits == 0x7f80_0000 {
            self
        } else if self.bits == 0 || self.bits == 0x8000_0000 {
            Single { bits: 1 }
        } else if self.bits >= 0x8000_0000 {
            Single { bits: self.bits - 1 }
        } else {
            Single { bits: self.bits + 1 }
        }
    }
}

/// A count lies between zero and its greatest value.
pub proof fn counts_are_bounded(v: Single, max: int)
    requires
        0 <= max,
    ensures
        0 <= v.count(max) <= max,
{
    let exponent = v.magnitude() / 0x80_0000;
    let significand = 0x80_0000 + v.magnitude() % 0x80_0000;
    if 127 <= exponent < 150 {
        lemma_pow2_pos((150 - exponent) as nat);
        let scale = pow2((150 - exponent) as nat) as int;
        assert(0 <= significand / scale) by (nonlinear_arith)
            requires
                0 <= significand,
                0 < scale,
        ;
    } else if exponent >= 150 {
        let scale = pow2((exponent - 150) as nat) as int;
        assert(0 <= significand * scale) by (nonlinear_arith)
            requires
                0 <= significand,
                0 <= scale,
        ;
    }
}

fn power_of_two(k: u32) -> (r: u64)
    requires
        k < 64,
    ensures
        r == pow2(k as nat),
{
    let mut r: u64 = 1;
    let mut i: u32 = 0;
    proof {
        lemma2_to64();
        lemma2_to64_rest();
    }
    while i < k
        invariant
            i <= k < 64,
            r == pow2(i as nat),
            pow2(63) == 0x8000_0000_0000_0000,
        decreases k - i,
    {
        proof {
            lemma_pow2_unfold((i + 1) as nat);
            if i + 1 < 63 {
                lemma_pow2_strictly_increases((i + 1) as nat, 63);
            }
        }
        r = r * 2;
        i = i + 1;
    }
    r
}

impl Single {
    /// The number as a count in 64 bits.
    pub fn to_u64(self) -> (r: u64)
        ensures
            r == self.count(u64::MAX as int),
    {
        if self.is_nan() || self.bits >= 0x8000_0000 {
            return 0;
        }
        let exponent: u32 = self.bits / 0x80_0000;
        let significand: u64 = (0x80_0000 + self.bits % 0x80_0000) as u64;
        if exponent < 127 {
            return 0;
        }
        if exponent < 150 {
            let scale: u64 = power_of_two(150 - exponent);
            proof {
                lemma_pow2_pos((150 - exponent) as nat);
                assert(significand / scale <= significand) by (nonlinear_arith)
                    requires
                        scale > 0,
                ;
            }
            return significand / scale;
        }
        let ghost shift = (exponent - 150) as nat;
        proof {
            lemma2_to64();
            lemma2_to64_rest();
        }
        if exponent >= 191 {
            proof {
                if shift > 41 {
                    lemma_pow2_strictly_increases(41, shift);
                }
                lemma_mul_inequality(0x80_0000, significand as int, pow2(shift) as int);
                assert(0x80_0000 * pow2(shift) >= 0x80_0000 * 0x200_0000_0000);
            }
            return u64::MAX;
        }
        let scale: u64 = power_of_two(exponent - 150);
        proof {
            if shift < 40 {
                lemma_pow2_strictly_increases(shift, 40);
            }
            assert(significand * scale <= 0xff_ffff * 0x100_0000_0000) by (nonlinear_arith)
                requires
                    significand <= 0xff_ffff,
                    scale <= 0x100_0000_0000,
            ;
        }
        significand * scale
    }

    /// Whether the number is neither infinite nor "not a number".
    pub fn is_finite(self) -> (r: bool)
        ensures
            r == self.finite(),
    {
        if self.bits >= 0x8000_0000 {
            self.bits < 0xff80_0000
        } else {
            self.bits < 0x7f80_0000
        }
    }

    /// The number as a count in 32 bits.
    pub fn to_u32(self) -> (r: u32)
        ensures
            r == self.count(u32::MAX as int),
    {
        let wide: u64 = self.to_u64();
        if wide > u32::MAX as u64 { u32::MAX } else { wide as u32 }
    }

    /// The number as a count that can index.
    pub fn to_usize(self) -> (r: usize)
        ensures
            r == self.count(usize::MAX as int),
    {
        let wide: u64 = self.to_u64();
        if wide > usize::MAX as u64 { usize::MAX } else { wide as usize }
    }
}

impl Wide {
    /// The distance from zero in the number line of bit patterns.
    pub open spec fn magnitude(self) -> int {
        if self.bits >= 0x8000_0000_0000_0000 {
            self.bits - 0x8000_0000_0000_0000
        } else {
            self.bits as int
        }
    }

    /// Whether the pattern encodes no number at all.
    pub open spec fn nan(self) -> bool {
        self.magnitude() > 0x7ff0_0000_0000_0000
    }

    /// The place of the number on the number line.
    pub open spec fn place(self) -> int {
        if self.bits >= 0x8000_0000_0000_0000 { -self.magnitude() } else { self.magnitude() }
    }

    /// The comparison `self < other`, false when either is not a number.
    pub open spec fn lt(self, other: Wide) -> bool {
        !self.nan() && !other.nan() && self.place() < other.place()
    }

    /// The comparison `self <= other`, false when either is not a number.
    pub open spec fn le(self, other: Wide) -> bool {
        !self.nan() && !other.nan() && self.place() <= other.place()
    }

    /// The comparison `self == other` of numbers.
    pub open spec fn same(self, other: Wide) -> bool {
        !self.nan() && !other.nan() && self.place() == other.place()
    }

    /// Whether the number is an ordinary one, neither infinite nor "not a
    /// number".
    pub open spec fn finite(self) -> bool {
        self.magnitude() < 0x7ff0_0000_0000_0000
    }

    /// The place in the total order of all patterns: negative patterns by
    /// falling magnitude, then negative zero, then positive patterns.
    pub open spec fn rank(self) -> int {
        if self.bits >= 0x8000_0000_0000_0000 { -self.magnitude() - 1 } else { self.magnitude() }
    }

    /// This number held within `[lower, upper]`.
    pub open spec fn clamped(self, lower: Wide, upper: Wide) -> Wide {
        if self.lt(lower) {
            lower
        } else if upper.lt(self) {
            upper
        } else {
            self
        }
    }

    /// The number with its sign flipped.
    pub open spec fn negated(self) -> Wide {
        if self.bits >= 0x8000_0000_0000_0000 {
            Wide { bits: (self.bits - 0x8000_0000_0000_0000) as u64 }
        } else {
            Wide { bits: (self.bits + 0x8000_0000_0000_0000) as u64 }
        }
    }

    /// The number with its sign flipped.
    pub fn neg(self) -> (r: Wide)
        ensures
            r == self.negated(),
    {
        if self.bits >= 0x8000_0000_0000_0000 {
            Wide { bits: self.bits - 0x8000_0000_0000_0000 }
        } else {
            Wide { bits: self.bits + 0x8000_0000_0000_0000 }
        }
    }

    /// The number without its sign.
    pub open spec fn absolute(self) -> Wide {
        Wide { bits: self.magnitude() as u64 }
    }

    /// The number without its sign.
    pub fn abs(self) -> (r: Wide)
        ensures
            r == self.absolute(),
    {
        if self.bits >= 0x8000_0000_0000_0000 {
            Wide { bits: self.bits - 0x8000_0000_0000_0000 }
        } else {
            self
        }
    }

    /// The greater of two numbers; of a number and "not a number", the number.
    pub open spec fn greater(self, other: Wide) -> Wide {
        if self.nan() || self.lt(other) { other } else { self }
    }

    /// The greater of two numbers.
    pub fn max(self, other: Wide) -> (r: Wide)
        ensures
            r == self.greater(other),
    {
        if self.is_nan() || self.is_lt(other) { other } else { self }
    }

    /// The lesser of two numbers; of a number and "not a number", the number.
    pub open spec fn lesser(self, other: Wide) -> Wide {
        if self.nan() || other.lt(self) { other } else { self }
    }

    /// The lesser of two numbers.
    pub fn min(self, other: Wide) -> (r: Wide)
        ensures
            r == self.lesser(other),
    {
        if self.is_nan() || other.is_lt(self) { other } else { self }
    }

    /// The comparison `self == other` of numbers.
    pub fn is_same(self, other: Wide) -> (r: bool)
        ensures
            r == self.same(other),
    {
        !self.is_nan() && !other.is_nan() && self.key() == other.key()
    }

    /// The whole part of the number's distance from zero.
    pub open spec fn whole(self) -> int {
        let exponent = self.magnitude() / 0x10_0000_0000_0000;
        let significand = 0x10_0000_0000_0000 + self.magnitude() % 0x10_0000_0000_0000;
        if exponent < 1023 {
            0
        } else if exponent < 1075 {
            significand / (pow2((1075 - exponent) as nat) as int)
        } else {
            significand * pow2((exponent - 1075) as nat)
        }
    }

    /// The number as a count of at most `max`: the fraction is dropped, what
    /// lies outside is held at the ends, and "not a number" counts as zero.
    pub open spec fn count(self, max: int) -> int {
        if self.nan() || self.bits >= 0x8000_0000_0000_0000 {
            0
        } else if self.whole() > max {
            max
        } else {
            self.whole()
        }
    }

    /// The number as a count in 64 bits.
    pub fn to_u64(self) -> (r: u64)
        ensures
            r == self.count(u64::MAX as int),
    {
        if self.is_nan() || self.bits >= 0x8000_0000_0000_0000 {
            return 0;
        }
        let exponent: u64 = self.bits / 0x10_0000_0000_0000;
        let significand: u64 = 0x10_0000_0000_0000 + self.bits % 0x10_0000_0000_0000;
        if exponent < 1023 {
            return 0;
        }
        if exponent < 1075 {
            let scale: u64 = power_of_two((1075 - exponent) as u32);
            proof {
                lemma_pow2_pos((1075 - exponent) as nat);
                assert(significand / scale <= significand) by (nonlinear_arith)
                    requires
                        scale > 0,
                ;
            }
            return significand / scale;
        }
        let ghost shift = (exponent - 1075) as nat;
        proof {
            lemma2_to64();
            lemma2_to64_rest();
        }
        if exponent >= 1087 {
            proof {
                if shift > 12 {
                    lemma_pow2_strictly_increases(12, shift);
                }
                lemma_mul_inequality(
                    0x10_0000_0000_0000,
                    significand as int,
                    pow2(shift) as int,
                );
                assert(0x10_0000_0000_0000 * pow2(shift) >= 0x10_0000_0000_0000 * 0x1000);
            }
            return u64::MAX;
        }
        let scale: u64 = power_of_two((exponent - 1075) as u32);
        proof {
            if shift < 11 {
                lemma_pow2_strictly_increases(shift, 11);
            }
            assert(significand * scale <= 0x1f_ffff_ffff_ffff * 0x800) by (nonlinear_arith)
                requires
                    significand <= 0x1f_ffff_ffff_ffff,
                    scale <= 0x800,
            ;
        }
        significand * scale
    }

    /// The number as a count that can index.
    pub fn to_usize(self) -> (r: usize)
        ensures
            r == self.count(usize::MAX as int),
    {
        let wide: u64 = self.to_u64();
        if wide > usize::MAX as u64 { usize::MAX } else { wide as usize }
    }

    /// The number as a count in 32 bits.
    pub fn to_u32(self) -> (r: u32)
        ensures
            r == self.count(u32::MAX as int),
    {
        let wide: u64 = self.to_u64();
        if wide > u32::MAX as u64 { u32::MAX } else { wide as u32 }
    }

    /// The number as a signed whole number in 32 bits: the fraction is dropped,
    /// what lies outside is held at the ends, and "not a number" is zero.
    pub open spec fn integer(self) -> int {
        if self.nan() {
            0
        } else if self.bits >= 0x8000_0000_0000_0000 {
            -self.negated().count(0x8000_0000)
        } else {
            self.count(i32::MAX as int)
        }
    }

    /// The number as a signed whole number in 32 bits.
    pub fn to_i32(self) -> (r: i32)
        ensures
            r == self.integer(),
    {
        if self.is_nan() {
            return 0;
        }
        if self.bits >= 0x8000_0000_0000_0000 {
            let m: u64 = self.neg().to_u64();
            let low: u64 = if m > 0x8000_0000 { 0x8000_0000 } else { m };
            (-(low as i64)) as i32
        } else {
            let m: u64 = self.to_u64();
            if m > i32::MAX as u64 { i32::MAX } else { m as i32 }
        }
    }

    /// The number zero.
    pub fn zero() -> (r: Wide)
        ensures
            r == (Wide { bits: 0 }),
    {
        Wide { bits: 0 }
    }

    /// Positive infinity.
    pub fn infinity() -> (r: Wide)
        ensures
            r == (Wide { bits: 0x7ff0_0000_0000_0000 }),
    {
        Wide { bits: 0x7ff0_0000_0000_0000 }
    }

    /// Negative infinity.
    pub fn neg_infinity() -> (r: Wide)
        ensures
            r == (Wide { bits: 0xfff0_0000_0000_0000 }),
    {
        Wide { bits: 0xfff0_0000_0000_0000 }
    }

    /// Whether the pattern encodes no number at all.
    pub fn is_nan(self) -> (r: bool)
        ensures
            r == self.nan(),
    {
        if self.bits >= 0x8000_0000_0000_0000 {
            self.bits > 0xfff0_0000_0000_0000
        } else {
            self.bits > 0x7ff0_0000_0000_0000
        }
    }

    /// Whether the number is neither infinite nor "not a number".
    pub fn is_finite(self) -> (r: bool)
        ensures
            r == self.finite(),
    {
        if self.bits >= 0x8000_0000_0000_0000 {
            self.bits < 0xfff0_0000_0000_0000
        } else {
            self.bits < 0x7ff0_0000_0000_0000
        }
    }

    /// The place of the number on the number line.
    pub fn key(self) -> (r: i64)
        ensures
            r == self.place(),
    {
        if self.bits >= 0x8000_0000_0000_0000 {
            -((self.bits - 0x8000_0000_0000_0000) as i64)
        } else {
            self.bits as i64
        }
    }

    /// The place in the total order of all patterns.
    pub fn total_key(self) -> (r: i64)
        ensures
            r == self.rank(),
    {
        if self.bits >= 0x8000_0000_0000_0000 {
            -((self.bits - 0x8000_0000_0000_0000) as i64) - 1
        } else {
            self.bits as i64
        }
    }

    /// The comparison `self < other`.
    pub fn is_lt(self, other: Wide) -> (r: bool)
        ensures
            r == self.lt(other),
    {
        !self.is_nan() && !other.is_nan() && self.key() < other.key()
    }

    /// The comparison `self <= other`.
    pub fn is_le(self, other: Wide) -> (r: bool)
        ensures
            r == self.le(other),
    {
        !self.is_nan() && !other.is_nan() && self.key() <= other.key()
    }

    /// This number held within `[lower, upper]`.
    pub fn clamp(self, lower: Wide, upper: Wide) -> (r: Wide)
        ensures
            r == self.clamped(lower, upper),
            lower.le(upper) && !self.nan() ==> lower.le(r) && r.le(upper),
    {
        if self.is_lt(lower) {
            lower
        } else if upper.is_lt(self) {
            upper
        } else {
            self
        }
    }
}

} // verus!
