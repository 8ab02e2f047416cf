//! IEEE 754 binary32 numbers held by their bit patterns, and their order.

use vstd::prelude::*;
use vstd::arithmetic::power2::{lemma2_to64, lemma2_to64_rest, lemma_pow2_strictly_increases, pow2};
use vstd::bits::{lemma_u64_mul_pow2_le_max_iff_max_shr, lemma_u64_shl_is_mul, lemma_u64_shr_is_div};

verus! {

/// The bit that holds the sign.
pub const SIGN_BIT: u32 = 0x8000_0000;

/// The bit pattern of positive infinity. A magnitude above it is a NaN.
pub const INFINITY_BITS: u32 = 0x7f80_0000;

/// The bit pattern of `1.0`.
pub const ONE_BITS: u32 = 0x3f80_0000;

/// The lowest bit of the exponent field: the fraction field lies below it.
pub const EXPONENT_UNIT: u32 = 0x80_0000;

/// A binary32 number, held by its bit pattern.
#[derive(Clone, Copy, Debug)]
pub struct Scalar {
    pub bits: u32,
}

impl Scalar {
    /// The bit pattern without its sign.
    pub open spec fn magnitude(self) -> int {
        if self.bits >= SIGN_BIT {
            self.bits - SIGN_BIT
        } else {
            self.bits as int
        }
    }

    /// Whether the sign bit is set. This holds of `-0.0` too.
    pub open spec fn sign(self) -> bool {
        self.bits >= SIGN_BIT
    }

    /// Whether the number is a NaN.
    pub open spec fn nan(self) -> bool {
        self.magnitude() > INFINITY_BITS
    }

    /// The place of a number in the order of the numbers: a larger number
    /// has a larger key, and the two zeros share the key 0. It says nothing
    /// of a NaN.
    pub open spec fn key(self) -> int {
        if self.sign() {
            -self.magnitude()
        } else {
            self.magnitude()
        }
    }

    /// The exponent field of the bit pattern.
    pub open spec fn exponent(self) -> int {
        self.magnitude() / (EXPONENT_UNIT as int)
    }

    /// The whole number of which the magnitude is a multiple by a power of
    /// two: the fraction field, with the bit above it set unless the exponent
    /// field is 0.
    pub open spec fn significand(self) -> int {
        if self.exponent() == 0 {
            self.magnitude() % (EXPONENT_UNIT as int)
        } else {
            EXPONENT_UNIT + self.magnitude() % (EXPONENT_UNIT as int)
        }
    }

    /// The power of two by which the significand is multiplied: the
    /// magnitude of a number that is neither a NaN nor an infinity is
    /// `significand * 2^scale`. It is `-149` at the least.
    pub open spec fn scale(self) -> int {
        if self.exponent() == 0 {
            -149
        } else {
            self.exponent() - 150
        }
    }

    /// The whole part of the magnitude after it has been doubled so many
    /// times. An infinity counts as the number that its bit pattern gives,
    /// which is above every number that is none.
    pub open spec fn whole_of_scaled(self, doublings: nat) -> nat {
        let shift = self.scale() + doublings;
        if shift >= 0 {
            (self.significand() * pow2(shift as nat)) as nat
        } else {
            (self.significand() / (pow2((-shift) as nat) as int)) as nat
        }
    }

    /// The number as a whole number of the machine, as a cast has it: the
    /// whole part of the number, the largest whole number of the machine for
    /// what lies above that, and 0 for what lies below 0 and for a NaN.
    pub open spec fn spec_to_usize(self) -> usize {
        if self.nan() || self.sign() {
            0
        } else if self.whole_of_scaled(0) > usize::MAX {
            usize::MAX
        } else {
            self.whole_of_scaled(0) as usize
        }
    }

    /// The number as a byte, as a cast has it: the whole part of the number,
    /// 255 for what lies above that, and 0 for what lies below 0 and for a
    /// NaN.
    pub open spec fn spec_to_byte(self) -> u8 {
        if self.spec_to_usize() > 255 {
            255
        } else {
            self.spec_to_usize() as u8
        }
    }

    /// `self < other` as IEEE 754 has it: false when either is a NaN.
    pub open spec fn spec_lt(self, other: Scalar) -> bool {
        !self.nan() && !other.nan() && self.key() < other.key()
    }

    /// `self <= other` as IEEE 754 has it: false when either is a NaN.
    pub open spec fn spec_le(self, other: Scalar) -> bool {
        !self.nan() && !other.nan() && self.key() <= other.key()
    }

    /// `self > other` as IEEE 754 has it: false when either is a NaN.
    pub open spec fn spec_gt(self, other: Scalar) -> bool {
        other.spec_lt(self)
    }

    /// `self >= other` as IEEE 754 has it: false when either is a NaN.
    pub open spec fn spec_ge(self, other: Scalar) -> bool {
        other.spec_le(self)
    }

    /// `self == other` as IEEE 754 has it: a NaN equals nothing, and the two
    /// zeros are equal.
    pub open spec fn spec_same(self, other: Scalar) -> bool {
        !self.nan() && !other.nan() && self.key() == other.key()
    }

    /// The smaller of two numbers. A NaN gives way to the other number; of
    /// two equal numbers the first is kept.
    pub open spec fn spec_min(self, other: Scalar) -> Scalar {
        if self.nan() {
            other
        } else if other.spec_lt(self) {
            other
        } else {
            self
        }
    }

    /// The larger of two numbers. A NaN gives way to the other number; of
    /// two equal numbers the first is kept.
    pub open spec fn spec_max(self, other: Scalar) -> Scalar {
        if self.nan() {
            other
        } else if self.spec_lt(other) {
            other
        } else {
            self
        }
    }

    /// The number with its sign flipped.
    pub open spec fn spec_neg(self) -> Scalar {
        if self.bits >= SIGN_BIT {
            Scalar { bits: (self.bits - SIGN_BIT) as u32 }
        } else {
            Scalar { bits: (self.bits + SIGN_BIT) as u32 }
        }
    }

    /// The number with its sign cleared.
    pub open spec fn spec_abs(self) -> Scalar {
        Scalar { bits: self.magnitude() as u32 }
    }

    /// `0.0`.
    pub open spec fn spec_zero() -> Scalar {
        Scalar { bits: 0 }
    }

    /// `1.0`.
    pub open spec fn spec_one() -> Scalar {
        Scalar { bits: ONE_BITS }
    }

    /// Positive infinity.
    pub open spec fn spec_infinity() -> Scalar {
        Scalar { bits: INFINITY_BITS }
    }

    /// Negative infinity.
    pub open spec fn spec_neg_infinity() -> Scalar {
        Scalar { bits: 0xff80_0000 }
    }

    /// The number with the given bit pattern.
    pub fn from_bits(bits: u32) -> (out: Scalar)
        ensures
            out.bits == bits,
    {
        Scalar { bits }
    }

    /// The bit pattern of the number.
    pub fn to_bits(self) -> (out: u32)
        ensures
            out == self.bits,
    {
        self.bits
    }

    #[verifier::when_used_as_spec(spec_zero)]
    pub fn zero() -> (out: Scalar)
        ensures
            out == Scalar::spec_zero(),
    {
        Scalar { bits: 0 }
    }

    #[verifier::when_used_as_spec(spec_one)]
    pub fn one() -> (out: Scalar)
        ensures
            out == Scalar::spec_one(),
    {
        Scalar { bits: ONE_BITS }
    }

    #[verifier::when_used_as_spec(spec_infinity)]
    pub fn infinity() -> (out: Scalar)
        ensures
            out == Scalar::spec_infinity(),
    {
        Scalar { bits: INFINITY_BITS }
    }

    #[verifier::when_used_as_spec(spec_neg_infinity)]
    pub fn neg_infinity() -> (out: Scalar)
        ensures
            out == Scalar::spec_neg_infinity(),
    {
        Scalar { bits: 0xff80_0000 }
    }

    fn magnitude_bits(self) -> (out: u32)
        ensures
            out == self.magnitude(),
            out < SIGN_BIT,
    {
        if self.bits >= SIGN_BIT {
            self.bits - SIGN_BIT
        } else {
            self.bits
        }
    }

    fn signed_key(self) -> (out: i64)
        ensures
            out == self.key(),
    {
        let m: u32 = self.magnitude_bits();
        if self.bits >= SIGN_BIT {
            0i64 - (m as i64)
        } else {
            m as i64
        }
    }

    /// The whole part of the magnitude after it has been doubled so many
    /// times, or the largest whole number of the machine where the whole part
    /// lies above that.
    pub fn scaled_to_usize(self, doublings: u32) -> (out: usize)
        ensures
            out == if self.whole_of_scaled(doublings as nat) > usize::MAX {
                usize::MAX as nat
            } else {
                self.whole_of_scaled(doublings as nat)
            },
    {
        let magnitude: u32 = self.magnitude_bits();
        let exponent: u32 = magnitude / EXPONENT_UNIT;
        let fraction: u32 = magnitude % EXPONENT_UNIT;
        let significand: u64 = if exponent == 0 {
            fraction as u64
        } else {
            (EXPONENT_UNIT + fraction) as u64
        };
        let lifted: u64 = if exponent == 0 {
            1u64 + doublings as u64
        } else {
            exponent as u64 + doublings as u64
        };
        proof {
            lemma2_to64();
            lemma2_to64_rest();
        }
        if lifted >= 150 {
            let shift: u64 = lifted - 150;
            if significand == 0 {
                assert(0 * pow2(shift as nat) == 0);
                0
            } else if shift >= 64 {
                proof {
                    if shift > 64 {
                        lemma_pow2_strictly_increases(64, shift as nat);
                    }
                    assert(significand * pow2(shift as nat) >= 0x1_0000_0000_0000_0000) by (nonlinear_arith)
                        requires
                            significand >= 1,
                            pow2(shift as nat) >= 0x1_0000_0000_0000_0000,
                    ;
                }
                usize::MAX
            } else if significand > (u64::MAX >> shift) {
                proof {
                    lemma_u64_mul_pow2_le_max_iff_max_shr(significand, shift, u64::MAX);
                }
                usize::MAX
            } else {
                proof {
                    lemma_u64_mul_pow2_le_max_iff_max_shr(significand, shift, u64::MAX);
                    lemma_u64_shl_is_mul(significand, shift);
                }
                let whole: u64 = significand << shift;
                if whole > usize::MAX as u64 {
                    usize::MAX
                } else {
                    whole as usize
                }
            }
        } else {
            let shift: u64 = 150 - lifted;
            if shift >= 24 {
                proof {
                    if shift > 24 {
                        lemma_pow2_strictly_increases(24, shift as nat);
                    }
                    assert(significand as int / (pow2(shift as nat) as int) == 0) by (nonlinear_arith)
                        requires
                            0 <= significand < 0x100_0000,
                            pow2(shift as nat) >= 0x100_0000,
                    ;
                }
                0
            } else {
                proof {
                    lemma_u64_shr_is_div(significand, shift);
                }
                let whole: u64 = significand >> shift;
                whole as usize
            }
        }
    }

    #[verifier::when_used_as_spec(spec_to_usize)]
    pub fn to_usize(self) -> (out: usize)
        ensures
            out == self.spec_to_usize(),
    {
        if self.is_nan() || self.bits >= SIGN_BIT {
            0
        } else {
            self.scaled_to_usize(0)
        }
    }

    #[verifier::when_used_as_spec(spec_to_byte)]
    pub fn to_byte(self) -> (out: u8)
        ensures
            out == self.spec_to_byte(),
    {
        let whole = self.to_usize();
        if whole > 255 {
            255
        } else {
            whole as u8
        }
    }

    /// Whether the number is a NaN.
    pub fn is_nan(self) -> (out: bool)
        ensures
            out == self.nan(),
    {
        self.magnitude_bits() > INFINITY_BITS
    }

    #[verifier::when_used_as_spec(spec_lt)]
    pub fn lt(self, other: Scalar) -> (out: bool)
        ensures
            out == self.spec_lt(other),
    {
        !self.is_nan() && !other.is_nan() && self.signed_key() < other.signed_key()
    }

    #[verifier::when_used_as_spec(spec_le)]
    pub fn le(self, other: Scalar) -> (out: bool)
        ensures
            out == self.spec_le(other),
    {
        !self.is_nan() && !other.is_nan() && self.signed_key() <= other.signed_key()
    }

    #[verifier::when_used_as_spec(spec_gt)]
    pub fn gt(self, other: Scalar) -> (out: bool)
        ensures
            out == self.spec_gt(other),
    {
        other.lt(self)
    }

    #[verifier::when_used_as_spec(spec_ge)]
    pub fn ge(self, other: Scalar) -> (out: bool)
        ensures
            out == self.spec_ge(other),
    {
        other.le(self)
    }

    #[verifier::when_used_as_spec(spec_same)]
    pub fn same(self, other: Scalar) -> (out: bool)
        ensures
            out == self.spec_same(other),
    {
        !self.is_nan() && !other.is_nan() && self.signed_key() == other.signed_key()
    }

    #[verifier::when_used_as_spec(spec_min)]
    pub fn min(self, other: Scalar) -> (out: Scalar)
        ensures
            out == self.spec_min(other),
    {
        if self.is_nan() {
            other
        } else if other.lt(self) {
            other
        } else {
            self
        }
    }

    #[verifier::when_used_as_spec(spec_max)]
    pub fn max(self, other: Scalar) -> (out: Scalar)
        ensures
            out == self.spec_max(other),
    {
        if self.is_nan() {
            other
        } else if self.lt(other) {
            other
        } else {
            self
        }
    }

    #[verifier::when_used_as_spec(spec_neg)]
    pub fn neg(self) -> (out: Scalar)
        ensures
            out == self.spec_neg(),
    {
        if self.bits >= SIGN_BIT {
            Scalar { bits: self.bits - SIGN_BIT }
        } else {
            Scalar { bits: self.bits + SIGN_BIT }
        }
    }

    #[verifier::when_used_as_spec(spec_abs)]
    pub fn abs(self) -> (out: Scalar)
        ensures
            out == self.spec_abs(),
    {
        Scalar { bits: self.magnitude_bits() }
    }

    /// The number held between two bounds: the bound where the number lies
    /// beyond it, otherwise the number itself, and so a NaN for a NaN.
    pub open spec fn spec_clamp(self, min: Scalar, max: Scalar) -> Scalar {
        if self.lt(min) {
            min
        } else if self.gt(max) {
            max
        } else {
            self
        }
    }

    /// The number held between two bounds, of which the lower must not lie
    /// above the upper and neither may be a NaN.
    #[verifier::when_used_as_spec(spec_clamp)]
    pub fn clamp(self, min: Scalar, max: Scalar) -> (out: Scalar)
        requires
            min.le(max),
        ensures
            out == self.spec_clamp(min, max),
            !self.nan() ==> min.le(out) && out.le(max),
    {
        if self.lt(min) {
            min
        } else if self.gt(max) {
            max
        } else {
            self
        }
    }

    /// Whether the number is neither below `low` nor above `high`. A NaN is
    /// neither.
    pub open spec fn spec_within(self, low: Scalar, high: Scalar) -> bool {
        !(self.lt(low) || self.gt(high))
    }

    #[verifier::when_used_as_spec(spec_within)]
    pub fn within(self, low: Scalar, high: Scalar) -> (out: bool)
        ensures
            out == self.spec_within(low, high),
    {
        !(self.lt(low) || self.gt(high))
    }

    /// The stretch from `entry` to `exit` cut down to the stretch from
    /// `low` to `high`, or nothing where no length is left.
    pub open spec fn spec_clip(entry: Scalar, exit: Scalar, low: Scalar, high: Scalar) -> Option<(Scalar, Scalar)> {
        let from = if entry.lt(low) {
            low
        } else {
            entry
        };
        let to = if exit.gt(high) {
            high
        } else {
            exit
        };
        if from.ge(to) {
            None
        } else {
            Some((from, to))
        }
    }

    #[verifier::when_used_as_spec(spec_clip)]
    pub fn clip(entry: Scalar, exit: Scalar, low: Scalar, high: Scalar) -> (out: Option<(Scalar, Scalar)>)
        ensures
            out == Scalar::spec_clip(entry, exit, low, high),
    {
        let from = if entry.lt(low) {
            low
        } else {
            entry
        };
        let to = if exit.gt(high) {
            high
        } else {
            exit
        };
        if from.ge(to) {
            None
        } else {
            Some((from, to))
        }
    }

    /// Flipping the sign keeps the magnitude, and so what is a NaN, and
    /// mirrors the order.
    pub proof fn lemma_neg(self)
        ensures
            self.neg().magnitude() == self.magnitude(),
            self.neg().nan() == self.nan(),
            self.neg().key() == -self.key(),
            self.neg().neg() == self,
    {
    }

    /// Clearing the sign gives a number that is not below zero, with the key
    /// of the magnitude.
    pub proof fn lemma_abs(self)
        ensures
            self.abs().nan() == self.nan(),
            self.abs().key() == self.magnitude(),
            self.abs().key() >= 0,
            !self.abs().sign(),
    {
    }

    /// Of two numbers of which neither is a NaN, exactly one of `<`, `==`
    /// and `>` holds.
    pub proof fn lemma_trichotomy(self, other: Scalar)
        requires
            !self.nan(),
            !other.nan(),
        ensures
            self.lt(other) || self.same(other) || self.gt(other),
            !(self.lt(other) && self.same(other)),
            !(self.lt(other) && self.gt(other)),
            !(self.same(other) && self.gt(other)),
            self.le(other) == (self.lt(other) || self.same(other)),
    {
    }

    /// `<` and `<=` pass along a chain.
    pub proof fn lemma_transitive(self, middle: Scalar, other: Scalar)
        ensures
            self.lt(middle) && middle.lt(other) ==> self.lt(other),
            self.le(middle) && middle.lt(other) ==> self.lt(other),
            self.lt(middle) && middle.le(other) ==> self.lt(other),
            self.le(middle) && middle.le(other) ==> self.le(other),
    {
    }

    /// The smaller of two numbers is one of them and above neither; it is a
    /// NaN only if both are.
    pub proof fn lemma_min(self, other: Scalar)
        ensures
            self.min(other) == self || self.min(other) == other,
            self.min(other).nan() == (self.nan() && other.nan()),
            !self.nan() ==> self.min(other).le(self),
            !other.nan() ==> self.min(other).le(other),
    {
    }

    /// The larger of two numbers is one of them and below neither; it is a
    /// NaN only if both are.
    pub proof fn lemma_max(self, other: Scalar)
        ensures
            self.max(other) == self || self.max(other) == other,
            self.max(other).nan() == (self.nan() && other.nan()),
            !self.nan() ==> self.max(other).ge(self),
            !other.nan() ==> self.max(other).ge(other),
    {
    }
}

} // verus!
