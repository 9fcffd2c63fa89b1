use vstd::prelude::*;
use vstd::arithmetic::power2::pow2;
use vstd::arithmetic::power2::lemma2_to64;
use vstd::arithmetic::power2::lemma2_to64_rest;
use vstd::arithmetic::power2::lemma_pow2_adds;
use vstd::arithmetic::power2::lemma_pow2_pos;
use vstd::bits::lemma_u64_shl_is_mul;
use vstd::bits::lemma_u64_shr_is_div;

verus! {

/// Raw representation of a torus value: the numerator of a fraction over `2^64`.
pub type RawTorus = u64;

/// A fixed-point real number modulo 1, stored as a numerator over `2^64`.
#[derive(Copy, Clone, Debug, Default, PartialEq, Eq, PartialOrd, Ord, Structural)]
pub struct Torus(pub RawTorus);

/// Number of representable torus values, `2^64`.
pub open spec fn modulus() -> int {
    0x1_0000_0000_0000_0000int
}

/// Sum of two numerators, reduced modulo `2^64`.
pub open spec fn wrap_add(a: int, b: int) -> int {
    (a + b) % modulus()
}

/// Difference of two numerators, reduced modulo `2^64`.
pub open spec fn wrap_sub(a: int, b: int) -> int {
    (a - b) % modulus()
}

/// Additive inverse of a numerator modulo `2^64`.
pub open spec fn wrap_neg(a: int) -> int {
    (-a) % modulus()
}

/// Length of the shorter of the two arcs between two numerators.
pub open spec fn arc(a: int, b: int) -> int {
    let d = if a >= b { a - b } else { b - a };
    if d < modulus() - d { d } else { modulus() - d }
}

/// Numerator that stands for the integer `value` at a precision of `log_scale` bits.
pub open spec fn encode(value: int, log_scale: nat) -> int {
    value * pow2((64 - log_scale) as nat)
}

/// Integer nearest to a numerator at a precision of `log_scale` bits, ties rounding up,
/// where the integer `2^log_scale` wraps to zero.
pub open spec fn decode(raw: int, log_scale: nat) -> int {
    if log_scale == 0 {
        0
    } else {
        ((raw + pow2((63 - log_scale) as nat)) % modulus()) / (pow2((64 - log_scale) as nat) as int)
    }
}

impl View for Torus {
    type V = int;

    open spec fn view(&self) -> int {
        self.0 as int
    }
}

impl Torus {
    /// The value one half.
    pub fn half() -> (r: Self)
        ensures
            r.0 == 0x8000_0000_0000_0000u64,
    {
        Torus(0x8000_0000_0000_0000u64)
    }

    /// The value zero.
    pub fn min_value() -> (r: Self)
        ensures
            r.0 == 0,
    {
        Torus(0u64)
    }

    /// The value with the largest numerator.
    pub fn max_value() -> (r: Self)
        ensures
            r.0 == 0xffff_ffff_ffff_ffffu64,
    {
        Torus(0xffff_ffff_ffff_ffffu64)
    }

    /// Wraps a raw numerator.
    pub fn from_raw(value: RawTorus) -> (r: Self)
        ensures
            r.0 == value,
    {
        Torus(value)
    }

    /// Returns the raw numerator.
    pub fn into_raw(self) -> (r: RawTorus)
        ensures
            r == self.0,
    {
        self.0
    }

    /// Encodes the integer `value` at a precision of `log_scale` bits.
    pub fn from_unsigned(value: RawTorus, log_scale: usize) -> (r: Self)
        requires
            log_scale < 32,
            value < pow2(log_scale as nat),
        ensures
            r@ == encode(value as int, log_scale as nat),
    {
        if log_scale == 0 {
            proof {
                lemma2_to64();
                assert(value == 0);
                assert(encode(0, 0) == 0);
            }
            return Torus(0);
        }
        let shift: u64 = 64 - log_scale as u64;
        proof {
            lemma_pow2_adds(log_scale as nat, shift as nat);
            lemma_pow2_pos(shift as nat);
            lemma2_to64_rest();
            assert(value * pow2(shift as nat) <= u64::MAX) by (nonlinear_arith)
                requires
                    value < pow2(log_scale as nat),
                    pow2(log_scale as nat) * pow2(shift as nat) == 0x1_0000_0000_0000_0000,
                    pow2(shift as nat) > 0,
            ;
            lemma_u64_shl_is_mul(value, shift);
        }
        Torus(value << shift)
    }

    /// Decodes to the nearest integer at a precision of `log_scale` bits.
    pub fn into_unsigned(self, log_scale: usize) -> (r: RawTorus)
        requires
            log_scale < 32,
        ensures
            r == decode(self@, log_scale as nat),
            r < pow2(log_scale as nat),
    {
        if log_scale == 0 {
            proof {
                lemma2_to64();
            }
            return 0;
        }
        let shift: u64 = 64 - log_scale as u64;
        let half_shift: u64 = shift - 1;
        proof {
            lemma2_to64();
            vstd::bits::lemma_u64_pow2_no_overflow(half_shift as nat);
            lemma_u64_shl_is_mul(1u64, half_shift);
        }
        let offset: u64 = 1u64 << half_shift;
        let rounded: u64 = self.0.wrapping_add(offset);
        proof {
            lemma_u64_shr_is_div(rounded, shift);
            lemma_pow2_adds(log_scale as nat, shift as nat);
            lemma_pow2_pos(shift as nat);
            lemma2_to64_rest();
            assert(rounded as int / (pow2(shift as nat) as int) < pow2(log_scale as nat))
                by (nonlinear_arith)
                requires
                    rounded < 0x1_0000_0000_0000_0000,
                    pow2(log_scale as nat) * pow2(shift as nat) == 0x1_0000_0000_0000_0000,
                    pow2(shift as nat) > 0,
            ;
        }
        rounded >> shift
    }

    /// Distance between two torus values: the shorter way round.
    pub fn distance(self, other: Self) -> (r: Self)
        ensures
            r@ == arc(self@, other@),
    {
        let diff: u64 = if self.0 >= other.0 {
            self.0 - other.0
        } else {
            other.0 - self.0
        };
        if diff < 0x8000_0000_0000_0000u64 {
            Torus(diff)
        } else {
            Torus((0xffff_ffff_ffff_ffffu64 - diff).wrapping_add(1))
        }
    }

    /// Wraparound sum.
    pub fn add(self, rhs: Self) -> (r: Self)
        ensures
            r@ == wrap_add(self@, rhs@),
    {
        Torus(self.0.wrapping_add(rhs.0))
    }

    /// Wraparound difference.
    pub fn sub(self, rhs: Self) -> (r: Self)
        ensures
            r@ == wrap_sub(self@, rhs@),
    {
        Torus(self.0.wrapping_sub(rhs.0))
    }

    /// Wraparound negation.
    pub fn neg(self) -> (r: Self)
        ensures
            r@ == wrap_neg(self@),
    {
        Torus(0u64.wrapping_sub(self.0))
    }

    /// Adds `rhs` in place.
    pub fn add_assign(&mut self, rhs: Self)
        ensures
            final(self)@ == wrap_add(old(self)@, rhs@),
    {
        self.0 = self.0.wrapping_add(rhs.0);
    }

    /// Subtracts `rhs` in place.
    pub fn sub_assign(&mut self, rhs: Self)
        ensures
            final(self)@ == wrap_sub(old(self)@, rhs@),
    {
        self.0 = self.0.wrapping_sub(rhs.0);
    }
}

impl core::ops::AddAssign for Torus {
    fn add_assign(&mut self, rhs: Torus)
        ensures
            final(self)@ == wrap_add(old(self)@, rhs@),
    {
        self.0 = self.0.wrapping_add(rhs.0);
    }
}

impl core::ops::SubAssign for Torus {
    fn sub_assign(&mut self, rhs: Torus)
        ensures
            final(self)@ == wrap_sub(old(self)@, rhs@),
    {
        self.0 = self.0.wrapping_sub(rhs.0);
    }
}

/// Encoding an integer below `2^log_scale` and decoding it at the same precision gives
/// the integer back.
pub proof fn lemma_encode_decode(value: int, log_scale: nat)
    requires
        log_scale < 32,
        0 <= value < pow2(log_scale),
    ensures
        0 <= encode(value, log_scale) < modulus(),
        decode(encode(value, log_scale), log_scale) == value,
{
    lemma2_to64();
    lemma2_to64_rest();
    if log_scale == 0 {
        assert(value == 0);
        assert(encode(0, 0) == 0);
    } else {
        let hi = pow2((64 - log_scale) as nat) as int;
        let half = pow2((63 - log_scale) as nat) as int;
        lemma_pow2_adds(log_scale, (64 - log_scale) as nat);
        lemma_pow2_adds(1, (63 - log_scale) as nat);
        lemma_pow2_pos((63 - log_scale) as nat);
        assert(hi == 2 * half);
        assert(pow2(log_scale) * hi == modulus());
        assert(0 <= value * hi && value * hi + hi <= modulus()) by (nonlinear_arith)
            requires
                0 <= value < pow2(log_scale),
                hi > 0,
                pow2(log_scale) * hi == modulus(),
        ;
        let x = value * hi + half;
        assert(x % modulus() == x) by {
            vstd::arithmetic::div_mod::lemma_small_mod(x as nat, modulus() as nat);
        }
        assert(x / hi == value) by {
            vstd::arithmetic::div_mod::lemma_fundamental_div_mod_converse(x, hi, value, half);
        }
    }
}

} // verus!
