use vstd::prelude::*;

verus! {

/// Why a set of scheme parameters is refused.
#[derive(Copy, Clone, Debug, PartialEq, Eq, Structural)]
pub enum ParamError {
    /// The polynomial size is no power of two.
    UpperNNotPowerOfTwo,
    /// The polynomial size lies outside `512 ..= 4096`.
    UpperNOutOfRange,
    /// The gadget digit count exceeds 54.
    GadgetDigitsTooMany,
    /// The gadget digit width exceeds 54 bits.
    GadgetDigitTooWide,
    /// The gadget digits cover more than 54 bits in all.
    GadgetTooPrecise,
    /// The key-switch digit count exceeds 54.
    SwitchDigitsTooMany,
    /// The key-switch digit width exceeds 54 bits.
    SwitchDigitTooWide,
    /// The key-switch digits cover more than 54 bits in all.
    SwitchTooPrecise,
}

/// The largest number of bits that the digits of one decomposition may cover.
pub const MAX_DIGIT_BITS: u32 = 54;

/// The smallest polynomial size that the table engine runs with.
pub const MIN_UPPER_N: u16 = 512;

/// The largest polynomial size that the table engine runs with.
pub const MAX_UPPER_N: u16 = 4096;

/// The scheme parameters of a run of the table engine.
#[derive(Copy, Clone, Debug, PartialEq, Eq, Structural)]
pub struct SchemeParams {
    /// Polynomial size `N`.
    pub upper_n: u16,
    /// Gadget digit count.
    pub l: u8,
    /// Gadget digit width, in bits.
    pub bg_bit: u8,
    /// Key-switch digit count.
    pub t: u8,
    /// Key-switch digit width, in bits.
    pub base_bit: u8,
}

/// `x` is a power of two.
pub open spec fn is_power_of_two(x: int) -> bool {
    exists|e: nat| x == #[trigger] vstd::arithmetic::power2::pow2(e)
}

/// The first rule that the parameters break, in the order in which the rules are held
/// against them, or `None` where they break none.
pub open spec fn first_violation(p: SchemeParams) -> Option<ParamError> {
    if !is_power_of_two(p.upper_n as int) {
        Some(ParamError::UpperNNotPowerOfTwo)
    } else if p.upper_n < MIN_UPPER_N || p.upper_n > MAX_UPPER_N {
        Some(ParamError::UpperNOutOfRange)
    } else if p.l > MAX_DIGIT_BITS {
        Some(ParamError::GadgetDigitsTooMany)
    } else if p.bg_bit > MAX_DIGIT_BITS {
        Some(ParamError::GadgetDigitTooWide)
    } else if p.l * p.bg_bit > MAX_DIGIT_BITS {
        Some(ParamError::GadgetTooPrecise)
    } else if p.t > MAX_DIGIT_BITS {
        Some(ParamError::SwitchDigitsTooMany)
    } else if p.base_bit > MAX_DIGIT_BITS {
        Some(ParamError::SwitchDigitTooWide)
    } else if p.t * p.base_bit > MAX_DIGIT_BITS {
        Some(ParamError::SwitchTooPrecise)
    } else {
        None
    }
}

/// Whether `x` is a power of two.
pub fn power_of_two(x: u16) -> (b: bool)
    ensures
        b == is_power_of_two(x as int),
{
    proof {
        vstd::arithmetic::power2::lemma2_to64();
    }
    let mut p: u32 = 1;
    let mut e: u32 = 0;
    while p < x as u32
        invariant
            e <= 16,
            p == vstd::arithmetic::power2::pow2(e as nat),
            p <= 65536,
            forall|d: nat| d < e ==> #[trigger] vstd::arithmetic::power2::pow2(d) < x,
        decreases 17 - e,
    {
        proof {
            vstd::arithmetic::power2::lemma_pow2_unfold((e + 1) as nat);
            vstd::arithmetic::power2::lemma2_to64();
            assert(e < 16);
            if e < 15 {
                vstd::arithmetic::power2::lemma_pow2_strictly_increases(e as nat, 15);
            }
            assert(p <= 32768);
            assert forall|d: nat| d < e + 1 implies #[trigger] vstd::arithmetic::power2::pow2(d)
                < x by {
                if d == e {
                } else {
                }
            }
        }
        p = p * 2;
        e += 1;
    }
    let b = p == x as u32;
    proof {
        if !b {
            assert forall|d: nat| x != #[trigger] vstd::arithmetic::power2::pow2(d) by {
                if d < e {
                } else if d == e {
                } else {
                    vstd::arithmetic::power2::lemma_pow2_strictly_increases(e as nat, d);
                }
            }
        }
    }
    b
}

/// Holds the parameters against the rules of the table engine: the polynomial size is a
/// power of two in `512 ..= 4096`, and neither decomposition has more than 54 digits,
/// digits wider than 54 bits, or more than 54 bits in all.
pub fn validate(p: &SchemeParams) -> (r: Result<(), ParamError>)
    ensures
        match first_violation(*p) {
            Some(e) => r == Err::<(), ParamError>(e),
            None => r.is_ok(),
        },
{
    if !power_of_two(p.upper_n) {
        return Err(ParamError::UpperNNotPowerOfTwo);
    }
    if p.upper_n < MIN_UPPER_N || p.upper_n > MAX_UPPER_N {
        return Err(ParamError::UpperNOutOfRange);
    }
    if p.l as u32 > MAX_DIGIT_BITS {
        return Err(ParamError::GadgetDigitsTooMany);
    }
    if p.bg_bit as u32 > MAX_DIGIT_BITS {
        return Err(ParamError::GadgetDigitTooWide);
    }
    proof {
        assert((p.l as u32) * (p.bg_bit as u32) <= 54 * 54) by (nonlinear_arith)
            requires
                p.l <= 54,
                p.bg_bit <= 54,
        ;
    }
    if (p.l as u32) * (p.bg_bit as u32) > MAX_DIGIT_BITS {
        return Err(ParamError::GadgetTooPrecise);
    }
    if p.t as u32 > MAX_DIGIT_BITS {
        return Err(ParamError::SwitchDigitsTooMany);
    }
    if p.base_bit as u32 > MAX_DIGIT_BITS {
        return Err(ParamError::SwitchDigitTooWide);
    }
    proof {
        assert((p.t as u32) * (p.base_bit as u32) <= 54 * 54) by (nonlinear_arith)
            requires
                p.t <= 54,
                p.base_bit <= 54,
        ;
    }
    if (p.t as u32) * (p.base_bit as u32) > MAX_DIGIT_BITS {
        return Err(ParamError::SwitchTooPrecise);
    }
    Ok(())
}

} // verus!
