use vstd::prelude::*;
use vstd::arithmetic::power2::pow2;
use vstd::arithmetic::power2::lemma_pow2_pos;
use vstd::bits::lemma_u64_pow2_no_overflow;
use vstd::bits::lemma_u64_shl_is_mul;
use crate::torus::modulus;

verus! {

/// The digit count `l` and the digit width `bg_bit` describe a decomposition of a 64-bit
/// numerator: at least one digit of at least one bit, and no more than 64 bits in all.
pub open spec fn gadget_params_ok(l: nat, bg_bit: nat) -> bool {
    &&& 1 <= l
    &&& 1 <= bg_bit
    &&& l * bg_bit <= 64
}

/// Sum of half a digit base at each of the first `upto` digit positions. Adding it
/// before the digits are cut turns digits in `[0, Bg)` into digits in `[-Bg/2, Bg/2)`.
pub open spec fn gadget_offset(bg_bit: nat, upto: nat) -> int
    decreases upto,
{
    if upto == 0 {
        0
    } else {
        gadget_offset(bg_bit, (upto - 1) as nat) + pow2((63 - (upto - 1) * bg_bit) as nat)
    }
}

/// Digit `j` (most significant first) of the signed decomposition of the numerator `x`
/// into `l` digits of `bg_bit` bits, as a residue modulo `2^64`: the digits lie in
/// `[-Bg/2, Bg/2)` and `sum_j digit_j * 2^(64 - (j+1) * bg_bit)` equals `x` up to the
/// bits below the last digit.
pub open spec fn gadget_digit(x: int, bg_bit: nat, l: nat, j: nat) -> int {
    let shifted = (x + gadget_offset(bg_bit, l)) % modulus();
    let cut = (shifted / (pow2((64 - (j + 1) * bg_bit) as nat) as int)) % (pow2(bg_bit) as int);
    (cut - pow2((bg_bit - 1) as nat)) % modulus()
}

/// Digit `j` of every coefficient of a polynomial.
pub open spec fn gadget_digits(p: Seq<int>, bg_bit: nat, l: nat, j: nat) -> Seq<int> {
    Seq::new(p.len(), |n: int| gadget_digit(p[n], bg_bit, l, j))
}

/// The power of two `2^e` as a machine word.
pub fn pow2_word(e: u32) -> (r: u64)
    requires
        e < 64,
    ensures
        r == pow2(e as nat),
{
    proof {
        lemma_u64_pow2_no_overflow(e as nat);
        lemma_u64_shl_is_mul(1u64, e as u64);
    }
    1u64 << (e as u64)
}

/// The residue modulo `2^64` of the offset that is added before the digits are cut.
pub fn offset_word(l: u32, bg_bit: u32) -> (r: u64)
    requires
        gadget_params_ok(l as nat, bg_bit as nat),
    ensures
        r == gadget_offset(bg_bit as nat, l as nat) % modulus(),
{
    let mut acc: u64 = 0;
    let mut j: u32 = 0;
    proof {
        assert(l <= 64 && bg_bit <= 64) by (nonlinear_arith)
            requires
                1 <= l,
                1 <= bg_bit,
                l * bg_bit <= 64,
        ;
    }
    while j < l
        invariant
            j <= l,
            l <= 64,
            bg_bit <= 64,
            gadget_params_ok(l as nat, bg_bit as nat),
            acc == gadget_offset(bg_bit as nat, j as nat) % modulus(),
        decreases l - j,
    {
        proof {
            assert(0 <= j * bg_bit <= l * bg_bit - bg_bit) by (nonlinear_arith)
                requires
                    0 <= j,
                    j + 1 <= l,
                    bg_bit >= 0,
            ;
        }
        let e: u32 = 63 - j * bg_bit;
        let term: u64 = pow2_word(e);
        proof {
            let before = gadget_offset(bg_bit as nat, j as nat);
            crate::modular::lemma_mod_add_left(before, term as int);
            assert(gadget_offset(bg_bit as nat, (j + 1) as nat) == before + pow2(
                (63 - j * bg_bit) as nat,
            ));
        }
        acc = acc.wrapping_add(term);
        j += 1;
    }
    acc
}

/// Cuts digit `j` out of the numerator `x`, given the offset word of the decomposition.
pub fn digit_word(x: u64, offset: u64, l: u32, bg_bit: u32, j: u32) -> (r: u64)
    requires
        gadget_params_ok(l as nat, bg_bit as nat),
        j < l,
        offset == gadget_offset(bg_bit as nat, l as nat) % modulus(),
    ensures
        r == gadget_digit(x as int, bg_bit as nat, l as nat, j as nat),
{
    proof {
        assert(l <= 64 && bg_bit <= 64) by (nonlinear_arith)
            requires
                1 <= l,
                1 <= bg_bit,
                l * bg_bit <= 64,
        ;
        assert(1 <= (j + 1) * bg_bit <= l * bg_bit) by (nonlinear_arith)
            requires
                0 <= j,
                j + 1 <= l,
                bg_bit >= 1,
        ;
        lemma_pow2_pos((64 - (j + 1) * bg_bit) as nat);
        lemma_pow2_pos(bg_bit as nat);
        crate::modular::lemma_mod_add_right(x as int, gadget_offset(bg_bit as nat, l as nat));
        vstd::arithmetic::power2::lemma2_to64_rest();
    }
    let shifted: u64 = x.wrapping_add(offset);
    let low: u32 = 64 - (j + 1) * bg_bit;
    let quotient: u64 = shifted / pow2_word(low);
    let cut: u64 = if bg_bit < 64 {
        quotient % pow2_word(bg_bit)
    } else {
        proof {
            vstd::arithmetic::power2::lemma2_to64();
            assert(l == 1) by (nonlinear_arith)
                requires
                    1 <= l,
                    bg_bit == 64,
                    l * bg_bit <= 64,
            ;
            assert((j + 1) * bg_bit == 64) by (nonlinear_arith)
                requires
                    j == 0,
                    bg_bit == 64,
            ;
            assert(low == 0);
            vstd::arithmetic::div_mod::lemma_small_mod(quotient as nat, pow2(64));
        }
        quotient
    };
    let half: u64 = pow2_word(bg_bit - 1);
    cut.wrapping_sub(half)
}

/// Half the weight of the last of `t` digits of `base_bit` bits, which is added before
/// the digits are cut so that the bits below the last digit round to nearest; zero where
/// the digits cover all 64 bits.
pub open spec fn switch_round(t: nat, base_bit: nat) -> int {
    if t * base_bit < 64 {
        pow2((63 - t * base_bit) as nat) as int
    } else {
        0
    }
}

/// Digit `j` (most significant first) of the numerator `x` rounded to `t` digits of
/// `base_bit` bits: a value in `[0, 2^base_bit)`, such that
/// `sum_j digit_j * 2^(64 - (j+1) * base_bit)` equals `x` rounded to `t * base_bit` bits.
pub open spec fn switch_digit(x: int, t: nat, base_bit: nat, j: nat) -> int {
    let shifted = (x + switch_round(t, base_bit)) % modulus();
    (shifted / (pow2((64 - (j + 1) * base_bit) as nat) as int)) % (pow2(base_bit) as int)
}

/// The rounding word of a decomposition into `t` digits of `base_bit` bits.
pub fn round_word(t: u32, base_bit: u32) -> (r: u64)
    requires
        gadget_params_ok(t as nat, base_bit as nat),
    ensures
        r == switch_round(t as nat, base_bit as nat),
{
    proof {
        assert(t <= 64 && base_bit <= 64) by (nonlinear_arith)
            requires
                1 <= t,
                1 <= base_bit,
                t * base_bit <= 64,
        ;
    }
    let bits: u32 = t * base_bit;
    if bits < 64 {
        pow2_word(63 - bits)
    } else {
        0
    }
}

/// Cuts digit `j` out of the numerator `x`, given the rounding word of the decomposition.
pub fn switch_digit_word(x: u64, round: u64, t: u32, base_bit: u32, j: u32) -> (r: u64)
    requires
        gadget_params_ok(t as nat, base_bit as nat),
        j < t,
        round == switch_round(t as nat, base_bit as nat),
    ensures
        r == switch_digit(x as int, t as nat, base_bit as nat, j as nat),
        r < pow2(base_bit as nat),
{
    proof {
        assert(t <= 64 && base_bit <= 64) by (nonlinear_arith)
            requires
                1 <= t,
                1 <= base_bit,
                t * base_bit <= 64,
        ;
        assert(1 <= (j + 1) * base_bit <= t * base_bit) by (nonlinear_arith)
            requires
                0 <= j,
                j + 1 <= t,
                base_bit >= 1,
        ;
        lemma_pow2_pos((64 - (j + 1) * base_bit) as nat);
        lemma_pow2_pos(base_bit as nat);
        vstd::arithmetic::power2::lemma2_to64_rest();
    }
    let shifted: u64 = x.wrapping_add(round);
    let low: u32 = 64 - (j + 1) * base_bit;
    let quotient: u64 = shifted / pow2_word(low);
    if base_bit < 64 {
        proof {
            vstd::arithmetic::div_mod::lemma_mod_bound(quotient as int, pow2(base_bit as nat) as int);
        }
        quotient % pow2_word(base_bit)
    } else {
        proof {
            vstd::arithmetic::power2::lemma2_to64();
            vstd::arithmetic::div_mod::lemma_small_mod(quotient as nat, pow2(64));
        }
        quotient
    }
}

/// The weight of digit `j`: `2^(64 - (j + 1) * bg_bit)`.
pub open spec fn digit_weight(bg_bit: nat, j: nat) -> int {
    pow2((64 - (j + 1) * bg_bit) as nat) as int
}

/// The first `upto` digits of `x`, each times its weight, summed over the integers.
pub open spec fn digit_sum(x: int, bg_bit: nat, l: nat, upto: nat) -> int
    decreases upto,
{
    if upto == 0 {
        0
    } else {
        digit_sum(x, bg_bit, l, (upto - 1) as nat) + digit_weight(bg_bit, (upto - 1) as nat)
            * gadget_digit(x, bg_bit, l, (upto - 1) as nat)
    }
}

/// The first `upto` digits of the shifted numerator `y`, before half a base is taken off
/// each, add up with their weights to `y` without its bits below digit `upto`; and the
/// halves that are taken off add up to the offset.
proof fn lemma_cuts_recompose(y: int, bg_bit: nat, upto: nat)
    requires
        0 <= y < modulus(),
        1 <= bg_bit,
        upto * bg_bit <= 64,
    ensures
        digit_cuts(y, bg_bit, upto) == y - y % (pow2((64 - upto * bg_bit) as nat) as int)
            - gadget_offset(bg_bit, upto),
    decreases upto,
{
    vstd::arithmetic::power2::lemma2_to64();
    vstd::arithmetic::power2::lemma2_to64_rest();
    if upto == 0 {
        assert(0 * bg_bit == 0) by (nonlinear_arith);
        vstd::arithmetic::div_mod::lemma_small_mod(y as nat, pow2(64));
    } else {
        let j = (upto - 1) as nat;
        assert(j * bg_bit + bg_bit == upto * bg_bit) by (nonlinear_arith)
            requires
                j + 1 == upto,
        ;
        lemma_cuts_recompose(y, bg_bit, j);
        let low = (64 - upto * bg_bit) as nat;
        let p = pow2(low) as int;
        let b = pow2(bg_bit) as int;
        let half = pow2((bg_bit - 1) as nat) as int;
        lemma_pow2_pos(low);
        lemma_pow2_pos(bg_bit);
        vstd::arithmetic::power2::lemma_pow2_adds(low, bg_bit);
        vstd::arithmetic::power2::lemma_pow2_adds(low, (bg_bit - 1) as nat);
        assert(low + bg_bit == 64 - j * bg_bit);
        assert(low + (bg_bit - 1) == 63 - j * bg_bit);
        vstd::arithmetic::div_mod::lemma_mod_breakdown(y, p, b);
        let cut = (y / p) % b;
        assert(y % (p * b) == p * cut + y % p);
        assert(pow2((64 - j * bg_bit) as nat) == p * b);
        assert(pow2((63 - j * bg_bit) as nat) == p * half);
        assert((64 - (j + 1) * bg_bit) as nat == low) by (nonlinear_arith)
            requires
                j + 1 == upto,
                low == 64 - upto * bg_bit,
                upto * bg_bit <= 64,
        ;
        assert(p * (cut - half) == p * cut - p * half) by (nonlinear_arith);
    }
}

/// The first `upto` digits of the shifted numerator `y`, each less half a base and times
/// its weight, summed over the integers.
pub open spec fn digit_cuts(y: int, bg_bit: nat, upto: nat) -> int
    decreases upto,
{
    if upto == 0 {
        0
    } else {
        digit_cuts(y, bg_bit, (upto - 1) as nat) + digit_weight(bg_bit, (upto - 1) as nat) * ((y
            / digit_weight(bg_bit, (upto - 1) as nat)) % (pow2(bg_bit) as int) - pow2(
            (bg_bit - 1) as nat,
        ))
    }
}

/// The digits, taken as residues, add up with their weights to the same residue as the
/// signed digits do.
proof fn lemma_digit_sum_is_cuts(x: int, bg_bit: nat, l: nat, upto: nat)
    requires
        1 <= bg_bit,
        upto <= l,
    ensures
        digit_sum(x, bg_bit, l, upto) % modulus() == digit_cuts(
            (x + gadget_offset(bg_bit, l)) % modulus(),
            bg_bit,
            upto,
        ) % modulus(),
    decreases upto,
{
    let m = modulus();
    if upto > 0 {
        let j = (upto - 1) as nat;
        lemma_digit_sum_is_cuts(x, bg_bit, l, j);
        let y = (x + gadget_offset(bg_bit, l)) % m;
        let w = digit_weight(bg_bit, j);
        let signed = (y / w) % (pow2(bg_bit) as int) - pow2((bg_bit - 1) as nat);
        assert(gadget_digit(x, bg_bit, l, j) == signed % m);
        vstd::arithmetic::div_mod::lemma_mul_mod_noop_right(w, signed, m);
        vstd::arithmetic::div_mod::lemma_add_mod_noop(
            digit_sum(x, bg_bit, l, j),
            w * (signed % m),
            m,
        );
        vstd::arithmetic::div_mod::lemma_add_mod_noop(digit_cuts(y, bg_bit, j), w * signed, m);
    }
}

/// Where the digits cover all 64 bits, they add up with their weights to the numerator
/// itself, modulo `2^64`.
pub proof fn lemma_digits_recompose(x: int, bg_bit: nat, l: nat)
    requires
        0 <= x < modulus(),
        gadget_params_ok(l, bg_bit),
        l * bg_bit == 64,
    ensures
        digit_sum(x, bg_bit, l, l) % modulus() == x,
{
    let m = modulus();
    let off = gadget_offset(bg_bit, l);
    let y = (x + off) % m;
    vstd::arithmetic::div_mod::lemma_mod_bound(x + off, m);
    lemma_digit_sum_is_cuts(x, bg_bit, l, l);
    lemma_cuts_recompose(y, bg_bit, l);
    vstd::arithmetic::power2::lemma2_to64();
    assert(y % 1 == 0);
    vstd::arithmetic::div_mod::lemma_sub_mod_noop(x + off, off, m);
    vstd::arithmetic::div_mod::lemma_small_mod(x as nat, m as nat);
}

/// The first `upto` key-switch digits of `x`, each times its weight, summed over the
/// integers.
pub open spec fn switch_sum(x: int, t: nat, base_bit: nat, upto: nat) -> int
    decreases upto,
{
    if upto == 0 {
        0
    } else {
        switch_sum(x, t, base_bit, (upto - 1) as nat) + digit_weight(base_bit, (upto - 1) as nat)
            * switch_digit(x, t, base_bit, (upto - 1) as nat)
    }
}

/// The first `upto` key-switch digits of `x` add up with their weights to the rounded
/// numerator without its bits below digit `upto`.
proof fn lemma_switch_sum_cuts(x: int, t: nat, base_bit: nat, upto: nat)
    requires
        0 <= x < modulus(),
        1 <= base_bit,
        upto * base_bit <= 64,
    ensures
        switch_sum(x, t, base_bit, upto) == (x + switch_round(t, base_bit)) % modulus() - ((x
            + switch_round(t, base_bit)) % modulus()) % (pow2((64 - upto * base_bit) as nat) as int),
    decreases upto,
{
    let y = (x + switch_round(t, base_bit)) % modulus();
    vstd::arithmetic::div_mod::lemma_mod_bound(x + switch_round(t, base_bit), modulus());
    vstd::arithmetic::power2::lemma2_to64();
    vstd::arithmetic::power2::lemma2_to64_rest();
    if upto == 0 {
        assert(0 * base_bit == 0) by (nonlinear_arith);
        vstd::arithmetic::div_mod::lemma_small_mod(y as nat, pow2(64));
    } else {
        let j = (upto - 1) as nat;
        assert(j * base_bit + base_bit == upto * base_bit) by (nonlinear_arith)
            requires
                j + 1 == upto,
        ;
        lemma_switch_sum_cuts(x, t, base_bit, j);
        let low = (64 - upto * base_bit) as nat;
        let p = pow2(low) as int;
        let b = pow2(base_bit) as int;
        lemma_pow2_pos(low);
        lemma_pow2_pos(base_bit);
        vstd::arithmetic::power2::lemma_pow2_adds(low, base_bit);
        assert(low + base_bit == 64 - j * base_bit);
        vstd::arithmetic::div_mod::lemma_mod_breakdown(y, p, b);
        assert(pow2((64 - j * base_bit) as nat) == p * b);
        assert((64 - (j + 1) * base_bit) as nat == low) by (nonlinear_arith)
            requires
                j + 1 == upto,
                low == 64 - upto * base_bit,
                upto * base_bit <= 64,
        ;
    }
}

/// Where the key-switch digits cover all 64 bits, they add up with their weights to the
/// numerator itself.
pub proof fn lemma_switch_digits_recompose(x: int, t: nat, base_bit: nat)
    requires
        0 <= x < modulus(),
        gadget_params_ok(t, base_bit),
        t * base_bit == 64,
    ensures
        switch_sum(x, t, base_bit, t) == x,
{
    lemma_switch_sum_cuts(x, t, base_bit, t);
    vstd::arithmetic::power2::lemma2_to64();
    vstd::arithmetic::div_mod::lemma_small_mod(x as nat, modulus() as nat);
    assert(switch_round(t, base_bit) == 0);
    assert(x % 1 == 0);
}

} // verus!
