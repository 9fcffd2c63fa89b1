use vstd::prelude::*;
use vstd::arithmetic::power2::pow2;
use vstd::arithmetic::power2::lemma_pow2_pos;
use vstd::arithmetic::power2::lemma_pow2_unfold;
use crate::tree::pow2_size;

verus! {

/// The number of bits of `x` below its leading one: the largest `r` with `2^r <= x`, and
/// zero for `x <= 1`.
pub open spec fn floor_log2(x: nat) -> nat
    decreases x,
{
    if x <= 1 {
        0
    } else {
        1 + floor_log2(x / 2)
    }
}

/// The number of bits that tell `x` values apart: the smallest `r` with `x <= 2^r`.
pub open spec fn ceil_log2(x: nat) -> nat {
    if x <= 1 {
        0
    } else {
        1 + floor_log2((x - 1) as nat)
    }
}

/// The difference `a - b`, or zero where `b` exceeds `a`.
pub open spec fn minus_or_zero(a: nat, b: nat) -> nat {
    if a >= b {
        (a - b) as nat
    } else {
        0
    }
}

/// The smaller of two numbers.
pub open spec fn smaller(a: nat, b: nat) -> nat {
    if a <= b {
        a
    } else {
        b
    }
}

/// For `x >= 1`, `2^floor_log2(x) <= x < 2^(floor_log2(x) + 1)`.
pub proof fn lemma_floor_log2_bounds(x: nat)
    requires
        1 <= x,
    ensures
        pow2(floor_log2(x)) <= x < pow2(floor_log2(x) + 1),
    decreases x,
{
    vstd::arithmetic::power2::lemma2_to64();
    if x > 1 {
        lemma_floor_log2_bounds(x / 2);
        lemma_pow2_unfold(floor_log2(x));
        lemma_pow2_unfold(floor_log2(x) + 1);
    }
}

/// How an address of `addr_size` bits, extended by the bits of a label, is laid out over
/// a table of polynomials of `upper_n` slots each: the low bits pick a slot inside one
/// polynomial, the high bits pick the polynomial.
#[derive(Copy, Clone, Debug, PartialEq, Eq, Structural)]
pub struct Layout {
    /// Bits of an address.
    pub addr_size: usize,
    /// Tables per label: the address groups of one input.
    pub num_luts_disc: usize,
    /// Bits of a label.
    pub label_size: usize,
    /// Bits of an address extended by a label.
    pub addr_label_size: usize,
    /// Bits that pick a slot inside one polynomial: `log2(upper_n)`.
    pub log_upper_n: usize,
    /// Bits that pick a polynomial of a table.
    pub lut_vp_depth: usize,
    /// Polynomials in a table: `2^lut_vp_depth`.
    pub lut_vp_count: usize,
    /// Low bits of the extended address, which rotate inside a polynomial in training.
    pub trn_low_size: usize,
    /// Low bits of the plain address, which rotate inside a polynomial in inference.
    pub inf_low_size: usize,
    /// Label bits among the low bits.
    pub lower_label_bits: usize,
    /// Label bits among the high bits.
    pub upper_label_bits: usize,
    /// Polynomials of a table that belong to one value of the upper label bits.
    pub upper_lut_size: usize,
    /// Slots of a polynomial that belong to one value of the lower label bits.
    pub lower_lut_size: usize,
}

/// The layout for `num_labels` labels, addresses of `addr_size` bits, inputs of
/// `input_size` bits and polynomials of `upper_n` slots.
pub open spec fn layout_of(num_labels: nat, addr_size: nat, input_size: nat, upper_n: nat) -> Layout {
    let label_size = ceil_log2(num_labels);
    let addr_label_size = addr_size + label_size;
    let log_upper_n = floor_log2(upper_n);
    let lut_vp_depth = minus_or_zero(addr_label_size, log_upper_n);
    let trn_low_size = smaller(addr_label_size, log_upper_n);
    let lower_label_bits = minus_or_zero(label_size, lut_vp_depth);
    let upper_label_bits = (label_size - lower_label_bits) as nat;
    Layout {
        addr_size: addr_size as usize,
        num_luts_disc: ((input_size + addr_size - 1) / (addr_size as int)) as usize,
        label_size: label_size as usize,
        addr_label_size: addr_label_size as usize,
        log_upper_n: log_upper_n as usize,
        lut_vp_depth: lut_vp_depth as usize,
        lut_vp_count: pow2(lut_vp_depth) as usize,
        trn_low_size: trn_low_size as usize,
        inf_low_size: smaller(addr_size, log_upper_n) as usize,
        lower_label_bits: lower_label_bits as usize,
        upper_label_bits: upper_label_bits as usize,
        upper_lut_size: pow2((lut_vp_depth - upper_label_bits) as nat) as usize,
        lower_lut_size: pow2((trn_low_size - lower_label_bits) as nat) as usize,
    }
}

/// The logarithm of a number does not exceed the number.
pub proof fn lemma_floor_log2_small(x: nat)
    ensures
        floor_log2(x) <= x,
    decreases x,
{
    if x > 1 {
        lemma_floor_log2_small(x / 2);
    }
}

/// A number below `2^32` has a logarithm below 32.
pub proof fn lemma_floor_log2_word(x: nat)
    requires
        x < 0x1_0000_0000,
    ensures
        floor_log2(x) < 32,
{
    vstd::arithmetic::power2::lemma2_to64();
    if x >= 1 {
        lemma_floor_log2_bounds(x);
        if floor_log2(x) > 32 {
            vstd::arithmetic::power2::lemma_pow2_strictly_increases(32, floor_log2(x));
        }
    }
}

/// The number of bits of `x` below its leading one.
pub fn floor_log2_of(x: usize) -> (r: usize)
    ensures
        r == floor_log2(x as nat),
{
    let mut y: usize = x;
    let mut r: usize = 0;
    proof {
        lemma_floor_log2_small(x as nat);
    }
    while y > 1
        invariant
            floor_log2(x as nat) == r + floor_log2(y as nat),
            floor_log2(x as nat) <= x,
        decreases y,
    {
        y = y / 2;
        r += 1;
    }
    r
}

/// The number of bits that tell `x` values apart.
pub fn ceil_log2_of(x: usize) -> (r: usize)
    ensures
        r == ceil_log2(x as nat),
{
    if x <= 1 {
        0
    } else {
        proof {
            lemma_floor_log2_small((x - 1) as nat);
        }
        floor_log2_of(x - 1) + 1
    }
}

impl Layout {
    /// Lays the extended address out over a table. The bits above `log2(upper_n)` pick
    /// the polynomial, the bits below pick the slot inside it.
    pub fn new(num_labels: usize, addr_size: usize, input_size: usize, upper_n: u32) -> (r: Self)
        requires
            1 <= addr_size,
            1 <= upper_n,
            input_size + addr_size <= usize::MAX,
            addr_size + ceil_log2(num_labels as nat) <= usize::MAX,
            minus_or_zero(
                addr_size as nat + ceil_log2(num_labels as nat),
                floor_log2(upper_n as nat),
            ) < usize::BITS,
        ensures
            r == layout_of(num_labels as nat, addr_size as nat, input_size as nat, upper_n as nat),
            r.trn_low_size + r.lut_vp_depth == r.addr_label_size,
            r.lower_label_bits + r.upper_label_bits == r.label_size,
            r.upper_label_bits <= r.lut_vp_depth,
            r.lower_label_bits <= r.trn_low_size,
            r.inf_low_size <= r.addr_size,
            r.inf_low_size <= r.trn_low_size,
            r.trn_low_size <= r.log_upper_n,
            r.lut_vp_count == pow2(r.lut_vp_depth as nat),
            r.upper_lut_size == pow2((r.lut_vp_depth - r.upper_label_bits) as nat),
            r.lower_lut_size == pow2((r.trn_low_size - r.lower_label_bits) as nat),
            r.lut_vp_depth - r.upper_label_bits == r.addr_size - r.inf_low_size,
    {
        let label_size: usize = ceil_log2_of(num_labels);
        let addr_label_size: usize = addr_size + label_size;
        let log_upper_n: usize = floor_log2_of(upper_n as usize);
        let lut_vp_depth: usize = if addr_label_size >= log_upper_n {
            addr_label_size - log_upper_n
        } else {
            0
        };
        let trn_low_size: usize = if addr_label_size <= log_upper_n {
            addr_label_size
        } else {
            log_upper_n
        };
        let inf_low_size: usize = if addr_size <= log_upper_n {
            addr_size
        } else {
            log_upper_n
        };
        let lower_label_bits: usize = if label_size >= lut_vp_depth {
            label_size - lut_vp_depth
        } else {
            0
        };
        let upper_label_bits: usize = label_size - lower_label_bits;
        proof {
            lemma_floor_log2_word(upper_n as nat);
            vstd::bits::lemma_usize_pow2_no_overflow(lut_vp_depth as nat);
            vstd::bits::lemma_usize_pow2_no_overflow((lut_vp_depth - upper_label_bits) as nat);
            vstd::bits::lemma_usize_pow2_no_overflow((trn_low_size - lower_label_bits) as nat);
        }
        Layout {
            addr_size,
            num_luts_disc: (input_size + addr_size - 1) / addr_size,
            label_size,
            addr_label_size,
            log_upper_n,
            lut_vp_depth,
            lut_vp_count: pow2_size(lut_vp_depth),
            trn_low_size,
            inf_low_size,
            lower_label_bits,
            upper_label_bits,
            upper_lut_size: pow2_size(lut_vp_depth - upper_label_bits),
            lower_lut_size: pow2_size(trn_low_size - lower_label_bits),
        }
    }
}

/// An exponent is below its power of two.
pub proof fn lemma_exponent_below(e: nat)
    ensures
        e < pow2(e),
    decreases e,
{
    vstd::arithmetic::power2::lemma2_to64();
    if e > 0 {
        lemma_exponent_below((e - 1) as nat);
        lemma_pow2_unfold(e);
    }
}

/// The sizes of a layout fit together: the low and the high bits make up the extended
/// address, the label bits are split between them, the table has one polynomial for
/// every value of the high bits, and a polynomial has room for every value of the low
/// bits.
pub proof fn lemma_layout_facts(num_labels: nat, addr_size: nat, input_size: nat, upper_n: nat)
    requires
        1 <= upper_n,
        addr_size + ceil_log2(num_labels) <= usize::MAX,
        pow2(minus_or_zero(addr_size + ceil_log2(num_labels), floor_log2(upper_n))) <= usize::MAX,
        pow2(floor_log2(upper_n)) <= usize::MAX,
    ensures
        ({
            let r = layout_of(num_labels, addr_size, input_size, upper_n);
            &&& r.addr_size == addr_size
            &&& r.label_size == ceil_log2(num_labels)
            &&& r.addr_label_size == addr_size + ceil_log2(num_labels)
            &&& r.log_upper_n == floor_log2(upper_n)
            &&& r.trn_low_size + r.lut_vp_depth == r.addr_label_size
            &&& r.lower_label_bits + r.upper_label_bits == r.label_size
            &&& r.upper_label_bits <= r.lut_vp_depth
            &&& r.lower_label_bits <= r.trn_low_size
            &&& r.inf_low_size <= r.addr_size
            &&& r.inf_low_size <= r.trn_low_size
            &&& r.trn_low_size <= r.log_upper_n
            &&& r.lut_vp_count == pow2(r.lut_vp_depth as nat)
            &&& r.upper_lut_size == pow2((r.lut_vp_depth - r.upper_label_bits) as nat)
            &&& r.lower_lut_size == pow2((r.trn_low_size - r.lower_label_bits) as nat)
            &&& r.lut_vp_depth - r.upper_label_bits == r.addr_size - r.inf_low_size
            &&& pow2(r.trn_low_size as nat) <= upper_n
        }),
{
    let lb = ceil_log2(num_labels);
    let logn = floor_log2(upper_n);
    lemma_floor_log2_small(upper_n);
    lemma_floor_log2_bounds(upper_n);
    lemma_exponent_below(logn);
    let al = addr_size + lb;
    let depth = minus_or_zero(al, logn);
    let tl = smaller(al, logn);
    let lower = minus_or_zero(lb, depth);
    let upper = (lb - lower) as nat;
    if tl < logn {
        vstd::arithmetic::power2::lemma_pow2_strictly_increases(tl, logn);
    }
    if depth - upper < depth {
        vstd::arithmetic::power2::lemma_pow2_strictly_increases((depth - upper) as nat, depth);
    }
    if tl - lower < logn {
        vstd::arithmetic::power2::lemma_pow2_strictly_increases((tl - lower) as nat, logn);
    }
    lemma_pow2_pos((depth - upper) as nat);
    lemma_pow2_pos((tl - lower) as nat);
}

} // verus!
