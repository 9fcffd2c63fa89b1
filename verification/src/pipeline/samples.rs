use vstd::prelude::*;
use vstd::arithmetic::power2::pow2;
use crate::ideal::index_of;
use crate::pipeline::layout::smaller;

verus! {

/// The number of address groups of `len` bits cut into groups of `vsize`.
pub open spec fn group_count(len: nat, vsize: nat) -> nat {
    ((len + vsize - 1) / (vsize as int)) as nat
}

/// The bits of group `c`: `vsize` bits, or fewer for the last group.
pub open spec fn group_bits(bits: Seq<bool>, vsize: nat, c: nat) -> Seq<bool> {
    bits.subrange(
        (c * vsize) as int,
        (c * vsize + smaller(vsize, (bits.len() - c * vsize) as nat)) as int,
    )
}

/// The address that group `c` spells, its first bit the least significant.
pub open spec fn group_address(bits: Seq<bool>, vsize: nat, c: nat) -> nat {
    index_of(group_bits(bits, vsize, c), group_bits(bits, vsize, c).len())
}

/// Turns the bits of one sample into its addresses: the bits are cut into groups of
/// `vsize`, the last group taking what is left, and each group gives the triple of the
/// sample's label, the group's index and the address that the group spells.
pub fn sample_addresses(label: u8, bits: &Vec<bool>, vsize: usize) -> (r: Vec<(u8, u16, u32)>)
    requires
        1 <= vsize <= 32,
        bits@.len() + vsize <= usize::MAX,
        group_count(bits@.len(), vsize as nat) <= 65536,
    ensures
        r@.len() == group_count(bits@.len(), vsize as nat),
        forall|c: int|
            0 <= c < r@.len() ==> (#[trigger] r@[c]) == (
                label,
                c as u16,
                group_address(bits@, vsize as nat, c as nat) as u32,
            ),
        forall|c: int|
            0 <= c < r@.len() ==> #[trigger] group_address(bits@, vsize as nat, c as nat)
                <= u32::MAX,
{
    let len: usize = bits.len();
    let groups: usize = (len + vsize - 1) / vsize;
    let mut out: Vec<(u8, u16, u32)> = Vec::new();
    let mut c: usize = 0;
    while c < groups
        invariant
            c <= groups,
            1 <= vsize <= 32,
            len == bits@.len(),
            len + vsize <= usize::MAX,
            groups == group_count(len as nat, vsize as nat),
            groups <= 65536,
            out@.len() == c,
            forall|d: int|
                0 <= d < c ==> (#[trigger] out@[d]) == (
                    label,
                    d as u16,
                    group_address(bits@, vsize as nat, d as nat) as u32,
                ),
            forall|d: int|
                0 <= d < c ==> #[trigger] group_address(bits@, vsize as nat, d as nat) <= u32::MAX,
        decreases groups - c,
    {
        proof {
            vstd::arithmetic::div_mod::lemma_fundamental_div_mod(
                (len + vsize - 1) as int,
                vsize as int,
            );
            vstd::arithmetic::div_mod::lemma_mod_bound((len + vsize - 1) as int, vsize as int);
            assert(c * vsize < len) by (nonlinear_arith)
                requires
                    c + 1 <= groups,
                    len + vsize - 1 == vsize * groups + (len + vsize - 1) % (vsize as int),
                    0 <= (len + vsize - 1) % (vsize as int) < vsize,
                    vsize >= 1,
            ;
        }
        let start: usize = c * vsize;
        let rest: usize = len - start;
        let width: usize = if vsize <= rest {
            vsize
        } else {
            rest
        };
        let ghost group = group_bits(bits@, vsize as nat, c as nat);
        let mut addr: u64 = 0;
        let mut weight: u64 = 1;
        let mut i: usize = 0;
        proof {
            vstd::arithmetic::power2::lemma2_to64();
            assert(group.len() == width);
        }
        while i < width
            invariant
                i <= width,
                width <= 32,
                start + width <= len,
                len == bits@.len(),
                group == bits@.subrange(start as int, start + width),
                weight == pow2(i as nat),
                addr == index_of(group, i as nat),
                addr < pow2(i as nat),
            decreases width - i,
        {
            proof {
                vstd::arithmetic::power2::lemma_pow2_unfold((i + 1) as nat);
                vstd::arithmetic::power2::lemma2_to64();
                vstd::arithmetic::power2::lemma_pow2_strictly_increases(i as nat, 32);
                assert(group[i as int] == bits@[start + i]);
            }
            if bits[start + i] {
                addr = addr + weight;
            }
            weight = weight * 2;
            i += 1;
        }
        proof {
            vstd::arithmetic::power2::lemma2_to64();
            if width < 32 {
                vstd::arithmetic::power2::lemma_pow2_strictly_increases(width as nat, 32);
            }
        }
        let ghost before = out@;
        out.push((label, c as u16, addr as u32));
        proof {
            assert(group_address(bits@, vsize as nat, c as nat) == addr);
            assert forall|d: int| 0 <= d < c + 1 implies (#[trigger] out@[d]) == (
                label,
                d as u16,
                group_address(bits@, vsize as nat, d as nat) as u32,
            ) by {
                if d < c {
                    assert(out@[d] == before[d]);
                }
            }
        }
        c += 1;
    }
    out
}

} // verus!
