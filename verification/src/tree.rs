use vstd::prelude::*;
use vstd::arithmetic::power2::pow2;
use vstd::arithmetic::power2::lemma_pow2_pos;
use vstd::arithmetic::power2::lemma_pow2_unfold;
use vstd::arithmetic::power2::lemma_pow2_strictly_increases;
use vstd::bits::lemma_usize_pow2_no_overflow;
use vstd::bits::lemma_usize_shl_is_mul;
use crate::trgsw::dft::Gate;
use crate::trgsw::dft::TrgswDft;
use crate::trgsw::dft::bank_wf;
use crate::trgsw::dft::strided_pass;
use crate::trgsw::sample::GadgetView;
use crate::trgsw::sample::bank;
use crate::trlwe::sample::Trlwe;

verus! {

/// The views of a run of selectors.
pub open spec fn gadgets(sel: Seq<TrgswDft>) -> Seq<GadgetView> {
    Seq::new(sel.len(), |i: int| sel[i]@)
}

/// Every selector of the run is well formed, for ciphertexts of `k` masks and `n`
/// coefficients.
pub open spec fn selectors_wf(sel: Seq<TrgswDft>, k: nat, n: nat) -> bool {
    forall|i: int|
        0 <= i < sel.len() ==> (#[trigger] sel[i]).wf() && sel[i].spec_k() == k && sel[i].spec_n()
            == n
}

/// The run after the first `upto` passes of the select tree: pass `i` selects, under
/// selector `i`, between the slots `c * 2^(i+1)` and `c * 2^(i+1) + 2^i`.
pub open spec fn cmux_tree_passes(sel: Seq<GadgetView>, v: Seq<Seq<Seq<int>>>, upto: nat) -> Seq<
    Seq<Seq<int>>,
>
    decreases upto,
{
    if upto == 0 {
        v
    } else {
        strided_pass(
            Gate::Cmux,
            sel[upto - 1],
            cmux_tree_passes(sel, v, (upto - 1) as nat),
            0,
            pow2((upto - 1) as nat) as int,
            false,
        )
    }
}

/// The run after the passes `from - 1`, `from - 2`, ..., `0` of the distribute tree, in
/// that order: pass `i` distributes, under selector `i`, between the slots
/// `c * 2^(i+1)` and `c * 2^(i+1) + 2^i`.
pub open spec fn cdemux_tree_passes(sel: Seq<GadgetView>, v: Seq<Seq<Seq<int>>>, from: nat) -> Seq<
    Seq<Seq<int>>,
>
    decreases from,
{
    if from == 0 {
        v
    } else {
        cdemux_tree_passes(
            sel,
            strided_pass(
                Gate::Cdemux,
                sel[from - 1],
                v,
                0,
                pow2((from - 1) as nat) as int,
                false,
            ),
            (from - 1) as nat,
        )
    }
}

/// The run after the swap passes of one level at the offsets `0 .. upto`.
pub open spec fn cswap_level(
    g: GadgetView,
    v: Seq<Seq<Seq<int>>>,
    stride: int,
    upto: nat,
) -> Seq<Seq<Seq<int>>>
    decreases upto,
{
    if upto == 0 {
        v
    } else {
        strided_pass(
            Gate::Cswap,
            g,
            cswap_level(g, v, stride, (upto - 1) as nat),
            upto - 1,
            stride,
            true,
        )
    }
}

/// The run after the first `upto` levels of the exchange network: level `i` swaps, under
/// selector `i`, every two slots `2^i` apart, at each of the `2^i` offsets in turn.
pub open spec fn deep_cswap_levels(sel: Seq<GadgetView>, v: Seq<Seq<Seq<int>>>, upto: nat) -> Seq<
    Seq<Seq<int>>,
>
    decreases upto,
{
    if upto == 0 {
        v
    } else {
        cswap_level(
            sel[upto - 1],
            deep_cswap_levels(sel, v, (upto - 1) as nat),
            pow2((upto - 1) as nat) as int,
            pow2((upto - 1) as nat),
        )
    }
}

/// The power of two `2^e` as a size.
pub fn pow2_size(e: usize) -> (r: usize)
    requires
        e < usize::BITS,
    ensures
        r == pow2(e as nat),
{
    proof {
        lemma_usize_pow2_no_overflow(e as nat);
        lemma_usize_shl_is_mul(1usize, e);
    }
    1usize << e
}

/// Twice `2^e` fits a size as long as `e + 1` is below the width of a size.
proof fn lemma_double_fits(e: nat)
    requires
        e + 1 < usize::BITS,
    ensures
        2 * pow2(e) <= usize::MAX,
        pow2(e) >= 1,
{
    lemma_usize_pow2_no_overflow(e + 1);
    lemma_pow2_unfold(e + 1);
    lemma_pow2_pos(e);
}

/// The run `v` and the selectors `sel` go together: there are `k` and `n` such that every
/// ciphertext and every selector is well formed for `k` masks of `n` coefficients.
pub open spec fn tree_fits(v: Seq<Trlwe>, sel: Seq<TrgswDft>) -> bool {
    exists|k: nat, n: nat| #[trigger] bank_wf(v, k, n) && selectors_wf(sel, k, n)
}

/// A run that went with the selectors before still does when its new ciphertexts have
/// the shape of the old ones.
proof fn lemma_fits_carries(before: Seq<Trlwe>, after: Seq<Trlwe>, sel: Seq<TrgswDft>, k: nat, n: nat)
    requires
        bank_wf(before, k, n),
        bank_wf(after, k, n),
        selectors_wf(sel, k, n),
        before.len() == after.len(),
    ensures
        tree_fits(after, sel),
        forall|k2: nat, n2: nat|
            bank_wf(before, k2, n2) && selectors_wf(sel, k2, n2) ==> #[trigger] bank_wf(
                after,
                k2,
                n2,
            ),
{
    assert forall|k2: nat, n2: nat|
        bank_wf(before, k2, n2) && selectors_wf(sel, k2, n2) implies #[trigger] bank_wf(
        after,
        k2,
        n2,
    ) by {
        if before.len() > 0 {
            assert(before[0].wf());
            assert(k2 == k && n2 == n);
        }
    }
}

fn cmux_tree_in(in_: &mut Vec<Trlwe>, sel: &[TrgswDft], Ghost(k): Ghost<nat>, Ghost(n): Ghost<nat>)
    requires
        bank_wf(old(in_)@, k, n),
        selectors_wf(sel@, k, n),
        sel@.len() < usize::BITS,
    ensures
        bank(final(in_)@) == cmux_tree_passes(gadgets(sel@), bank(old(in_)@), sel@.len()),
        bank_wf(final(in_)@, k, n),
        final(in_)@.len() == old(in_)@.len(),
{
    let ghost start = bank(in_@);
    let ghost len = in_@.len();
    let mut i: usize = 0;
    while i < sel.len()
        invariant
            i <= sel@.len(),
            sel@.len() < usize::BITS,
            selectors_wf(sel@, k, n),
            bank_wf(in_@, k, n),
            in_@.len() == len,
            bank(in_@) == cmux_tree_passes(gadgets(sel@), start, i as nat),
        decreases sel@.len() - i,
    {
        proof {
            lemma_double_fits(i as nat);
            assert(sel@[i as int].wf());
        }
        let stride = pow2_size(i);
        let ghost before = bank(in_@);
        sel[i].cmux_vectored(in_, stride);
        proof {
            assert(bank(in_@).len() == before.len());
        }
        i += 1;
    }
}

fn cdemux_tree_in(in_: &mut Vec<Trlwe>, sel: &[TrgswDft], Ghost(k): Ghost<nat>, Ghost(n): Ghost<nat>)
    requires
        bank_wf(old(in_)@, k, n),
        selectors_wf(sel@, k, n),
        sel@.len() < usize::BITS,
    ensures
        bank(final(in_)@) == cdemux_tree_passes(gadgets(sel@), bank(old(in_)@), sel@.len()),
        bank_wf(final(in_)@, k, n),
        final(in_)@.len() == old(in_)@.len(),
{
    let ghost start = bank(in_@);
    let ghost len = in_@.len();
    let mut i: usize = sel.len();
    while i > 0
        invariant
            i <= sel@.len(),
            sel@.len() < usize::BITS,
            selectors_wf(sel@, k, n),
            bank_wf(in_@, k, n),
            in_@.len() == len,
            cdemux_tree_passes(gadgets(sel@), bank(in_@), i as nat) == cdemux_tree_passes(
                gadgets(sel@),
                start,
                sel@.len(),
            ),
        decreases i,
    {
        i -= 1;
        proof {
            lemma_double_fits(i as nat);
            assert(sel@[i as int].wf());
        }
        let stride = pow2_size(i);
        let ghost before = bank(in_@);
        sel[i].cdemux_vectored(in_, stride);
        proof {
            assert(bank(in_@).len() == before.len());
        }
    }
}

fn deep_cswap_in(in_: &mut Vec<Trlwe>, sel: &[TrgswDft], Ghost(k): Ghost<nat>, Ghost(n): Ghost<nat>)
    requires
        bank_wf(old(in_)@, k, n),
        selectors_wf(sel@, k, n),
        sel@.len() < usize::BITS,
        sel@.len() > 0 ==> pow2((sel@.len() - 1) as nat) <= old(in_)@.len() + 1,
    ensures
        bank(final(in_)@) == deep_cswap_levels(gadgets(sel@), bank(old(in_)@), sel@.len()),
        bank_wf(final(in_)@, k, n),
        final(in_)@.len() == old(in_)@.len(),
{
    let ghost start = bank(in_@);
    let ghost len = in_@.len();
    let mut i: usize = 0;
    while i < sel.len()
        invariant
            i <= sel@.len(),
            sel@.len() < usize::BITS,
            sel@.len() > 0 ==> pow2((sel@.len() - 1) as nat) <= len + 1,
            selectors_wf(sel@, k, n),
            bank_wf(in_@, k, n),
            in_@.len() == len,
            bank(in_@) == deep_cswap_levels(gadgets(sel@), start, i as nat),
        decreases sel@.len() - i,
    {
        proof {
            lemma_double_fits(i as nat);
            assert(sel@[i as int].wf());
            if i + 1 < sel@.len() {
                lemma_pow2_strictly_increases(i as nat, (sel@.len() - 1) as nat);
            }
        }
        let stride = pow2_size(i);
        let ghost level_start = bank(in_@);
        let mut j: usize = 0;
        while j < stride
            invariant
                j <= stride,
                stride == pow2(i as nat),
                stride <= len + 1,
                1 <= stride,
                2 * stride <= usize::MAX,
                i < sel@.len(),
                selectors_wf(sel@, k, n),
                bank_wf(in_@, k, n),
                in_@.len() == len,
                bank(in_@) == cswap_level(sel@[i as int]@, level_start, stride as int, j as nat),
            decreases stride - j,
        {
            let ghost before = bank(in_@);
            sel[i].cswap_vectored(in_, j, stride);
            proof {
                assert(bank(in_@).len() == before.len());
            }
            j += 1;
        }
        i += 1;
    }
}

/// Select tree: collapses a run of ciphertexts under the selector bits `sel`, least
/// significant first, so that slot 0 receives the ciphertext whose index the bits spell.
/// Pass `i` selects under `sel[i]` between the slots `c * 2^(i+1)` and
/// `c * 2^(i+1) + 2^i`.
pub fn cmux_tree(in_: &mut Vec<Trlwe>, sel: &[TrgswDft])
    requires
        tree_fits(old(in_)@, sel@),
        sel@.len() < usize::BITS,
    ensures
        bank(final(in_)@) == cmux_tree_passes(gadgets(sel@), bank(old(in_)@), sel@.len()),
        final(in_)@.len() == old(in_)@.len(),
        tree_fits(final(in_)@, sel@),
        forall|k: nat, n: nat|
            bank_wf(old(in_)@, k, n) && selectors_wf(sel@, k, n) ==> #[trigger] bank_wf(
                final(in_)@,
                k,
                n,
            ),
{
    let ghost (k, n) = choose|k: nat, n: nat| #[trigger]
        bank_wf(in_@, k, n) && selectors_wf(sel@, k, n);
    let ghost before = in_@;
    cmux_tree_in(in_, sel, Ghost(k), Ghost(n));
    proof {
        lemma_fits_carries(before, in_@, sel@, k, n);
    }
}

/// Distribute tree: the dual of the select tree, with the passes in the reverse order,
/// `sel.len() - 1` first. It spreads the ciphertext of slot 0 to the slot whose index
/// the selector bits spell.
pub fn cdemux_tree(in_: &mut Vec<Trlwe>, sel: &[TrgswDft])
    requires
        tree_fits(old(in_)@, sel@),
        sel@.len() < usize::BITS,
    ensures
        bank(final(in_)@) == cdemux_tree_passes(gadgets(sel@), bank(old(in_)@), sel@.len()),
        final(in_)@.len() == old(in_)@.len(),
        tree_fits(final(in_)@, sel@),
        forall|k: nat, n: nat|
            bank_wf(old(in_)@, k, n) && selectors_wf(sel@, k, n) ==> #[trigger] bank_wf(
                final(in_)@,
                k,
                n,
            ),
{
    let ghost (k, n) = choose|k: nat, n: nat| #[trigger]
        bank_wf(in_@, k, n) && selectors_wf(sel@, k, n);
    let ghost before = in_@;
    cdemux_tree_in(in_, sel, Ghost(k), Ghost(n));
    proof {
        lemma_fits_carries(before, in_@, sel@, k, n);
    }
}

/// Exchange network: for every level `i`, swaps under `sel[i]` every two slots `2^i`
/// apart, at each of the `2^i` offsets of the level in turn, wrapping round the end of the
/// run. Every offset of the last level has to lie within the run.
pub fn deep_cswap(in_: &mut Vec<Trlwe>, sel: &[TrgswDft])
    requires
        tree_fits(old(in_)@, sel@),
        sel@.len() < usize::BITS,
        sel@.len() > 0 ==> pow2((sel@.len() - 1) as nat) <= old(in_)@.len() + 1,
    ensures
        bank(final(in_)@) == deep_cswap_levels(gadgets(sel@), bank(old(in_)@), sel@.len()),
        final(in_)@.len() == old(in_)@.len(),
        tree_fits(final(in_)@, sel@),
        forall|k: nat, n: nat|
            bank_wf(old(in_)@, k, n) && selectors_wf(sel@, k, n) ==> #[trigger] bank_wf(
                final(in_)@,
                k,
                n,
            ),
{
    let ghost (k, n) = choose|k: nat, n: nat| #[trigger]
        bank_wf(in_@, k, n) && selectors_wf(sel@, k, n);
    let ghost before = in_@;
    deep_cswap_in(in_, sel, Ghost(k), Ghost(n));
    proof {
        lemma_fits_carries(before, in_@, sel@, k, n);
    }
}

} // verus!
