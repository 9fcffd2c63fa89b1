use vstd::prelude::*;
use vstd::arithmetic::power2::pow2;
use crate::ideal::ct_ok;
use crate::ideal::selects;
use crate::ideal::all_select;
use crate::ideal::index_of;
use crate::ideal::zero_ct;
use crate::ideal::lemma_cancel;
use crate::ideal::lemma_ok_closed;
use crate::poly::torus::exponent_sum;
use crate::poly::torus::lemma_rotate_twice;
use crate::poly::torus::lemma_rotate_zero;
use crate::poly::torus::poly_in_range;
use crate::poly::torus::poly_rotate;
use crate::torus::Torus;
use crate::tree::gadgets;
use crate::tree::selectors_wf;
use crate::trgsw::dft::TrgswDft;
use crate::trgsw::sample::GadgetView;
use crate::trlwe::dft::TrlweDft;
use crate::trlwe::dft::product;
use crate::trlwe::sample::Trlwe;
use crate::trlwe::sample::lemma_shape_carries;
use crate::trlwe::sample::lemma_shapes_agree;
use crate::trlwe::sample::same_shape;
use crate::trlwe::sample::trlwe_add;
use crate::trlwe::sample::trlwe_rotate;
use crate::trlwe::sample::trlwe_rotate_pred;
use crate::trlwe::sample::trlwe_shape;

verus! {

/// One step of a rotation by an encrypted exponent: `x + g * (x * X^e - x)`, which is
/// `x` where `g` seals zero and `x * X^e` where it seals one.
pub open spec fn rotate_under(g: GadgetView, x: Seq<Seq<int>>, e: int) -> Seq<Seq<int>> {
    trlwe_add(x, product(g, trlwe_rotate_pred(x, e)))
}

/// The ciphertext after the first `upto` steps of a blind rotation: step `i` rotates by
/// `X^exps[i]` under selector `i`.
pub open spec fn blind_rotate_steps(
    gs: Seq<GadgetView>,
    exps: Seq<int>,
    x: Seq<Seq<int>>,
    upto: nat,
) -> Seq<Seq<int>>
    decreases upto,
{
    if upto == 0 {
        x
    } else {
        rotate_under(gs[upto - 1], blind_rotate_steps(gs, exps, x, (upto - 1) as nat), exps[upto - 1])
    }
}

/// The exponents of a run of torus values, read as integers.
pub open spec fn exponents(a: Seq<Torus>) -> Seq<int> {
    Seq::new(a.len(), |i: int| a[i]@)
}

/// The exponent that the first `upto` steps add up to where selector `i` seals
/// `bits[i]`, modulo `2N`.
pub open spec fn total_exponent(bits: Seq<bool>, exps: Seq<int>, n: int, upto: nat) -> int
    decreases upto,
{
    if upto == 0 {
        0
    } else {
        exponent_sum(
            total_exponent(bits, exps, n, (upto - 1) as nat),
            if bits[upto - 1] {
                exps[upto - 1]
            } else {
                0
            },
            n,
        )
    }
}

impl Trlwe {
    /// Rotates `self` by `X^a` where `bit` seals one and leaves it where `bit` seals zero.
    pub fn rotate_under(&mut self, a: u32, bit: &TrgswDft)
        requires
            old(self).wf(),
            bit.wf(),
            old(self).spec_k() == bit.spec_k(),
            old(self).spec_n() == bit.spec_n(),
            a < 2 * old(self).spec_n(),
        ensures
            final(self)@ == rotate_under(bit@, old(self)@, a as int),
            final(self).wf(),
            final(self).spec_k() == old(self).spec_k(),
            final(self).spec_n() == old(self).spec_n(),
    {
        let ghost k = self.spec_k();
        let ghost n = self.spec_n();
        let rot = self.mul_by_xai_pred(a);
        proof {
            lemma_shape_carries(rot@, self@, k, n);
        }
        let prod = Trlwe::from_dft(&TrlweDft::mul_trlwe_dft(&rot, bit));
        proof {
            lemma_shape_carries(prod@, rot@, k, n);
            lemma_shapes_agree(self@, prod@, k, n);
        }
        let ghost before = self@;
        self.add_assign(&prod);
        proof {
            lemma_shape_carries(self@, before, k, n);
        }
    }

    /// Rotation by an encrypted exponent: step `i` rotates by `X^a[i]` under the selector
    /// `s[i]`, first step first, so that the whole rotates by the sum of the exponents
    /// whose selectors seal one.
    pub fn blind_rotate(&mut self, a: &[Torus], s: &[TrgswDft])
        requires
            old(self).wf(),
            a@.len() == s@.len(),
            selectors_wf(s@, old(self).spec_k(), old(self).spec_n()),
            forall|i: int|
                0 <= i < a@.len() ==> (#[trigger] a@[i])@ < 2 * old(self).spec_n() && a@[i]@
                    <= u32::MAX,
        ensures
            final(self)@ == blind_rotate_steps(gadgets(s@), exponents(a@), old(self)@, s@.len()),
            final(self).wf(),
            final(self).spec_k() == old(self).spec_k(),
            final(self).spec_n() == old(self).spec_n(),
    {
        let ghost start = self@;
        let ghost k = self.spec_k();
        let ghost n = self.spec_n();
        let mut i: usize = 0;
        while i < s.len()
            invariant
                i <= s@.len(),
                a@.len() == s@.len(),
                self.wf(),
                self.spec_k() == k,
                self.spec_n() == n,
                n <= u32::MAX,
                selectors_wf(s@, k, n),
                forall|j: int| 0 <= j < a@.len() ==> (#[trigger] a@[j])@ < 2 * n && a@[j]@ <= u32::MAX,
                self@ == blind_rotate_steps(gadgets(s@), exponents(a@), start, i as nat),
            decreases s@.len() - i,
        {
            proof {
                assert(s@[i as int].wf());
                assert(a@[i as int]@ < 2 * n);
                assert(gadgets(s@)[i as int] == s@[i as int]@);
                assert(exponents(a@)[i as int] == a@[i as int]@);
            }
            let e: u32 = a[i].0 as u32;
            self.rotate_under(e, &s[i]);
            i += 1;
        }
    }
}

/// Rotating every polynomial of a ciphertext in range keeps it in range.
pub proof fn lemma_rotate_ok(x: Seq<Seq<int>>, e: int, k: nat, n: nat)
    requires
        ct_ok(x, k, n),
        0 <= e < 2 * n,
    ensures
        ct_ok(trlwe_rotate(x, e), k, n),
{
    assert forall|c: int| 0 <= c <= k implies poly_in_range(#[trigger] trlwe_rotate(x, e)[c]) by {
        assert(poly_in_range(x[c]));
        assert forall|i: int| 0 <= i < n implies 0 <= #[trigger] poly_rotate(x[c], e)[i]
            < crate::torus::modulus() by {
            assert(x[c].len() == n);
            if e < n {
                if i < e {
                    vstd::arithmetic::div_mod::lemma_mod_bound(
                        -x[c][i - e + n],
                        crate::torus::modulus(),
                    );
                }
            } else {
                if i >= e - n {
                    vstd::arithmetic::div_mod::lemma_mod_bound(
                        -x[c][i - e + n],
                        crate::torus::modulus(),
                    );
                }
            }
        }
    }
}

/// Under a selector that acts as the bit `c`, one rotation step rotates by `X^e` where
/// `c` is set and does nothing where it is clear.
pub proof fn lemma_rotate_under_selects(
    g: GadgetView,
    c: bool,
    x: Seq<Seq<int>>,
    e: int,
    k: nat,
    n: nat,
)
    requires
        selects(g, c, k, n),
        ct_ok(x, k, n),
        0 <= e < 2 * n,
    ensures
        rotate_under(g, x, e) == if c { trlwe_rotate(x, e) } else { x },
{
    let r = trlwe_rotate(x, e);
    lemma_rotate_ok(x, e, k, n);
    lemma_ok_closed(r, x, k, n);
    lemma_cancel(x, r, k, n);
    let d = trlwe_rotate_pred(x, e);
    assert(d =~= crate::trlwe::sample::trlwe_sub(r, x));
    assert(product(g, d) == if c { d } else { zero_ct(k, n) });
}

/// Blind rotation: under selectors that act as the bits `bits`, the steps rotate the
/// ciphertext by the sum, modulo `2N`, of the exponents whose bit is set.
pub proof fn lemma_blind_rotate_selects(
    gs: Seq<GadgetView>,
    bits: Seq<bool>,
    exps: Seq<int>,
    x: Seq<Seq<int>>,
    k: nat,
    n: nat,
    upto: nat,
)
    requires
        all_select(gs, bits, k, n),
        ct_ok(x, k, n),
        1 <= n,
        exps.len() == gs.len(),
        forall|i: int| 0 <= i < exps.len() ==> 0 <= #[trigger] exps[i] < 2 * n,
        upto <= gs.len(),
    ensures
        0 <= total_exponent(bits, exps, n as int, upto) < 2 * n,
        blind_rotate_steps(gs, exps, x, upto) == trlwe_rotate(
            x,
            total_exponent(bits, exps, n as int, upto),
        ),
    decreases upto,
{
    if upto == 0 {
        assert forall|c: int| 0 <= c <= k implies #[trigger] trlwe_rotate(x, 0)[c] == x[c] by {
            lemma_rotate_zero(x[c]);
        }
        assert(trlwe_rotate(x, 0) =~= x);
    } else {
        let t = (upto - 1) as nat;
        lemma_blind_rotate_selects(gs, bits, exps, x, k, n, t);
        let before = total_exponent(bits, exps, n as int, t);
        let y = trlwe_rotate(x, before);
        lemma_rotate_ok(x, before, k, n);
        assert(selects(gs[t as int], bits[t as int], k, n));
        lemma_rotate_under_selects(gs[t as int], bits[t as int], y, exps[t as int], k, n);
        let step = if bits[t as int] { exps[t as int] } else { 0 };
        let after = exponent_sum(before, step, n as int);
        assert forall|c: int| 0 <= c <= k implies #[trigger] trlwe_rotate(y, step)[c]
            == trlwe_rotate(x, after)[c] by {
            assert(poly_in_range(x[c]));
            assert(x[c].len() == n);
            lemma_rotate_twice(x[c], before, step);
        }
        assert(trlwe_rotate(y, step) =~= trlwe_rotate(x, after));
        if !bits[t as int] {
            assert forall|c: int| 0 <= c <= k implies #[trigger] trlwe_rotate(y, 0)[c] == y[c] by {
                lemma_rotate_zero(y[c]);
            }
            assert(trlwe_rotate(y, 0) =~= y);
        }
    }
}

/// Where step `i` rotates by `X^(2^i)` and the bits spell an exponent below `2N`, the
/// blind rotation rotates by the exponent that the bits spell.
pub proof fn lemma_total_exponent_left(bits: Seq<bool>, exps: Seq<int>, n: int, upto: nat)
    requires
        upto <= exps.len(),
        pow2(upto) <= 2 * n,
        forall|i: int| 0 <= i < upto ==> #[trigger] exps[i] == pow2(i as nat),
    ensures
        total_exponent(bits, exps, n, upto) == index_of(bits, upto),
    decreases upto,
{
    if upto > 0 {
        let t = (upto - 1) as nat;
        vstd::arithmetic::power2::lemma_pow2_unfold(upto);
        lemma_total_exponent_left(bits, exps, n, t);
        crate::ideal::lemma_index_bound(bits, t);
    }
}

/// Where step `i` rotates by `X^(2N - 2^i)` and the bits spell an exponent `e` of at most
/// `N`, the blind rotation rotates by `X^(-e)`: the exponent `2N - e`, or zero for `e = 0`.
pub proof fn lemma_total_exponent_right(bits: Seq<bool>, exps: Seq<int>, n: int, upto: nat)
    requires
        upto <= exps.len(),
        1 <= n,
        pow2(upto) <= 2 * n,
        forall|i: int| 0 <= i < upto ==> #[trigger] exps[i] == 2 * n - pow2(i as nat),
    ensures
        total_exponent(bits, exps, n, upto) == if index_of(bits, upto) == 0 {
            0
        } else {
            2 * n - index_of(bits, upto)
        },
    decreases upto,
{
    if upto > 0 {
        let t = (upto - 1) as nat;
        vstd::arithmetic::power2::lemma_pow2_unfold(upto);
        vstd::arithmetic::power2::lemma_pow2_pos(t);
        lemma_total_exponent_right(bits, exps, n, t);
        crate::ideal::lemma_index_bound(bits, t);
    }
}

/// Rotating by `X^(-e)` brings coefficient `e` to the front.
pub proof fn lemma_rotate_brings_front(p: Seq<int>, e: int)
    requires
        0 <= e < p.len(),
    ensures
        poly_rotate(p, if e == 0 { 0 } else { 2 * p.len() - e })[0] == p[e],
{
}

/// The ciphertext after the steps `from - 1`, ..., `0` of a rotation to the left, in that
/// order: step `i` rotates by `X^(2^i)` under selector `i`.
pub open spec fn left_rotation(gs: Seq<GadgetView>, x: Seq<Seq<int>>, from: nat) -> Seq<Seq<int>>
    decreases from,
{
    if from == 0 {
        x
    } else {
        left_rotation(
            gs,
            rotate_under(gs[from - 1], x, pow2((from - 1) as nat) as int),
            (from - 1) as nat,
        )
    }
}

/// The ciphertext after the first `upto` steps of a rotation to the right: step `i`
/// rotates by `X^(2N - 2^i)`, which is `X^(-2^i)`, under selector `i`.
pub open spec fn right_rotation(gs: Seq<GadgetView>, x: Seq<Seq<int>>, n: nat, upto: nat) -> Seq<
    Seq<int>,
>
    decreases upto,
{
    if upto == 0 {
        x
    } else {
        rotate_under(
            gs[upto - 1],
            right_rotation(gs, x, n, (upto - 1) as nat),
            2 * n - pow2((upto - 1) as nat),
        )
    }
}

impl Trlwe {
    /// Rotates `self` to the left by the exponent that the selectors spell, least
    /// significant first: the steps run from the last selector down, step `i` rotating by
    /// `X^(2^i)`.
    pub fn rotate_left(&mut self, sel: &[TrgswDft])
        requires
            old(self).wf(),
            selectors_wf(sel@, old(self).spec_k(), old(self).spec_n()),
            pow2(sel@.len()) <= 2 * old(self).spec_n(),
            2 * old(self).spec_n() <= u32::MAX,
        ensures
            final(self)@ == left_rotation(gadgets(sel@), old(self)@, sel@.len()),
            final(self).wf(),
            final(self).spec_k() == old(self).spec_k(),
            final(self).spec_n() == old(self).spec_n(),
    {
        let ghost start = self@;
        let ghost k = self.spec_k();
        let ghost n = self.spec_n();
        let mut i: usize = sel.len();
        while i > 0
            invariant
                i <= sel@.len(),
                self.wf(),
                self.spec_k() == k,
                self.spec_n() == n,
                selectors_wf(sel@, k, n),
                pow2(sel@.len()) <= 2 * n,
                2 * n <= u32::MAX,
                left_rotation(gadgets(sel@), self@, i as nat) == left_rotation(
                    gadgets(sel@),
                    start,
                    sel@.len(),
                ),
            decreases i,
        {
            i -= 1;
            proof {
                assert(sel@[i as int].wf());
                assert(gadgets(sel@)[i as int] == sel@[i as int]@);
                vstd::arithmetic::power2::lemma_pow2_strictly_increases(i as nat, sel@.len());
                vstd::arithmetic::power2::lemma2_to64();
                if i >= 32 {
                    if i > 32 {
                        vstd::arithmetic::power2::lemma_pow2_strictly_increases(32, i as nat);
                    }
                    assert(false);
                }
            }
            let e: u32 = crate::gadget::pow2_word(i as u32) as u32;
            self.rotate_under(e, &sel[i]);
        }
    }

    /// Rotates `self` to the right by the exponent that the selectors spell, least
    /// significant first: step `i` rotates by `X^(2N - 2^i)`.
    pub fn rotate_right(&mut self, sel: &[TrgswDft])
        requires
            old(self).wf(),
            selectors_wf(sel@, old(self).spec_k(), old(self).spec_n()),
            pow2(sel@.len()) <= 2 * old(self).spec_n(),
            2 * old(self).spec_n() <= u32::MAX,
        ensures
            final(self)@ == right_rotation(
                gadgets(sel@),
                old(self)@,
                old(self).spec_n(),
                sel@.len(),
            ),
            final(self).wf(),
            final(self).spec_k() == old(self).spec_k(),
            final(self).spec_n() == old(self).spec_n(),
    {
        let ghost start = self@;
        let ghost k = self.spec_k();
        let ghost n = self.spec_n();
        let upper_n: u32 = self.upper_n();
        let mut i: usize = 0;
        while i < sel.len()
            invariant
                i <= sel@.len(),
                self.wf(),
                self.spec_k() == k,
                self.spec_n() == n,
                upper_n == n,
                2 * n <= u32::MAX,
                selectors_wf(sel@, k, n),
                pow2(sel@.len()) <= 2 * n,
                self@ == right_rotation(gadgets(sel@), start, n, i as nat),
            decreases sel@.len() - i,
        {
            proof {
                assert(sel@[i as int].wf());
                assert(gadgets(sel@)[i as int] == sel@[i as int]@);
                vstd::arithmetic::power2::lemma_pow2_strictly_increases(i as nat, sel@.len());
                vstd::arithmetic::power2::lemma_pow2_pos(i as nat);
                vstd::arithmetic::power2::lemma2_to64();
                if i >= 32 {
                    if i > 32 {
                        vstd::arithmetic::power2::lemma_pow2_strictly_increases(32, i as nat);
                    }
                    assert(false);
                }
            }
            let e: u32 = 2 * upper_n - crate::gadget::pow2_word(i as u32) as u32;
            self.rotate_under(e, &sel[i]);
            i += 1;
        }
    }
}

/// Rotation to the left: under selectors that act as the bits `bits`, the steps rotate
/// the ciphertext by the exponent that the bits spell.
pub proof fn lemma_left_rotation_selects(
    gs: Seq<GadgetView>,
    bits: Seq<bool>,
    x: Seq<Seq<int>>,
    k: nat,
    n: nat,
    from: nat,
)
    requires
        all_select(gs, bits, k, n),
        ct_ok(x, k, n),
        1 <= n,
        from <= gs.len(),
        pow2(from) <= 2 * n,
    ensures
        index_of(bits, from) < 2 * n,
        left_rotation(gs, x, from) == trlwe_rotate(x, index_of(bits, from) as int),
    decreases from,
{
    crate::ideal::lemma_index_bound(bits, from);
    if from == 0 {
        assert forall|c: int| 0 <= c <= k implies #[trigger] trlwe_rotate(x, 0)[c] == x[c] by {
            lemma_rotate_zero(x[c]);
        }
        assert(trlwe_rotate(x, 0) =~= x);
    } else {
        let t = (from - 1) as nat;
        let e = pow2(t) as int;
        vstd::arithmetic::power2::lemma_pow2_unfold(from);
        vstd::arithmetic::power2::lemma_pow2_pos(t);
        assert(selects(gs[t as int], bits[t as int], k, n));
        lemma_rotate_under_selects(gs[t as int], bits[t as int], x, e, k, n);
        let step = if bits[t as int] { e } else { 0 };
        let y = rotate_under(gs[t as int], x, e);
        lemma_rotate_ok(x, e, k, n);
        lemma_left_rotation_selects(gs, bits, y, k, n, t);
        crate::ideal::lemma_index_bound(bits, t);
        let low = index_of(bits, t) as int;
        assert forall|c: int| 0 <= c <= k implies #[trigger] trlwe_rotate(y, low)[c]
            == trlwe_rotate(x, step + low)[c] by {
            assert(poly_in_range(x[c]));
            assert(x[c].len() == n);
            if bits[t as int] {
                lemma_rotate_twice(x[c], e, low);
            }
        }
        assert(trlwe_rotate(y, low) =~= trlwe_rotate(x, step + low));
    }
}

/// Rotation to the right: under selectors that act as the bits `bits`, spelling an
/// exponent `e`, the steps rotate the ciphertext by `X^(-e)`.
pub proof fn lemma_right_rotation_selects(
    gs: Seq<GadgetView>,
    bits: Seq<bool>,
    x: Seq<Seq<int>>,
    k: nat,
    n: nat,
    upto: nat,
)
    requires
        all_select(gs, bits, k, n),
        ct_ok(x, k, n),
        1 <= n,
        upto <= gs.len(),
        pow2(upto) <= 2 * n,
    ensures
        index_of(bits, upto) < 2 * n,
        right_rotation(gs, x, n, upto) == trlwe_rotate(
            x,
            if index_of(bits, upto) == 0 {
                0
            } else {
                2 * n - index_of(bits, upto)
            },
        ),
    decreases upto,
{
    crate::ideal::lemma_index_bound(bits, upto);
    if upto == 0 {
        assert forall|c: int| 0 <= c <= k implies #[trigger] trlwe_rotate(x, 0)[c] == x[c] by {
            lemma_rotate_zero(x[c]);
        }
        assert(trlwe_rotate(x, 0) =~= x);
    } else {
        let t = (upto - 1) as nat;
        let p = pow2(t) as int;
        vstd::arithmetic::power2::lemma_pow2_unfold(upto);
        vstd::arithmetic::power2::lemma_pow2_pos(t);
        lemma_right_rotation_selects(gs, bits, x, k, n, t);
        crate::ideal::lemma_index_bound(bits, t);
        let low = index_of(bits, t) as int;
        let before = if low == 0 { 0 } else { 2 * n - low };
        let y = trlwe_rotate(x, before);
        lemma_rotate_ok(x, before, k, n);
        assert(selects(gs[t as int], bits[t as int], k, n));
        lemma_rotate_under_selects(gs[t as int], bits[t as int], y, 2 * n - p, k, n);
        let total = index_of(bits, upto) as int;
        let after = if total == 0 { 0 } else { 2 * n - total };
        if bits[t as int] {
            assert forall|c: int| 0 <= c <= k implies #[trigger] trlwe_rotate(y, 2 * n - p)[c]
                == trlwe_rotate(x, after)[c] by {
                assert(poly_in_range(x[c]));
                assert(x[c].len() == n);
                lemma_rotate_twice(x[c], before, 2 * n - p);
            }
            assert(trlwe_rotate(y, 2 * n - p) =~= trlwe_rotate(x, after));
        }
    }
}

} // verus!
