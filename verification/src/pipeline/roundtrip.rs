use vstd::prelude::*;
use vstd::arithmetic::power2::pow2;
use crate::ideal::all_ok;
use crate::ideal::all_select;
use crate::ideal::ct_ok;
use crate::ideal::index_of;
use crate::ideal::lemma_cancel;
use crate::ideal::lemma_cdemux_tree_selects;
use crate::ideal::lemma_cmux_tree_selects;
use crate::ideal::lemma_index_bound;
use crate::ideal::lemma_ok_closed;
use crate::ideal::one_hot;
use crate::ideal::zero_ct;
use crate::pipeline::train::accumulated;
use crate::poly::torus::exponent_sum;
use crate::poly::torus::lemma_rotate_twice;
use crate::poly::torus::poly_const;
use crate::poly::torus::poly_in_range;
use crate::poly::torus::poly_rotate;
use crate::rotate::left_rotation;
use crate::rotate::lemma_left_rotation_selects;
use crate::rotate::lemma_right_rotation_selects;
use crate::rotate::lemma_rotate_ok;
use crate::rotate::right_rotation;
use crate::torus::modulus;
use crate::tree::cdemux_tree_passes;
use crate::tree::cmux_tree_passes;
use crate::trgsw::sample::GadgetView;
use crate::poly::torus::constant_poly;
use crate::trlwe::sample::trlwe_rotate;
use crate::trlwe::sample::trlwe_trivial;

verus! {

/// The run after a mask that holds `x` in polynomial 0 is spread under the selectors of
/// an address: `low` for the rotation, `high` for the distribution.
pub open spec fn written(
    low: Seq<GadgetView>,
    high: Seq<GadgetView>,
    x: Seq<Seq<int>>,
    k: nat,
    n: nat,
) -> Seq<Seq<Seq<int>>> {
    cdemux_tree_passes(
        high,
        one_hot(pow2(high.len()), 0, x, k, n).update(0, left_rotation(low, x, low.len())),
        high.len(),
    )
}

/// The polynomial ciphertext that a read leaves before the slot is extracted: the run
/// collapsed under `high` and rotated to the right under `low`.
pub open spec fn fetched(
    low: Seq<GadgetView>,
    high: Seq<GadgetView>,
    t: Seq<Seq<Seq<int>>>,
    n: nat,
) -> Seq<Seq<int>> {
    right_rotation(low, cmux_tree_passes(high, t, high.len())[0], n, low.len())
}

/// The exponent `-e` modulo `2N`.
pub open spec fn minus(e: int, n: int) -> int {
    if e == 0 {
        0
    } else {
        2 * n - e
    }
}

/// Rotating the zero ciphertext leaves it zero.
pub proof fn lemma_rotate_of_zero(e: int, k: nat, n: nat)
    requires
        0 <= e < 2 * n,
    ensures
        trlwe_rotate(zero_ct(k, n), e) == zero_ct(k, n),
{
    let z = zero_ct(k, n);
    assert forall|c: int| 0 <= c <= k implies #[trigger] trlwe_rotate(z, e)[c] =~= z[c] by {
        assert(z[c] == poly_const(n, 0));
        vstd::arithmetic::div_mod::lemma_small_mod(0nat, modulus() as nat);
    }
    assert(trlwe_rotate(z, e) =~= z);
}

/// Writing: under selectors that act as the bits of an address, a mask that holds `x` in
/// polynomial 0 ends up holding `x`, rotated to the left by the low part of the address,
/// in the polynomial that the high part names, and nothing anywhere else.
pub proof fn lemma_write(
    low: Seq<GadgetView>,
    high: Seq<GadgetView>,
    bits_low: Seq<bool>,
    bits_high: Seq<bool>,
    x: Seq<Seq<int>>,
    k: nat,
    n: nat,
)
    requires
        all_select(low, bits_low, k, n),
        all_select(high, bits_high, k, n),
        ct_ok(x, k, n),
        1 <= n,
        pow2(low.len()) <= 2 * n,
    ensures
        index_of(bits_high, bits_high.len()) < pow2(high.len()),
        index_of(bits_low, bits_low.len()) < 2 * n,
        written(low, high, x, k, n) == one_hot(
            pow2(high.len()),
            index_of(bits_high, bits_high.len()) as int,
            trlwe_rotate(x, index_of(bits_low, bits_low.len()) as int),
            k,
            n,
        ),
{
    let len = pow2(high.len());
    vstd::arithmetic::power2::lemma_pow2_pos(high.len());
    lemma_left_rotation_selects(low, bits_low, x, k, n, low.len());
    let y = trlwe_rotate(x, index_of(bits_low, bits_low.len()) as int);
    lemma_rotate_ok(x, index_of(bits_low, bits_low.len()) as int, k, n);
    assert(one_hot(len, 0, x, k, n).update(0, y) =~= one_hot(len, 0, y, k, n));
    lemma_cdemux_tree_selects(high, bits_high, y, k, n);
}

/// Reading: under selectors that act as the bits of an address, a read fetches the
/// polynomial that the high part names, rotated to the right by the low part.
pub proof fn lemma_read(
    low: Seq<GadgetView>,
    high: Seq<GadgetView>,
    bits_low: Seq<bool>,
    bits_high: Seq<bool>,
    t: Seq<Seq<Seq<int>>>,
    k: nat,
    n: nat,
)
    requires
        all_select(low, bits_low, k, n),
        all_select(high, bits_high, k, n),
        all_ok(t, k, n),
        t.len() == pow2(high.len()),
        1 <= n,
        pow2(low.len()) <= 2 * n,
    ensures
        index_of(bits_high, bits_high.len()) < t.len(),
        index_of(bits_low, bits_low.len()) < 2 * n,
        fetched(low, high, t, n) == trlwe_rotate(
            t[index_of(bits_high, bits_high.len()) as int],
            minus(index_of(bits_low, bits_low.len()) as int, n as int),
        ),
{
    lemma_cmux_tree_selects(high, bits_high, t, k, n);
    let picked = t[index_of(bits_high, bits_high.len()) as int];
    assert(ct_ok(picked, k, n));
    lemma_right_rotation_selects(low, bits_low, picked, k, n, low.len());
}

/// What is written under one address and read under another: the value itself where the
/// two addresses are one, the value rotated by the difference of the low parts where only
/// these differ, and nothing where the high parts differ.
pub proof fn lemma_write_then_read(
    low: Seq<GadgetView>,
    high: Seq<GadgetView>,
    bits_low: Seq<bool>,
    bits_high: Seq<bool>,
    low2: Seq<GadgetView>,
    high2: Seq<GadgetView>,
    bits_low2: Seq<bool>,
    bits_high2: Seq<bool>,
    x: Seq<Seq<int>>,
    k: nat,
    n: nat,
)
    requires
        all_select(low, bits_low, k, n),
        all_select(high, bits_high, k, n),
        all_select(low2, bits_low2, k, n),
        all_select(high2, bits_high2, k, n),
        low.len() == low2.len(),
        high.len() == high2.len(),
        ct_ok(x, k, n),
        1 <= n,
        pow2(low.len()) <= 2 * n,
    ensures
        index_of(bits_low, bits_low.len()) < 2 * n,
        index_of(bits_low2, bits_low2.len()) < 2 * n,
        fetched(low2, high2, written(low, high, x, k, n), n) == if index_of(
            bits_high2,
            bits_high2.len(),
        ) != index_of(bits_high, bits_high.len()) {
            zero_ct(k, n)
        } else {
            trlwe_rotate(
                x,
                exponent_sum(
                    index_of(bits_low, bits_low.len()) as int,
                    minus(index_of(bits_low2, bits_low2.len()) as int, n as int),
                    n as int,
                ),
            )
        },
        index_of(bits_low2, bits_low2.len()) == index_of(bits_low, bits_low.len())
            ==> trlwe_rotate(
            x,
            exponent_sum(
                index_of(bits_low, bits_low.len()) as int,
                minus(index_of(bits_low2, bits_low2.len()) as int, n as int),
                n as int,
            ),
        ) == x,
{
    let len = pow2(high.len());
    let at = index_of(bits_high, bits_high.len()) as int;
    let at2 = index_of(bits_high2, bits_high2.len()) as int;
    let l1 = index_of(bits_low, bits_low.len()) as int;
    let l2 = index_of(bits_low2, bits_low2.len()) as int;
    lemma_write(low, high, bits_low, bits_high, x, k, n);
    let y = trlwe_rotate(x, l1);
    lemma_rotate_ok(x, l1, k, n);
    let t = one_hot(len, at, y, k, n);
    lemma_ok_closed(x, x, k, n);
    assert(all_ok(t, k, n));
    lemma_read(low2, high2, bits_low2, bits_high2, t, k, n);
    let back = minus(l2, n as int);
    if at2 != at {
        lemma_rotate_of_zero(back, k, n);
    } else {
        assert forall|c: int| 0 <= c <= k implies #[trigger] trlwe_rotate(y, back)[c]
            == trlwe_rotate(x, exponent_sum(l1, back, n as int))[c] by {
            assert(poly_in_range(x[c]));
            assert(x[c].len() == n);
            lemma_rotate_twice(x[c], l1, back);
        }
        assert(trlwe_rotate(y, back) =~= trlwe_rotate(x, exponent_sum(l1, back, n as int)));
    }
    if l2 == l1 {
        assert(exponent_sum(l1, back, n as int) == 0);
        assert forall|c: int| 0 <= c <= k implies #[trigger] trlwe_rotate(x, 0)[c] == x[c] by {
            crate::poly::torus::lemma_rotate_zero(x[c]);
        }
        assert(trlwe_rotate(x, 0) =~= x);
    }
}

/// One sample trained into an empty table reads back as its count under its own address
/// and as zero under every other: slot 0 of the body that a read fetches holds `c` where
/// the address read is the address written, and zero where it is not.
pub proof fn lemma_counter_round_trip(
    low: Seq<GadgetView>,
    high: Seq<GadgetView>,
    bits_low: Seq<bool>,
    bits_high: Seq<bool>,
    low2: Seq<GadgetView>,
    high2: Seq<GadgetView>,
    bits_low2: Seq<bool>,
    bits_high2: Seq<bool>,
    c: int,
    k: nat,
    n: nat,
)
    requires
        all_select(low, bits_low, k, n),
        all_select(high, bits_high, k, n),
        all_select(low2, bits_low2, k, n),
        all_select(high2, bits_high2, k, n),
        low.len() == low2.len(),
        high.len() == high2.len(),
        0 <= c < modulus(),
        1 <= n,
        pow2(low.len()) <= n,
    ensures
        fetched(
            low2,
            high2,
            accumulated(
                Seq::new(pow2(high.len()), |i: int| zero_ct(k, n)),
                written(low, high, trlwe_trivial(k, constant_poly(n, c)), k, n),
            ),
            n,
        )[k as int][0] == if index_of(bits_high2, bits_high2.len()) == index_of(
            bits_high,
            bits_high.len(),
        ) && index_of(bits_low2, bits_low2.len()) == index_of(bits_low, bits_low.len()) {
            c
        } else {
            0
        },
{
    let x = trlwe_trivial(k, constant_poly(n, c));
    let len = pow2(high.len());
    assert(ct_ok(x, k, n)) by {
        assert forall|i: int| 0 <= i <= k implies poly_in_range(#[trigger] x[i]) by {}
    }
    lemma_write(low, high, bits_low, bits_high, x, k, n);
    let l1 = index_of(bits_low, bits_low.len()) as int;
    let l2 = index_of(bits_low2, bits_low2.len()) as int;
    let at = index_of(bits_high, bits_high.len()) as int;
    let y = trlwe_rotate(x, l1);
    lemma_rotate_ok(x, l1, k, n);
    let w = written(low, high, x, k, n);
    let empty = Seq::new(len, |i: int| zero_ct(k, n));
    lemma_ok_closed(x, x, k, n);
    assert(accumulated(empty, w) =~= w) by {
        assert forall|i: int| 0 <= i < len implies #[trigger] accumulated(empty, w)[i] == w[i] by {
            assert(ct_ok(w[i], k, n));
            lemma_cancel(w[i], w[i], k, n);
        }
    }
    lemma_write_then_read(
        low,
        high,
        bits_low,
        bits_high,
        low2,
        high2,
        bits_low2,
        bits_high2,
        x,
        k,
        n,
    );
    lemma_index_bound(bits_low, bits_low.len());
    lemma_index_bound(bits_low2, bits_low2.len());
    let back = minus(l2, n as int);
    let e = exponent_sum(l1, back, n as int);
    let body = constant_poly(n, c);
    assert(x[k as int] == body);
    vstd::arithmetic::div_mod::lemma_small_mod(0nat, modulus() as nat);
    assert(poly_rotate(body, e)[0] == if e == 0 { c } else { 0 });
    assert(zero_ct(k, n)[k as int][0] == 0);
}

/// The run after a mask `v` is spread under the selectors of an address: `low` rotate
/// its polynomial 0, `high` distribute it.
pub open spec fn spread_views(
    low: Seq<GadgetView>,
    high: Seq<GadgetView>,
    v: Seq<Seq<Seq<int>>>,
) -> Seq<Seq<Seq<int>>> {
    cdemux_tree_passes(high, v.update(0, left_rotation(low, v[0], low.len())), high.len())
}

/// What `spread` leaves is the run spread under the views of its selectors, the first
/// `low` of them for the rotation and the others for the distribution.
pub proof fn lemma_spread_run_unfolds(
    sel: Seq<crate::trgsw::dft::TrgswDft>,
    v: Seq<Seq<Seq<int>>>,
    low: int,
)
    requires
        0 <= low <= sel.len(),
    ensures
        crate::pipeline::train::spread_run(sel, v, low) == spread_views(
            crate::tree::gadgets(sel.subrange(0, low)),
            crate::tree::gadgets(sel.subrange(low, sel.len() as int)),
            v,
        ),
{
}

/// What `read_slot` returns is the slot extracted from what is fetched under the views
/// of its selectors.
pub proof fn lemma_read_run_unfolds(
    sel: Seq<crate::trgsw::dft::TrgswDft>,
    t: Seq<Seq<Seq<int>>>,
    first: int,
    count: int,
    low: int,
    slot: int,
)
    requires
        0 <= low <= sel.len(),
    ensures
        crate::pipeline::infer::read_run(sel, t, first, count, low, slot)
            == crate::tlwe::sample::tlwe_extracted(
            fetched(
                crate::tree::gadgets(sel.subrange(0, low)),
                crate::tree::gadgets(sel.subrange(low, sel.len() as int)),
                t.subrange(first, first + count),
                cmux_tree_passes(
                    crate::tree::gadgets(sel.subrange(low, sel.len() as int)),
                    t.subrange(first, first + count),
                    (sel.len() - low) as nat,
                )[0][0].len(),
            ),
            slot,
        ),
{
}

/// Training then reading, on what is sealed: a mask that decrypts to the count `c` in
/// slot 0 of its polynomial 0 and to zero everywhere else is spread under the selectors
/// of one address and added to an empty table; slot 0 of what a read of that table
/// fetches under the selectors of another address of the same widths then decrypts, under
/// the flattened key, to `c` where the two addresses are one and to zero where they are
/// not. The selectors only have to act as the bits of the addresses, which every selector
/// sealed with digits that cover all 64 bits does, whatever masks were drawn.
pub proof fn lemma_trained_counter(
    low: Seq<GadgetView>,
    high: Seq<GadgetView>,
    bits_low: Seq<bool>,
    bits_high: Seq<bool>,
    low2: Seq<GadgetView>,
    high2: Seq<GadgetView>,
    bits_low2: Seq<bool>,
    bits_high2: Seq<bool>,
    v: Seq<Seq<Seq<int>>>,
    c: int,
    s: Seq<Seq<int>>,
    flat: Seq<int>,
    n: nat,
)
    requires
        crate::sealed::all_act(low, bits_low, s, n),
        crate::sealed::all_act(high, bits_high, s, n),
        crate::sealed::all_act(low2, bits_low2, s, n),
        crate::sealed::all_act(high2, bits_high2, s, n),
        low.len() == low2.len(),
        high.len() == high2.len(),
        crate::sealed::key_fits(s, n),
        1 <= n,
        pow2(low.len()) <= n,
        0 <= c < modulus(),
        v.len() == pow2(high.len()),
        crate::sealed::hot_at(v, 0, constant_poly(n, c), s, n),
        flat.len() == s.len() * n,
        forall|i: int, t: int| 0 <= i < s.len() && 0 <= t < n ==> flat[i * n + t] == #[trigger] s[i][t],
    ensures
        crate::tlwe::sample::tlwe_phase(
            crate::tlwe::sample::tlwe_extracted(
                fetched(
                    low2,
                    high2,
                    accumulated(
                        Seq::new(pow2(high.len()), |i: int| zero_ct(s.len(), n)),
                        spread_views(low, high, v),
                    ),
                    n,
                ),
                0,
            ),
            flat,
        ) == if index_of(bits_high2, bits_high2.len()) == index_of(bits_high, bits_high.len())
            && index_of(bits_low2, bits_low2.len()) == index_of(bits_low, bits_low.len()) {
            c
        } else {
            0
        },
{
    let len = pow2(high.len());
    let table = accumulated(
        Seq::new(len, |i: int| zero_ct(s.len(), n)),
        spread_views(low, high, v),
    );
    lemma_index_bound(bits_low2, bits_low2.len());
    lemma_trained_counter_at(
        low,
        high,
        bits_low,
        bits_high,
        low2,
        high2,
        bits_low2,
        bits_high2,
        0,
        0,
        v,
        c,
        s,
        flat,
        n,
    );
    assert(table.subrange(0, 0 + (len as int)) =~= table);
}

/// Training then reading a part of the table, on what is sealed. A mask that decrypts to
/// the count `c` in slot 0 of its polynomial 0 is spread under the selectors of one
/// address, whose low part `L` names a slot and whose high part `H` names a polynomial,
/// and is added to an empty table. A read then collapses the `2^d` polynomials of the
/// table from `first` on under the high selectors of another address, rotates the
/// polynomial that is left under its low selectors, and extracts slot `slot`. With the
/// high part `H'` and the low part `L'` of that address, what is read decrypts to `c`
/// where `first + H' = H` and `slot + L' = L`, and to zero where not.
pub proof fn lemma_trained_counter_at(
    low: Seq<GadgetView>,
    high: Seq<GadgetView>,
    bits_low: Seq<bool>,
    bits_high: Seq<bool>,
    low2: Seq<GadgetView>,
    high2: Seq<GadgetView>,
    bits_low2: Seq<bool>,
    bits_high2: Seq<bool>,
    first: int,
    slot: int,
    v: Seq<Seq<Seq<int>>>,
    c: int,
    s: Seq<Seq<int>>,
    flat: Seq<int>,
    n: nat,
)
    requires
        crate::sealed::all_act(low, bits_low, s, n),
        crate::sealed::all_act(high, bits_high, s, n),
        crate::sealed::all_act(low2, bits_low2, s, n),
        crate::sealed::all_act(high2, bits_high2, s, n),
        crate::sealed::key_fits(s, n),
        1 <= n,
        pow2(low.len()) <= n,
        pow2(low2.len()) <= n,
        0 <= first,
        first + pow2(high2.len()) <= pow2(high.len()),
        0 <= slot,
        slot + index_of(bits_low2, bits_low2.len()) < n,
        0 <= c < modulus(),
        v.len() == pow2(high.len()),
        crate::sealed::hot_at(v, 0, constant_poly(n, c), s, n),
        flat.len() == s.len() * n,
        forall|i: int, t: int| 0 <= i < s.len() && 0 <= t < n ==> flat[i * n + t] == #[trigger] s[i][t],
    ensures
        crate::tlwe::sample::tlwe_phase(
            crate::tlwe::sample::tlwe_extracted(
                fetched(
                    low2,
                    high2,
                    accumulated(
                        Seq::new(pow2(high.len()), |i: int| zero_ct(s.len(), n)),
                        spread_views(low, high, v),
                    ).subrange(first, first + pow2(high2.len())),
                    n,
                ),
                slot,
            ),
            flat,
        ) == if first + index_of(bits_high2, bits_high2.len()) == index_of(
            bits_high,
            bits_high.len(),
        ) && slot + index_of(bits_low2, bits_low2.len()) == index_of(bits_low, bits_low.len()) {
            c
        } else {
            0
        },
{
    let k = s.len();
    let len = pow2(high.len());
    let count = pow2(high2.len());
    let p0 = constant_poly(n, c);
    let z = poly_const(n, 0);
    vstd::arithmetic::power2::lemma_pow2_pos(high.len());
    vstd::arithmetic::power2::lemma_pow2_pos(high2.len());
    lemma_index_bound(bits_low, bits_low.len());
    lemma_index_bound(bits_low2, bits_low2.len());
    lemma_index_bound(bits_high2, bits_high2.len());
    let l1 = index_of(bits_low, bits_low.len()) as int;
    let l2 = index_of(bits_low2, bits_low2.len()) as int;
    let at = index_of(bits_high, bits_high.len()) as int;
    let at2 = index_of(bits_high2, bits_high2.len()) as int;
    // the mask after the rotation of its polynomial 0
    assert(crate::trlwe::sample::trlwe_shape(v[0], k, n));
    assert(crate::trlwe::sample::trlwe_phase(v[0], s) == p0);
    crate::sealed::lemma_left_rotation_acts(low, bits_low, v[0], s, n, low.len());
    let y = left_rotation(low, v[0], low.len());
    let py = poly_rotate(p0, l1);
    crate::sealed::lemma_phase_in_range(y, s, n);
    let v1 = v.update(0, y);
    assert(crate::sealed::hot_at(v1, 0, py, s, n)) by {
        assert forall|j: int| 0 <= j < v1.len() implies crate::trlwe::sample::trlwe_shape(
            #[trigger] v1[j],
            k,
            n,
        ) by {
            if j != 0 {
                assert(crate::trlwe::sample::trlwe_shape(v[j], k, n));
            }
        }
        assert forall|j: int| 0 <= j < v1.len() implies #[trigger] crate::trlwe::sample::trlwe_phase(
            v1[j],
            s,
        ) == if j == 0 {
            py
        } else {
            z
        } by {
            if j != 0 {
                assert(crate::trlwe::sample::trlwe_phase(v[j], s) == z);
            }
        }
    }
    // the mask after the distribution
    crate::sealed::lemma_cdemux_tree_acts(high, bits_high, v1, py, s, n);
    let w = spread_views(low, high, v);
    crate::sealed::lemma_cdemux_tree_passes_act(high, bits_high, 0, v1, py, s, n, high.len());
    assert(crate::ideal::slot(0, high.len()) == 0) by (nonlinear_arith)
        requires
            crate::ideal::slot(0, high.len()) == 0 * (pow2(high.len()) as int),
    ;
    assert(w.len() == len);
    // the table after the mask is added to it, and the part of it that is read
    let empty = Seq::new(len, |i: int| zero_ct(k, n));
    let table = accumulated(empty, w);
    crate::sealed::lemma_zero_neutral(z, 0);
    crate::trlwe::sample::lemma_trivial_phase(k, z, s);
    let part = table.subrange(first, first + count);
    assert(crate::sealed::all_shaped(part, k, n) && forall|j: int|
        0 <= j < count ==> #[trigger] crate::trlwe::sample::trlwe_phase(part[j], s) == if first + j
            == at {
            py
        } else {
            z
        }) by {
        assert forall|j: int| 0 <= j < count implies crate::trlwe::sample::trlwe_shape(
            #[trigger] part[j],
            k,
            n,
        ) && crate::trlwe::sample::trlwe_phase(part[j], s) == if first + j == at {
            py
        } else {
            z
        } by {
            let i = first + j;
            assert(part[j] == table[i]);
            assert(crate::trlwe::sample::trlwe_shape(w[i], k, n));
            assert(crate::trlwe::sample::trlwe_shape(zero_ct(k, n), k, n));
            crate::trlwe::sample::lemma_phase_linear(zero_ct(k, n), w[i], s, n);
            let pw = crate::trlwe::sample::trlwe_phase(w[i], s);
            assert(pw == if i == at { py } else { z });
            crate::sealed::lemma_zero_neutral(py, 0);
        }
    }
    // the read
    crate::sealed::lemma_cmux_tree_acts(high2, bits_high2, part, s, n);
    crate::sealed::lemma_cmux_tree_passes_act(high2, bits_high2, part, s, n, high2.len());
    let picked = cmux_tree_passes(high2, part, high2.len())[0];
    assert(crate::trlwe::sample::trlwe_shape(picked, k, n));
    let pp = crate::trlwe::sample::trlwe_phase(picked, s);
    assert(pp == crate::trlwe::sample::trlwe_phase(part[at2], s));
    crate::sealed::lemma_right_rotation_acts(low2, bits_low2, picked, s, n, low2.len());
    let f = fetched(low2, high2, part, n);
    let back = minus(l2, n as int);
    assert(crate::trlwe::sample::trlwe_phase(f, s) == poly_rotate(pp, back));
    crate::tlwe::sample::lemma_extracted_phase(f, s, flat, slot, n);
    vstd::arithmetic::div_mod::lemma_small_mod(0nat, modulus() as nat);
    if first + at2 != at {
        crate::poly::torus::lemma_rotate_linear(z, z, back);
    } else {
        lemma_rotate_twice(p0, l1, back);
        let e = exponent_sum(l1, back, n as int);
        assert(poly_rotate(p0, e)[slot] == if e == slot { c } else { 0 });
    }
}

/// The selectors from `from` to `to` act as the bits from `from` to `to`.
proof fn lemma_part_acts(
    sel: Seq<GadgetView>,
    bits: Seq<bool>,
    s: Seq<Seq<int>>,
    n: nat,
    from: int,
    to: int,
)
    requires
        crate::sealed::all_act(sel, bits, s, n),
        0 <= from <= to <= sel.len(),
    ensures
        crate::sealed::all_act(sel.subrange(from, to), bits.subrange(from, to), s, n),
{
    assert forall|i: int| 0 <= i < to - from implies crate::sealed::acts(
        #[trigger] sel.subrange(from, to)[i],
        bits.subrange(from, to)[i],
        s,
        n,
    ) by {
        assert(crate::sealed::acts(sel[from + i], bits[from + i], s, n));
    }
}

/// The whole pipeline, on what is sealed: one sample `(label, addr)` is trained into an
/// empty table under the selectors of its extended address, laid out as `layout_of`
/// says; a read for `(label2, addr2)`, at the offsets of `label2` and under the selectors
/// of `addr2`, then decrypts to the count `c` where the label and the address are those
/// of the sample, and to zero where they are not.
pub proof fn lemma_labelled_round_trip(
    num_labels: nat,
    addr_size: nat,
    input_size: nat,
    label: nat,
    addr: nat,
    label2: nat,
    addr2: nat,
    sel: Seq<GadgetView>,
    bits: Seq<bool>,
    sel2: Seq<GadgetView>,
    bits2: Seq<bool>,
    v: Seq<Seq<Seq<int>>>,
    c: int,
    s: Seq<Seq<int>>,
    flat: Seq<int>,
    n: nat,
)
    requires
        1 <= n,
        addr_size + crate::pipeline::layout::ceil_log2(num_labels) <= usize::MAX,
        pow2(
            crate::pipeline::layout::minus_or_zero(
                addr_size + crate::pipeline::layout::ceil_log2(num_labels),
                crate::pipeline::layout::floor_log2(n),
            ),
        ) <= usize::MAX,
        pow2(crate::pipeline::layout::floor_log2(n)) <= usize::MAX,
        label < pow2(crate::pipeline::layout::ceil_log2(num_labels)),
        label2 < pow2(crate::pipeline::layout::ceil_log2(num_labels)),
        addr < pow2(addr_size),
        addr2 < pow2(addr_size),
        sel.len() == addr_size + crate::pipeline::layout::ceil_log2(num_labels),
        crate::sealed::all_act(sel, bits, s, n),
        forall|i: int|
            0 <= i < bits.len() ==> bits[i] == crate::pipeline::address::bit_of(
                crate::pipeline::address::extended(label, addr, addr_size),
                i as nat,
            ),
        sel2.len() == addr_size,
        crate::sealed::all_act(sel2, bits2, s, n),
        forall|i: int| 0 <= i < bits2.len() ==> bits2[i] == crate::pipeline::address::bit_of(addr2, i as nat),
        crate::sealed::key_fits(s, n),
        0 <= c < modulus(),
        v.len() == crate::pipeline::layout::layout_of(num_labels, addr_size, input_size, n).lut_vp_count,
        crate::sealed::hot_at(v, 0, constant_poly(n, c), s, n),
        flat.len() == s.len() * n,
        forall|i: int, t: int| 0 <= i < s.len() && 0 <= t < n ==> flat[i * n + t] == #[trigger] s[i][t],
    ensures
        ({
            let layout = crate::pipeline::layout::layout_of(num_labels, addr_size, input_size, n);
            let table = accumulated(
                Seq::new(layout.lut_vp_count as nat, |i: int| zero_ct(s.len(), n)),
                spread_views(
                    sel.subrange(0, layout.trn_low_size as int),
                    sel.subrange(layout.trn_low_size as int, sel.len() as int),
                    v,
                ),
            );
            let (first, slot) = crate::pipeline::infer::label_offsets(layout, label2);
            crate::tlwe::sample::tlwe_phase(
                crate::tlwe::sample::tlwe_extracted(
                    fetched(
                        sel2.subrange(0, layout.inf_low_size as int),
                        sel2.subrange(layout.inf_low_size as int, sel2.len() as int),
                        table.subrange(first as int, first + layout.upper_lut_size),
                        n,
                    ),
                    slot as int,
                ),
                flat,
            ) == if label2 == label && addr2 == addr {
                c
            } else {
                0
            }
        }),
{
    let lb = crate::pipeline::layout::ceil_log2(num_labels);
    let layout = crate::pipeline::layout::layout_of(num_labels, addr_size, input_size, n);
    crate::pipeline::layout::lemma_layout_facts(num_labels, addr_size, input_size, n);
    let tl = layout.trn_low_size as nat;
    let il = layout.inf_low_size as nat;
    let depth = layout.lut_vp_depth as nat;
    let ub = layout.upper_label_bits as nat;
    let lwb = layout.lower_label_bits as nat;
    let d2 = (depth - ub) as nat;
    let ext = crate::pipeline::address::extended(label, addr, addr_size);
    let ext2 = crate::pipeline::address::extended(label2, addr2, addr_size);
    let (first, slot) = crate::pipeline::infer::label_offsets(layout, label2);
    let ptl = pow2(tl) as int;
    let pil = pow2(il) as int;
    vstd::arithmetic::power2::lemma_pow2_pos(tl);
    vstd::arithmetic::power2::lemma_pow2_pos(il);
    vstd::arithmetic::power2::lemma_pow2_pos(depth);
    vstd::arithmetic::power2::lemma_pow2_pos(d2);
    vstd::arithmetic::power2::lemma_pow2_pos(lwb);
    vstd::arithmetic::power2::lemma_pow2_pos(ub);
    // the selectors and the bits of the two addresses, in their parts
    let low = sel.subrange(0, tl as int);
    let high = sel.subrange(tl as int, sel.len() as int);
    let bits_low = bits.subrange(0, tl as int);
    let bits_high = bits.subrange(tl as int, bits.len() as int);
    let low2 = sel2.subrange(0, il as int);
    let high2 = sel2.subrange(il as int, sel2.len() as int);
    let bits_low2 = bits2.subrange(0, il as int);
    let bits_high2 = bits2.subrange(il as int, bits2.len() as int);
    lemma_part_acts(sel, bits, s, n, 0, tl as int);
    lemma_part_acts(sel, bits, s, n, tl as int, sel.len() as int);
    lemma_part_acts(sel2, bits2, s, n, 0, il as int);
    lemma_part_acts(sel2, bits2, s, n, il as int, sel2.len() as int);
    crate::pipeline::address::lemma_split_bits(ext, bits, tl);
    crate::pipeline::address::lemma_split_bits(addr2, bits2, il);
    // what the parts of the bits spell
    crate::pipeline::address::lemma_extended_parts(label, addr, addr_size, lb);
    crate::pipeline::address::lemma_extended_parts(label2, addr2, addr_size, lb);
    vstd::arithmetic::power2::lemma_pow2_adds(tl, depth);
    vstd::arithmetic::power2::lemma_pow2_adds(il, (addr_size - il) as nat);
    let h = (ext as int) / ptl;
    let l = (ext as int) % ptl;
    vstd::arithmetic::div_mod::lemma_fundamental_div_mod(ext as int, ptl);
    vstd::arithmetic::div_mod::lemma_mod_bound(ext as int, ptl);
    vstd::arithmetic::div_mod::lemma_div_pos_is_pos(ext as int, ptl);
    assert(h < pow2(depth)) by (nonlinear_arith)
        requires
            ext == ptl * h + l,
            0 <= l,
            ext < ptl * pow2(depth),
            ptl > 0,
    ;
    vstd::arithmetic::div_mod::lemma_small_mod(h as nat, pow2(depth));
    let h2 = (addr2 as int) / pil;
    let l2 = (addr2 as int) % pil;
    vstd::arithmetic::div_mod::lemma_fundamental_div_mod(addr2 as int, pil);
    vstd::arithmetic::div_mod::lemma_mod_bound(addr2 as int, pil);
    vstd::arithmetic::div_mod::lemma_div_pos_is_pos(addr2 as int, pil);
    assert(h2 < pow2((addr_size - il) as nat)) by (nonlinear_arith)
        requires
            addr2 == pil * h2 + l2,
            0 <= l2,
            addr2 < pil * pow2((addr_size - il) as nat),
            pil > 0,
    ;
    vstd::arithmetic::div_mod::lemma_small_mod(h2 as nat, pow2((addr_size - il) as nat));
    assert(index_of(bits_low, bits_low.len()) == l);
    assert(index_of(bits_high, bits_high.len()) == h);
    assert(index_of(bits_low2, bits_low2.len()) == l2);
    assert(index_of(bits_high2, bits_high2.len()) == h2);
    // where the read looks, against where the sample was written
    crate::pipeline::infer::lemma_layout_agrees(
        num_labels,
        addr_size,
        input_size,
        n,
        label2,
        addr2,
    );
    let e2h = (ext2 as int) / ptl;
    let e2l = (ext2 as int) % ptl;
    assert(first + h2 == e2h);
    assert(slot + l2 == e2l);
    vstd::arithmetic::div_mod::lemma_fundamental_div_mod(ext2 as int, ptl);
    vstd::arithmetic::div_mod::lemma_mod_bound(ext2 as int, ptl);
    vstd::arithmetic::div_mod::lemma_div_pos_is_pos(ext2 as int, ptl);
    assert(e2h < pow2(depth)) by (nonlinear_arith)
        requires
            ext2 == ptl * e2h + e2l,
            0 <= e2l,
            ext2 < ptl * pow2(depth),
            ptl > 0,
    ;
    // the part of the table that is read lies in the table
    let unit = pow2(lwb) as int;
    let q = (label2 as int) / unit;
    vstd::arithmetic::div_mod::lemma_div_pos_is_pos(label2 as int, unit);
    vstd::arithmetic::power2::lemma_pow2_adds(lwb, ub);
    vstd::arithmetic::power2::lemma_pow2_adds(ub, d2);
    vstd::arithmetic::div_mod::lemma_fundamental_div_mod(label2 as int, unit);
    vstd::arithmetic::div_mod::lemma_mod_bound(label2 as int, unit);
    assert(q < pow2(ub)) by (nonlinear_arith)
        requires
            label2 == unit * q + (label2 as int) % unit,
            0 <= (label2 as int) % unit,
            label2 < unit * pow2(ub),
            unit > 0,
    ;
    assert(first == q * pow2(d2));
    assert(first + pow2(d2) <= pow2(depth) && first >= 0) by (nonlinear_arith)
        requires
            first == q * pow2(d2),
            0 <= q,
            q + 1 <= pow2(ub),
            pow2(depth) == pow2(ub) * pow2(d2),
            pow2(d2) > 0,
    ;
    assert(high2.len() == d2);
    assert(high.len() == depth);
    if il < tl {
        vstd::arithmetic::power2::lemma_pow2_strictly_increases(il, tl);
    }
    lemma_trained_counter_at(
        low,
        high,
        bits_low,
        bits_high,
        low2,
        high2,
        bits_low2,
        bits_high2,
        first as int,
        slot as int,
        v,
        c,
        s,
        flat,
        n,
    );
    // the two looks meet where, and only where, the label and the address are the same
    if first + h2 == h && slot + l2 == l {
        assert(ext2 == ext);
    }
}

} // verus!
