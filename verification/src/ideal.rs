use vstd::prelude::*;
use vstd::arithmetic::power2::pow2;
use crate::modular::lemma_add_sub_cancel;
use crate::modular::lemma_in_range_mod;
use crate::poly::torus::constant_poly;
use crate::poly::torus::poly_add;
use crate::poly::torus::poly_const;
use crate::poly::torus::poly_in_range;
use crate::poly::torus::poly_sub;
use crate::torus::modulus;
use crate::torus::wrap_add;
use crate::torus::wrap_sub;
use crate::trgsw::dft::Gate;
use crate::trgsw::dft::gate_pair;
use crate::trgsw::sample::GadgetView;
use crate::trlwe::dft::product;
use crate::trlwe::sample::Trlwe;
use crate::trlwe::sample::trlwe_add;
use crate::trlwe::sample::trlwe_shape;
use crate::trlwe::sample::trlwe_sub;
use crate::trlwe::sample::trlwe_trivial;

verus! {

/// The ciphertext `x` has `k` masks of `n` coefficients, each a numerator in `[0, 2^64)`.
pub open spec fn ct_ok(x: Seq<Seq<int>>, k: nat, n: nat) -> bool {
    &&& trlwe_shape(x, k, n)
    &&& forall|c: int| 0 <= c <= k ==> poly_in_range(#[trigger] x[c])
}

/// The trivial ciphertext of the zero polynomial.
pub open spec fn zero_ct(k: nat, n: nat) -> Seq<Seq<int>> {
    trlwe_trivial(k, poly_const(n, 0))
}

/// The gadget ciphertext `g` acts on every ciphertext as the plain bit `c` would: its
/// product with `x` is `x` where `c` is set and zero where it is not. This is what a
/// selector does up to noise; it holds exactly of a selector without noise whose digits
/// cover all 64 bits.
pub open spec fn selects(g: GadgetView, c: bool, k: nat, n: nat) -> bool {
    forall|x: Seq<Seq<int>>|
        ct_ok(x, k, n) ==> #[trigger] product(g, x) == if c {
            x
        } else {
            zero_ct(k, n)
        }
}

/// What a well-formed ciphertext holds is in range.
pub proof fn lemma_view_ok(t: Trlwe)
    requires
        t.wf(),
    ensures
        ct_ok(t@, t.spec_k(), t.spec_n()),
{
    assert forall|c: int| 0 <= c <= t.spec_k() implies poly_in_range(#[trigger] t@[c]) by {
        assert(t@[c] == t.polys@[c]@);
    }
}

/// Sums and differences of ciphertexts in range are in range, and so is zero.
pub proof fn lemma_ok_closed(a: Seq<Seq<int>>, b: Seq<Seq<int>>, k: nat, n: nat)
    requires
        trlwe_shape(a, k, n),
        trlwe_shape(b, k, n),
    ensures
        ct_ok(trlwe_add(a, b), k, n),
        ct_ok(trlwe_sub(a, b), k, n),
        ct_ok(zero_ct(k, n), k, n),
{
    assert forall|c: int| 0 <= c <= k implies poly_in_range(#[trigger] trlwe_add(a, b)[c]) by {
        assert forall|i: int| 0 <= i < n implies 0 <= #[trigger] poly_add(a[c], b[c])[i]
            < modulus() by {
            vstd::arithmetic::div_mod::lemma_mod_bound(a[c][i] + b[c][i], modulus());
        }
    }
    assert forall|c: int| 0 <= c <= k implies poly_in_range(#[trigger] trlwe_sub(a, b)[c]) by {
        assert forall|i: int| 0 <= i < n implies 0 <= #[trigger] poly_sub(a[c], b[c])[i]
            < modulus() by {
            vstd::arithmetic::div_mod::lemma_mod_bound(a[c][i] - b[c][i], modulus());
        }
    }
}

/// Exact cancellations between ciphertexts in range: `a + (b - a) = b`,
/// `a - (a - b) = b`, `b + (a - b) = a`, and zero is neutral.
pub proof fn lemma_cancel(a: Seq<Seq<int>>, b: Seq<Seq<int>>, k: nat, n: nat)
    requires
        ct_ok(a, k, n),
        ct_ok(b, k, n),
    ensures
        trlwe_add(a, trlwe_sub(b, a)) == b,
        trlwe_sub(a, trlwe_sub(a, b)) == b,
        trlwe_add(b, trlwe_sub(a, b)) == a,
        trlwe_add(a, zero_ct(k, n)) == a,
        trlwe_sub(a, zero_ct(k, n)) == a,
        trlwe_sub(a, a) == zero_ct(k, n),
        trlwe_add(zero_ct(k, n), a) == a,
{
    let z = zero_ct(k, n);
    assert forall|c: int, i: int| 0 <= c <= k && 0 <= i < n implies {
        &&& wrap_add(a[c][i], wrap_sub(b[c][i], a[c][i])) == b[c][i]
        &&& wrap_sub(a[c][i], wrap_sub(a[c][i], b[c][i])) == b[c][i]
        &&& wrap_add(b[c][i], wrap_sub(a[c][i], b[c][i])) == a[c][i]
        &&& wrap_add(a[c][i], 0) == a[c][i]
        &&& wrap_sub(a[c][i], 0) == a[c][i]
        &&& wrap_sub(a[c][i], a[c][i]) == 0
        &&& wrap_add(0, a[c][i]) == a[c][i]
    } by {
        assert(poly_in_range(a[c]));
        assert(poly_in_range(b[c]));
        let x = a[c][i];
        let y = b[c][i];
        lemma_in_range_mod(x);
        lemma_in_range_mod(y);
        lemma_in_range_mod(0);
        crate::modular::lemma_mod_add_right(x, y - x);
        crate::modular::lemma_mod_add_right(y, x - y);
        vstd::arithmetic::div_mod::lemma_sub_mod_noop(x, x - y, modulus());
    }
    assert forall|c: int| 0 <= c <= k implies {
        &&& #[trigger] trlwe_add(a, trlwe_sub(b, a))[c] =~= b[c]
        &&& trlwe_sub(a, trlwe_sub(a, b))[c] =~= b[c]
        &&& trlwe_add(b, trlwe_sub(a, b))[c] =~= a[c]
        &&& trlwe_add(a, z)[c] =~= a[c]
        &&& trlwe_sub(a, z)[c] =~= a[c]
        &&& trlwe_sub(a, a)[c] =~= z[c]
        &&& trlwe_add(z, a)[c] =~= a[c]
    } by {
        assert(a[c].len() == n && b[c].len() == n);
    }
    assert(trlwe_add(a, trlwe_sub(b, a)) =~= b);
    assert(trlwe_sub(a, trlwe_sub(a, b)) =~= b);
    assert(trlwe_add(b, trlwe_sub(a, b)) =~= a);
    assert(trlwe_add(a, z) =~= a);
    assert(trlwe_sub(a, z) =~= a);
    assert(trlwe_sub(a, a) =~= z);
    assert(trlwe_add(z, a) =~= a);
}

/// Under a selector that acts as the bit `c`, the select gate leaves `a` in the low
/// operand where `c` is clear and `b` where it is set.
pub proof fn lemma_cmux_selects(
    g: GadgetView,
    c: bool,
    a: Seq<Seq<int>>,
    b: Seq<Seq<int>>,
    k: nat,
    n: nat,
)
    requires
        selects(g, c, k, n),
        ct_ok(a, k, n),
        ct_ok(b, k, n),
    ensures
        gate_pair(Gate::Cmux, g, a, b).0 == if c { b } else { a },
{
    lemma_ok_closed(b, a, k, n);
    lemma_cancel(a, b, k, n);
    let x = trlwe_sub(b, a);
    assert(product(g, x) == if c { x } else { zero_ct(k, n) });
}

/// Under a selector that acts as the bit `c`, the distribute gate on a value `a` and an
/// empty high operand keeps `a` low where `c` is clear and moves it high where `c` is
/// set; the other operand is left empty.
pub proof fn lemma_cdemux_selects(g: GadgetView, c: bool, a: Seq<Seq<int>>, k: nat, n: nat)
    requires
        selects(g, c, k, n),
        ct_ok(a, k, n),
    ensures
        gate_pair(Gate::Cdemux, g, a, zero_ct(k, n)) == if c {
            (zero_ct(k, n), a)
        } else {
            (a, zero_ct(k, n))
        },
{
    let z = zero_ct(k, n);
    lemma_ok_closed(a, a, k, n);
    lemma_cancel(a, z, k, n);
    lemma_cancel(a, a, k, n);
    let x = trlwe_add(z, a);
    assert(x == a);
    assert(product(g, x) == if c { x } else { z });
}

/// Under a selector that acts as the bit `c`, the swap gate exchanges its operands where
/// `c` is set and leaves them where it is clear.
pub proof fn lemma_cswap_selects(
    g: GadgetView,
    c: bool,
    a: Seq<Seq<int>>,
    b: Seq<Seq<int>>,
    k: nat,
    n: nat,
)
    requires
        selects(g, c, k, n),
        ct_ok(a, k, n),
        ct_ok(b, k, n),
    ensures
        gate_pair(Gate::Cswap, g, a, b) == if c { (b, a) } else { (a, b) },
{
    lemma_ok_closed(a, b, k, n);
    lemma_cancel(a, b, k, n);
    lemma_cancel(b, a, k, n);
    let x = trlwe_sub(a, b);
    assert(product(g, x) == if c { x } else { zero_ct(k, n) });
}

/// The integer that the first `upto` bits spell, least significant first.
pub open spec fn index_of(bits: Seq<bool>, upto: nat) -> nat
    decreases upto,
{
    if upto == 0 {
        0
    } else {
        index_of(bits, (upto - 1) as nat) + if bits[upto - 1] {
            pow2((upto - 1) as nat)
        } else {
            0
        }
    }
}

/// The bits below position `upto` spell an integer below `2^upto`.
pub proof fn lemma_index_bound(bits: Seq<bool>, upto: nat)
    ensures
        index_of(bits, upto) < pow2(upto),
    decreases upto,
{
    if upto == 0 {
        vstd::arithmetic::power2::lemma2_to64();
    } else {
        lemma_index_bound(bits, (upto - 1) as nat);
        vstd::arithmetic::power2::lemma_pow2_unfold(upto);
    }
}

/// Selector `i` acts as bit `i`, for every `i`.
pub open spec fn all_select(sel: Seq<GadgetView>, bits: Seq<bool>, k: nat, n: nat) -> bool {
    &&& sel.len() == bits.len()
    &&& forall|i: int| 0 <= i < sel.len() ==> selects(#[trigger] sel[i], bits[i], k, n)
}

/// Every ciphertext of the run is in range.
pub open spec fn all_ok(v: Seq<Seq<Seq<int>>>, k: nat, n: nat) -> bool {
    forall|j: int| 0 <= j < v.len() ==> ct_ok(#[trigger] v[j], k, n)
}

/// The slot `c * 2^upto`.
pub open spec fn slot(c: int, upto: nat) -> int {
    c * (pow2(upto) as int)
}

/// A multiple of `2^upto` below `2^d` leaves room for a whole `2^upto` more.
pub proof fn lemma_multiple_room(c: int, upto: nat, d: nat)
    requires
        upto <= d,
        0 <= c,
        slot(c, upto) < pow2(d),
    ensures
        slot(c + 1, upto) <= pow2(d),
{
    vstd::arithmetic::power2::lemma_pow2_adds(upto, (d - upto) as nat);
    vstd::arithmetic::power2::lemma_pow2_pos(upto);
    let s = pow2(upto) as int;
    let m = pow2((d - upto) as nat) as int;
    assert(c < m) by (nonlinear_arith)
        requires
            c * s < s * m,
            s > 0,
    ;
    assert((c + 1) * s <= s * m) by (nonlinear_arith)
        requires
            c + 1 <= m,
            s > 0,
    ;
}

/// After `upto` passes of the select tree under selectors that act as the bits `bits`,
/// every slot at a multiple of `2^upto` holds the ciphertext that stood
/// `index_of(bits, upto)` slots further on at the start.
pub proof fn lemma_cmux_tree_passes(
    sel: Seq<GadgetView>,
    bits: Seq<bool>,
    v: Seq<Seq<Seq<int>>>,
    k: nat,
    n: nat,
    upto: nat,
)
    requires
        all_select(sel, bits, k, n),
        all_ok(v, k, n),
        v.len() == pow2(sel.len()),
        upto <= sel.len(),
    ensures
        crate::tree::cmux_tree_passes(sel, v, upto).len() == v.len(),
        forall|c: int|
            0 <= c && slot(c, upto) < v.len() ==> #[trigger] crate::tree::cmux_tree_passes(
                sel,
                v,
                upto,
            )[slot(c, upto)] == v[slot(c, upto) + index_of(bits, upto)] && slot(c, upto)
                + index_of(bits, upto) < v.len(),
    decreases upto,
{
    let d = sel.len();
    if upto == 0 {
        vstd::arithmetic::power2::lemma2_to64();
    } else {
        let t = (upto - 1) as nat;
        let s = pow2(t) as int;
        let prev = crate::tree::cmux_tree_passes(sel, v, t);
        let cur = crate::tree::cmux_tree_passes(sel, v, upto);
        lemma_cmux_tree_passes(sel, bits, v, k, n, t);
        vstd::arithmetic::power2::lemma_pow2_unfold(upto);
        vstd::arithmetic::power2::lemma_pow2_pos(t);
        lemma_index_bound(bits, t);
        assert(pow2(upto) == 2 * s);
        assert forall|c: int| 0 <= c && slot(c, upto) < v.len() implies #[trigger] cur[slot(
            c,
            upto,
        )] == v[slot(c, upto) + index_of(bits, upto)] && slot(c, upto) + index_of(bits, upto)
            < v.len() by {
            let j = slot(c, upto);
            lemma_multiple_room(c, upto, d);
            assert(j + 2 * s <= v.len() && j >= 0) by (nonlinear_arith)
                requires
                    (c + 1) * (2 * s) <= v.len(),
                    j == c * (2 * s),
                    c >= 0,
                    s > 0,
            ;
            assert(j == slot(2 * c, t) && j + s == slot(2 * c + 1, t)) by (nonlinear_arith)
                requires
                    j == c * (2 * s),
                    slot(2 * c, t) == (2 * c) * s,
                    slot(2 * c + 1, t) == (2 * c + 1) * s,
            ;
            assert(j % (2 * s) == 0) by {
                vstd::arithmetic::div_mod::lemma_mod_multiples_basic(c, 2 * s);
            }
            assert(crate::trgsw::dft::is_low(j, 0, s));
            assert(prev[slot(2 * c, t)] == v[slot(2 * c, t) + index_of(bits, t)]);
            assert(prev[slot(2 * c + 1, t)] == v[slot(2 * c + 1, t) + index_of(bits, t)]);
            let a = prev[j];
            let b = prev[j + s];
            assert(ct_ok(a, k, n));
            assert(ct_ok(b, k, n));
            assert(selects(sel[t as int], bits[t as int], k, n));
            lemma_cmux_selects(sel[t as int], bits[t as int], a, b, k, n);
            assert(cur[j] == gate_pair(Gate::Cmux, sel[t as int], a, b).0);
        }
    }
}

/// Select tree: where `2^d` ciphertexts are collapsed under `d` selectors that act as the
/// bits of the index `s`, least significant first, slot 0 ends up holding the ciphertext
/// that stood in slot `s`.
pub proof fn lemma_cmux_tree_selects(
    sel: Seq<GadgetView>,
    bits: Seq<bool>,
    v: Seq<Seq<Seq<int>>>,
    k: nat,
    n: nat,
)
    requires
        all_select(sel, bits, k, n),
        all_ok(v, k, n),
        v.len() == pow2(sel.len()),
    ensures
        index_of(bits, bits.len()) < v.len(),
        crate::tree::cmux_tree_passes(sel, v, sel.len())[0] == v[index_of(bits, bits.len()) as int],
{
    lemma_cmux_tree_passes(sel, bits, v, k, n, sel.len());
    lemma_index_bound(bits, bits.len());
    vstd::arithmetic::power2::lemma_pow2_pos(sel.len());
    assert(slot(0, sel.len()) == 0) by (nonlinear_arith)
        requires
            slot(0, sel.len()) == 0 * (pow2(sel.len()) as int),
    ;
    assert(crate::tree::cmux_tree_passes(sel, v, sel.len())[slot(0, sel.len())] == v[slot(
        0,
        sel.len(),
    ) + index_of(bits, sel.len())]);
}

/// The run of `len` slots that holds `x` in slot `at` and zero everywhere else.
pub open spec fn one_hot(len: nat, at: int, x: Seq<Seq<int>>, k: nat, n: nat) -> Seq<
    Seq<Seq<int>>,
> {
    Seq::new(len, |j: int| if j == at { x } else { zero_ct(k, n) })
}

/// A low slot of a pass from offset zero is a multiple of the double stride.
pub proof fn lemma_low_is_multiple(q: int, t: nat)
    requires
        0 <= q,
        crate::trgsw::dft::is_low(q, 0, pow2(t) as int),
    ensures
        q == slot(q / (2 * pow2(t) as int), t + 1),
        0 <= q / (2 * pow2(t) as int),
{
    vstd::arithmetic::power2::lemma_pow2_unfold(t + 1);
    vstd::arithmetic::power2::lemma_pow2_pos(t);
    let m = 2 * (pow2(t) as int);
    vstd::arithmetic::div_mod::lemma_fundamental_div_mod(q, m);
    vstd::arithmetic::div_mod::lemma_div_pos_is_pos(q, m);
    assert(q == m * (q / m) + q % m);
    assert(slot(q / m, t + 1) == (q / m) * m);
    assert((q / m) * m == m * (q / m)) by (nonlinear_arith);
}

/// One pass of the distribute tree on a run that holds a single value, in a slot at a
/// multiple of the double stride: the value stays where the selector bit is clear and
/// moves one stride up where it is set.
proof fn lemma_cdemux_pass_one_hot(
    g: GadgetView,
    c: bool,
    d: nat,
    t: nat,
    m: int,
    x: Seq<Seq<int>>,
    k: nat,
    n: nat,
)
    requires
        selects(g, c, k, n),
        ct_ok(x, k, n),
        t < d,
        0 <= m,
        slot(m, t + 1) < pow2(d),
    ensures
        slot(m, t + 1) + pow2(t) < pow2(d),
        crate::trgsw::dft::strided_pass(
            Gate::Cdemux,
            g,
            one_hot(pow2(d), slot(m, t + 1), x, k, n),
            0,
            pow2(t) as int,
            false,
        ) == one_hot(pow2(d), slot(m, t + 1) + if c { pow2(t) as int } else { 0 }, x, k, n),
{
    let len = pow2(d);
    let s = pow2(t) as int;
    let at = slot(m, t + 1);
    let v = one_hot(len, at, x, k, n);
    let w = crate::trgsw::dft::strided_pass(Gate::Cdemux, g, v, 0, s, false);
    let z = zero_ct(k, n);
    let target = one_hot(len, at + if c { s } else { 0 }, x, k, n);
    vstd::arithmetic::power2::lemma_pow2_unfold(t + 1);
    vstd::arithmetic::power2::lemma_pow2_pos(t);
    lemma_multiple_room(m, t + 1, d);
    assert(at + 2 * s <= len && at >= 0) by (nonlinear_arith)
        requires
            slot(m + 1, t + 1) <= len,
            slot(m + 1, t + 1) == (m + 1) * (2 * s),
            at == m * (2 * s),
            m >= 0,
            s > 0,
    ;
    assert(crate::trgsw::dft::is_low(at, 0, s)) by {
        vstd::arithmetic::div_mod::lemma_mod_multiples_basic(m, 2 * s);
    }
    lemma_ok_closed(x, x, k, n);
    lemma_cdemux_selects(g, c, x, k, n);
    lemma_cdemux_selects(g, c, z, k, n);
    assert forall|q: int| 0 <= q < len implies #[trigger] w[q] == target[q] by {
        if crate::trgsw::dft::is_low(q, 0, s) {
            crate::trgsw::dft::lemma_low_gap(at, q, 0, s);
            lemma_low_is_multiple(q, t);
            lemma_multiple_room(q / (2 * s), t + 1, d);
            assert(q + 2 * s <= len) by (nonlinear_arith)
                requires
                    slot(q / (2 * s) + 1, t + 1) <= len,
                    slot(q / (2 * s) + 1, t + 1) == (q / (2 * s) + 1) * (2 * s),
                    q == slot(q / (2 * s), t + 1),
                    slot(q / (2 * s), t + 1) == (q / (2 * s)) * (2 * s),
            ;
            assert(v[q + s] == z);
        } else if q >= s && crate::trgsw::dft::is_low(q - s, 0, s) {
            crate::trgsw::dft::lemma_low_gap(at, q - s, 0, s);
            assert(v[q] == z);
        }
    }
    assert(w =~= target);
}

/// The passes `from - 1`, ..., `0` of the distribute tree carry a single value from a
/// slot at a multiple of `2^from` to the slot `index_of(bits, from)` further on.
pub proof fn lemma_cdemux_tree_passes(
    sel: Seq<GadgetView>,
    bits: Seq<bool>,
    m: int,
    x: Seq<Seq<int>>,
    k: nat,
    n: nat,
    from: nat,
)
    requires
        all_select(sel, bits, k, n),
        ct_ok(x, k, n),
        from <= sel.len(),
        0 <= m,
        slot(m, from) < pow2(sel.len()),
    ensures
        slot(m, from) + index_of(bits, from) < pow2(sel.len()),
        crate::tree::cdemux_tree_passes(
            sel,
            one_hot(pow2(sel.len()), slot(m, from), x, k, n),
            from,
        ) == one_hot(pow2(sel.len()), slot(m, from) + index_of(bits, from), x, k, n),
    decreases from,
{
    let d = sel.len();
    if from > 0 {
        let t = (from - 1) as nat;
        let s = pow2(t) as int;
        let c = bits[t as int];
        assert(selects(sel[t as int], c, k, n));
        lemma_cdemux_pass_one_hot(sel[t as int], c, d, t, m, x, k, n);
        vstd::arithmetic::power2::lemma_pow2_unfold(from);
        let m2 = if c { 2 * m + 1 } else { 2 * m };
        assert(slot(m2, t) == slot(m, from) + if c { s } else { 0 }) by (nonlinear_arith)
            requires
                slot(m2, t) == m2 * s,
                slot(m, from) == m * (2 * s),
                m2 == if c { 2 * m + 1 } else { 2 * m },
        ;
        lemma_cdemux_tree_passes(sel, bits, m2, x, k, n, t);
    }
}

/// Distribute tree: where a run of `2^d` slots holds a single value in slot 0 and is
/// spread under `d` selectors that act as the bits of the index `s`, the value ends up in
/// slot `s` and every other slot is left empty.
pub proof fn lemma_cdemux_tree_selects(
    sel: Seq<GadgetView>,
    bits: Seq<bool>,
    x: Seq<Seq<int>>,
    k: nat,
    n: nat,
)
    requires
        all_select(sel, bits, k, n),
        ct_ok(x, k, n),
    ensures
        index_of(bits, bits.len()) < pow2(sel.len()),
        crate::tree::cdemux_tree_passes(sel, one_hot(pow2(sel.len()), 0, x, k, n), sel.len())
            == one_hot(pow2(sel.len()), index_of(bits, bits.len()) as int, x, k, n),
{
    vstd::arithmetic::power2::lemma_pow2_pos(sel.len());
    assert(slot(0, sel.len()) == 0) by (nonlinear_arith)
        requires
            slot(0, sel.len()) == 0 * (pow2(sel.len()) as int),
    ;
    lemma_cdemux_tree_passes(sel, bits, 0, x, k, n, sel.len());
}

/// With a single digit of 64 bits the decomposition of a numerator is the numerator.
pub proof fn lemma_full_digit(x: int)
    requires
        0 <= x < modulus(),
    ensures
        crate::gadget::gadget_digit(x, 64, 1, 0) == x,
{
    vstd::arithmetic::power2::lemma2_to64();
    vstd::arithmetic::power2::lemma2_to64_rest();
    reveal_with_fuel(crate::gadget::gadget_offset, 2);
    let off = crate::gadget::gadget_offset(64, 1);
    assert(off == pow2(63));
    let shifted = (x + off) % modulus();
    vstd::arithmetic::div_mod::lemma_mod_bound(x + off, modulus());
    vstd::arithmetic::div_mod::lemma_small_mod(shifted as nat, pow2(64));
    lemma_add_sub_cancel(x, off);
    assert((64 - (0 + 1) * 64) as nat == 0nat);
    assert(pow2((64 - (0 + 1) * 64) as nat) == 1);
    assert(shifted / 1 == shifted);
    let cut = (shifted / (pow2((64 - (0 + 1) * 64) as nat) as int)) % (pow2(64) as int);
    assert(cut == shifted);
    assert(pow2((64 - 1) as nat) == pow2(63));
    assert(crate::gadget::gadget_digit(x, 64, 1, 0) == (cut - pow2(63)) % modulus());
}

/// The terms of a product with a polynomial that is zero behind its first coefficient
/// add up to the one term that meets that coefficient.
pub proof fn lemma_conv_unit(d: Seq<int>, n: nat, m: int, j: int, upto: nat)
    requires
        d.len() == n,
        0 <= j < n,
        upto <= n,
    ensures
        crate::poly::torus::conv_sum(d, constant_poly(n, m), j, upto) == if upto > j {
            d[j] * m
        } else {
            0
        },
    decreases upto,
{
    if upto > 0 {
        lemma_conv_unit(d, n, m, j, (upto - 1) as nat);
        let t = upto - 1;
        let p = constant_poly(n, m);
        if t <= j {
            if t < j {
                assert(p[j - t] == 0);
                assert(d[t] * p[j - t] == 0) by (nonlinear_arith)
                    requires
                        p[j - t] == 0,
                ;
            }
        } else {
            assert(p[n + j - t] == 0);
            assert(d[t] * p[n + j - t] == 0) by (nonlinear_arith)
                requires
                    p[n + j - t] == 0,
            ;
        }
    }
}

/// The product of a polynomial in range with the unit polynomial of a bit is the
/// polynomial itself for the bit one and zero for the bit zero.
proof fn lemma_mul_unit(d: Seq<int>, n: nat, c: bool)
    requires
        d.len() == n,
        poly_in_range(d),
    ensures
        crate::poly::torus::poly_mul(d, constant_poly(n, if c { 1 } else { 0 })) == if c {
            d
        } else {
            poly_const(n, 0)
        },
        crate::poly::torus::poly_mul(d, poly_const(n, 0)) == poly_const(n, 0),
{
    let m: int = if c { 1 } else { 0 };
    assert(poly_const(n, 0) =~= constant_poly(n, 0));
    let pm = crate::poly::torus::poly_mul(d, constant_poly(n, m));
    let pz = crate::poly::torus::poly_mul(d, constant_poly(n, 0));
    let want = if c { d } else { poly_const(n, 0) };
    assert(constant_poly(n, m).len() == n);
    assert(pm.len() == n && pz.len() == n && want.len() == n);
    assert forall|j: int| 0 <= j < n implies #[trigger] pm[j] == want[j] by {
        lemma_conv_unit(d, n, m, j, n);
        lemma_in_range_mod(d[j]);
        lemma_in_range_mod(0);
        assert(d[j] * 0 == 0) by (nonlinear_arith);
        assert(d[j] * 1 == d[j]) by (nonlinear_arith);
        assert(pm[j] == crate::poly::torus::conv_sum(d, constant_poly(n, m), j, n) % modulus());
    }
    assert forall|j: int| 0 <= j < n implies #[trigger] pz[j] == 0 by {
        lemma_conv_unit(d, n, 0, j, n);
        lemma_in_range_mod(0);
        assert(d[j] * 0 == 0) by (nonlinear_arith);
        assert(pz[j] == crate::poly::torus::conv_sum(d, constant_poly(n, 0), j, n) % modulus());
    }
    assert(pm =~= want);
    assert(pz =~= poly_const(n, 0));
}

/// What the first `upto` rows of a full-precision trivial selector of the bit `c`
/// contribute to its product with `x`: the first `upto` polynomials of `x` where `c` is
/// set, and zero elsewhere.
pub open spec fn partial_copy(c: bool, x: Seq<Seq<int>>, k: nat, n: nat, upto: nat) -> Seq<
    Seq<int>,
> {
    Seq::new(k + 1, |i: int| if c && i < upto { x[i] } else { poly_const(n, 0) })
}

proof fn lemma_trivial_product_sum(c: bool, x: Seq<Seq<int>>, k: nat, n: nat, upto: nat)
    requires
        ct_ok(x, k, n),
        1 <= n,
        upto <= k + 1,
    ensures
        crate::trlwe::dft::product_sum(
            crate::trgsw::sample::gadget_trivial(if c { 1 } else { 0 }, 1, 64, k, n),
            x,
            upto,
        ) == partial_copy(c, x, k, n, upto),
    decreases upto,
{
    let m: int = if c { 1 } else { 0 };
    let g = crate::trgsw::sample::gadget_trivial(m, 1, 64, k, n);
    let z = zero_ct(k, n);
    if upto == 0 {
        assert(x[0].len() == n);
        assert(crate::trlwe::dft::product_sum(g, x, 0) =~= partial_copy(c, x, k, n, 0));
    } else {
        let r = (upto - 1) as int;
        lemma_trivial_product_sum(c, x, k, n, r as nat);
        vstd::arithmetic::power2::lemma2_to64();
        let digits = crate::gadget::gadget_digits(x[r / 1], 64, 1, (r % 1) as nat);
        assert(poly_in_range(x[r]));
        assert(x[r].len() == n);
        assert(digits =~= x[r]) by {
            assert forall|i: int| 0 <= i < n implies #[trigger] digits[i] == x[r][i] by {
                lemma_full_digit(x[r][i]);
            }
        }
        let plain = crate::trgsw::sample::plain_row(m, 0, 1, 64, k, n, r);
        assert(crate::gadget::digit_weight(64, 0) == 1);
        lemma_in_range_mod(m);
        assert((m * 1) % modulus() == m);
        assert(crate::trgsw::sample::monomial(n, m, 0) =~= constant_poly(n, m));
        assert forall|i: int| 0 <= i <= k implies #[trigger] plain[i] == if i == r {
            constant_poly(n, m)
        } else {
            poly_const(n, 0)
        } by {}
        assert(ct_ok(plain, k, n)) by {
            assert forall|i: int| 0 <= i <= k implies poly_in_range(#[trigger] plain[i]) by {}
        }
        lemma_cancel(plain, plain, k, n);
        assert((k + 1) * 1 == k + 1) by (nonlinear_arith);
        assert(crate::trgsw::sample::zero_rows(1, k, n)[r] == z);
        assert(g.rows[r] == trlwe_add(z, plain));
        assert(g.rows[r] == plain);
        let term = crate::trlwe::sample::scaled_row(digits, g.rows[r]);
        lemma_mul_unit(x[r], n, c);
        let before = partial_copy(c, x, k, n, r as nat);
        let after = partial_copy(c, x, k, n, upto);
        assert forall|i: int| 0 <= i <= k implies #[trigger] trlwe_add(before, term)[i]
            =~= after[i] by {
            assert(poly_in_range(x[i]));
            assert(x[i].len() == n);
            assert forall|j: int| 0 <= j < n implies {
                &&& wrap_add(#[trigger] x[i][j], 0) == x[i][j]
                &&& wrap_add(0, x[i][j]) == x[i][j]
                &&& wrap_add(0, 0) == 0
            } by {
                lemma_in_range_mod(x[i][j]);
                lemma_in_range_mod(0);
            }
        }
        assert(trlwe_add(before, term) =~= after);
    }
}

/// A selector that acts as a bit exists: the trivial gadget ciphertext of the bit with a
/// single digit of 64 bits multiplies every ciphertext by the bit, exactly.
pub proof fn lemma_trivial_selects(c: bool, k: nat, n: nat)
    requires
        1 <= n,
    ensures
        selects(
            crate::trgsw::sample::gadget_trivial(if c { 1 } else { 0 }, 1, 64, k, n),
            c,
            k,
            n,
        ),
{
    let g = crate::trgsw::sample::gadget_trivial(if c { 1 } else { 0 }, 1, 64, k, n);
    assert forall|x: Seq<Seq<int>>| ct_ok(x, k, n) implies #[trigger] product(g, x) == if c {
        x
    } else {
        zero_ct(k, n)
    } by {
        assert((k + 1) * 1 == k + 1) by (nonlinear_arith);
        lemma_trivial_product_sum(c, x, k, n, k + 1);
        let full = partial_copy(c, x, k, n, k + 1);
        if c {
            assert(full =~= x);
        } else {
            assert(full =~= zero_ct(k, n));
        }
    }
}

} // verus!
