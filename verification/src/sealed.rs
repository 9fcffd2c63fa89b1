use vstd::prelude::*;
use crate::gadget::digit_sum;
use crate::gadget::digit_weight;
use crate::gadget::gadget_digit;
use crate::gadget::gadget_digits;
use crate::gadget::gadget_params_ok;
use crate::gadget::lemma_digits_recompose;
use crate::poly::torus::constant_poly;
use crate::poly::torus::lemma_mul_commutes;
use crate::poly::torus::lemma_mul_linear;
use crate::poly::torus::lemma_mul_scale;
use crate::poly::torus::lemma_mul_zero;
use crate::poly::torus::lemma_regroup;
use crate::poly::torus::poly_add;
use crate::poly::torus::poly_const;
use crate::poly::torus::poly_in_range;
use crate::poly::torus::poly_mul;
use crate::poly::torus::poly_scale;
use crate::poly::torus::poly_sub;
use crate::torus::modulus;
use crate::torus::wrap_add;
use crate::torus::wrap_sub;
use crate::trgsw::sample::GadgetView;
use crate::trgsw::sample::gadget_over;
use crate::trgsw::sample::gadget_shape;
use crate::trgsw::sample::monomial;
use crate::trgsw::sample::plain_row;
use crate::trgsw::sample::rows_seal_zero;
use crate::trlwe::dft::lemma_product_phase_sum;
use crate::trlwe::dft::phase_sum;
use crate::trlwe::dft::product;
use crate::trlwe::sample::lemma_mask_sum_len;
use crate::trlwe::sample::lemma_phase_linear;
use crate::trlwe::sample::lemma_trivial_phase;
use crate::trlwe::sample::mask_sum;
use crate::trlwe::sample::trlwe_add;
use crate::trlwe::sample::trlwe_phase;
use crate::trlwe::sample::trlwe_shape;
use crate::trlwe::sample::trlwe_trivial;

verus! {

/// Scaling by an integer distributes over sums and differences.
pub proof fn lemma_scale_linear(c: int, a: Seq<int>, b: Seq<int>)
    requires
        a.len() == b.len(),
    ensures
        poly_scale(c, poly_add(a, b)) == poly_add(poly_scale(c, a), poly_scale(c, b)),
        poly_scale(c, poly_sub(a, b)) == poly_sub(poly_scale(c, a), poly_scale(c, b)),
{
    let m = modulus();
    assert forall|i: int| 0 <= i < a.len() implies {
        &&& (c * wrap_add(a[i], b[i])) % m == wrap_add((c * a[i]) % m, (c * b[i]) % m)
        &&& (c * wrap_sub(a[i], b[i])) % m == wrap_sub((c * a[i]) % m, (c * b[i]) % m)
    } by {
        let (x, y) = (a[i], b[i]);
        vstd::arithmetic::div_mod::lemma_mul_mod_noop_right(c, x + y, m);
        vstd::arithmetic::div_mod::lemma_mul_mod_noop_right(c, x - y, m);
        vstd::arithmetic::div_mod::lemma_add_mod_noop(c * x, c * y, m);
        vstd::arithmetic::div_mod::lemma_sub_mod_noop(c * x, c * y, m);
        assert(c * (x + y) == c * x + c * y) by (nonlinear_arith);
        assert(c * (x - y) == c * x - c * y) by (nonlinear_arith);
    }
    assert(poly_scale(c, poly_add(a, b)) =~= poly_add(poly_scale(c, a), poly_scale(c, b)));
    assert(poly_scale(c, poly_sub(a, b)) =~= poly_sub(poly_scale(c, a), poly_scale(c, b)));
}

/// Zero is neutral for the sum and the difference of polynomials in range, and scaling
/// zero gives zero.
pub proof fn lemma_zero_neutral(a: Seq<int>, c: int)
    requires
        poly_in_range(a),
    ensures
        poly_add(poly_const(a.len(), 0), a) == a,
        poly_add(a, poly_const(a.len(), 0)) == a,
        poly_sub(a, poly_const(a.len(), 0)) == a,
        poly_scale(c, poly_const(a.len(), 0)) == poly_const(a.len(), 0),
        poly_sub(poly_const(a.len(), 0), poly_const(a.len(), 0)) == poly_const(a.len(), 0),
{
    let z = poly_const(a.len(), 0);
    vstd::arithmetic::div_mod::lemma_small_mod(0nat, modulus() as nat);
    assert forall|i: int| 0 <= i < a.len() implies (#[trigger] a[i]) % modulus() == a[i] by {
        crate::modular::lemma_in_range_mod(a[i]);
    }
    assert(poly_add(z, a) =~= a);
    assert(poly_add(a, z) =~= a);
    assert(poly_sub(a, z) =~= a);
    assert(poly_scale(c, z) =~= z) by {
        assert(c * 0 == 0);
    }
    assert(poly_sub(z, z) =~= z);
}

/// The product with a polynomial that is zero behind its first coefficient `w` is the
/// multiplier scaled by `w`.
pub proof fn lemma_mul_constant(d: Seq<int>, n: nat, w: int)
    requires
        d.len() == n,
    ensures
        poly_mul(d, constant_poly(n, w)) == poly_scale(w, d),
{
    assert forall|j: int| 0 <= j < n implies #[trigger] poly_mul(d, constant_poly(n, w))[j]
        == poly_scale(w, d)[j] by {
        crate::ideal::lemma_conv_unit(d, n, w, j, n);
        assert(d[j] * w == w * d[j]) by (nonlinear_arith);
    }
    assert(poly_mul(d, constant_poly(n, w)) =~= poly_scale(w, d));
}

/// What a polynomial `p` on polynomial `i` of a ciphertext without any other content
/// decrypts to: `p` itself for the body, and `-(s[i] * p)` for a mask.
pub open spec fn lift(i: int, s: Seq<Seq<int>>, p: Seq<int>) -> Seq<int> {
    if i == s.len() {
        p
    } else {
        poly_sub(poly_const(p.len(), 0), poly_mul(s[i], p))
    }
}

/// Lifting distributes over sums, goes through a multiplier, and lifts zero to zero.
pub proof fn lemma_lift_linear(i: int, s: Seq<Seq<int>>, a: Seq<int>, b: Seq<int>, d: Seq<int>)
    requires
        0 <= i <= s.len(),
        a.len() == b.len(),
        d.len() == a.len(),
        i < s.len() ==> s[i].len() == a.len(),
    ensures
        lift(i, s, poly_add(a, b)) == poly_add(lift(i, s, a), lift(i, s, b)),
        poly_mul(d, lift(i, s, a)) == lift(i, s, poly_mul(d, a)),
        lift(i, s, poly_const(a.len(), 0)) == poly_const(a.len(), 0),
{
    let n = a.len();
    let z = poly_const(n, 0);
    if i < s.len() {
        let key = s[i];
        lemma_mul_linear(key, a, b);
        lemma_zero_neutral(z, 0);
        lemma_regroup(z, z, poly_mul(key, a), poly_mul(key, b));
        lemma_mul_linear(d, z, poly_mul(key, a));
        lemma_mul_zero(d, n);
        lemma_mul_commutes(d, key, a);
        lemma_mul_zero(key, n);
    }
}

/// The weight of digit `j` times the integer message `m`, as a residue.
pub open spec fn message_weight(m: int, bg_bit: nat, j: nat) -> int {
    (m * digit_weight(bg_bit, j)) % modulus()
}

/// The first `upto` digit polynomials of `p`, each scaled by the message times its
/// weight, added up.
pub open spec fn recomposed(m: int, p: Seq<int>, bg_bit: nat, l: nat, upto: nat) -> Seq<int>
    decreases upto,
{
    if upto == 0 {
        poly_const(p.len(), 0)
    } else {
        poly_add(
            recomposed(m, p, bg_bit, l, (upto - 1) as nat),
            poly_scale(
                message_weight(m, bg_bit, (upto - 1) as nat),
                gadget_digits(p, bg_bit, l, (upto - 1) as nat),
            ),
        )
    }
}

/// Coefficient `c` of the recomposed polynomial is the residue of the message times the
/// weighted digits of coefficient `c`.
proof fn lemma_recomposed_coefficient(
    m: int,
    p: Seq<int>,
    bg_bit: nat,
    l: nat,
    upto: nat,
    c: int,
)
    requires
        0 <= c < p.len(),
    ensures
        recomposed(m, p, bg_bit, l, upto).len() == p.len(),
        recomposed(m, p, bg_bit, l, upto)[c] == (m * digit_sum(p[c], bg_bit, l, upto)) % modulus(),
    decreases upto,
{
    let md = modulus();
    if upto == 0 {
        assert(m * 0 == 0);
        vstd::arithmetic::div_mod::lemma_small_mod(0nat, md as nat);
    } else {
        let j = (upto - 1) as nat;
        lemma_recomposed_coefficient(m, p, bg_bit, l, j, c);
        let w = digit_weight(bg_bit, j);
        let dgt = gadget_digit(p[c], bg_bit, l, j);
        let before = digit_sum(p[c], bg_bit, l, j);
        vstd::arithmetic::div_mod::lemma_mul_mod_noop_left(m * w, dgt, md);
        vstd::arithmetic::div_mod::lemma_add_mod_noop(m * before, (m * w) * dgt, md);
        assert(m * (before + w * dgt) == m * before + (m * w) * dgt) by (nonlinear_arith);
    }
}

/// Where the digits cover all 64 bits, the digit polynomials recompose to the polynomial
/// itself, scaled by the message.
pub proof fn lemma_recomposed_full(m: int, p: Seq<int>, bg_bit: nat, l: nat)
    requires
        poly_in_range(p),
        gadget_params_ok(l, bg_bit),
        l * bg_bit == 64,
    ensures
        recomposed(m, p, bg_bit, l, l) == poly_scale(m, p),
{
    let md = modulus();
    if p.len() == 0 {
        lemma_recomposed_len(m, p, bg_bit, l, l);
        assert(recomposed(m, p, bg_bit, l, l) =~= poly_scale(m, p));
    } else {
        assert forall|c: int| 0 <= c < p.len() implies #[trigger] recomposed(m, p, bg_bit, l, l)[c]
            == poly_scale(m, p)[c] by {
            lemma_recomposed_coefficient(m, p, bg_bit, l, l, c);
            lemma_digits_recompose(p[c], bg_bit, l);
            vstd::arithmetic::div_mod::lemma_mul_mod_noop_right(
                m,
                digit_sum(p[c], bg_bit, l, l),
                md,
            );
        }
        lemma_recomposed_coefficient(m, p, bg_bit, l, l, 0);
        assert(recomposed(m, p, bg_bit, l, l) =~= poly_scale(m, p));
    }
}

/// The recomposed polynomial has the length of the polynomial.
proof fn lemma_recomposed_len(m: int, p: Seq<int>, bg_bit: nat, l: nat, upto: nat)
    ensures
        recomposed(m, p, bg_bit, l, upto).len() == p.len(),
    decreases upto,
{
    if upto > 0 {
        lemma_recomposed_len(m, p, bg_bit, l, (upto - 1) as nat);
    }
}

/// The mask sum of a ciphertext whose only content is the polynomial `t` on mask `i`.
proof fn lemma_mask_sum_single(
    x: Seq<Seq<int>>,
    s: Seq<Seq<int>>,
    n: nat,
    i: int,
    t: Seq<int>,
    upto: nat,
)
    requires
        upto <= s.len(),
        upto <= x.len(),
        0 <= i < s.len(),
        t.len() == n,
        forall|c: int| 0 <= c < upto ==> #[trigger] x[c] == if c == i { t } else { poly_const(n, 0) },
        forall|c: int| 0 <= c < s.len() ==> (#[trigger] s[c]).len() == n,
    ensures
        mask_sum(x, s, n, upto) == if upto > i {
            poly_mul(s[i], t)
        } else {
            poly_const(n, 0)
        },
    decreases upto,
{
    let z = poly_const(n, 0);
    if upto > 0 {
        let c = (upto - 1) as int;
        lemma_mask_sum_single(x, s, n, i, t, c as nat);
        assert(s[c].len() == n);
        assert(s[i].len() == n);
        let pm = poly_mul(s[i], t);
        assert(poly_in_range(pm)) by {
            assert forall|q: int| 0 <= q < pm.len() implies 0 <= #[trigger] pm[q] < modulus() by {
                vstd::arithmetic::div_mod::lemma_mod_bound(
                    crate::poly::torus::conv_sum(s[i], t, q, n),
                    modulus(),
                );
            }
        }
        lemma_zero_neutral(pm, 0);
        lemma_zero_neutral(z, 0);
        if c == i {
            assert(x[c] == t);
        } else {
            assert(x[c] == z);
            lemma_mul_zero(s[c], n);
        }
    }
}

/// What the plaintext part of row `r` of a gadget ciphertext of the message `m` decrypts
/// to: the message times the weight of digit `r % l`, lifted from polynomial `r / l`.
pub proof fn lemma_plain_row_phase(
    m: int,
    l: nat,
    bg_bit: nat,
    s: Seq<Seq<int>>,
    n: nat,
    r: int,
)
    requires
        1 <= l,
        1 <= n,
        0 <= r < (s.len() + 1) * l,
        forall|c: int| 0 <= c < s.len() ==> (#[trigger] s[c]).len() == n,
    ensures
        0 <= r / (l as int) <= s.len(),
        0 <= r % (l as int) < l,
        trlwe_phase(plain_row(m, 0, l, bg_bit, s.len(), n, r), s) == lift(
            r / (l as int),
            s,
            constant_poly(n, message_weight(m, bg_bit, (r % (l as int)) as nat)),
        ),
{
    let k = s.len();
    let i = r / (l as int);
    let j = (r % (l as int)) as nat;
    assert(0 <= i <= k) by (nonlinear_arith)
        requires
            0 <= r < (k + 1) * l,
            i == r / (l as int),
            l >= 1,
    ;
    let w = message_weight(m, bg_bit, j);
    vstd::arithmetic::div_mod::lemma_mod_bound(m * digit_weight(bg_bit, j), modulus());
    let t = constant_poly(n, w);
    assert(monomial(n, w, 0) =~= t);
    let x = plain_row(m, 0, l, bg_bit, k, n, r);
    assert forall|c: int| 0 <= c <= k implies #[trigger] x[c] == if c == i {
        t
    } else {
        poly_const(n, 0)
    } by {}
    if i == k {
        assert(x =~= trlwe_trivial(k, t));
        lemma_trivial_phase(k, t, s);
    } else {
        lemma_mask_sum_single(x, s, n, i, t, k);
        assert(x.last() == x[k as int]);
    }
}

/// What row `r` of a gadget ciphertext that seals the message `m` decrypts to: what its
/// plaintext part decrypts to, whatever masks it was sealed with.
pub proof fn lemma_sealed_row_phase(
    base: Seq<Seq<Seq<int>>>,
    m: int,
    l: nat,
    bg_bit: nat,
    s: Seq<Seq<int>>,
    n: nat,
    r: int,
)
    requires
        1 <= l,
        1 <= n,
        base.len() == (s.len() + 1) * l,
        0 <= r < base.len(),
        rows_seal_zero(base, s, s.len(), n),
        forall|c: int| 0 <= c < s.len() ==> (#[trigger] s[c]).len() == n,
    ensures
        trlwe_phase(gadget_over(base, m, 0, l, bg_bit, s.len(), n).rows[r], s) == lift(
            r / (l as int),
            s,
            constant_poly(n, message_weight(m, bg_bit, (r % (l as int)) as nat)),
        ),
{
    let k = s.len();
    let plain = plain_row(m, 0, l, bg_bit, k, n, r);
    lemma_plain_row_phase(m, l, bg_bit, s, n, r);
    assert(trlwe_shape(base[r], k, n));
    assert(trlwe_shape(plain, k, n)) by {
        assert forall|c: int| 0 <= c <= k implies (#[trigger] plain[c]).len() == n by {}
    }
    lemma_phase_linear(base[r], plain, s, n);
    let p = trlwe_phase(plain, s);
    assert(poly_in_range(p)) by {
        let i = r / (l as int);
        let w = message_weight(m, bg_bit, (r % (l as int)) as nat);
        vstd::arithmetic::div_mod::lemma_mod_bound(
            m * digit_weight(bg_bit, (r % (l as int)) as nat),
            modulus(),
        );
        if i == k {
        } else {
            assert forall|q: int| 0 <= q < p.len() implies 0 <= #[trigger] p[q] < modulus() by {
                vstd::arithmetic::div_mod::lemma_mod_bound(
                    0 - poly_mul(s[i], constant_poly(n, w))[q],
                    modulus(),
                );
            }
        }
    }
    lemma_zero_neutral(p, 0);
    assert(p.len() == n);
}

/// What the rows of the first `i` polynomials contribute to a product in all: minus the
/// message times the mask sum of those polynomials.
pub open spec fn settled(m: int, x: Seq<Seq<int>>, s: Seq<Seq<int>>, n: nat, i: nat) -> Seq<int> {
    poly_sub(poly_const(n, 0), poly_scale(m, mask_sum(x, s, n, i)))
}

/// After the rows of the first `i` polynomials and the first `j` rows of the next, the
/// phases of the rows of a sealed gadget ciphertext of full precision, each times its
/// digits, add up to what the first `i` polynomials contribute in all plus the lifted
/// recomposition of the first `j` digits of the next.
proof fn lemma_sealed_phase_sum(
    base: Seq<Seq<Seq<int>>>,
    m: int,
    l: nat,
    bg_bit: nat,
    x: Seq<Seq<int>>,
    s: Seq<Seq<int>>,
    n: nat,
    i: nat,
    j: nat,
)
    requires
        gadget_params_ok(l, bg_bit),
        l * bg_bit == 64,
        1 <= n,
        base.len() == (s.len() + 1) * l,
        rows_seal_zero(base, s, s.len(), n),
        forall|c: int| 0 <= c < s.len() ==> (#[trigger] s[c]).len() == n,
        crate::ideal::ct_ok(x, s.len(), n),
        i <= s.len(),
        j <= l,
    ensures
        i * l + j <= base.len(),
        phase_sum(gadget_over(base, m, 0, l, bg_bit, s.len(), n), x, s, i * l + j) == poly_add(
            settled(m, x, s, n, i),
            lift(i as int, s, recomposed(m, x[i as int], bg_bit, l, j)),
        ),
    decreases i, j,
{
    let k = s.len();
    let g = gadget_over(base, m, 0, l, bg_bit, k, n);
    let z = poly_const(n, 0);
    assert(x[0].len() == n);
    assert(x[i as int].len() == n);
    assert(poly_in_range(x[i as int]));
    assert(i * l + j <= (k + 1) * l) by (nonlinear_arith)
        requires
            i <= k,
            j <= l,
    ;
    lemma_mask_sum_len(x, s, n, i);
    lemma_recomposed_len(m, x[i as int], bg_bit, l, j);
    lemma_zero_neutral(z, m);
    if j > 0 {
        let r = (i * l + j - 1) as int;
        lemma_sealed_phase_sum(base, m, l, bg_bit, x, s, n, i, (j - 1) as nat);
        assert(r / (l as int) == i && r % (l as int) == j - 1) by {
            vstd::arithmetic::div_mod::lemma_fundamental_div_mod_converse(
                r,
                l as int,
                i as int,
                j - 1,
            );
        }
        lemma_sealed_row_phase(base, m, l, bg_bit, s, n, r);
        let w = message_weight(m, bg_bit, (j - 1) as nat);
        let digits = gadget_digits(x[i as int], bg_bit, l, (j - 1) as nat);
        let before = recomposed(m, x[i as int], bg_bit, l, (j - 1) as nat);
        lemma_recomposed_len(m, x[i as int], bg_bit, l, (j - 1) as nat);
        // the term of row r is the lifted scaled digits
        lemma_lift_linear(i as int, s, constant_poly(n, w), constant_poly(n, w), digits);
        lemma_mul_constant(digits, n, w);
        // and lifting is additive
        lemma_lift_linear(i as int, s, before, poly_scale(w, digits), digits);
        let done = settled(m, x, s, n, i);
        let a = lift(i as int, s, before);
        let b = lift(i as int, s, poly_scale(w, digits));
        assert(a.len() == n && b.len() == n && done.len() == n);
        crate::trlwe::sample::lemma_poly_add_assoc(done, a, b);
        assert(g.rows[r] == gadget_over(base, m, 0, l, bg_bit, k, n).rows[r]);
        assert((i * l + j) as nat == (r + 1) as nat);
    } else if i > 0 {
        let p = (i - 1) as nat;
        lemma_sealed_phase_sum(base, m, l, bg_bit, x, s, n, p, l);
        assert(p * l + l == i * l + 0) by (nonlinear_arith)
            requires
                p + 1 == i,
        ;
        assert(poly_in_range(x[p as int]));
        assert(x[p as int].len() == n && s[p as int].len() == n);
        lemma_recomposed_full(m, x[p as int], bg_bit, l);
        lemma_mask_sum_len(x, s, n, p);
        let ms = mask_sum(x, s, n, p);
        let pm = poly_mul(s[p as int], x[p as int]);
        // the polynomial that was finished joins the settled part
        lemma_scale_linear(m, ms, pm);
        lemma_mul_scale(s[p as int], x[p as int], m);
        lemma_regroup(z, poly_scale(m, ms), z, poly_mul(s[p as int], poly_scale(m, x[p as int])));
        // and nothing of the next polynomial is there yet
        lemma_lift_linear(i as int, s, z, z, z);
        let done = settled(m, x, s, n, i);
        assert(poly_in_range(done)) by {
            assert forall|q: int| 0 <= q < done.len() implies 0 <= #[trigger] done[q]
                < modulus() by {
                vstd::arithmetic::div_mod::lemma_mod_bound(
                    0 - poly_scale(m, mask_sum(x, s, n, i))[q],
                    modulus(),
                );
            }
        }
        lemma_zero_neutral(done, m);
    } else {
        assert(0 * l + 0 == 0) by (nonlinear_arith);
        lemma_lift_linear(0, s, z, z, z);
        assert(settled(m, x, s, n, 0) == z);
        assert(g.rows.len() == base.len());
        assert(phase_sum(g, x, s, 0) == z);
    }
}

/// A gadget ciphertext that seals the integer message `m` with digits that cover all 64
/// bits multiplies what a ciphertext decrypts to by `m`, whatever masks it was sealed
/// with: the product decrypts to `m` times what the ciphertext decrypts to.
pub proof fn lemma_sealed_product_phase(
    base: Seq<Seq<Seq<int>>>,
    m: int,
    l: nat,
    bg_bit: nat,
    x: Seq<Seq<int>>,
    s: Seq<Seq<int>>,
    n: nat,
)
    requires
        gadget_params_ok(l, bg_bit),
        l * bg_bit == 64,
        1 <= n,
        base.len() == (s.len() + 1) * l,
        rows_seal_zero(base, s, s.len(), n),
        forall|c: int| 0 <= c < s.len() ==> (#[trigger] s[c]).len() == n,
        crate::ideal::ct_ok(x, s.len(), n),
    ensures
        trlwe_phase(product(gadget_over(base, m, 0, l, bg_bit, s.len(), n), x), s) == poly_scale(
            m,
            trlwe_phase(x, s),
        ),
{
    let k = s.len();
    let g = gadget_over(base, m, 0, l, bg_bit, k, n);
    let z = poly_const(n, 0);
    assert(gadget_shape(g, k, n)) by {
        assert forall|r: int| 0 <= r < g.rows.len() implies trlwe_shape(
            #[trigger] g.rows[r],
            k,
            n,
        ) by {
            assert(trlwe_shape(base[r], k, n));
        }
    }
    lemma_product_phase_sum(g, x, s, n, g.rows.len());
    lemma_sealed_phase_sum(base, m, l, bg_bit, x, s, n, k, l);
    assert(k * l + l == (k + 1) * l) by (nonlinear_arith);
    assert(poly_in_range(x[k as int]));
    assert(x[k as int].len() == n);
    lemma_recomposed_full(m, x[k as int], bg_bit, l);
    lemma_mask_sum_len(x, s, n, k);
    let ms = mask_sum(x, s, n, k);
    let top = poly_scale(m, x[k as int]);
    let low = poly_scale(m, ms);
    assert(x.last() == x[k as int]);
    lemma_scale_linear(m, x[k as int], ms);
    // (0 - low) + top == top - low
    lemma_regroup(z, low, top, z);
    assert(poly_in_range(top) && poly_in_range(low)) by {
        assert forall|q: int| 0 <= q < n implies 0 <= #[trigger] top[q] < modulus() && 0 <= low[q]
            < modulus() by {
            vstd::arithmetic::div_mod::lemma_mod_bound(m * x[k as int][q], modulus());
            vstd::arithmetic::div_mod::lemma_mod_bound(m * ms[q], modulus());
        }
    }
    lemma_zero_neutral(top, m);
    lemma_zero_neutral(low, m);
}

/// Every polynomial of the key `s` has `n` coefficients.
pub open spec fn key_fits(s: Seq<Seq<int>>, n: nat) -> bool {
    forall|c: int| 0 <= c < s.len() ==> (#[trigger] s[c]).len() == n
}

/// Under the key `s`, the gadget ciphertext `g` acts on what ciphertexts decrypt to as
/// the plain bit `c` would: its product with `x` decrypts to what `x` decrypts to where
/// `c` is set, and to zero where it is not.
pub open spec fn acts(g: GadgetView, c: bool, s: Seq<Seq<int>>, n: nat) -> bool {
    &&& gadget_shape(g, s.len(), n)
    &&& forall|x: Seq<Seq<int>>|
        crate::ideal::ct_ok(x, s.len(), n) ==> #[trigger] trlwe_phase(product(g, x), s) == if c {
            trlwe_phase(x, s)
        } else {
            poly_const(n, 0)
        }
}

/// What a ciphertext decrypts to is a polynomial in range.
pub proof fn lemma_phase_in_range(x: Seq<Seq<int>>, s: Seq<Seq<int>>, n: nat)
    requires
        trlwe_shape(x, s.len(), n),
        key_fits(s, n),
    ensures
        trlwe_phase(x, s).len() == n,
        poly_in_range(trlwe_phase(x, s)),
{
    let k = s.len();
    lemma_mask_sum_len(x, s, n, k);
    assert(x.last() == x[k as int]);
    let p = trlwe_phase(x, s);
    assert forall|q: int| 0 <= q < p.len() implies 0 <= #[trigger] p[q] < modulus() by {
        vstd::arithmetic::div_mod::lemma_mod_bound(
            x[k as int][q] - mask_sum(x, s, n, k)[q],
            modulus(),
        );
    }
}

/// A selector sealed under `s` with digits that cover all 64 bits acts as the bit it
/// seals, whatever masks it was sealed with.
pub proof fn lemma_sealed_acts(g: GadgetView, c: bool, s: Seq<Seq<int>>, l: nat, bg_bit: nat)
    requires
        crate::trgsw::sample::seals(g, if c { 1 } else { 0 }, 0, s, l, bg_bit),
        gadget_params_ok(l, bg_bit),
        l * bg_bit == 64,
        1 <= s.len(),
        1 <= s[0].len(),
        key_fits(s, s[0].len()),
    ensures
        acts(g, c, s, s[0].len()),
{
    let k = s.len();
    let n = s[0].len();
    let m: int = if c { 1 } else { 0 };
    let base = choose|base: Seq<Seq<Seq<int>>>|
        #![auto]
        base.len() == (s.len() + 1) * l && rows_seal_zero(base, s, s.len(), s[0].len()) && g
            == gadget_over(base, m, 0, l, bg_bit, s.len(), s[0].len());
    assert(gadget_shape(g, k, n)) by {
        assert forall|r: int| 0 <= r < g.rows.len() implies trlwe_shape(
            #[trigger] g.rows[r],
            k,
            n,
        ) by {
            assert(trlwe_shape(base[r], k, n));
        }
    }
    assert forall|x: Seq<Seq<int>>| crate::ideal::ct_ok(x, k, n) implies #[trigger] trlwe_phase(
        product(g, x),
        s,
    ) == if c {
        trlwe_phase(x, s)
    } else {
        poly_const(n, 0)
    } by {
        lemma_sealed_product_phase(base, m, l, bg_bit, x, s, n);
        lemma_phase_in_range(x, s, n);
        let p = trlwe_phase(x, s);
        if c {
            assert(poly_scale(1, p) =~= p) by {
                assert forall|q: int| 0 <= q < n implies (1 * #[trigger] p[q]) % modulus()
                    == p[q] by {
                    crate::modular::lemma_in_range_mod(p[q]);
                }
            }
        } else {
            assert(poly_scale(0, p) =~= poly_const(n, 0)) by {
                assert forall|q: int| 0 <= q < n implies (0 * #[trigger] p[q]) % modulus() == 0 by {
                    vstd::arithmetic::div_mod::lemma_small_mod(0nat, modulus() as nat);
                }
            }
        }
    }
}

/// Exact cancellations between polynomials in range: `a + (b - a) = b`,
/// `a - (a - b) = b`, `b + (a - b) = a`, `a - (a + b) = 0 - b`.
pub proof fn lemma_poly_cancel(a: Seq<int>, b: Seq<int>)
    requires
        a.len() == b.len(),
        poly_in_range(a),
        poly_in_range(b),
    ensures
        poly_add(a, poly_sub(b, a)) == b,
        poly_sub(a, poly_sub(a, b)) == b,
        poly_add(b, poly_sub(a, b)) == a,
        poly_sub(a, poly_add(a, b)) == poly_sub(poly_const(a.len(), 0), b),
        poly_sub(a, a) == poly_const(a.len(), 0),
{
    let m = modulus();
    assert forall|i: int| 0 <= i < a.len() implies {
        &&& wrap_add(a[i], wrap_sub(b[i], a[i])) == b[i]
        &&& wrap_sub(a[i], wrap_sub(a[i], b[i])) == b[i]
        &&& wrap_add(b[i], wrap_sub(a[i], b[i])) == a[i]
        &&& wrap_sub(a[i], wrap_add(a[i], b[i])) == wrap_sub(0, b[i])
        &&& wrap_sub(a[i], a[i]) == 0
    } by {
        let (x, y) = (a[i], b[i]);
        crate::modular::lemma_in_range_mod(x);
        crate::modular::lemma_in_range_mod(y);
        crate::modular::lemma_mod_add_right(x, y - x);
        crate::modular::lemma_mod_add_right(y, x - y);
        vstd::arithmetic::div_mod::lemma_sub_mod_noop(x, x - y, m);
        vstd::arithmetic::div_mod::lemma_sub_mod_noop(x, x + y, m);
    }
    assert(poly_add(a, poly_sub(b, a)) =~= b);
    assert(poly_sub(a, poly_sub(a, b)) =~= b);
    assert(poly_add(b, poly_sub(a, b)) =~= a);
    assert(poly_sub(a, poly_add(a, b)) =~= poly_sub(poly_const(a.len(), 0), b));
    assert(poly_sub(a, a) =~= poly_const(a.len(), 0));
}

/// What the two operands of a gate decrypt to afterwards, under a selector that acts as
/// the bit `c`, in terms of what they decrypted to before:
/// - select: the low operand decrypts to `a` for zero and to `b` for one;
/// - distribute: the low operand decrypts to `a` for zero and to `-b` for one, the high
///   one to the rest of `a + b`;
/// - swap: the operands decrypt to `(a, b)` for zero and to `(b, a)` for one.
pub proof fn lemma_gate_acts(
    kind: crate::trgsw::dft::Gate,
    g: GadgetView,
    c: bool,
    a: Seq<Seq<int>>,
    b: Seq<Seq<int>>,
    s: Seq<Seq<int>>,
    n: nat,
)
    requires
        acts(g, c, s, n),
        trlwe_shape(a, s.len(), n),
        trlwe_shape(b, s.len(), n),
        key_fits(s, n),
    ensures
        trlwe_shape(crate::trgsw::dft::gate_pair(kind, g, a, b).0, s.len(), n),
        trlwe_shape(crate::trgsw::dft::gate_pair(kind, g, a, b).1, s.len(), n),
        trlwe_phase(crate::trgsw::dft::gate_pair(kind, g, a, b).0, s) == match kind {
            crate::trgsw::dft::Gate::Cmux => if c {
                trlwe_phase(b, s)
            } else {
                trlwe_phase(a, s)
            },
            crate::trgsw::dft::Gate::Cdemux => if c {
                poly_sub(poly_const(n, 0), trlwe_phase(b, s))
            } else {
                trlwe_phase(a, s)
            },
            crate::trgsw::dft::Gate::Cswap => if c {
                trlwe_phase(b, s)
            } else {
                trlwe_phase(a, s)
            },
        },
        trlwe_phase(crate::trgsw::dft::gate_pair(kind, g, a, b).1, s) == match kind {
            crate::trgsw::dft::Gate::Cmux => if c {
                poly_sub(trlwe_phase(b, s), trlwe_phase(a, s))
            } else {
                poly_const(n, 0)
            },
            crate::trgsw::dft::Gate::Cdemux => poly_sub(
                poly_add(trlwe_phase(b, s), trlwe_phase(a, s)),
                if c {
                    poly_sub(poly_const(n, 0), trlwe_phase(b, s))
                } else {
                    trlwe_phase(a, s)
                },
            ),
            crate::trgsw::dft::Gate::Cswap => if c {
                trlwe_phase(a, s)
            } else {
                trlwe_phase(b, s)
            },
        },
{
    let k = s.len();
    let pa = trlwe_phase(a, s);
    let pb = trlwe_phase(b, s);
    let z = poly_const(n, 0);
    lemma_phase_in_range(a, s, n);
    lemma_phase_in_range(b, s, n);
    crate::ideal::lemma_ok_closed(a, b, k, n);
    crate::ideal::lemma_ok_closed(b, a, k, n);
    lemma_phase_linear(a, b, s, n);
    lemma_phase_linear(b, a, s, n);
    lemma_poly_cancel(pa, pb);
    lemma_poly_cancel(pb, pa);
    lemma_zero_neutral(pa, 0);
    lemma_zero_neutral(pb, 0);
    match kind {
        crate::trgsw::dft::Gate::Cmux => {
            let x = crate::trlwe::sample::trlwe_sub(b, a);
            let p = product(g, x);
            crate::trlwe::dft::lemma_product_sum_shape(g, x, k, n, g.rows.len());
            lemma_phase_linear(a, p, s, n);
        },
        crate::trgsw::dft::Gate::Cdemux => {
            let x = trlwe_add(b, a);
            let p = product(g, x);
            crate::trlwe::dft::lemma_product_sum_shape(g, x, k, n, g.rows.len());
            lemma_phase_linear(a, p, s, n);
            assert(poly_add(pb, pa) =~= poly_add(pa, pb)) by {
                assert forall|i: int| 0 <= i < n implies wrap_add(pb[i], pa[i]) == wrap_add(
                    pa[i],
                    pb[i],
                ) by {}
            }
            let lo = crate::trlwe::sample::trlwe_sub(a, p);
            assert(trlwe_shape(lo, k, n));
            lemma_phase_linear(x, lo, s, n);
        },
        crate::trgsw::dft::Gate::Cswap => {
            let x = crate::trlwe::sample::trlwe_sub(a, b);
            let p = product(g, x);
            crate::trlwe::dft::lemma_product_sum_shape(g, x, k, n, g.rows.len());
            lemma_phase_linear(a, p, s, n);
            lemma_phase_linear(b, p, s, n);
        },
    }
}

/// Selector `i` acts as bit `i` under the key `s`, for every `i`.
pub open spec fn all_act(sel: Seq<GadgetView>, bits: Seq<bool>, s: Seq<Seq<int>>, n: nat) -> bool {
    &&& sel.len() == bits.len()
    &&& forall|i: int| 0 <= i < sel.len() ==> acts(#[trigger] sel[i], bits[i], s, n)
}

/// Every ciphertext of the run has `k` masks of `n` coefficients.
pub open spec fn all_shaped(v: Seq<Seq<Seq<int>>>, k: nat, n: nat) -> bool {
    forall|j: int| 0 <= j < v.len() ==> trlwe_shape(#[trigger] v[j], k, n)
}

/// A strided pass keeps the shape of every ciphertext of the run.
pub proof fn lemma_pass_shapes(
    kind: crate::trgsw::dft::Gate,
    g: GadgetView,
    c: bool,
    v: Seq<Seq<Seq<int>>>,
    offset: int,
    stride: int,
    wrap: bool,
    s: Seq<Seq<int>>,
    n: nat,
)
    requires
        acts(g, c, s, n),
        all_shaped(v, s.len(), n),
        key_fits(s, n),
        0 <= offset,
        1 <= stride,
    ensures
        crate::trgsw::dft::strided_pass(kind, g, v, offset, stride, wrap).len() == v.len(),
        all_shaped(crate::trgsw::dft::strided_pass(kind, g, v, offset, stride, wrap), s.len(), n),
{
    let w = crate::trgsw::dft::strided_pass(kind, g, v, offset, stride, wrap);
    let len = v.len() as int;
    assert forall|j: int| 0 <= j < w.len() implies trlwe_shape(#[trigger] w[j], s.len(), n) by {
        let p = crate::trgsw::dft::partner(j, len, offset, stride, wrap);
        let q = crate::trgsw::dft::low_of(j, len, offset, stride, wrap);
        if crate::trgsw::dft::is_low(j, offset, stride) && p >= 0 {
            assert(trlwe_shape(v[j], s.len(), n));
            assert(trlwe_shape(v[p], s.len(), n));
            lemma_gate_acts(kind, g, c, v[j], v[p], s, n);
        } else if q >= 0 {
            assert(trlwe_shape(v[j], s.len(), n));
            assert(trlwe_shape(v[q], s.len(), n));
            lemma_gate_acts(kind, g, c, v[q], v[j], s, n);
        } else {
            assert(trlwe_shape(v[j], s.len(), n));
        }
    }
}

/// Slot `c * 2^upto` of the run `cur` decrypts to what the slot `index_of(bits, upto)`
/// further on of the run `v` decrypts to.
pub open spec fn follows(
    cur: Seq<Seq<Seq<int>>>,
    v: Seq<Seq<Seq<int>>>,
    bits: Seq<bool>,
    upto: nat,
    c: int,
    s: Seq<Seq<int>>,
) -> bool {
    &&& crate::ideal::slot(c, upto) + crate::ideal::index_of(bits, upto) < v.len()
    &&& trlwe_phase(cur[crate::ideal::slot(c, upto)], s) == trlwe_phase(
        v[crate::ideal::slot(c, upto) + crate::ideal::index_of(bits, upto)],
        s,
    )
}

/// After `upto` passes of the select tree under selectors that act as the bits `bits`,
/// every slot at a multiple of `2^upto` decrypts to what the slot `index_of(bits, upto)`
/// further on decrypted to at the start.
pub proof fn lemma_cmux_tree_passes_act(
    sel: Seq<GadgetView>,
    bits: Seq<bool>,
    v: Seq<Seq<Seq<int>>>,
    s: Seq<Seq<int>>,
    n: nat,
    upto: nat,
)
    requires
        all_act(sel, bits, s, n),
        all_shaped(v, s.len(), n),
        key_fits(s, n),
        v.len() == vstd::arithmetic::power2::pow2(sel.len()),
        upto <= sel.len(),
    ensures
        crate::tree::cmux_tree_passes(sel, v, upto).len() == v.len(),
        all_shaped(crate::tree::cmux_tree_passes(sel, v, upto), s.len(), n),
        forall|c: int|
            0 <= c && crate::ideal::slot(c, upto) < v.len() ==> #[trigger] follows(
                crate::tree::cmux_tree_passes(sel, v, upto),
                v,
                bits,
                upto,
                c,
                s,
            ),
    decreases upto,
{
    let d = sel.len();
    if upto == 0 {
        vstd::arithmetic::power2::lemma2_to64();
        assert forall|c: int| 0 <= c && crate::ideal::slot(c, 0) < v.len() implies #[trigger] follows(
            crate::tree::cmux_tree_passes(sel, v, 0),
            v,
            bits,
            0,
            c,
            s,
        ) by {
            assert(crate::ideal::slot(c, 0) == c);
        }
    } else {
        let t = (upto - 1) as nat;
        let st = vstd::arithmetic::power2::pow2(t) as int;
        let prev = crate::tree::cmux_tree_passes(sel, v, t);
        let cur = crate::tree::cmux_tree_passes(sel, v, upto);
        lemma_cmux_tree_passes_act(sel, bits, v, s, n, t);
        vstd::arithmetic::power2::lemma_pow2_unfold(upto);
        vstd::arithmetic::power2::lemma_pow2_pos(t);
        crate::ideal::lemma_index_bound(bits, t);
        assert(acts(sel[t as int], bits[t as int], s, n));
        lemma_pass_shapes(
            crate::trgsw::dft::Gate::Cmux,
            sel[t as int],
            bits[t as int],
            prev,
            0,
            st,
            false,
            s,
            n,
        );
        assert forall|c: int| 0 <= c && crate::ideal::slot(c, upto) < v.len() implies #[trigger] follows(
            cur,
            v,
            bits,
            upto,
            c,
            s,
        ) by {
            let j = crate::ideal::slot(c, upto);
            crate::ideal::lemma_multiple_room(c, upto, d);
            assert(j + 2 * st <= v.len() && j >= 0) by (nonlinear_arith)
                requires
                    (c + 1) * (2 * st) <= v.len(),
                    j == c * (2 * st),
                    c >= 0,
                    st > 0,
            ;
            assert(j == crate::ideal::slot(2 * c, t) && j + st == crate::ideal::slot(2 * c + 1, t))
                by (nonlinear_arith)
                requires
                    j == c * (2 * st),
                    crate::ideal::slot(2 * c, t) == (2 * c) * st,
                    crate::ideal::slot(2 * c + 1, t) == (2 * c + 1) * st,
            ;
            assert(j % (2 * st) == 0) by {
                vstd::arithmetic::div_mod::lemma_mod_multiples_basic(c, 2 * st);
            }
            assert(crate::trgsw::dft::is_low(j, 0, st));
            assert(follows(prev, v, bits, t, 2 * c, s));
            assert(follows(prev, v, bits, t, 2 * c + 1, s));
            let a = prev[j];
            let b = prev[j + st];
            assert(trlwe_shape(a, s.len(), n));
            assert(trlwe_shape(b, s.len(), n));
            lemma_gate_acts(
                crate::trgsw::dft::Gate::Cmux,
                sel[t as int],
                bits[t as int],
                a,
                b,
                s,
                n,
            );
            assert(cur[j] == crate::trgsw::dft::gate_pair(
                crate::trgsw::dft::Gate::Cmux,
                sel[t as int],
                a,
                b,
            ).0);
        }
    }
}

/// Select tree: where `2^d` ciphertexts are collapsed under `d` selectors that act as the
/// bits of the index `s`, least significant first, slot 0 ends up decrypting to what slot
/// `s` decrypted to.
pub proof fn lemma_cmux_tree_acts(
    sel: Seq<GadgetView>,
    bits: Seq<bool>,
    v: Seq<Seq<Seq<int>>>,
    s: Seq<Seq<int>>,
    n: nat,
)
    requires
        all_act(sel, bits, s, n),
        all_shaped(v, s.len(), n),
        key_fits(s, n),
        v.len() == vstd::arithmetic::power2::pow2(sel.len()),
    ensures
        crate::ideal::index_of(bits, bits.len()) < v.len(),
        trlwe_phase(crate::tree::cmux_tree_passes(sel, v, sel.len())[0], s) == trlwe_phase(
            v[crate::ideal::index_of(bits, bits.len()) as int],
            s,
        ),
{
    lemma_cmux_tree_passes_act(sel, bits, v, s, n, sel.len());
    crate::ideal::lemma_index_bound(bits, bits.len());
    vstd::arithmetic::power2::lemma_pow2_pos(sel.len());
    assert(crate::ideal::slot(0, sel.len()) == 0) by (nonlinear_arith)
        requires
            crate::ideal::slot(0, sel.len()) == 0 * (vstd::arithmetic::power2::pow2(
                sel.len(),
            ) as int),
    ;
    let cur = crate::tree::cmux_tree_passes(sel, v, sel.len());
    assert(follows(cur, v, bits, sel.len(), 0, s));
}

/// The run `v` decrypts to `p` in slot `at` and to zero in every other slot.
pub open spec fn hot_at(
    v: Seq<Seq<Seq<int>>>,
    at: int,
    p: Seq<int>,
    s: Seq<Seq<int>>,
    n: nat,
) -> bool {
    &&& all_shaped(v, s.len(), n)
    &&& forall|j: int|
        0 <= j < v.len() ==> #[trigger] trlwe_phase(v[j], s) == if j == at {
            p
        } else {
            poly_const(n, 0)
        }
}

/// One pass of the distribute tree on a run that decrypts to a single value, in a slot
/// at a multiple of the double stride: the value stays where the selector bit is clear
/// and moves one stride up where it is set.
proof fn lemma_cdemux_pass_hot(
    g: GadgetView,
    c: bool,
    d: nat,
    t: nat,
    m: int,
    v: Seq<Seq<Seq<int>>>,
    p: Seq<int>,
    s: Seq<Seq<int>>,
    n: nat,
)
    requires
        acts(g, c, s, n),
        key_fits(s, n),
        t < d,
        0 <= m,
        v.len() == vstd::arithmetic::power2::pow2(d),
        crate::ideal::slot(m, t + 1) < v.len(),
        hot_at(v, crate::ideal::slot(m, t + 1), p, s, n),
        poly_in_range(p),
        p.len() == n,
    ensures
        crate::ideal::slot(m, t + 1) + vstd::arithmetic::power2::pow2(t) < v.len(),
        crate::trgsw::dft::strided_pass(
            crate::trgsw::dft::Gate::Cdemux,
            g,
            v,
            0,
            vstd::arithmetic::power2::pow2(t) as int,
            false,
        ).len() == v.len(),
        hot_at(
            crate::trgsw::dft::strided_pass(
                crate::trgsw::dft::Gate::Cdemux,
                g,
                v,
                0,
                vstd::arithmetic::power2::pow2(t) as int,
                false,
            ),
            crate::ideal::slot(m, t + 1) + if c {
                vstd::arithmetic::power2::pow2(t) as int
            } else {
                0
            },
            p,
            s,
            n,
        ),
{
    let len = v.len();
    let st = vstd::arithmetic::power2::pow2(t) as int;
    let at = crate::ideal::slot(m, t + 1);
    let w = crate::trgsw::dft::strided_pass(crate::trgsw::dft::Gate::Cdemux, g, v, 0, st, false);
    let z = poly_const(n, 0);
    let target = at + if c { st } else { 0 };
    vstd::arithmetic::power2::lemma_pow2_unfold(t + 1);
    vstd::arithmetic::power2::lemma_pow2_pos(t);
    crate::ideal::lemma_multiple_room(m, t + 1, d);
    assert(at + 2 * st <= len && at >= 0) by (nonlinear_arith)
        requires
            crate::ideal::slot(m + 1, t + 1) <= len,
            crate::ideal::slot(m + 1, t + 1) == (m + 1) * (2 * st),
            at == m * (2 * st),
            m >= 0,
            st > 0,
    ;
    assert(crate::trgsw::dft::is_low(at, 0, st)) by {
        vstd::arithmetic::div_mod::lemma_mod_multiples_basic(m, 2 * st);
    }
    lemma_pass_shapes(crate::trgsw::dft::Gate::Cdemux, g, c, v, 0, st, false, s, n);
    lemma_zero_neutral(p, 0);
    lemma_zero_neutral(z, 0);
    assert forall|q: int| 0 <= q < len implies #[trigger] trlwe_phase(w[q], s) == if q == target {
        p
    } else {
        z
    } by {
        if crate::trgsw::dft::is_low(q, 0, st) {
            crate::trgsw::dft::lemma_low_gap(at, q, 0, st);
            crate::ideal::lemma_low_is_multiple(q, t);
            crate::ideal::lemma_multiple_room(q / (2 * st), t + 1, d);
            assert(q + 2 * st <= len) by (nonlinear_arith)
                requires
                    crate::ideal::slot(q / (2 * st) + 1, t + 1) <= len,
                    crate::ideal::slot(q / (2 * st) + 1, t + 1) == (q / (2 * st) + 1) * (2 * st),
                    q == crate::ideal::slot(q / (2 * st), t + 1),
                    crate::ideal::slot(q / (2 * st), t + 1) == (q / (2 * st)) * (2 * st),
            ;
            assert(trlwe_shape(v[q], s.len(), n));
            assert(trlwe_shape(v[q + st], s.len(), n));
            assert(trlwe_phase(v[q + st], s) == z);
            assert(trlwe_phase(v[q], s) == if q == at { p } else { z });
            lemma_gate_acts(crate::trgsw::dft::Gate::Cdemux, g, c, v[q], v[q + st], s, n);
        } else if q >= st && crate::trgsw::dft::is_low(q - st, 0, st) {
            crate::trgsw::dft::lemma_low_gap(at, q - st, 0, st);
            assert(trlwe_shape(v[q], s.len(), n));
            assert(trlwe_shape(v[q - st], s.len(), n));
            assert(trlwe_phase(v[q], s) == z);
            assert(trlwe_phase(v[q - st], s) == if q - st == at { p } else { z });
            lemma_gate_acts(crate::trgsw::dft::Gate::Cdemux, g, c, v[q - st], v[q], s, n);
        } else {
            assert(trlwe_phase(v[q], s) == if q == at { p } else { z });
        }
    }
}

/// The passes `from - 1`, ..., `0` of the distribute tree carry what a run decrypts to in
/// its single slot, at a multiple of `2^from`, to the slot `index_of(bits, from)` further
/// on.
pub proof fn lemma_cdemux_tree_passes_act(
    sel: Seq<GadgetView>,
    bits: Seq<bool>,
    m: int,
    v: Seq<Seq<Seq<int>>>,
    p: Seq<int>,
    s: Seq<Seq<int>>,
    n: nat,
    from: nat,
)
    requires
        all_act(sel, bits, s, n),
        key_fits(s, n),
        from <= sel.len(),
        0 <= m,
        v.len() == vstd::arithmetic::power2::pow2(sel.len()),
        crate::ideal::slot(m, from) < v.len(),
        hot_at(v, crate::ideal::slot(m, from), p, s, n),
        poly_in_range(p),
        p.len() == n,
    ensures
        crate::ideal::slot(m, from) + crate::ideal::index_of(bits, from) < v.len(),
        crate::tree::cdemux_tree_passes(sel, v, from).len() == v.len(),
        hot_at(
            crate::tree::cdemux_tree_passes(sel, v, from),
            crate::ideal::slot(m, from) + crate::ideal::index_of(bits, from),
            p,
            s,
            n,
        ),
    decreases from,
{
    let d = sel.len();
    if from > 0 {
        let t = (from - 1) as nat;
        let st = vstd::arithmetic::power2::pow2(t) as int;
        let c = bits[t as int];
        assert(acts(sel[t as int], c, s, n));
        lemma_cdemux_pass_hot(sel[t as int], c, d, t, m, v, p, s, n);
        vstd::arithmetic::power2::lemma_pow2_unfold(from);
        let m2 = if c { 2 * m + 1 } else { 2 * m };
        assert(crate::ideal::slot(m2, t) == crate::ideal::slot(m, from) + if c { st } else { 0 })
            by (nonlinear_arith)
            requires
                crate::ideal::slot(m2, t) == m2 * st,
                crate::ideal::slot(m, from) == m * (2 * st),
                m2 == if c { 2 * m + 1 } else { 2 * m },
        ;
        let w = crate::trgsw::dft::strided_pass(
            crate::trgsw::dft::Gate::Cdemux,
            sel[t as int],
            v,
            0,
            st,
            false,
        );
        lemma_cdemux_tree_passes_act(sel, bits, m2, w, p, s, n, t);
    }
}

/// Distribute tree: where a run of `2^d` slots decrypts to a single value in slot 0 and
/// is spread under `d` selectors that act as the bits of the index `s`, the run ends up
/// decrypting to that value in slot `s` and to zero in every other slot.
pub proof fn lemma_cdemux_tree_acts(
    sel: Seq<GadgetView>,
    bits: Seq<bool>,
    v: Seq<Seq<Seq<int>>>,
    p: Seq<int>,
    s: Seq<Seq<int>>,
    n: nat,
)
    requires
        all_act(sel, bits, s, n),
        key_fits(s, n),
        v.len() == vstd::arithmetic::power2::pow2(sel.len()),
        hot_at(v, 0, p, s, n),
        poly_in_range(p),
        p.len() == n,
    ensures
        crate::ideal::index_of(bits, bits.len()) < v.len(),
        hot_at(
            crate::tree::cdemux_tree_passes(sel, v, sel.len()),
            crate::ideal::index_of(bits, bits.len()) as int,
            p,
            s,
            n,
        ),
{
    vstd::arithmetic::power2::lemma_pow2_pos(sel.len());
    assert(crate::ideal::slot(0, sel.len()) == 0) by (nonlinear_arith)
        requires
            crate::ideal::slot(0, sel.len()) == 0 * (vstd::arithmetic::power2::pow2(
                sel.len(),
            ) as int),
    ;
    lemma_cdemux_tree_passes_act(sel, bits, 0, v, p, s, n, sel.len());
}

/// Under a selector that acts as the bit `c`, one rotation step rotates what the
/// ciphertext decrypts to by `X^e` where `c` is set and leaves it where `c` is clear.
pub proof fn lemma_rotate_under_acts(
    g: GadgetView,
    c: bool,
    x: Seq<Seq<int>>,
    e: int,
    s: Seq<Seq<int>>,
    n: nat,
)
    requires
        acts(g, c, s, n),
        trlwe_shape(x, s.len(), n),
        key_fits(s, n),
        0 <= e < 2 * n,
    ensures
        trlwe_shape(crate::rotate::rotate_under(g, x, e), s.len(), n),
        trlwe_phase(crate::rotate::rotate_under(g, x, e), s) == if c {
            crate::poly::torus::poly_rotate(trlwe_phase(x, s), e)
        } else {
            trlwe_phase(x, s)
        },
{
    let k = s.len();
    let r = crate::trlwe::sample::trlwe_rotate(x, e);
    let d = crate::trlwe::sample::trlwe_rotate_pred(x, e);
    assert(trlwe_shape(r, k, n)) by {
        assert forall|i: int| 0 <= i <= k implies (#[trigger] r[i]).len() == n by {
            assert(x[i].len() == n);
        }
    }
    assert(d =~= crate::trlwe::sample::trlwe_sub(r, x));
    crate::ideal::lemma_ok_closed(r, x, k, n);
    crate::trlwe::sample::lemma_phase_rotated(x, s, n, e);
    lemma_phase_linear(r, x, s, n);
    lemma_phase_in_range(x, s, n);
    lemma_phase_in_range(r, s, n);
    let px = trlwe_phase(x, s);
    let pr = trlwe_phase(r, s);
    lemma_poly_cancel(px, pr);
    lemma_zero_neutral(px, 0);
    let p = product(g, d);
    crate::trlwe::dft::lemma_product_sum_shape(g, d, k, n, g.rows.len());
    lemma_phase_linear(x, p, s, n);
}

/// Rotation to the left: under selectors that act as the bits `bits`, the steps rotate
/// what the ciphertext decrypts to by the exponent that the bits spell.
pub proof fn lemma_left_rotation_acts(
    gs: Seq<GadgetView>,
    bits: Seq<bool>,
    x: Seq<Seq<int>>,
    s: Seq<Seq<int>>,
    n: nat,
    from: nat,
)
    requires
        all_act(gs, bits, s, n),
        trlwe_shape(x, s.len(), n),
        key_fits(s, n),
        1 <= n,
        from <= gs.len(),
        vstd::arithmetic::power2::pow2(from) <= 2 * n,
    ensures
        crate::ideal::index_of(bits, from) < 2 * n,
        trlwe_shape(crate::rotate::left_rotation(gs, x, from), s.len(), n),
        trlwe_phase(crate::rotate::left_rotation(gs, x, from), s)
            == crate::poly::torus::poly_rotate(
            trlwe_phase(x, s),
            crate::ideal::index_of(bits, from) as int,
        ),
    decreases from,
{
    crate::ideal::lemma_index_bound(bits, from);
    lemma_phase_in_range(x, s, n);
    let px = trlwe_phase(x, s);
    if from == 0 {
        crate::poly::torus::lemma_rotate_zero(px);
    } else {
        let t = (from - 1) as nat;
        let e = vstd::arithmetic::power2::pow2(t) as int;
        vstd::arithmetic::power2::lemma_pow2_unfold(from);
        vstd::arithmetic::power2::lemma_pow2_pos(t);
        assert(acts(gs[t as int], bits[t as int], s, n));
        lemma_rotate_under_acts(gs[t as int], bits[t as int], x, e, s, n);
        let y = crate::rotate::rotate_under(gs[t as int], x, e);
        lemma_left_rotation_acts(gs, bits, y, s, n, t);
        crate::ideal::lemma_index_bound(bits, t);
        let low = crate::ideal::index_of(bits, t) as int;
        if bits[t as int] {
            crate::poly::torus::lemma_rotate_twice(px, e, low);
        }
    }
}

/// Rotation to the right: under selectors that act as the bits `bits`, spelling an
/// exponent `e`, the steps rotate what the ciphertext decrypts to by `X^(-e)`.
pub proof fn lemma_right_rotation_acts(
    gs: Seq<GadgetView>,
    bits: Seq<bool>,
    x: Seq<Seq<int>>,
    s: Seq<Seq<int>>,
    n: nat,
    upto: nat,
)
    requires
        all_act(gs, bits, s, n),
        trlwe_shape(x, s.len(), n),
        key_fits(s, n),
        1 <= n,
        upto <= gs.len(),
        vstd::arithmetic::power2::pow2(upto) <= 2 * n,
    ensures
        crate::ideal::index_of(bits, upto) < 2 * n,
        trlwe_shape(crate::rotate::right_rotation(gs, x, n, upto), s.len(), n),
        trlwe_phase(crate::rotate::right_rotation(gs, x, n, upto), s)
            == crate::poly::torus::poly_rotate(
            trlwe_phase(x, s),
            crate::pipeline::roundtrip::minus(crate::ideal::index_of(bits, upto) as int, n as int),
        ),
    decreases upto,
{
    crate::ideal::lemma_index_bound(bits, upto);
    lemma_phase_in_range(x, s, n);
    let px = trlwe_phase(x, s);
    if upto == 0 {
        crate::poly::torus::lemma_rotate_zero(px);
    } else {
        let t = (upto - 1) as nat;
        let p = vstd::arithmetic::power2::pow2(t) as int;
        vstd::arithmetic::power2::lemma_pow2_unfold(upto);
        vstd::arithmetic::power2::lemma_pow2_pos(t);
        lemma_right_rotation_acts(gs, bits, x, s, n, t);
        crate::ideal::lemma_index_bound(bits, t);
        let low = crate::ideal::index_of(bits, t) as int;
        let before = crate::pipeline::roundtrip::minus(low, n as int);
        let y = crate::rotate::right_rotation(gs, x, n, t);
        assert(acts(gs[t as int], bits[t as int], s, n));
        lemma_rotate_under_acts(gs[t as int], bits[t as int], y, 2 * n - p, s, n);
        if bits[t as int] {
            crate::poly::torus::lemma_rotate_twice(px, before, 2 * n - p);
        }
    }
}

} // verus!
