use vstd::prelude::*;
use vstd::arithmetic::power2::pow2;
use crate::gadget::digit_weight;
use crate::gadget::gadget_params_ok;
use crate::gadget::pow2_word;
use crate::poly::torus::TorusPolynomial;
use crate::poly::torus::poly_const;
use crate::poly::torus::poly_rotate;
use crate::torus::Torus;
use crate::torus::modulus;
use crate::trgsw::key::TrgswKey;
use crate::trlwe::sample::Trlwe;
use crate::trlwe::sample::trlwe_shape;
use crate::trlwe::sample::trlwe_add;
use crate::trlwe::sample::trlwe_sub;
use crate::trlwe::sample::trlwe_rotate;
use crate::trlwe::sample::trlwe_rotate_pred;
use crate::trlwe::sample::trlwe_phase;
use crate::trlwe::sample::trlwe_trivial;
use crate::trlwe::sample::same_shape;

verus! {

/// What a gadget ciphertext holds: `(k + 1) * l` rows, each a polynomial ciphertext, and
/// the two parameters of the decomposition. Row `i * l + j` carries the message times the
/// weight of digit `j` on polynomial `i`.
pub struct GadgetView {
    pub rows: Seq<Seq<Seq<int>>>,
    pub l: nat,
    pub bg_bit: nat,
}

/// The views of a run of polynomial ciphertexts.
pub open spec fn bank(v: Seq<Trlwe>) -> Seq<Seq<Seq<int>>> {
    Seq::new(v.len(), |r: int| v[r]@)
}

/// `g` has valid parameters and `(k + 1) * l` rows of `k + 1` polynomials of length `n`.
pub open spec fn gadget_shape(g: GadgetView, k: nat, n: nat) -> bool {
    &&& gadget_params_ok(g.l, g.bg_bit)
    &&& g.rows.len() == (k + 1) * g.l
    &&& forall|r: int| 0 <= r < g.rows.len() ==> trlwe_shape(#[trigger] g.rows[r], k, n)
}

/// The polynomial `c * X^e` modulo `X^n + 1`, for `0 <= e < 2n`.
pub open spec fn monomial(n: nat, c: int, e: int) -> Seq<int> {
    poly_rotate(Seq::new(n, |i: int| if i == 0 { c } else { 0 }), e)
}

/// The plaintext part of row `r`: zero everywhere but on polynomial `r / l`, which holds
/// the integer message `m` times the weight of digit `r % l`, times `X^e`.
pub open spec fn plain_row(m: int, e: int, l: nat, bg_bit: nat, k: nat, n: nat, r: int) -> Seq<
    Seq<int>,
> {
    Seq::new(
        k + 1,
        |c: int|
            if c == r / (l as int) {
                monomial(n, (m * digit_weight(bg_bit, (r % (l as int)) as nat)) % modulus(), e)
            } else {
                poly_const(n, 0)
            },
    )
}

/// The gadget ciphertext whose rows are the rows of `base` plus the plaintext rows of
/// the integer message `m` times `X^e`.
pub open spec fn gadget_over(
    base: Seq<Seq<Seq<int>>>,
    m: int,
    e: int,
    l: nat,
    bg_bit: nat,
    k: nat,
    n: nat,
) -> GadgetView {
    GadgetView {
        rows: Seq::new(
            base.len(),
            |r: int| trlwe_add(base[r], plain_row(m, e, l, bg_bit, k, n, r)),
        ),
        l,
        bg_bit,
    }
}

/// `(k + 1) * l` trivial ciphertexts of zero.
pub open spec fn zero_rows(l: nat, k: nat, n: nat) -> Seq<Seq<Seq<int>>> {
    Seq::new((k + 1) * l, |r: int| trlwe_trivial(k, poly_const(n, 0)))
}

/// The trivial gadget ciphertext of the integer message `m`: no mask, no noise.
pub open spec fn gadget_trivial(m: int, l: nat, bg_bit: nat, k: nat, n: nat) -> GadgetView {
    gadget_over(zero_rows(l, k, n), m, 0, l, bg_bit, k, n)
}

/// Every row of `base` decrypts to the zero polynomial under `s`.
pub open spec fn rows_seal_zero(base: Seq<Seq<Seq<int>>>, s: Seq<Seq<int>>, k: nat, n: nat) -> bool {
    forall|r: int|
        0 <= r < base.len() ==> trlwe_shape(#[trigger] base[r], k, n) && trlwe_phase(base[r], s)
            == poly_const(n, 0)
}

/// The gadget ciphertext `g` seals the integer message `m` times `X^e` under the key `s`:
/// its rows are sealings of zero plus the plaintext rows of the message.
pub open spec fn seals(g: GadgetView, m: int, e: int, s: Seq<Seq<int>>, l: nat, bg_bit: nat) -> bool {
    exists|base: Seq<Seq<Seq<int>>>|
        #![auto]
        base.len() == (s.len() + 1) * l && rows_seal_zero(base, s, s.len(), s[0].len()) && g
            == gadget_over(base, m, e, l, bg_bit, s.len(), s[0].len())
}

/// Row-wise sum of two gadget ciphertexts of the same parameters.
pub open spec fn gadget_add(x: GadgetView, y: GadgetView) -> GadgetView {
    GadgetView {
        rows: Seq::new(x.rows.len(), |r: int| trlwe_add(x.rows[r], y.rows[r])),
        l: x.l,
        bg_bit: x.bg_bit,
    }
}

/// Row-wise difference of two gadget ciphertexts of the same parameters.
pub open spec fn gadget_sub(x: GadgetView, y: GadgetView) -> GadgetView {
    GadgetView {
        rows: Seq::new(x.rows.len(), |r: int| trlwe_sub(x.rows[r], y.rows[r])),
        l: x.l,
        bg_bit: x.bg_bit,
    }
}

/// Every row multiplied by `X^a`.
pub open spec fn gadget_rotate(x: GadgetView, a: int) -> GadgetView {
    GadgetView {
        rows: Seq::new(x.rows.len(), |r: int| trlwe_rotate(x.rows[r], a)),
        l: x.l,
        bg_bit: x.bg_bit,
    }
}

/// Every row multiplied by `X^a - 1`.
pub open spec fn gadget_rotate_pred(x: GadgetView, a: int) -> GadgetView {
    GadgetView {
        rows: Seq::new(x.rows.len(), |r: int| trlwe_rotate_pred(x.rows[r], a)),
        l: x.l,
        bg_bit: x.bg_bit,
    }
}

/// Two gadget ciphertexts agree in their parameters and in the shape of every row.
pub open spec fn gadget_same_shape(x: GadgetView, y: GadgetView) -> bool {
    &&& x.l == y.l
    &&& x.bg_bit == y.bg_bit
    &&& x.rows.len() == y.rows.len()
    &&& forall|r: int| 0 <= r < x.rows.len() ==> same_shape(#[trigger] x.rows[r], #[trigger] y.rows[r])
}

/// Copies a run of polynomial ciphertexts.
pub fn clone_rows(rows: &Vec<Trlwe>) -> (r: Vec<Trlwe>)
    ensures
        bank(r@) == bank(rows@),
{
    let mut out: Vec<Trlwe> = Vec::new();
    let mut i: usize = 0;
    while i < rows.len()
        invariant
            i <= rows@.len(),
            out@.len() == i,
            forall|j: int| 0 <= j < i ==> (#[trigger] out@[j])@ == rows@[j]@,
        decreases rows@.len() - i,
    {
        out.push(rows[i].clone());
        i += 1;
    }
    assert(bank(out@) =~= bank(rows@));
    out
}

/// Builds the rows `base[r] + plain_row(r)` of a gadget ciphertext.
fn rows_over(base: Vec<Trlwe>, m: u64, e: u32, l: u32, bg_bit: u32, k: u32, n: u32) -> (rows: Vec<
    Trlwe,
>)
    requires
        gadget_params_ok(l as nat, bg_bit as nat),
        k < u32::MAX,
        1 <= n,
        e < 2 * n,
        base@.len() == (k + 1) * l,
        forall|r: int| 0 <= r < base@.len() ==> trlwe_shape((#[trigger] base@[r])@, k as nat, n as nat),
    ensures
        bank(rows@) == gadget_over(
            bank(base@),
            m as int,
            e as int,
            l as nat,
            bg_bit as nat,
            k as nat,
            n as nat,
        ).rows,
        forall|r: int| 0 <= r < rows@.len() ==> trlwe_shape((#[trigger] rows@[r])@, k as nat, n as nat),
{
    let ghost target = gadget_over(
        bank(base@),
        m as int,
        e as int,
        l as nat,
        bg_bit as nat,
        k as nat,
        n as nat,
    ).rows;
    let mut rows: Vec<Trlwe> = Vec::new();
    let mut r: usize = 0;
    while r < base.len()
        invariant
            r <= base@.len(),
            gadget_params_ok(l as nat, bg_bit as nat),
            k < u32::MAX,
            1 <= n,
            e < 2 * n,
            base@.len() == (k + 1) * l,
            forall|q: int| 0 <= q < base@.len() ==> trlwe_shape((#[trigger] base@[q])@, k as nat, n as nat),
            target == gadget_over(
                bank(base@),
                m as int,
                e as int,
                l as nat,
                bg_bit as nat,
                k as nat,
                n as nat,
            ).rows,
            rows@.len() == r,
            forall|q: int| 0 <= q < r ==> (#[trigger] rows@[q])@ == target[q],
            forall|q: int| 0 <= q < r ==> trlwe_shape((#[trigger] rows@[q])@, k as nat, n as nat),
        decreases base@.len() - r,
    {
        let i: usize = r / (l as usize);
        let j: u32 = (r % (l as usize)) as u32;
        proof {
            assert(1 <= (j + 1) * bg_bit <= l * bg_bit) by (nonlinear_arith)
                requires
                    0 <= j,
                    j + 1 <= l,
                    bg_bit >= 1,
            ;
            assert(i <= k) by (nonlinear_arith)
                requires
                    r < (k + 1) * l,
                    i == r / (l as usize),
                    l >= 1,
            ;
        }
        let weight: u64 = pow2_word(64 - (j + 1) * bg_bit);
        let c: u64 = m.wrapping_mul(weight);
        let mut coeffs: Vec<Torus> = Vec::new();
        coeffs.push(Torus(c));
        let mut t: u32 = 1;
        while t < n
            invariant
                1 <= t <= n,
                coeffs@.len() == t,
                coeffs@[0].0 == c,
                forall|q: int| 1 <= q < t ==> coeffs@[q].0 == 0,
            decreases n - t,
        {
            coeffs.push(Torus(0));
            t += 1;
        }
        let unit = TorusPolynomial::from_vec(coeffs);
        assert(unit@ =~= Seq::new(n as nat, |q: int| if q == 0 { c as int } else { 0 }));
        let term = unit.mul_by_xai(e);
        let mut polys: Vec<TorusPolynomial> = Vec::new();
        let mut p: u32 = 0;
        while p <= k
            invariant
                p <= k + 1,
                k < u32::MAX,
                i <= k,
                polys@.len() == p,
                forall|q: int| 0 <= q < p ==> (#[trigger] polys@[q])@ == if q == i {
                    term@
                } else {
                    poly_const(n as nat, 0)
                },
            decreases k + 1 - p,
        {
            if p as usize == i {
                polys.push(term.clone());
            } else {
                polys.push(TorusPolynomial::zeroed(n));
            }
            p += 1;
        }
        let plain = Trlwe::from_polys(polys);
        proof {
            assert(plain@ =~= plain_row(
                m as int,
                e as int,
                l as nat,
                bg_bit as nat,
                k as nat,
                n as nat,
                r as int,
            ));
            assert(trlwe_shape(base@[r as int]@, k as nat, n as nat));
            assert(same_shape(base@[r as int]@, plain@));
            assert(bank(base@)[r as int] == base@[r as int]@);
        }
        let row = base[r].add(&plain);
        assert(trlwe_shape(row@, k as nat, n as nat));
        rows.push(row);
        r += 1;
    }
    assert(bank(rows@) =~= target);
    rows
}

/// A gadget ciphertext: an integer selector times a power of `X`, spread over
/// `(k + 1) * l` polynomial ciphertexts.
pub struct Trgsw {
    pub rows: Vec<Trlwe>,
    pub l: u32,
    pub bg_bit: u32,
}

impl View for Trgsw {
    type V = GadgetView;

    open spec fn view(&self) -> GadgetView {
        GadgetView { rows: bank(self.rows@), l: self.l as nat, bg_bit: self.bg_bit as nat }
    }
}

impl Clone for Trgsw {
    fn clone(&self) -> (r: Self)
        ensures
            r@ == self@,
    {
        Trgsw { rows: clone_rows(&self.rows), l: self.l, bg_bit: self.bg_bit }
    }
}

impl Trgsw {
    /// Valid parameters, `(k + 1) * l` rows, and every row of one shape.
    pub open spec fn wf(&self) -> bool {
        &&& self@.rows.len() >= 1
        &&& 1 <= self@.rows[0].len() <= u32::MAX
        &&& 1 <= self@.rows[0][0].len() <= u32::MAX
        &&& gadget_shape(self@, self.spec_k(), self.spec_n())
    }

    /// Number of mask polynomials of each row, as a specification value.
    pub open spec fn spec_k(&self) -> nat {
        (self@.rows[0].len() - 1) as nat
    }

    /// Number of coefficients per polynomial, as a specification value.
    pub open spec fn spec_n(&self) -> nat {
        self@.rows[0][0].len()
    }

    /// Digit count of the decomposition.
    pub fn l(&self) -> (r: u32)
        ensures
            r == self@.l,
    {
        self.l
    }

    /// Digit width of the decomposition, in bits.
    pub fn bg_bit(&self) -> (r: u32)
        ensures
            r == self@.bg_bit,
    {
        self.bg_bit
    }

    /// Number of mask polynomials of each row.
    pub fn k(&self) -> (r: u32)
        requires
            self.wf(),
        ensures
            r == self.spec_k(),
    {
        proof {
            assert(self.rows@[0]@ == self@.rows[0]);
        }
        (self.rows[0].polys.len() - 1) as u32
    }

    /// Number of coefficients per polynomial.
    pub fn upper_n(&self) -> (r: u32)
        requires
            self.wf(),
        ensures
            r == self.spec_n(),
    {
        proof {
            assert(self.rows@[0]@ == self@.rows[0]);
            assert(self.rows@[0].polys@[0]@ == self@.rows[0][0]);
        }
        self.rows[0].polys[0].coeffs.len() as u32
    }

    /// The trivial gadget ciphertext of the integer message `m`: no mask, no noise.
    pub fn new_noiseless(m: Torus, l: u32, bg_bit: u32, k: u32, upper_n: u32) -> (r: Self)
        requires
            gadget_params_ok(l as nat, bg_bit as nat),
            k < u32::MAX,
            1 <= upper_n,
            (k + 1) * l <= usize::MAX,
        ensures
            r@ == gadget_trivial(m@, l as nat, bg_bit as nat, k as nat, upper_n as nat),
            r.wf(),
            r.spec_k() == k,
            r.spec_n() == upper_n,
    {
        let total: usize = (k as usize + 1) * (l as usize);
        let mut base: Vec<Trlwe> = Vec::new();
        let mut i: usize = 0;
        while i < total
            invariant
                i <= total,
                k < u32::MAX,
                base@.len() == i,
                forall|q: int| 0 <= q < i ==> (#[trigger] base@[q])@ == trlwe_trivial(
                    k as nat,
                    poly_const(upper_n as nat, 0),
                ),
            decreases total - i,
        {
            base.push(Trlwe::zeroed_noiseless(k, upper_n));
            i += 1;
        }
        proof {
            assert(bank(base@) =~= zero_rows(l as nat, k as nat, upper_n as nat));
            assert forall|q: int| 0 <= q < base@.len() implies trlwe_shape(
                (#[trigger] base@[q])@,
                k as nat,
                upper_n as nat,
            ) by {}
            assert(total >= 1) by (nonlinear_arith)
                requires
                    total == (k + 1) * l,
                    l >= 1,
                    k >= 0,
            ;
        }
        let rows = rows_over(base, m.0, 0, l, bg_bit, k, upper_n);
        let r = Trgsw { rows, l, bg_bit };
        proof {
            assert(r@.rows == bank(rows@));
            assert(trlwe_shape(r@.rows[0], k as nat, upper_n as nat));
            assert(r@.rows[0][0].len() == upper_n);
        }
        r
    }

    /// Overwrites `self` with the trivial gadget ciphertext of `m`, keeping its parameters.
    pub fn set_noiseless(&mut self, m: Torus)
        requires
            old(self).wf(),
            old(self)@.rows.len() <= usize::MAX,
        ensures
            final(self)@ == gadget_trivial(
                m@,
                old(self)@.l,
                old(self)@.bg_bit,
                old(self).spec_k(),
                old(self).spec_n(),
            ),
            final(self).wf(),
    {
        let k = self.k();
        let n = self.upper_n();
        *self = Self::new_noiseless(m, self.l, self.bg_bit, k, n);
    }

    /// Seals the integer message `m` times `X^e` under `key`: every row is a fresh sealing
    /// of zero plus the plaintext row, so that row `r` minus its plaintext part decrypts to
    /// the zero polynomial whatever masks were drawn.
    pub fn new(m: Torus, e: u32, key: &TrgswKey) -> (r: Self)
        requires
            key.wf(),
            m.0 <= i64::MAX,
            1 <= key.trlwe_key@[0].len(),
            e < 2 * key.trlwe_key@[0].len(),
            (key.trlwe_key@.len() + 1) * key.l <= usize::MAX,
        ensures
            r.wf(),
            r.spec_k() == key.trlwe_key@.len(),
            r.spec_n() == key.trlwe_key@[0].len(),
            r@.l == key.l,
            r@.bg_bit == key.bg_bit,
            seals(r@, m@, e as int, key.trlwe_key@, key.l as nat, key.bg_bit as nat),
    {
        let k: u32 = key.k();
        let n: u32 = key.upper_n();
        let l: u32 = key.l;
        let total: usize = (k as usize + 1) * (l as usize);
        let mut base: Vec<Trlwe> = Vec::new();
        let mut i: usize = 0;
        while i < total
            invariant
                i <= total,
                key.wf(),
                k == key.trlwe_key@.len(),
                n == key.trlwe_key@[0].len(),
                base@.len() == i,
                forall|q: int| 0 <= q < i ==> trlwe_shape((#[trigger] base@[q])@, k as nat, n as nat),
                forall|q: int| 0 <= q < i ==> trlwe_phase((#[trigger] base@[q])@, key.trlwe_key@)
                    == poly_const(n as nat, 0),
            decreases total - i,
        {
            let z = Trlwe::zeroed(&key.trlwe_key);
            base.push(z);
            i += 1;
        }
        let ghost b = bank(base@);
        proof {
            assert(rows_seal_zero(b, key.trlwe_key@, k as nat, n as nat));
            assert(total >= 1) by (nonlinear_arith)
                requires
                    total == (k + 1) * l,
                    l >= 1,
                    k >= 0,
            ;
        }
        let rows = rows_over(base, m.0, e, l, key.bg_bit, k, n);
        let r = Trgsw { rows, l, bg_bit: key.bg_bit };
        proof {
            assert(r@.rows == bank(rows@));
            assert(trlwe_shape(r@.rows[0], k as nat, n as nat));
            assert(r@.rows[0][0].len() == n);
            assert(r@ == gadget_over(b, m@, e as int, l as nat, key.bg_bit as nat, k as nat, n as nat));
            assert(b.len() == (key.trlwe_key@.len() + 1) * (key.l as nat));
        }
        r
    }

    /// Overwrites `self` with a fresh sealing of `m` times `X^e` under `key`.
    pub fn set(&mut self, m: Torus, e: u32, key: &TrgswKey)
        requires
            key.wf(),
            m.0 <= i64::MAX,
            1 <= key.trlwe_key@[0].len(),
            e < 2 * key.trlwe_key@[0].len(),
            (key.trlwe_key@.len() + 1) * key.l <= usize::MAX,
        ensures
            final(self).wf(),
            final(self).spec_k() == key.trlwe_key@.len(),
            final(self).spec_n() == key.trlwe_key@[0].len(),
            final(self)@.l == key.l,
            final(self)@.bg_bit == key.bg_bit,
            seals(final(self)@, m@, e as int, key.trlwe_key@, key.l as nat, key.bg_bit as nat),
    {
        *self = Self::new(m, e, key);
    }

    /// Row-wise sum.
    pub fn add(&self, other: &Self) -> (r: Self)
        requires
            gadget_same_shape(self@, other@),
        ensures
            r@ == gadget_add(self@, other@),
            gadget_same_shape(r@, self@),
    {
        let mut rows: Vec<Trlwe> = Vec::new();
        let mut i: usize = 0;
        while i < self.rows.len()
            invariant
                i <= self.rows@.len(),
                gadget_same_shape(self@, other@),
                rows@.len() == i,
                forall|q: int| 0 <= q < i ==> (#[trigger] rows@[q])@ == gadget_add(self@, other@).rows[q],
            decreases self.rows@.len() - i,
        {
            proof {
                assert(same_shape(self@.rows[i as int], other@.rows[i as int]));
            }
            rows.push(self.rows[i].add(&other.rows[i]));
            i += 1;
        }
        let r = Self { rows, l: self.l, bg_bit: self.bg_bit };
        assert(r@.rows =~= gadget_add(self@, other@).rows);
        r
    }

    /// Stores `lhs + rhs` in `self`.
    pub fn add_from(&mut self, lhs: &Self, rhs: &Self)
        requires
            gadget_same_shape(lhs@, rhs@),
        ensures
            final(self)@ == gadget_add(lhs@, rhs@),
    {
        *self = lhs.add(rhs);
    }

    /// Row-wise difference.
    pub fn sub(&self, other: &Self) -> (r: Self)
        requires
            gadget_same_shape(self@, other@),
        ensures
            r@ == gadget_sub(self@, other@),
            gadget_same_shape(r@, self@),
    {
        let mut rows: Vec<Trlwe> = Vec::new();
        let mut i: usize = 0;
        while i < self.rows.len()
            invariant
                i <= self.rows@.len(),
                gadget_same_shape(self@, other@),
                rows@.len() == i,
                forall|q: int| 0 <= q < i ==> (#[trigger] rows@[q])@ == gadget_sub(self@, other@).rows[q],
            decreases self.rows@.len() - i,
        {
            proof {
                assert(same_shape(self@.rows[i as int], other@.rows[i as int]));
            }
            rows.push(self.rows[i].sub(&other.rows[i]));
            i += 1;
        }
        let r = Self { rows, l: self.l, bg_bit: self.bg_bit };
        assert(r@.rows =~= gadget_sub(self@, other@).rows);
        r
    }

    /// Stores `lhs - rhs` in `self`.
    pub fn sub_from(&mut self, lhs: &Self, rhs: &Self)
        requires
            gadget_same_shape(lhs@, rhs@),
        ensures
            final(self)@ == gadget_sub(lhs@, rhs@),
    {
        *self = lhs.sub(rhs);
    }

    /// The gadget ciphertext times `X^a`.
    pub fn mul_by_xai(&self, a: u32) -> (r: Self)
        requires
            self.wf(),
            a < 2 * self.spec_n(),
        ensures
            r@ == gadget_rotate(self@, a as int),
            gadget_same_shape(r@, self@),
    {
        let mut rows: Vec<Trlwe> = Vec::new();
        let mut i: usize = 0;
        while i < self.rows.len()
            invariant
                i <= self.rows@.len(),
                self.wf(),
                a < 2 * self.spec_n(),
                rows@.len() == i,
                forall|q: int| 0 <= q < i ==> (#[trigger] rows@[q])@ == gadget_rotate(self@, a as int).rows[q],
                forall|q: int| 0 <= q < i ==> same_shape((#[trigger] rows@[q])@, self@.rows[q]),
            decreases self.rows@.len() - i,
        {
            proof {
                assert(trlwe_shape(self@.rows[i as int], self.spec_k(), self.spec_n()));
                assert(self.rows@[i as int]@ == self@.rows[i as int]);
            }
            rows.push(self.rows[i].mul_by_xai(a));
            i += 1;
        }
        let r = Self { rows, l: self.l, bg_bit: self.bg_bit };
        assert(r@.rows =~= gadget_rotate(self@, a as int).rows);
        r
    }

    /// Stores `source * X^a` in `self`.
    pub fn mul_by_xai_from(&mut self, source: &Self, a: u32)
        requires
            source.wf(),
            a < 2 * source.spec_n(),
        ensures
            final(self)@ == gadget_rotate(source@, a as int),
    {
        *self = source.mul_by_xai(a);
    }

    /// The gadget ciphertext times `X^a - 1`.
    pub fn mul_by_xai_pred(&self, a: u32) -> (r: Self)
        requires
            self.wf(),
            a < 2 * self.spec_n(),
        ensures
            r@ == gadget_rotate_pred(self@, a as int),
            gadget_same_shape(r@, self@),
    {
        let mut rows: Vec<Trlwe> = Vec::new();
        let mut i: usize = 0;
        while i < self.rows.len()
            invariant
                i <= self.rows@.len(),
                self.wf(),
                a < 2 * self.spec_n(),
                rows@.len() == i,
                forall|q: int| 0 <= q < i ==> (#[trigger] rows@[q])@ == gadget_rotate_pred(self@, a as int).rows[q],
                forall|q: int| 0 <= q < i ==> same_shape((#[trigger] rows@[q])@, self@.rows[q]),
            decreases self.rows@.len() - i,
        {
            proof {
                assert(trlwe_shape(self@.rows[i as int], self.spec_k(), self.spec_n()));
                assert(self.rows@[i as int]@ == self@.rows[i as int]);
            }
            rows.push(self.rows[i].mul_by_xai_pred(a));
            i += 1;
        }
        let r = Self { rows, l: self.l, bg_bit: self.bg_bit };
        assert(r@.rows =~= gadget_rotate_pred(self@, a as int).rows);
        r
    }

    /// Stores `source * (X^a - 1)` in `self`.
    pub fn mul_by_xai_pred_from(&mut self, source: &Self, a: u32)
        requires
            source.wf(),
            a < 2 * source.spec_n(),
        ensures
            final(self)@ == gadget_rotate_pred(source@, a as int),
    {
        *self = source.mul_by_xai_pred(a);
    }

    /// Adds `rhs` to `self`, row by row.
    pub fn add_assign(&mut self, rhs: &Self)
        requires
            gadget_same_shape(old(self)@, rhs@),
        ensures
            final(self)@ == gadget_add(old(self)@, rhs@),
    {
        let r = self.add(rhs);
        *self = r;
    }

    /// Adds `source * X^a` to `self`, row by row.
    pub fn mul_by_xai_add_assign(&mut self, source: &Self, a: u32)
        requires
            source.wf(),
            a < 2 * source.spec_n(),
            gadget_same_shape(old(self)@, source@),
        ensures
            final(self)@ == gadget_add(old(self)@, gadget_rotate(source@, a as int)),
    {
        let rotated = source.mul_by_xai(a);
        proof {
            assert forall|r: int| 0 <= r < self@.rows.len() implies same_shape(
                #[trigger] self@.rows[r],
                #[trigger] rotated@.rows[r],
            ) by {
                assert(same_shape(self@.rows[r], source@.rows[r]));
                assert(same_shape(rotated@.rows[r], source@.rows[r]));
            }
        }
        let r = self.add(&rotated);
        *self = r;
    }
}


/// The gadget ciphertext `g` seals, under the key `s`, a message and an exponent that `f`
/// may return for `i`.
pub open spec fn seals_output<F: Fn(usize) -> (Torus, u32)>(
    f: F,
    i: usize,
    g: GadgetView,
    s: Seq<Seq<int>>,
    l: nat,
    bg_bit: nat,
) -> bool {
    exists|o: (Torus, u32)| #[trigger]
        call_ensures(f, (i,), o) && seals(g, o.0@, o.1 as int, s, l, bg_bit)
}

/// The gadget ciphertext `g` is the trivial one of a message that `f` may return for `i`.
pub open spec fn trivial_output<F: Fn(usize) -> (Torus, u32)>(
    f: F,
    i: usize,
    g: GadgetView,
    l: nat,
    bg_bit: nat,
    k: nat,
    n: nat,
) -> bool {
    exists|o: (Torus, u32)| #[trigger]
        call_ensures(f, (i,), o) && g == gadget_trivial(o.0@, l, bg_bit, k, n)
}

/// A dense run of gadget ciphertexts of one shape.
pub struct TrgswArray {
    pub items: Vec<Trgsw>,
}

impl View for TrgswArray {
    type V = Seq<GadgetView>;

    open spec fn view(&self) -> Seq<GadgetView> {
        Seq::new(self.items@.len(), |i: int| self.items@[i]@)
    }
}

impl Clone for TrgswArray {
    fn clone(&self) -> (r: Self)
        ensures
            r@ == self@,
    {
        let mut items: Vec<Trgsw> = Vec::new();
        let mut i: usize = 0;
        while i < self.items.len()
            invariant
                i <= self.items@.len(),
                items@.len() == i,
                forall|j: int| 0 <= j < i ==> (#[trigger] items@[j])@ == self.items@[j]@,
            decreases self.items@.len() - i,
        {
            items.push(self.items[i].clone());
            i += 1;
        }
        let r = TrgswArray { items };
        assert(r@ =~= self@);
        r
    }
}

impl TrgswArray {
    /// Every ciphertext of the run is well formed, for `k` masks of `n` coefficients.
    pub open spec fn uniform(&self, k: nat, n: nat) -> bool {
        forall|i: int|
            0 <= i < self.items@.len() ==> (#[trigger] self.items@[i]).wf() && self.items@[i].spec_k()
                == k && self.items@[i].spec_n() == n
    }

    /// Seals, for each index `i` below `len`, the integer message and the exponent that
    /// `f(i)` gives, under `key`.
    pub fn from_fn<F: Fn(usize) -> (Torus, u32)>(len: usize, key: &TrgswKey, f: F) -> (r: Self)
        requires
            key.wf(),
            1 <= key.trlwe_key@[0].len(),
            (key.trlwe_key@.len() + 1) * key.l <= usize::MAX,
            forall|i: usize| i < len ==> call_requires(f, (i,)),
            forall|i: usize, o: (Torus, u32)|
                i < len && call_ensures(f, (i,), o) ==> o.0.0 <= i64::MAX && o.1 < 2
                    * key.trlwe_key@[0].len(),
        ensures
            r@.len() == len,
            r.uniform(key.trlwe_key@.len(), key.trlwe_key@[0].len()),
            forall|i: int|
                0 <= i < len ==> seals_output(
                    f,
                    i as usize,
                    #[trigger] r@[i],
                    key.trlwe_key@,
                    key.l as nat,
                    key.bg_bit as nat,
                ),
    {
        let mut items: Vec<Trgsw> = Vec::new();
        let mut i: usize = 0;
        while i < len
            invariant
                i <= len,
                key.wf(),
                1 <= key.trlwe_key@[0].len(),
                (key.trlwe_key@.len() + 1) * key.l <= usize::MAX,
                forall|j: usize| j < len ==> call_requires(f, (j,)),
                forall|j: usize, o: (Torus, u32)|
                    j < len && call_ensures(f, (j,), o) ==> o.0.0 <= i64::MAX && o.1 < 2
                        * key.trlwe_key@[0].len(),
                items@.len() == i,
                forall|j: int|
                    0 <= j < i ==> (#[trigger] items@[j]).wf() && items@[j].spec_k()
                        == key.trlwe_key@.len() && items@[j].spec_n() == key.trlwe_key@[0].len(),
                forall|j: int|
                    0 <= j < i ==> seals_output(
                        f,
                        j as usize,
                        (#[trigger] items@[j])@,
                        key.trlwe_key@,
                        key.l as nat,
                        key.bg_bit as nat,
                    ),
            decreases len - i,
        {
            let (m, e) = f(i);
            let t = Trgsw::new(m, e, key);
            items.push(t);
            i += 1;
        }
        let r = TrgswArray { items };
        assert forall|j: int| 0 <= j < len implies seals_output(
            f,
            j as usize,
            #[trigger] r@[j],
            key.trlwe_key@,
            key.l as nat,
            key.bg_bit as nat,
        ) by {
            assert(r@[j] == r.items@[j]@);
        }
        r
    }

    /// `len` fresh sealings of the integer message `m` times `X^e` under `key`.
    pub fn from_elem(len: usize, key: &TrgswKey, m: Torus, e: u32) -> (r: Self)
        requires
            key.wf(),
            1 <= key.trlwe_key@[0].len(),
            (key.trlwe_key@.len() + 1) * key.l <= usize::MAX,
            m.0 <= i64::MAX,
            e < 2 * key.trlwe_key@[0].len(),
        ensures
            r@.len() == len,
            r.uniform(key.trlwe_key@.len(), key.trlwe_key@[0].len()),
            forall|i: int|
                0 <= i < len ==> seals(
                    #[trigger] r@[i],
                    m@,
                    e as int,
                    key.trlwe_key@,
                    key.l as nat,
                    key.bg_bit as nat,
                ),
    {
        let mut items: Vec<Trgsw> = Vec::new();
        let mut i: usize = 0;
        while i < len
            invariant
                i <= len,
                key.wf(),
                1 <= key.trlwe_key@[0].len(),
                (key.trlwe_key@.len() + 1) * key.l <= usize::MAX,
                m.0 <= i64::MAX,
                e < 2 * key.trlwe_key@[0].len(),
                items@.len() == i,
                forall|j: int|
                    0 <= j < i ==> (#[trigger] items@[j]).wf() && items@[j].spec_k()
                        == key.trlwe_key@.len() && items@[j].spec_n() == key.trlwe_key@[0].len(),
                forall|j: int|
                    0 <= j < i ==> seals(
                        (#[trigger] items@[j])@,
                        m@,
                        e as int,
                        key.trlwe_key@,
                        key.l as nat,
                        key.bg_bit as nat,
                    ),
            decreases len - i,
        {
            let t = Trgsw::new(m, e, key);
            items.push(t);
            i += 1;
        }
        let r = TrgswArray { items };
        assert forall|j: int| 0 <= j < len implies seals(
            #[trigger] r@[j],
            m@,
            e as int,
            key.trlwe_key@,
            key.l as nat,
            key.bg_bit as nat,
        ) by {
            assert(r@[j] == r.items@[j]@);
        }
        r
    }

    /// The trivial gadget ciphertexts of the integer messages that `f(i)` gives, for each
    /// index `i` below `len`. The exponent that `f` gives has to be zero.
    pub fn from_fn_noiseless<F: Fn(usize) -> (Torus, u32)>(
        len: usize,
        l: u32,
        bg_bit: u32,
        k: u32,
        upper_n: u32,
        f: F,
    ) -> (r: Self)
        requires
            gadget_params_ok(l as nat, bg_bit as nat),
            k < u32::MAX,
            1 <= upper_n,
            (k + 1) * l <= usize::MAX,
            forall|i: usize| i < len ==> call_requires(f, (i,)),
            forall|i: usize, o: (Torus, u32)| i < len && call_ensures(f, (i,), o) ==> o.1 == 0,
        ensures
            r@.len() == len,
            r.uniform(k as nat, upper_n as nat),
            forall|i: int|
                0 <= i < len ==> trivial_output(
                    f,
                    i as usize,
                    #[trigger] r@[i],
                    l as nat,
                    bg_bit as nat,
                    k as nat,
                    upper_n as nat,
                ),
    {
        let mut items: Vec<Trgsw> = Vec::new();
        let mut i: usize = 0;
        while i < len
            invariant
                i <= len,
                gadget_params_ok(l as nat, bg_bit as nat),
                k < u32::MAX,
                1 <= upper_n,
                (k + 1) * l <= usize::MAX,
                forall|j: usize| j < len ==> call_requires(f, (j,)),
                forall|j: usize, o: (Torus, u32)| j < len && call_ensures(f, (j,), o) ==> o.1 == 0,
                items@.len() == i,
                forall|j: int|
                    0 <= j < i ==> (#[trigger] items@[j]).wf() && items@[j].spec_k() == k
                        && items@[j].spec_n() == upper_n,
                forall|j: int|
                    0 <= j < i ==> trivial_output(
                        f,
                        j as usize,
                        (#[trigger] items@[j])@,
                        l as nat,
                        bg_bit as nat,
                        k as nat,
                        upper_n as nat,
                    ),
            decreases len - i,
        {
            let (m, e) = f(i);
            let t = Trgsw::new_noiseless(m, l, bg_bit, k, upper_n);
            items.push(t);
            i += 1;
        }
        let r = TrgswArray { items };
        assert forall|j: int| 0 <= j < len implies trivial_output(
            f,
            j as usize,
            #[trigger] r@[j],
            l as nat,
            bg_bit as nat,
            k as nat,
            upper_n as nat,
        ) by {
            assert(r@[j] == r.items@[j]@);
        }
        r
    }

    /// `len` trivial gadget ciphertexts of the integer message `m`. The exponent `e` has
    /// to be zero.
    pub fn from_elem_noiseless(
        len: usize,
        l: u32,
        bg_bit: u32,
        k: u32,
        upper_n: u32,
        m: Torus,
        e: u32,
    ) -> (r: Self)
        requires
            gadget_params_ok(l as nat, bg_bit as nat),
            k < u32::MAX,
            1 <= upper_n,
            (k + 1) * l <= usize::MAX,
            e == 0,
        ensures
            r@.len() == len,
            r.uniform(k as nat, upper_n as nat),
            forall|i: int|
                0 <= i < len ==> #[trigger] r@[i] == gadget_trivial(
                    m@,
                    l as nat,
                    bg_bit as nat,
                    k as nat,
                    upper_n as nat,
                ),
    {
        let mut items: Vec<Trgsw> = Vec::new();
        let mut i: usize = 0;
        while i < len
            invariant
                i <= len,
                gadget_params_ok(l as nat, bg_bit as nat),
                k < u32::MAX,
                1 <= upper_n,
                (k + 1) * l <= usize::MAX,
                items@.len() == i,
                forall|j: int|
                    0 <= j < i ==> (#[trigger] items@[j]).wf() && items@[j].spec_k() == k
                        && items@[j].spec_n() == upper_n,
                forall|j: int|
                    0 <= j < i ==> (#[trigger] items@[j])@ == gadget_trivial(
                        m@,
                        l as nat,
                        bg_bit as nat,
                        k as nat,
                        upper_n as nat,
                    ),
            decreases len - i,
        {
            items.push(Trgsw::new_noiseless(m, l, bg_bit, k, upper_n));
            i += 1;
        }
        let r = TrgswArray { items };
        assert forall|j: int| 0 <= j < len implies #[trigger] r@[j] == gadget_trivial(
            m@,
            l as nat,
            bg_bit as nat,
            k as nat,
            upper_n as nat,
        ) by {
            assert(r@[j] == r.items@[j]@);
        }
        r
    }

    /// Number of ciphertexts.
    pub fn len(&self) -> (n: usize)
        ensures
            n == self@.len(),
    {
        self.items.len()
    }

    /// Whether the run holds no ciphertext.
    pub fn is_empty(&self) -> (b: bool)
        ensures
            b == (self@.len() == 0),
    {
        self.items.len() == 0
    }

    /// Digit count of the decomposition, read off the first ciphertext.
    pub fn l(&self) -> (r: u32)
        requires
            self@.len() > 0,
        ensures
            r == self@[0].l,
    {
        self.items[0].l()
    }

    /// Digit width of the decomposition, read off the first ciphertext.
    pub fn bg_bit(&self) -> (r: u32)
        requires
            self@.len() > 0,
        ensures
            r == self@[0].bg_bit,
    {
        self.items[0].bg_bit()
    }

    /// Number of mask polynomials, read off the first ciphertext.
    pub fn k(&self) -> (r: u32)
        requires
            self@.len() > 0,
            self.items@[0].wf(),
        ensures
            r == self.items@[0].spec_k(),
    {
        self.items[0].k()
    }

    /// Number of coefficients per polynomial, read off the first ciphertext.
    pub fn upper_n(&self) -> (r: u32)
        requires
            self@.len() > 0,
            self.items@[0].wf(),
        ensures
            r == self.items@[0].spec_n(),
    {
        self.items[0].upper_n()
    }

    /// The ciphertexts, in order.
    pub fn as_slice(&self) -> (s: &[Trgsw])
        ensures
            s@ == self.items@,
    {
        self.items.as_slice()
    }

    /// An iterator over the ciphertexts, in order.
    pub fn iter(&self) -> (it: core::slice::Iter<'_, Trgsw>)
        ensures
            exists|s: &[Trgsw]| s@ == self.items@ && it == vstd::std_specs::slice::spec_slice_iter(s),
    {
        self.items.as_slice().iter()
    }

    /// The ciphertext at `index`.
    pub fn get(&self, index: usize) -> (t: &Trgsw)
        requires
            index < self@.len(),
        ensures
            *t == self.items@[index as int],
    {
        &self.items[index]
    }
}

} // verus!
