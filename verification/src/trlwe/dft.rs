use vstd::prelude::*;
use crate::poly::torus::TorusPolynomial;
use crate::poly::torus::poly_const;
use crate::gadget::gadget_digits;
use crate::trgsw::dft::TrgswDft;
use crate::trgsw::sample::GadgetView;
use crate::trgsw::sample::gadget_shape;
use crate::trlwe::sample::Trlwe;
use crate::trlwe::sample::same_shape;
use crate::trlwe::sample::scaled_row;
use crate::trlwe::sample::trlwe_add;
use crate::trlwe::sample::trlwe_sub;
use crate::trlwe::sample::trlwe_shape;
use crate::trlwe::sample::trlwe_trivial;

verus! {

/// The sum of the first `upto` terms of the product of the gadget ciphertext `g` with the
/// polynomial ciphertext `d`: term `r` is row `r` of `g` times digit `r % l` of
/// polynomial `r / l` of `d`.
pub open spec fn product_sum(g: GadgetView, d: Seq<Seq<int>>, upto: nat) -> Seq<Seq<int>>
    decreases upto,
{
    if upto == 0 {
        trlwe_trivial((d.len() - 1) as nat, poly_const(d[0].len(), 0))
    } else {
        let r = upto - 1;
        trlwe_add(
            product_sum(g, d, r as nat),
            scaled_row(
                gadget_digits(d[r / (g.l as int)], g.bg_bit, g.l, (r % (g.l as int)) as nat),
                g.rows[r],
            ),
        )
    }
}

/// The product of a gadget ciphertext with a polynomial ciphertext. Where `g` seals the
/// integer `c`, the phase of the product is `c` times the phase of `d`, up to the noise
/// of `g` and the bits of `d` below its last digit.
pub open spec fn product(g: GadgetView, d: Seq<Seq<int>>) -> Seq<Seq<int>> {
    product_sum(g, d, g.rows.len())
}

/// Every partial product has the shape of the ciphertext that is multiplied.
pub proof fn lemma_product_sum_shape(g: GadgetView, d: Seq<Seq<int>>, k: nat, n: nat, upto: nat)
    requires
        trlwe_shape(d, k, n),
        gadget_shape(g, k, n),
        upto <= g.rows.len(),
    ensures
        trlwe_shape(product_sum(g, d, upto), k, n),
    decreases upto,
{
    if upto > 0 {
        lemma_product_sum_shape(g, d, k, n, (upto - 1) as nat);
        assert(trlwe_shape(g.rows[upto - 1], k, n));
    }
}

/// The sum, over the first `upto` rows of `g`, of what each row decrypts to under `s`,
/// times the digits that the product multiplies the row by.
pub open spec fn phase_sum(g: GadgetView, d: Seq<Seq<int>>, s: Seq<Seq<int>>, upto: nat) -> Seq<int>
    decreases upto,
{
    if upto == 0 {
        poly_const(d[0].len(), 0)
    } else {
        let r = upto - 1;
        crate::poly::torus::poly_add(
            phase_sum(g, d, s, r as nat),
            crate::poly::torus::poly_mul(
                gadget_digits(d[r / (g.l as int)], g.bg_bit, g.l, (r % (g.l as int)) as nat),
                crate::trlwe::sample::trlwe_phase(g.rows[r], s),
            ),
        )
    }
}

/// What a product decrypts to is the sum of what the rows decrypt to, each times its
/// digits.
pub proof fn lemma_product_phase_sum(
    g: GadgetView,
    d: Seq<Seq<int>>,
    s: Seq<Seq<int>>,
    n: nat,
    upto: nat,
)
    requires
        trlwe_shape(d, s.len(), n),
        gadget_shape(g, s.len(), n),
        forall|i: int| 0 <= i < s.len() ==> (#[trigger] s[i]).len() == n,
        upto <= g.rows.len(),
    ensures
        crate::trlwe::sample::trlwe_phase(product_sum(g, d, upto), s) == phase_sum(g, d, s, upto),
    decreases upto,
{
    let k = s.len();
    assert(d[0].len() == n);
    if upto == 0 {
        crate::trlwe::sample::lemma_trivial_phase(k, poly_const(n, 0), s);
    } else {
        let r = (upto - 1) as int;
        lemma_product_phase_sum(g, d, s, n, r as nat);
        lemma_product_sum_shape(g, d, k, n, r as nat);
        let i = r / (g.l as int);
        assert(0 <= i <= k) by (nonlinear_arith)
            requires
                0 <= r < (k + 1) * g.l,
                i == r / (g.l as int),
                g.l >= 1,
        ;
        let digits = gadget_digits(d[i], g.bg_bit, g.l, (r % (g.l as int)) as nat);
        let row = g.rows[r];
        assert(trlwe_shape(row, k, n));
        assert(d[i].len() == n);
        let term = scaled_row(digits, row);
        assert(trlwe_shape(term, k, n));
        crate::trlwe::sample::lemma_phase_linear(product_sum(g, d, r as nat), term, s, n);
        crate::trlwe::sample::lemma_phase_scaled(digits, row, s, n);
    }
}

/// A polynomial ciphertext in the form that a gadget product hands out. This exact
/// engine keeps the coefficients as they are.
pub struct TrlweDft {
    pub inner: Trlwe,
}

impl View for TrlweDft {
    type V = Seq<Seq<int>>;

    open spec fn view(&self) -> Seq<Seq<int>> {
        self.inner@
    }
}

impl Clone for TrlweDft {
    fn clone(&self) -> (r: Self)
        ensures
            r@ == self@,
    {
        TrlweDft { inner: self.inner.clone() }
    }
}

impl TrlweDft {
    /// The ciphertext inside is well formed.
    pub open spec fn wf(&self) -> bool {
        self.inner.wf()
    }

    /// Enters the product-ready form.
    pub fn from_trlwe(sample: &Trlwe) -> (r: Self)
        ensures
            r@ == sample@,
    {
        TrlweDft { inner: sample.clone() }
    }

    /// The trivial ciphertext of `m`.
    pub fn new_noiseless(m: TorusPolynomial, k: u32, upper_n: u32) -> (r: Self)
        requires
            m@.len() == upper_n,
            k < u32::MAX,
        ensures
            r@ == trlwe_trivial(k as nat, m@),
            r.wf(),
    {
        TrlweDft { inner: Trlwe::new_noiseless(m, k, upper_n) }
    }

    /// Overwrites `self` with the trivial ciphertext of `m`, keeping the shape.
    pub fn set_noiseless(&mut self, m: TorusPolynomial)
        requires
            old(self).wf(),
            m@.len() == old(self).inner.spec_n(),
        ensures
            final(self)@ == trlwe_trivial(old(self).inner.spec_k(), m@),
            final(self).wf(),
    {
        self.inner.set_noiseless(m);
    }

    /// The trivial ciphertext of the zero polynomial.
    pub fn zeroed_noiseless(k: u32, upper_n: u32) -> (r: Self)
        requires
            k < u32::MAX,
        ensures
            r@ == trlwe_trivial(k as nat, poly_const(upper_n as nat, 0)),
            r.wf(),
    {
        TrlweDft { inner: Trlwe::zeroed_noiseless(k, upper_n) }
    }

    /// A fresh sealing of the zero polynomial under `key`.
    pub fn zeroed(key: &crate::trlwe::key::TrlweKey) -> (r: Self)
        requires
            key.wf(),
        ensures
            r.wf(),
            r.inner.spec_k() == key@.len(),
            r.inner.spec_n() == key@[0].len(),
            crate::trlwe::sample::trlwe_phase(r@, key@) == poly_const(key@[0].len(), 0),
    {
        TrlweDft { inner: Trlwe::zeroed(key) }
    }

    /// Number of mask polynomials.
    pub fn k(&self) -> (k: u32)
        requires
            self.wf(),
        ensures
            k == self.inner.spec_k(),
    {
        self.inner.k()
    }

    /// Number of coefficients per polynomial.
    pub fn upper_n(&self) -> (n: u32)
        requires
            self.wf(),
        ensures
            n == self.inner.spec_n(),
    {
        self.inner.upper_n()
    }

    /// Polynomial-wise sum.
    pub fn add(&self, other: &Self) -> (r: Self)
        requires
            same_shape(self@, other@),
        ensures
            r@ == trlwe_add(self@, other@),
    {
        TrlweDft { inner: self.inner.add(&other.inner) }
    }

    /// Stores `lhs + rhs` in `self`.
    pub fn add_from(&mut self, lhs: &Self, rhs: &Self)
        requires
            same_shape(lhs@, rhs@),
        ensures
            final(self)@ == trlwe_add(lhs@, rhs@),
    {
        *self = lhs.add(rhs);
    }

    /// Adds `rhs` to `self`.
    pub fn add_assign(&mut self, rhs: &Self)
        requires
            same_shape(old(self)@, rhs@),
        ensures
            final(self)@ == trlwe_add(old(self)@, rhs@),
    {
        self.inner.add_assign(&rhs.inner);
    }

    /// Polynomial-wise difference.
    pub fn sub(&self, other: &Self) -> (r: Self)
        requires
            same_shape(self@, other@),
        ensures
            r@ == trlwe_sub(self@, other@),
    {
        TrlweDft { inner: self.inner.sub(&other.inner) }
    }

    /// Stores `lhs - rhs` in `self`.
    pub fn sub_from(&mut self, lhs: &Self, rhs: &Self)
        requires
            same_shape(lhs@, rhs@),
        ensures
            final(self)@ == trlwe_sub(lhs@, rhs@),
    {
        *self = lhs.sub(rhs);
    }

    /// The product of the gadget ciphertext `rhs` with the polynomial ciphertext `lhs`.
    pub fn mul_trlwe_dft(lhs: &Trlwe, rhs: &TrgswDft) -> (r: Self)
        requires
            lhs.wf(),
            rhs.wf(),
            lhs.spec_k() == rhs.spec_k(),
            lhs.spec_n() == rhs.spec_n(),
        ensures
            r@ == product(rhs@, lhs@),
            same_shape(r@, lhs@),
            r.wf(),
    {
        let k: u32 = lhs.k();
        let n: u32 = lhs.upper_n();
        let l: usize = rhs.l as usize;
        let mut acc: Trlwe = Trlwe::zeroed_noiseless(k, n);
        let mut r: usize = 0;
        while r < rhs.rows.len()
            invariant
                r <= rhs.rows@.len(),
                lhs.wf(),
                rhs.wf(),
                lhs.spec_k() == rhs.spec_k(),
                lhs.spec_n() == rhs.spec_n(),
                k == lhs.spec_k(),
                n == lhs.spec_n(),
                l == rhs@.l,
                acc@ == product_sum(rhs@, lhs@, r as nat),
                trlwe_shape(acc@, k as nat, n as nat),
            decreases rhs.rows@.len() - r,
        {
            let i: usize = r / l;
            let j: u32 = (r % l) as u32;
            proof {
                assert(i <= k) by (nonlinear_arith)
                    requires
                        r < (k + 1) * l,
                        i == r / l,
                        l >= 1,
                ;
                assert(trlwe_shape(rhs@.rows[r as int], k as nat, n as nat));
                assert(rhs.rows@[r as int]@ == rhs@.rows[r as int]);
                assert(lhs@[i as int].len() == n);
            }
            let digits = lhs.polys[i].decompose_index(rhs.bg_bit, rhs.l, j);
            let term = rhs.rows[r].scaled(&digits);
            proof {
                assert(same_shape(acc@, term@));
            }
            acc.add_assign(&term);
            r += 1;
        }
        TrlweDft { inner: acc }
    }

    /// Stores the product of `rhs` with `lhs` in `self`.
    pub fn mul_trlwe_dft_from(&mut self, lhs: &Trlwe, rhs: &TrgswDft)
        requires
            lhs.wf(),
            rhs.wf(),
            lhs.spec_k() == rhs.spec_k(),
            lhs.spec_n() == rhs.spec_n(),
        ensures
            final(self)@ == product(rhs@, lhs@),
            final(self).wf(),
    {
        *self = Self::mul_trlwe_dft(lhs, rhs);
    }
}

} // verus!
