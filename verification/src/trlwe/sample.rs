use vstd::prelude::*;
use crate::entropy::random_word;
use crate::poly::torus::TorusPolynomial;
use crate::poly::torus::poly_add;
use crate::poly::torus::poly_sub;
use crate::poly::torus::poly_neg;
use crate::poly::torus::poly_mul;
use crate::poly::torus::poly_const;
use crate::poly::torus::poly_rotate;
use crate::poly::torus::poly_rotate_pred;
use crate::trgsw::dft::bank_wf;
use crate::trlwe::key::TrlweKey;
use crate::torus::Torus;

verus! {

/// The views of a run of polynomials.
pub open spec fn rows(v: Seq<TorusPolynomial>) -> Seq<Seq<int>> {
    Seq::new(v.len(), |c: int| v[c]@)
}

/// `x` holds `k` mask polynomials and a body, each of `n` coefficients.
pub open spec fn trlwe_shape(x: Seq<Seq<int>>, k: nat, n: nat) -> bool {
    &&& x.len() == k + 1
    &&& forall|c: int| 0 <= c <= k ==> (#[trigger] x[c]).len() == n
}

/// Two ciphertexts have the same number of polynomials, of the same lengths.
pub open spec fn same_shape(x: Seq<Seq<int>>, y: Seq<Seq<int>>) -> bool {
    &&& x.len() == y.len()
    &&& forall|c: int| 0 <= c < x.len() ==> (#[trigger] x[c]).len() == (#[trigger] y[c]).len()
}

/// Polynomial-wise sum.
pub open spec fn trlwe_add(x: Seq<Seq<int>>, y: Seq<Seq<int>>) -> Seq<Seq<int>> {
    Seq::new(x.len(), |c: int| poly_add(x[c], y[c]))
}

/// Polynomial-wise difference.
pub open spec fn trlwe_sub(x: Seq<Seq<int>>, y: Seq<Seq<int>>) -> Seq<Seq<int>> {
    Seq::new(x.len(), |c: int| poly_sub(x[c], y[c]))
}

/// Polynomial-wise negation.
pub open spec fn trlwe_neg(x: Seq<Seq<int>>) -> Seq<Seq<int>> {
    Seq::new(x.len(), |c: int| poly_neg(x[c]))
}

/// Every polynomial multiplied by `X^a`.
pub open spec fn trlwe_rotate(x: Seq<Seq<int>>, a: int) -> Seq<Seq<int>> {
    Seq::new(x.len(), |c: int| poly_rotate(x[c], a))
}

/// Every polynomial multiplied by `X^a - 1`.
pub open spec fn trlwe_rotate_pred(x: Seq<Seq<int>>, a: int) -> Seq<Seq<int>> {
    Seq::new(x.len(), |c: int| poly_rotate_pred(x[c], a))
}

/// Every polynomial of `row` multiplied by the polynomial `d` modulo `X^N + 1`.
pub open spec fn scaled_row(d: Seq<int>, row: Seq<Seq<int>>) -> Seq<Seq<int>> {
    Seq::new(row.len(), |c: int| poly_mul(d, row[c]))
}

/// The ciphertext of `k` zero masks and body `m`: it decrypts to `m` under every key.
pub open spec fn trlwe_trivial(k: nat, m: Seq<int>) -> Seq<Seq<int>> {
    Seq::new(k + 1, |c: int| if c < k { poly_const(m.len(), 0) } else { m })
}

/// Sum of the products of the first `upto` mask polynomials with their key polynomials.
pub open spec fn mask_sum(x: Seq<Seq<int>>, s: Seq<Seq<int>>, n: nat, upto: nat) -> Seq<int>
    decreases upto,
{
    if upto == 0 {
        poly_const(n, 0)
    } else {
        poly_add(
            mask_sum(x, s, n, (upto - 1) as nat),
            poly_mul(s[upto - 1], x[upto - 1]),
        )
    }
}

/// The phase of a ciphertext under the key `s`: body minus the masks times the key.
/// It is the message polynomial plus whatever noise was sealed with it.
pub open spec fn trlwe_phase(x: Seq<Seq<int>>, s: Seq<Seq<int>>) -> Seq<int> {
    poly_sub(x.last(), mask_sum(x, s, x.last().len(), s.len()))
}

/// The ciphertext with the given masks whose phase under `s` is `m`.
pub open spec fn trlwe_sealed(m: Seq<int>, s: Seq<Seq<int>>, masks: Seq<Seq<int>>) -> Seq<
    Seq<int>,
> {
    masks.push(poly_add(m, mask_sum(masks, s, m.len(), s.len())))
}

/// A polynomial ciphertext: `k` mask polynomials followed by the body polynomial.
pub struct Trlwe {
    pub polys: Vec<TorusPolynomial>,
}

impl View for Trlwe {
    type V = Seq<Seq<int>>;

    open spec fn view(&self) -> Seq<Seq<int>> {
        rows(self.polys@)
    }
}

impl Clone for Trlwe {
    fn clone(&self) -> (r: Self)
        ensures
            r@ == self@,
    {
        let mut polys: Vec<TorusPolynomial> = Vec::new();
        let mut c: usize = 0;
        while c < self.polys.len()
            invariant
                c <= self.polys@.len(),
                polys@.len() == c,
                forall|j: int| 0 <= j < c ==> (#[trigger] polys@[j])@ == self.polys@[j]@,
            decreases self.polys@.len() - c,
        {
            polys.push(self.polys[c].clone());
            c += 1;
        }
        let r = Trlwe { polys };
        assert(r@ =~= self@);
        r
    }
}

impl Trlwe {
    /// At least a body, every polynomial of one length, and sizes that fit the counters.
    pub open spec fn wf(&self) -> bool {
        &&& 1 <= self@.len() <= u32::MAX
        &&& self@[0].len() <= u32::MAX
        &&& trlwe_shape(self@, (self@.len() - 1) as nat, self@[0].len())
    }

    /// Number of mask polynomials, as a specification value.
    pub open spec fn spec_k(&self) -> nat {
        (self@.len() - 1) as nat
    }

    /// Number of coefficients per polynomial, as a specification value.
    pub open spec fn spec_n(&self) -> nat {
        self@[0].len()
    }

    /// Builds a ciphertext from its polynomials, masks first and body last.
    pub fn from_polys(polys: Vec<TorusPolynomial>) -> (r: Self)
        ensures
            r@ == rows(polys@),
    {
        Trlwe { polys }
    }

    /// Number of mask polynomials.
    pub fn k(&self) -> (k: u32)
        requires
            self.wf(),
        ensures
            k == self.spec_k(),
    {
        (self.polys.len() - 1) as u32
    }

    /// Number of coefficients per polynomial.
    pub fn upper_n(&self) -> (n: u32)
        requires
            self.wf(),
        ensures
            n == self.spec_n(),
    {
        self.polys[0].upper_n()
    }

    /// The trivial ciphertext of `m`: zero masks, body `m`.
    pub fn new_noiseless(m: TorusPolynomial, k: u32, upper_n: u32) -> (r: Self)
        requires
            m@.len() == upper_n,
            k < u32::MAX,
        ensures
            r@ == trlwe_trivial(k as nat, m@),
            r.wf(),
            r.spec_k() == k,
            r.spec_n() == upper_n,
    {
        let mut polys: Vec<TorusPolynomial> = Vec::new();
        let mut c: u32 = 0;
        while c < k
            invariant
                c <= k,
                polys@.len() == c,
                forall|j: int| 0 <= j < c ==> (#[trigger] polys@[j])@ == poly_const(upper_n as nat, 0),
            decreases k - c,
        {
            polys.push(TorusPolynomial::zeroed(upper_n));
            c += 1;
        }
        polys.push(m);
        let r = Trlwe { polys };
        assert(r@ =~= trlwe_trivial(k as nat, m@));
        r
    }

    /// Overwrites `self` with the trivial ciphertext of `m`, keeping the shape.
    pub fn set_noiseless(&mut self, m: TorusPolynomial)
        requires
            old(self).wf(),
            m@.len() == old(self).spec_n(),
        ensures
            final(self)@ == trlwe_trivial(old(self).spec_k(), m@),
            final(self).wf(),
    {
        let k = self.k();
        let n = self.upper_n();
        *self = Self::new_noiseless(m, k, n);
    }

    /// The trivial ciphertext of the zero polynomial.
    pub fn zeroed_noiseless(k: u32, upper_n: u32) -> (r: Self)
        requires
            k < u32::MAX,
        ensures
            r@ == trlwe_trivial(k as nat, poly_const(upper_n as nat, 0)),
            r.wf(),
            r.spec_k() == k,
            r.spec_n() == upper_n,
    {
        let m = TorusPolynomial::zeroed(upper_n);
        Self::new_noiseless(m, k, upper_n)
    }

    /// Seals `m` under `key` with the given mask polynomials; no noise is added, so the
    /// phase under `key` is `m` itself. A caller that wants noise adds it to `m` first.
    pub fn with_masks(m: TorusPolynomial, key: &TrlweKey, masks: Vec<TorusPolynomial>) -> (r:
        Self)
        requires
            key.wf(),
            m@.len() == key@[0].len(),
            masks@.len() == key@.len(),
            forall|i: int| 0 <= i < masks@.len() ==> (#[trigger] masks@[i])@.len() == m@.len(),
        ensures
            r@ == trlwe_sealed(m@, key@, rows(masks@)),
            r.wf(),
            r.spec_k() == key@.len(),
            r.spec_n() == m@.len(),
    {
        let n: u32 = key.upper_n();
        let mut body: TorusPolynomial = m;
        let ghost m0 = body@;
        let mut i: usize = 0;
        proof {
            assert(poly_add(m0, poly_const(n as nat, 0)) =~= m0) by {
                assert forall|j: int| 0 <= j < m0.len() implies crate::torus::wrap_add(m0[j], 0)
                    == m0[j] by {
                    crate::modular::lemma_in_range_mod(m0[j]);
                }
            }
        }
        while i < masks.len()
            invariant
                i <= masks@.len(),
                key.wf(),
                n == m0.len(),
                m0.len() == key@[0].len(),
                masks@.len() == key@.len(),
                forall|j: int| 0 <= j < masks@.len() ==> (#[trigger] masks@[j])@.len() == m0.len(),
                body@.len() == m0.len(),
                body@ == poly_add(m0, mask_sum(rows(masks@), key@, n as nat, i as nat)),
            decreases masks@.len() - i,
        {
            let ghost before = mask_sum(rows(masks@), key@, n as nat, i as nat);
            proof {
                assert(key@[i as int].len() == n);
                assert(key.s@[i as int]@ == key@[i as int]);
                assert(masks@[i as int]@.len() == n);
                lemma_mask_sum_len(rows(masks@), key@, n as nat, i as nat);
            }
            let prod = key.s[i].naive_mul(&masks[i]);
            proof {
                lemma_poly_add_assoc(m0, before, prod@);
            }
            body.add_assign(&prod);
            i += 1;
        }
        let mut polys = masks;
        let ghost mk = rows(polys@);
        polys.push(body);
        let r = Trlwe { polys };
        assert(r@ =~= trlwe_sealed(m0, key@, mk));
        r
    }

    /// Seals `m` under `key` with freshly drawn masks. Whatever masks were drawn, the phase
    /// of the result under `key` is `m`.
    pub fn new(m: TorusPolynomial, key: &TrlweKey) -> (r: Self)
        requires
            key.wf(),
            m@.len() == key@[0].len(),
        ensures
            r.wf(),
            r.spec_k() == key@.len(),
            r.spec_n() == m@.len(),
            r@ == trlwe_sealed(m@, key@, r@.drop_last()),
            trlwe_phase(r@, key@) == m@,
    {
        let n: u32 = key.upper_n();
        let k: u32 = key.k();
        let mut masks: Vec<TorusPolynomial> = Vec::new();
        let mut i: u32 = 0;
        while i < k
            invariant
                i <= k,
                masks@.len() == i,
                forall|j: int| 0 <= j < i ==> (#[trigger] masks@[j])@.len() == n,
            decreases k - i,
        {
            let mut coeffs: Vec<Torus> = Vec::new();
            let mut t: u32 = 0;
            while t < n
                invariant
                    t <= n,
                    coeffs@.len() == t,
                decreases n - t,
            {
                coeffs.push(Torus(random_word()));
                t += 1;
            }
            masks.push(TorusPolynomial::from_vec(coeffs));
            i += 1;
        }
        let ghost mk = rows(masks@);
        let ghost m0 = m@;
        let r = Self::with_masks(m, key, masks);
        proof {
            assert(r@.drop_last() =~= mk);
            lemma_sealed_phase(m0, key@, mk);
        }
        r
    }

    /// Overwrites `self` with a fresh sealing of `m` under `key`.
    pub fn set(&mut self, m: TorusPolynomial, key: &TrlweKey)
        requires
            key.wf(),
            m@.len() == key@[0].len(),
        ensures
            final(self).wf(),
            final(self).spec_k() == key@.len(),
            final(self).spec_n() == m@.len(),
            trlwe_phase(final(self)@, key@) == m@,
    {
        *self = Self::new(m, key);
    }

    /// A fresh sealing of the zero polynomial under `key`.
    pub fn zeroed(key: &TrlweKey) -> (r: Self)
        requires
            key.wf(),
        ensures
            r.wf(),
            r.spec_k() == key@.len(),
            r.spec_n() == key@[0].len(),
            trlwe_phase(r@, key@) == poly_const(key@[0].len(), 0),
    {
        let upper_n = key.upper_n();
        let m = TorusPolynomial::zeroed(upper_n);
        Self::new(m, key)
    }
}

impl Trlwe {
    /// Polynomial-wise sum.
    pub fn add(&self, other: &Self) -> (r: Self)
        requires
            same_shape(self@, other@),
        ensures
            r@ == trlwe_add(self@, other@),
            same_shape(r@, self@),
    {
        let mut polys: Vec<TorusPolynomial> = Vec::new();
        let mut c: usize = 0;
        while c < self.polys.len()
            invariant
                c <= self.polys@.len(),
                same_shape(self@, other@),
                polys@.len() == c,
                forall|j: int| 0 <= j < c ==> (#[trigger] polys@[j])@ == poly_add(self@[j], other@[j]),
            decreases self.polys@.len() - c,
        {
            assert(self@[c as int].len() == other@[c as int].len());
            polys.push(self.polys[c].add(&other.polys[c]));
            c += 1;
        }
        let r = Trlwe { polys };
        assert(r@ =~= trlwe_add(self@, other@));
        r
    }

    /// Stores `lhs + rhs` in `self`.
    pub fn add_from(&mut self, lhs: &Self, rhs: &Self)
        requires
            same_shape(lhs@, rhs@),
        ensures
            final(self)@ == trlwe_add(lhs@, rhs@),
    {
        *self = lhs.add(rhs);
    }

    /// Adds `rhs` to `self`.
    pub fn add_assign(&mut self, rhs: &Self)
        requires
            same_shape(old(self)@, rhs@),
        ensures
            final(self)@ == trlwe_add(old(self)@, rhs@),
            same_shape(final(self)@, old(self)@),
    {
        let r = self.add(rhs);
        *self = r;
    }

    /// Polynomial-wise difference.
    pub fn sub(&self, other: &Self) -> (r: Self)
        requires
            same_shape(self@, other@),
        ensures
            r@ == trlwe_sub(self@, other@),
            same_shape(r@, self@),
    {
        let mut polys: Vec<TorusPolynomial> = Vec::new();
        let mut c: usize = 0;
        while c < self.polys.len()
            invariant
                c <= self.polys@.len(),
                same_shape(self@, other@),
                polys@.len() == c,
                forall|j: int| 0 <= j < c ==> (#[trigger] polys@[j])@ == poly_sub(self@[j], other@[j]),
            decreases self.polys@.len() - c,
        {
            assert(self@[c as int].len() == other@[c as int].len());
            polys.push(self.polys[c].sub(&other.polys[c]));
            c += 1;
        }
        let r = Trlwe { polys };
        assert(r@ =~= trlwe_sub(self@, other@));
        r
    }

    /// Stores `lhs - rhs` in `self`.
    pub fn sub_from(&mut self, lhs: &Self, rhs: &Self)
        requires
            same_shape(lhs@, rhs@),
        ensures
            final(self)@ == trlwe_sub(lhs@, rhs@),
    {
        *self = lhs.sub(rhs);
    }

    /// Subtracts `rhs` from `self`.
    pub fn sub_assign(&mut self, rhs: &Self)
        requires
            same_shape(old(self)@, rhs@),
        ensures
            final(self)@ == trlwe_sub(old(self)@, rhs@),
            same_shape(final(self)@, old(self)@),
    {
        let r = self.sub(rhs);
        *self = r;
    }

    /// Polynomial-wise negation.
    pub fn neg(&self) -> (r: Self)
        requires
            self.wf(),
        ensures
            r@ == trlwe_neg(self@),
            same_shape(r@, self@),
            r.wf(),
    {
        let mut polys: Vec<TorusPolynomial> = Vec::new();
        let mut c: usize = 0;
        while c < self.polys.len()
            invariant
                c <= self.polys@.len(),
                self.wf(),
                polys@.len() == c,
                forall|j: int| 0 <= j < c ==> (#[trigger] polys@[j])@ == poly_neg(self@[j]),
            decreases self.polys@.len() - c,
        {
            assert(self@[c as int].len() == self.spec_n());
            polys.push(self.polys[c].neg());
            c += 1;
        }
        let r = Trlwe { polys };
        assert(r@ =~= trlwe_neg(self@));
        r
    }

    /// Stores `-source` in `self`.
    pub fn neg_from(&mut self, source: &Self)
        requires
            source.wf(),
        ensures
            final(self)@ == trlwe_neg(source@),
            final(self).wf(),
    {
        *self = source.neg();
    }

    /// The ciphertext times `X^a`: its phase is the phase of `self` rotated by `a`.
    pub fn mul_by_xai(&self, a: u32) -> (r: Self)
        requires
            self.wf(),
            a < 2 * self.spec_n(),
        ensures
            r@ == trlwe_rotate(self@, a as int),
            same_shape(r@, self@),
            r.wf(),
    {
        let mut polys: Vec<TorusPolynomial> = Vec::new();
        let mut c: usize = 0;
        while c < self.polys.len()
            invariant
                c <= self.polys@.len(),
                self.wf(),
            a < 2 * self.spec_n(),
                polys@.len() == c,
                forall|j: int| 0 <= j < c ==> (#[trigger] polys@[j])@ == poly_rotate(self@[j], a as int),
            decreases self.polys@.len() - c,
        {
            assert(self@[c as int].len() == self.spec_n());
            polys.push(self.polys[c].mul_by_xai(a));
            c += 1;
        }
        let r = Trlwe { polys };
        assert(r@ =~= trlwe_rotate(self@, a as int));
        r
    }

    /// Stores `source * X^a` in `self`.
    pub fn mul_by_xai_from(&mut self, source: &Self, a: u32)
        requires
            source.wf(),
            a < 2 * source.spec_n(),
        ensures
            final(self)@ == trlwe_rotate(source@, a as int),
            final(self).wf(),
    {
        *self = source.mul_by_xai(a);
    }

    /// The ciphertext times `X^a - 1`.
    pub fn mul_by_xai_pred(&self, a: u32) -> (r: Self)
        requires
            self.wf(),
            a < 2 * self.spec_n(),
        ensures
            r@ == trlwe_rotate_pred(self@, a as int),
            same_shape(r@, self@),
            r.wf(),
    {
        let mut polys: Vec<TorusPolynomial> = Vec::new();
        let mut c: usize = 0;
        while c < self.polys.len()
            invariant
                c <= self.polys@.len(),
                self.wf(),
            a < 2 * self.spec_n(),
                polys@.len() == c,
                forall|j: int| 0 <= j < c ==> (#[trigger] polys@[j])@ == poly_rotate_pred(self@[j], a as int),
            decreases self.polys@.len() - c,
        {
            assert(self@[c as int].len() == self.spec_n());
            polys.push(self.polys[c].mul_by_xai_pred(a));
            c += 1;
        }
        let r = Trlwe { polys };
        assert(r@ =~= trlwe_rotate_pred(self@, a as int));
        r
    }

    /// Stores `source * (X^a - 1)` in `self`.
    pub fn mul_by_xai_pred_from(&mut self, source: &Self, a: u32)
        requires
            source.wf(),
            a < 2 * source.spec_n(),
        ensures
            final(self)@ == trlwe_rotate_pred(source@, a as int),
            final(self).wf(),
    {
        *self = source.mul_by_xai_pred(a);
    }

    /// Adds `source * X^a` to `self`.
    pub fn mul_by_xai_add_assign(&mut self, source: &Self, a: u32)
        requires
            source.wf(),
            same_shape(old(self)@, source@),
            a < 2 * source.spec_n(),
        ensures
            final(self)@ == trlwe_add(old(self)@, trlwe_rotate(source@, a as int)),
    {
        let rotated = source.mul_by_xai(a);
        let r = self.add(&rotated);
        *self = r;
    }

    /// The ciphertext times the plain polynomial `d`.
    pub fn scaled(&self, d: &TorusPolynomial) -> (r: Self)
        requires
            self.wf(),
            d@.len() == self.spec_n(),
        ensures
            r@ == scaled_row(d@, self@),
            same_shape(r@, self@),
            r.wf(),
    {
        let mut polys: Vec<TorusPolynomial> = Vec::new();
        let mut c: usize = 0;
        while c < self.polys.len()
            invariant
                c <= self.polys@.len(),
                self.wf(),
                d@.len() == self.spec_n(),
                polys@.len() == c,
                forall|j: int| 0 <= j < c ==> (#[trigger] polys@[j])@ == poly_mul(d@, self@[j]),
            decreases self.polys@.len() - c,
        {
            assert(self@[c as int].len() == self.spec_n());
            polys.push(d.naive_mul(&self.polys[c]));
            c += 1;
        }
        let r = Trlwe { polys };
        assert(r@ =~= scaled_row(d@, self@));
        r
    }

    /// Leaves the product-ready form: the ciphertext that `sample` holds.
    pub fn from_dft(sample: &crate::trlwe::dft::TrlweDft) -> (r: Self)
        ensures
            r@ == sample@,
    {
        let inner = sample.inner.clone();
        inner
    }

    /// Overwrites `self` with the ciphertext that `sample` holds.
    pub fn set_from_dft(&mut self, sample: &crate::trlwe::dft::TrlweDft)
        ensures
            final(self)@ == sample@,
    {
        *self = Self::from_dft(sample);
    }

    /// The phase under `key`: the sealed message polynomial plus the sealed noise.
    pub fn phase(&self, key: &TrlweKey) -> (r: TorusPolynomial)
        requires
            self.wf(),
            key.wf(),
            self.spec_k() == key@.len(),
            self.spec_n() == key@[0].len(),
        ensures
            r@ == trlwe_phase(self@, key@),
    {
        let n: u32 = self.upper_n();
        let k: usize = key.s.len();
        let mut sum: TorusPolynomial = TorusPolynomial::zeroed(n);
        let mut i: usize = 0;
        while i < k
            invariant
                i <= k,
                k == key@.len(),
                self.wf(),
                key.wf(),
                self.spec_k() == key@.len(),
                self.spec_n() == key@[0].len(),
                n == self.spec_n(),
                sum@ == mask_sum(self@, key@, n as nat, i as nat),
            decreases k - i,
        {
            proof {
                assert(key@[i as int].len() == n);
                assert(key.s@[i as int]@ == key@[i as int]);
                assert(self@[i as int].len() == n);
                lemma_mask_sum_len(self@, key@, n as nat, i as nat);
            }
            let prod = key.s[i].naive_mul(&self.polys[i]);
            sum.add_assign(&prod);
            i += 1;
        }
        proof {
            lemma_mask_sum_len(self@, key@, n as nat, k as nat);
            assert(self@.last() == self.polys@[k as int]@);
            assert(self@[k as int].len() == n);
        }
        self.polys[k].sub(&sum)
    }
}

/// Two ciphertexts of one known shape have the same shape.
pub proof fn lemma_shapes_agree(x: Seq<Seq<int>>, y: Seq<Seq<int>>, k: nat, n: nat)
    requires
        trlwe_shape(x, k, n),
        trlwe_shape(y, k, n),
    ensures
        same_shape(x, y),
{
}

/// A ciphertext shaped like one of a known shape has that shape.
pub proof fn lemma_shape_carries(x: Seq<Seq<int>>, y: Seq<Seq<int>>, k: nat, n: nat)
    requires
        same_shape(x, y),
        trlwe_shape(y, k, n),
    ensures
        trlwe_shape(x, k, n),
{
    assert forall|c: int| 0 <= c <= k implies (#[trigger] x[c]).len() == n by {
        assert(x[c].len() == y[c].len());
    }
}

/// Adding the zero polynomial changes nothing, and sums may be regrouped.
pub proof fn lemma_poly_add_assoc(a: Seq<int>, b: Seq<int>, c: Seq<int>)
    requires
        a.len() == b.len(),
        b.len() == c.len(),
    ensures
        poly_add(poly_add(a, b), c) == poly_add(a, poly_add(b, c)),
{
    assert forall|j: int| 0 <= j < a.len() implies crate::torus::wrap_add(
        crate::torus::wrap_add(a[j], b[j]),
        c[j],
    ) == crate::torus::wrap_add(a[j], crate::torus::wrap_add(b[j], c[j])) by {
        vstd::arithmetic::div_mod::lemma_add_mod_noop(a[j] + b[j], c[j], crate::torus::modulus());
        vstd::arithmetic::div_mod::lemma_add_mod_noop(a[j], b[j] + c[j], crate::torus::modulus());
        vstd::arithmetic::div_mod::lemma_mod_twice(a[j] + b[j], crate::torus::modulus());
        vstd::arithmetic::div_mod::lemma_mod_twice(b[j] + c[j], crate::torus::modulus());
        crate::modular::lemma_mod_add_left(a[j] + b[j], c[j]);
        crate::modular::lemma_mod_add_right(a[j], b[j] + c[j]);
    }
    assert(poly_add(poly_add(a, b), c) =~= poly_add(a, poly_add(b, c)));
}

/// The mask sum reads only the first `upto` polynomials.
pub proof fn lemma_mask_sum_prefix(
    x: Seq<Seq<int>>,
    y: Seq<Seq<int>>,
    s: Seq<Seq<int>>,
    n: nat,
    upto: nat,
)
    requires
        upto <= x.len(),
        upto <= y.len(),
        forall|i: int| 0 <= i < upto ==> x[i] == y[i],
    ensures
        mask_sum(x, s, n, upto) == mask_sum(y, s, n, upto),
    decreases upto,
{
    if upto > 0 {
        lemma_mask_sum_prefix(x, y, s, n, (upto - 1) as nat);
    }
}

/// The mask sum has `n` coefficients, each a numerator in range.
pub proof fn lemma_mask_sum_len(x: Seq<Seq<int>>, s: Seq<Seq<int>>, n: nat, upto: nat)
    ensures
        mask_sum(x, s, n, upto).len() == n,
    decreases upto,
{
    if upto > 0 {
        lemma_mask_sum_len(x, s, n, (upto - 1) as nat);
    }
}

/// The mask sum of a sum or a difference of ciphertexts is the sum or the difference of
/// the mask sums.
pub proof fn lemma_mask_sum_linear(
    x: Seq<Seq<int>>,
    y: Seq<Seq<int>>,
    s: Seq<Seq<int>>,
    n: nat,
    upto: nat,
)
    requires
        upto <= s.len(),
        upto <= x.len(),
        upto <= y.len(),
        forall|i: int| 0 <= i < upto ==> (#[trigger] x[i]).len() == n,
        forall|i: int| 0 <= i < upto ==> (#[trigger] y[i]).len() == n,
        forall|i: int| 0 <= i < upto ==> (#[trigger] s[i]).len() == n,
    ensures
        mask_sum(trlwe_add(x, y), s, n, upto) == poly_add(
            mask_sum(x, s, n, upto),
            mask_sum(y, s, n, upto),
        ),
        mask_sum(trlwe_sub(x, y), s, n, upto) == poly_sub(
            mask_sum(x, s, n, upto),
            mask_sum(y, s, n, upto),
        ),
    decreases upto,
{
    let z = poly_const(n, 0);
    if upto == 0 {
        assert(poly_add(z, z) =~= z) by {
            vstd::arithmetic::div_mod::lemma_small_mod(0nat, crate::torus::modulus() as nat);
        }
        assert(poly_sub(z, z) =~= z) by {
            vstd::arithmetic::div_mod::lemma_small_mod(0nat, crate::torus::modulus() as nat);
        }
    } else {
        let t = (upto - 1) as nat;
        lemma_mask_sum_linear(x, y, s, n, t);
        lemma_mask_sum_len(x, s, n, t);
        lemma_mask_sum_len(y, s, n, t);
        assert(x[t as int].len() == n && y[t as int].len() == n && s[t as int].len() == n);
        crate::poly::torus::lemma_mul_linear(s[t as int], x[t as int], y[t as int]);
        crate::poly::torus::lemma_regroup(
            mask_sum(x, s, n, t),
            mask_sum(y, s, n, t),
            poly_mul(s[t as int], x[t as int]),
            poly_mul(s[t as int], y[t as int]),
        );
        assert(trlwe_add(x, y)[t as int] == poly_add(x[t as int], y[t as int]));
        assert(trlwe_sub(x, y)[t as int] == poly_sub(x[t as int], y[t as int]));
    }
}

/// Homomorphic addition: the sum and the difference of two ciphertexts of one shape
/// decrypt to the sum and the difference of what they decrypt to.
pub proof fn lemma_phase_linear(x: Seq<Seq<int>>, y: Seq<Seq<int>>, s: Seq<Seq<int>>, n: nat)
    requires
        trlwe_shape(x, s.len(), n),
        trlwe_shape(y, s.len(), n),
        forall|i: int| 0 <= i < s.len() ==> (#[trigger] s[i]).len() == n,
    ensures
        trlwe_phase(trlwe_add(x, y), s) == poly_add(trlwe_phase(x, s), trlwe_phase(y, s)),
        trlwe_phase(trlwe_sub(x, y), s) == poly_sub(trlwe_phase(x, s), trlwe_phase(y, s)),
{
    let k = s.len();
    lemma_mask_sum_linear(x, y, s, n, k);
    lemma_mask_sum_len(x, s, n, k);
    lemma_mask_sum_len(y, s, n, k);
    assert(x.last() == x[k as int] && y.last() == y[k as int]);
    assert(trlwe_add(x, y).last() == poly_add(x[k as int], y[k as int]));
    assert(trlwe_sub(x, y).last() == poly_sub(x[k as int], y[k as int]));
    crate::poly::torus::lemma_regroup(
        x[k as int],
        y[k as int],
        mask_sum(x, s, n, k),
        mask_sum(y, s, n, k),
    );
    crate::poly::torus::lemma_regroup(
        x[k as int],
        mask_sum(x, s, n, k),
        y[k as int],
        mask_sum(y, s, n, k),
    );
}

/// The mask sum of a rotated ciphertext is the rotated mask sum.
pub proof fn lemma_mask_sum_rotated(
    x: Seq<Seq<int>>,
    s: Seq<Seq<int>>,
    n: nat,
    e: int,
    upto: nat,
)
    requires
        upto <= s.len(),
        upto <= x.len(),
        0 <= e < 2 * n,
        forall|i: int| 0 <= i < upto ==> (#[trigger] x[i]).len() == n,
        forall|i: int| 0 <= i < upto ==> (#[trigger] s[i]).len() == n,
    ensures
        mask_sum(trlwe_rotate(x, e), s, n, upto) == poly_rotate(mask_sum(x, s, n, upto), e),
    decreases upto,
{
    if upto == 0 {
        crate::poly::torus::lemma_rotate_linear(poly_const(n, 0), poly_const(n, 0), e);
    } else {
        let t = (upto - 1) as nat;
        lemma_mask_sum_rotated(x, s, n, e, t);
        lemma_mask_sum_len(x, s, n, t);
        assert(x[t as int].len() == n && s[t as int].len() == n);
        crate::poly::torus::lemma_mul_rotate(s[t as int], x[t as int], e);
        crate::poly::torus::lemma_rotate_linear(
            mask_sum(x, s, n, t),
            poly_mul(s[t as int], x[t as int]),
            e,
        );
        assert(trlwe_rotate(x, e)[t as int] == poly_rotate(x[t as int], e));
    }
}

/// Homomorphic rotation: a ciphertext times `X^e` decrypts to what it decrypts to, times
/// `X^e`.
pub proof fn lemma_phase_rotated(x: Seq<Seq<int>>, s: Seq<Seq<int>>, n: nat, e: int)
    requires
        trlwe_shape(x, s.len(), n),
        forall|i: int| 0 <= i < s.len() ==> (#[trigger] s[i]).len() == n,
        0 <= e < 2 * n,
    ensures
        trlwe_phase(trlwe_rotate(x, e), s) == poly_rotate(trlwe_phase(x, s), e),
{
    let k = s.len();
    lemma_mask_sum_rotated(x, s, n, e, k);
    lemma_mask_sum_len(x, s, n, k);
    assert(x.last() == x[k as int]);
    assert(trlwe_rotate(x, e).last() == poly_rotate(x[k as int], e));
    crate::poly::torus::lemma_rotate_linear(x[k as int], mask_sum(x, s, n, k), e);
}

/// The mask sum of a ciphertext times a plain polynomial is the mask sum times that
/// polynomial.
pub proof fn lemma_mask_sum_scaled(
    d: Seq<int>,
    y: Seq<Seq<int>>,
    s: Seq<Seq<int>>,
    n: nat,
    upto: nat,
)
    requires
        upto <= s.len(),
        upto <= y.len(),
        d.len() == n,
        forall|i: int| 0 <= i < upto ==> (#[trigger] y[i]).len() == n,
        forall|i: int| 0 <= i < upto ==> (#[trigger] s[i]).len() == n,
    ensures
        mask_sum(scaled_row(d, y), s, n, upto) == poly_mul(d, mask_sum(y, s, n, upto)),
    decreases upto,
{
    if upto == 0 {
        crate::poly::torus::lemma_mul_zero(d, n);
    } else {
        let t = (upto - 1) as nat;
        lemma_mask_sum_scaled(d, y, s, n, t);
        lemma_mask_sum_len(y, s, n, t);
        assert(y[t as int].len() == n && s[t as int].len() == n);
        assert(scaled_row(d, y)[t as int] == poly_mul(d, y[t as int]));
        crate::poly::torus::lemma_mul_commutes(s[t as int], d, y[t as int]);
        crate::poly::torus::lemma_mul_linear(
            d,
            mask_sum(y, s, n, t),
            poly_mul(s[t as int], y[t as int]),
        );
    }
}

/// A ciphertext times a plain polynomial decrypts to what it decrypts to, times that
/// polynomial.
pub proof fn lemma_phase_scaled(d: Seq<int>, y: Seq<Seq<int>>, s: Seq<Seq<int>>, n: nat)
    requires
        trlwe_shape(y, s.len(), n),
        d.len() == n,
        forall|i: int| 0 <= i < s.len() ==> (#[trigger] s[i]).len() == n,
    ensures
        trlwe_phase(scaled_row(d, y), s) == poly_mul(d, trlwe_phase(y, s)),
{
    let k = s.len();
    lemma_mask_sum_scaled(d, y, s, n, k);
    lemma_mask_sum_len(y, s, n, k);
    assert(y.last() == y[k as int]);
    assert(scaled_row(d, y).last() == poly_mul(d, y[k as int]));
    assert(y[k as int].len() == n);
    crate::poly::torus::lemma_mul_linear(d, y[k as int], mask_sum(y, s, n, k));
}

/// The mask sum of a ciphertext whose masks are zero is zero.
pub proof fn lemma_mask_sum_of_zero_masks(x: Seq<Seq<int>>, s: Seq<Seq<int>>, n: nat, upto: nat)
    requires
        upto <= s.len(),
        upto <= x.len(),
        forall|i: int| 0 <= i < upto ==> #[trigger] x[i] == poly_const(n, 0),
        forall|i: int| 0 <= i < upto ==> (#[trigger] s[i]).len() == n,
    ensures
        mask_sum(x, s, n, upto) == poly_const(n, 0),
    decreases upto,
{
    let z = poly_const(n, 0);
    if upto > 0 {
        let t = (upto - 1) as nat;
        lemma_mask_sum_of_zero_masks(x, s, n, t);
        assert(x[t as int] == z && s[t as int].len() == n);
        crate::poly::torus::lemma_mul_zero(s[t as int], n);
        assert(poly_add(z, z) =~= z) by {
            vstd::arithmetic::div_mod::lemma_small_mod(0nat, crate::torus::modulus() as nat);
        }
    }
}

/// A trivial ciphertext decrypts to its message under every key.
pub proof fn lemma_trivial_phase(k: nat, m: Seq<int>, s: Seq<Seq<int>>)
    requires
        s.len() == k,
        crate::poly::torus::poly_in_range(m),
        forall|i: int| 0 <= i < s.len() ==> (#[trigger] s[i]).len() == m.len(),
    ensures
        trlwe_phase(trlwe_trivial(k, m), s) == m,
{
    let x = trlwe_trivial(k, m);
    lemma_mask_sum_of_zero_masks(x, s, m.len(), k);
    assert(x.last() == m);
    assert(poly_sub(m, poly_const(m.len(), 0)) =~= m) by {
        assert forall|i: int| 0 <= i < m.len() implies crate::torus::wrap_sub(#[trigger] m[i], 0)
            == m[i] by {
            crate::modular::lemma_in_range_mod(m[i]);
        }
    }
}

/// A ciphertext sealed without noise decrypts to its message, whatever the masks.
pub proof fn lemma_sealed_phase(m: Seq<int>, s: Seq<Seq<int>>, masks: Seq<Seq<int>>)
    requires
        masks.len() == s.len(),
        crate::poly::torus::poly_in_range(m),
    ensures
        trlwe_phase(trlwe_sealed(m, s, masks), s) == m,
{
    let x = trlwe_sealed(m, s, masks);
    let n = m.len();
    lemma_mask_sum_prefix(x, masks, s, n, s.len());
    lemma_mask_sum_len(masks, s, n, s.len());
    let ms = mask_sum(masks, s, n, s.len());
    assert(x.last() == poly_add(m, ms));
    assert forall|j: int| 0 <= j < n implies crate::torus::wrap_sub(
        crate::torus::wrap_add(m[j], ms[j]),
        ms[j],
    ) == m[j] by {
        crate::modular::lemma_add_sub_cancel(m[j], ms[j]);
    }
    assert(poly_sub(poly_add(m, ms), ms) =~= m);
}

/// The ciphertext `ct` decrypts under `s` to a polynomial that `f` may return for `i`.
pub open spec fn seals_output<F: Fn(usize) -> TorusPolynomial>(
    f: F,
    i: usize,
    ct: Seq<Seq<int>>,
    s: Seq<Seq<int>>,
) -> bool {
    exists|m: TorusPolynomial| #[trigger] call_ensures(f, (i,), m) && trlwe_phase(ct, s) == m@
}

/// The ciphertext `ct` is the trivial ciphertext of a polynomial that `f` may return for
/// `i`.
pub open spec fn trivial_output<F: Fn(usize) -> TorusPolynomial>(
    f: F,
    i: usize,
    ct: Seq<Seq<int>>,
    k: nat,
) -> bool {
    exists|m: TorusPolynomial| #[trigger] call_ensures(f, (i,), m) && ct == trlwe_trivial(k, m@)
}

/// A dense run of polynomial ciphertexts of one shape: a table of encrypted slots.
pub struct TrlweArray {
    pub items: Vec<Trlwe>,
}

impl View for TrlweArray {
    type V = Seq<Seq<Seq<int>>>;

    open spec fn view(&self) -> Seq<Seq<Seq<int>>> {
        Seq::new(self.items@.len(), |i: int| self.items@[i]@)
    }
}

impl Clone for TrlweArray {
    fn clone(&self) -> (r: Self)
        ensures
            r@ == self@,
            forall|k: nat, n: nat| bank_wf(self.items@, k, n) ==> bank_wf(r.items@, k, n),
    {
        let mut items: Vec<Trlwe> = Vec::new();
        let mut i: usize = 0;
        while i < self.items.len()
            invariant
                i <= self.items@.len(),
                items@.len() == i,
                forall|j: int| 0 <= j < i ==> (#[trigger] items@[j])@ == self.items@[j]@,
            decreases self.items@.len() - i,
        {
            items.push(self.items[i].clone());
            i += 1;
        }
        let r = TrlweArray { items };
        assert(r@ =~= self@);
        assert forall|k: nat, n: nat| bank_wf(self.items@, k, n) implies bank_wf(r.items@, k, n) by {
            assert forall|j: int| 0 <= j < r.items@.len() implies (#[trigger] r.items@[j]).wf()
                && r.items@[j].spec_k() == k && r.items@[j].spec_n() == n by {
                assert(self.items@[j].wf());
                assert(r.items@[j]@ == self.items@[j]@);
            }
        }
        r
    }
}

impl TrlweArray {
    /// Seals, for each index `i` below `len`, the polynomial `f(i)` under `key`.
    pub fn from_fn<F: Fn(usize) -> TorusPolynomial>(len: usize, key: &TrlweKey, f: F) -> (r: Self)
        requires
            key.wf(),
            forall|i: usize| i < len ==> call_requires(f, (i,)),
            forall|i: usize, m: TorusPolynomial|
                i < len && call_ensures(f, (i,), m) ==> m@.len() == key@[0].len(),
        ensures
            r@.len() == len,
            bank_wf(r.items@, key@.len(), key@[0].len()),
            forall|i: int| 0 <= i < len ==> seals_output(f, i as usize, #[trigger] r@[i], key@),
    {
        let mut items: Vec<Trlwe> = Vec::new();
        let mut i: usize = 0;
        while i < len
            invariant
                i <= len,
                key.wf(),
                forall|j: usize| j < len ==> call_requires(f, (j,)),
                forall|j: usize, m: TorusPolynomial|
                    j < len && call_ensures(f, (j,), m) ==> m@.len() == key@[0].len(),
                items@.len() == i,
                bank_wf(items@, key@.len(), key@[0].len()),
                forall|j: int|
                    0 <= j < i ==> seals_output(f, j as usize, (#[trigger] items@[j])@, key@),
            decreases len - i,
        {
            let m = f(i);
            let t = Trlwe::new(m, key);
            items.push(t);
            i += 1;
        }
        let r = TrlweArray { items };
        assert forall|j: int| 0 <= j < len implies seals_output(
            f,
            j as usize,
            #[trigger] r@[j],
            key@,
        ) by {
            assert(r@[j] == r.items@[j]@);
        }
        r
    }

    /// The trivial ciphertexts of the polynomials `f(i)`, for each index `i` below `len`.
    pub fn from_fn_noiseless<F: Fn(usize) -> TorusPolynomial>(
        len: usize,
        k: u32,
        upper_n: u32,
        f: F,
    ) -> (r: Self)
        requires
            k < u32::MAX,
            forall|i: usize| i < len ==> call_requires(f, (i,)),
            forall|i: usize, m: TorusPolynomial|
                i < len && call_ensures(f, (i,), m) ==> m@.len() == upper_n,
        ensures
            r@.len() == len,
            bank_wf(r.items@, k as nat, upper_n as nat),
            forall|i: int| 0 <= i < len ==> trivial_output(f, i as usize, #[trigger] r@[i], k as nat),
    {
        let mut items: Vec<Trlwe> = Vec::new();
        let mut i: usize = 0;
        while i < len
            invariant
                i <= len,
                k < u32::MAX,
                forall|j: usize| j < len ==> call_requires(f, (j,)),
                forall|j: usize, m: TorusPolynomial|
                    j < len && call_ensures(f, (j,), m) ==> m@.len() == upper_n,
                items@.len() == i,
                bank_wf(items@, k as nat, upper_n as nat),
                forall|j: int|
                    0 <= j < i ==> trivial_output(f, j as usize, (#[trigger] items@[j])@, k as nat),
            decreases len - i,
        {
            let m = f(i);
            let t = Trlwe::new_noiseless(m, k, upper_n);
            items.push(t);
            i += 1;
        }
        let r = TrlweArray { items };
        assert forall|j: int| 0 <= j < len implies trivial_output(
            f,
            j as usize,
            #[trigger] r@[j],
            k as nat,
        ) by {
            assert(r@[j] == r.items@[j]@);
        }
        r
    }

    /// `len` fresh sealings of `elem` under `key`.
    pub fn from_elem(len: usize, key: &TrlweKey, elem: TorusPolynomial) -> (r: Self)
        requires
            key.wf(),
            elem@.len() == key@[0].len(),
        ensures
            r@.len() == len,
            bank_wf(r.items@, key@.len(), key@[0].len()),
            forall|i: int| 0 <= i < len ==> trlwe_phase(#[trigger] r@[i], key@) == elem@,
    {
        let mut items: Vec<Trlwe> = Vec::new();
        let mut i: usize = 0;
        while i < len
            invariant
                i <= len,
                key.wf(),
                elem@.len() == key@[0].len(),
                items@.len() == i,
                bank_wf(items@, key@.len(), key@[0].len()),
                forall|j: int| 0 <= j < i ==> trlwe_phase((#[trigger] items@[j])@, key@) == elem@,
            decreases len - i,
        {
            items.push(Trlwe::new(elem.clone(), key));
            i += 1;
        }
        let r = TrlweArray { items };
        assert forall|j: int| 0 <= j < len implies trlwe_phase(#[trigger] r@[j], key@)
            == elem@ by {
            assert(r@[j] == r.items@[j]@);
        }
        r
    }

    /// `len` trivial ciphertexts of `elem`.
    pub fn from_elem_noiseless(len: usize, k: u32, upper_n: u32, elem: TorusPolynomial) -> (r:
        Self)
        requires
            k < u32::MAX,
            elem@.len() == upper_n,
        ensures
            r@.len() == len,
            bank_wf(r.items@, k as nat, upper_n as nat),
            forall|i: int| 0 <= i < len ==> #[trigger] r@[i] == trlwe_trivial(k as nat, elem@),
    {
        let mut items: Vec<Trlwe> = Vec::new();
        let mut i: usize = 0;
        while i < len
            invariant
                i <= len,
                k < u32::MAX,
                elem@.len() == upper_n,
                items@.len() == i,
                bank_wf(items@, k as nat, upper_n as nat),
                forall|j: int| 0 <= j < i ==> (#[trigger] items@[j])@ == trlwe_trivial(k as nat, elem@),
            decreases len - i,
        {
            items.push(Trlwe::new_noiseless(elem.clone(), k, upper_n));
            i += 1;
        }
        let r = TrlweArray { items };
        assert forall|j: int| 0 <= j < len implies #[trigger] r@[j] == trlwe_trivial(
            k as nat,
            elem@,
        ) by {
            assert(r@[j] == r.items@[j]@);
        }
        r
    }

    /// `len` fresh sealings of the zero polynomial under `key`.
    pub fn zeroed(len: usize, key: &TrlweKey) -> (r: Self)
        requires
            key.wf(),
        ensures
            r@.len() == len,
            bank_wf(r.items@, key@.len(), key@[0].len()),
            forall|i: int|
                0 <= i < len ==> trlwe_phase(#[trigger] r@[i], key@) == poly_const(
                    key@[0].len(),
                    0,
                ),
    {
        let upper_n = key.upper_n();
        let elem = TorusPolynomial::zeroed(upper_n);
        Self::from_elem(len, key, elem)
    }

    /// `len` trivial ciphertexts of the zero polynomial: an empty table.
    pub fn zeroed_noiseless(len: usize, k: u32, upper_n: u32) -> (r: Self)
        requires
            k < u32::MAX,
        ensures
            r@.len() == len,
            bank_wf(r.items@, k as nat, upper_n as nat),
            forall|i: int|
                0 <= i < len ==> #[trigger] r@[i] == trlwe_trivial(
                    k as nat,
                    poly_const(upper_n as nat, 0),
                ),
    {
        let elem = TorusPolynomial::zeroed(upper_n);
        Self::from_elem_noiseless(len, k, upper_n, elem)
    }

    /// Number of ciphertexts.
    pub fn len(&self) -> (n: usize)
        ensures
            n == self@.len(),
    {
        self.items.len()
    }

    /// Whether the run holds no ciphertext.
    pub fn is_empty(&self) -> (b: bool)
        ensures
            b == (self@.len() == 0),
    {
        self.items.len() == 0
    }

    /// Number of mask polynomials, read off the first ciphertext.
    pub fn k(&self) -> (k: u32)
        requires
            self@.len() > 0,
            self.items@[0].wf(),
        ensures
            k == self.items@[0].spec_k(),
    {
        self.items[0].k()
    }

    /// Number of coefficients per polynomial, read off the first ciphertext.
    pub fn upper_n(&self) -> (n: u32)
        requires
            self@.len() > 0,
            self.items@[0].wf(),
        ensures
            n == self.items@[0].spec_n(),
    {
        self.items[0].upper_n()
    }

    /// The ciphertexts, in order.
    pub fn as_slice(&self) -> (s: &[Trlwe])
        ensures
            s@ == self.items@,
    {
        self.items.as_slice()
    }

    /// An iterator over the ciphertexts, in order.
    pub fn iter(&self) -> (it: core::slice::Iter<'_, Trlwe>)
        ensures
            exists|s: &[Trlwe]| s@ == self.items@ && it == vstd::std_specs::slice::spec_slice_iter(s),
    {
        self.items.as_slice().iter()
    }

    /// The ciphertext at `index`.
    pub fn get(&self, index: usize) -> (t: &Trlwe)
        requires
            index < self@.len(),
        ensures
            *t == self.items@[index as int],
    {
        &self.items[index]
    }

    /// Overwrites the ciphertext at `index`.
    pub fn set(&mut self, index: usize, value: Trlwe)
        requires
            index < old(self)@.len(),
        ensures
            final(self).items@ == old(self).items@.update(index as int, value),
    {
        self.items[index] = value;
    }
}

} // verus!
