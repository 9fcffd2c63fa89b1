use vstd::prelude::*;
use crate::entropy::random_word;
use crate::modular::dot;
use crate::modular::lemma_dot_step;
use crate::modular::lemma_sub_product_mod;
use crate::modular::lemma_add_product_mod;
use crate::modular::lemma_in_range_mod;
use crate::modular::lemma_add_sub_cancel;
use crate::poly::torus::poly_add;
use crate::poly::torus::poly_sub;
use crate::poly::torus::poly_neg;
use crate::poly::torus::poly_const;
use crate::tlwe::key::TlweKey;
use crate::torus::Torus;
use crate::torus::modulus;
use crate::torus::wrap_add;
use crate::torus::wrap_sub;
use crate::torus::wrap_neg;

verus! {

/// What a scalar ciphertext holds: the mask and the body, as numerators.
pub struct TlweView {
    pub mask: Seq<int>,
    pub body: int,
}

/// The ciphertext of mask zero and body `m`: it decrypts to `m` under every key.
pub open spec fn tlwe_trivial(n: nat, m: int) -> TlweView {
    TlweView { mask: poly_const(n, 0), body: m }
}

/// The ciphertext with the given mask whose phase under `s` is `m`.
pub open spec fn tlwe_sealed(m: int, s: Seq<int>, mask: Seq<int>) -> TlweView {
    TlweView { mask, body: (m + dot(mask, s)) % modulus() }
}

/// Entry-wise sum of two ciphertexts.
pub open spec fn tlwe_add(x: TlweView, y: TlweView) -> TlweView {
    TlweView { mask: poly_add(x.mask, y.mask), body: wrap_add(x.body, y.body) }
}

/// Entry-wise difference of two ciphertexts.
pub open spec fn tlwe_sub(x: TlweView, y: TlweView) -> TlweView {
    TlweView { mask: poly_sub(x.mask, y.mask), body: wrap_sub(x.body, y.body) }
}

/// Entry-wise negation of a ciphertext.
pub open spec fn tlwe_neg(x: TlweView) -> TlweView {
    TlweView { mask: poly_neg(x.mask), body: wrap_neg(x.body) }
}

/// The phase of a ciphertext under the secret `s`: body minus the inner product of mask
/// and secret, modulo `2^64`. It is the message plus whatever noise was sealed with it.
pub open spec fn tlwe_phase(x: TlweView, s: Seq<int>) -> int {
    (x.body - dot(x.mask, s)) % modulus()
}

/// Entry `j` of the part of an extracted mask that comes from the mask polynomial `a`,
/// for the coefficient `index`: the coefficient of `a` that meets key coefficient `j` in
/// coefficient `index` of the product modulo `X^N + 1`, with its sign.
pub open spec fn extracted_entry(a: Seq<int>, index: int, j: int) -> int {
    if j <= index {
        a[index - j]
    } else {
        wrap_neg(a[a.len() + index - j])
    }
}

/// The scalar ciphertext of coefficient `index` of a polynomial ciphertext `x` of `k`
/// masks: under the key made of the coefficients of the polynomial key, one polynomial
/// after the other, it decrypts to coefficient `index` of what `x` decrypts to.
pub open spec fn tlwe_extracted(x: Seq<Seq<int>>, index: int) -> TlweView {
    let k = (x.len() - 1) as nat;
    let n = x[0].len();
    TlweView {
        mask: Seq::new(
            k * n,
            |t: int| extracted_entry(x[t / (n as int)], index, t % (n as int)),
        ),
        body: x[k as int][index],
    }
}

/// A scalar ciphertext: a mask of `n` torus values and a body.
pub struct Tlwe {
    pub a: Vec<Torus>,
    pub b: Torus,
}

impl View for Tlwe {
    type V = TlweView;

    open spec fn view(&self) -> TlweView {
        TlweView { mask: Seq::new(self.a@.len(), |i: int| self.a@[i]@), body: self.b@ }
    }
}

impl Clone for Tlwe {
    fn clone(&self) -> (r: Self)
        ensures
            r@ == self@,
    {
        let mut a: Vec<Torus> = Vec::new();
        let mut i: usize = 0;
        while i < self.a.len()
            invariant
                i <= self.a@.len(),
                a@.len() == i,
                forall|j: int| 0 <= j < i ==> a@[j] == self.a@[j],
            decreases self.a@.len() - i,
        {
            a.push(self.a[i]);
            i += 1;
        }
        let r = Tlwe { a, b: self.b };
        assert(r@.mask =~= self@.mask);
        r
    }
}

impl Tlwe {
    /// Seals `m` under `key` with the given mask; no noise is added, so the phase under
    /// `key` is `m` itself. A caller that wants noise adds it to `m` first.
    pub fn with_mask(m: Torus, key: &TlweKey, mask: Vec<Torus>) -> (r: Self)
        requires
            mask@.len() == key@.len(),
        ensures
            r@ == tlwe_sealed(m@, key@, r@.mask),
            r.a@ == mask@,
    {
        let mut acc: u64 = m.0;
        let mut i: usize = 0;
        let ghost mk: Seq<int> = Seq::new(mask@.len(), |j: int| mask@[j]@);
        proof {
            lemma_in_range_mod(m@);
        }
        while i < mask.len()
            invariant
                i <= mask@.len(),
                mask@.len() == key@.len(),
                mk == Seq::new(mask@.len(), |j: int| mask@[j]@),
                acc as int == (m@ + dot(mk.take(i as int), key@.take(i as int))) % modulus(),
            decreases mask@.len() - i,
        {
            let p: u64 = mask[i].0.wrapping_mul(key.s[i]);
            proof {
                lemma_dot_step(mk, key@, i as int);
                lemma_add_product_mod(
                    m@ + dot(mk.take(i as int), key@.take(i as int)),
                    mk[i as int],
                    key@[i as int],
                );
                vstd::arithmetic::div_mod::lemma_mod_bound(mk[i as int] * key@[i as int], modulus());
                assert(mk[i as int] * key@[i as int] >= 0) by (nonlinear_arith)
                    requires
                        mk[i as int] >= 0,
                        key@[i as int] >= 0,
                ;
            }
            acc = acc.wrapping_add(p);
            i += 1;
        }
        let r = Tlwe { a: mask, b: Torus(acc) };
        proof {
            assert(r@.mask =~= mk);
            assert(mk.take(mk.len() as int) =~= mk);
            assert(key@.take(key@.len() as int) =~= key@);
        }
        r
    }

    /// Seals `m` under `key` with a freshly drawn mask. Whatever mask was drawn, the phase
    /// of the result under `key` is `m`.
    pub fn new(m: Torus, key: &TlweKey) -> (r: Self)
        ensures
            r@.mask.len() == key@.len(),
            r@ == tlwe_sealed(m@, key@, r@.mask),
            tlwe_phase(r@, key@) == m@,
    {
        let mut mask: Vec<Torus> = Vec::new();
        let mut i: usize = 0;
        while i < key.s.len()
            invariant
                i <= key.s@.len(),
                mask@.len() == i,
            decreases key.s@.len() - i,
        {
            mask.push(Torus(random_word()));
            i += 1;
        }
        let r = Self::with_mask(m, key, mask);
        proof {
            lemma_sealed_phase(m@, key@, r@.mask);
        }
        r
    }

    /// Overwrites `self` with a fresh sealing of `m` under `key`.
    pub fn set(&mut self, m: Torus, key: &TlweKey)
        ensures
            final(self)@.mask.len() == key@.len(),
            final(self)@ == tlwe_sealed(m@, key@, final(self)@.mask),
            tlwe_phase(final(self)@, key@) == m@,
    {
        *self = Self::new(m, key);
    }

    /// The trivial ciphertext of `m`: zero mask, body `m`.
    pub fn new_noiseless(m: Torus, lower_n: u32) -> (r: Self)
        ensures
            r@ == tlwe_trivial(lower_n as nat, m@),
    {
        let mut a: Vec<Torus> = Vec::new();
        let mut i: u32 = 0;
        while i < lower_n
            invariant
                i <= lower_n,
                a@.len() == i,
                forall|j: int| 0 <= j < i ==> a@[j]@ == 0,
            decreases lower_n - i,
        {
            a.push(Torus(0));
            i += 1;
        }
        let r = Tlwe { a, b: m };
        assert(r@.mask =~= poly_const(lower_n as nat, 0));
        r
    }

    /// Overwrites `self` with the trivial ciphertext of `m`, keeping the mask length.
    pub fn set_noiseless(&mut self, m: Torus)
        requires
            old(self)@.mask.len() <= u32::MAX,
        ensures
            final(self)@ == tlwe_trivial(old(self)@.mask.len(), m@),
    {
        let n: u32 = self.a.len() as u32;
        *self = Self::new_noiseless(m, n);
    }

    /// A fresh sealing of zero under `key`.
    pub fn zero(key: &TlweKey) -> (r: Self)
        ensures
            r@.mask.len() == key@.len(),
            r@ == tlwe_sealed(0, key@, r@.mask),
            tlwe_phase(r@, key@) == 0,
    {
        Self::new(Torus::min_value(), key)
    }

    /// The trivial ciphertext of zero.
    pub fn zero_noiseless(lower_n: u32) -> (r: Self)
        ensures
            r@ == tlwe_trivial(lower_n as nat, 0),
    {
        Self::new_noiseless(Torus::min_value(), lower_n)
    }

    /// Extracts coefficient `index` of the polynomial ciphertext `sample` as a scalar
    /// ciphertext of mask length `k * N`.
    pub fn from_trlwe(sample: &crate::trlwe::sample::Trlwe, index: usize) -> (r: Self)
        requires
            sample.wf(),
            index < sample.spec_n(),
            sample.spec_k() * sample.spec_n() <= usize::MAX,
        ensures
            r@ == tlwe_extracted(sample@, index as int),
    {
        let k: usize = sample.k() as usize;
        let n: usize = sample.upper_n() as usize;
        let ghost want = tlwe_extracted(sample@, index as int);
        let mut a: Vec<Torus> = Vec::new();
        let mut i: usize = 0;
        proof {
            assert(0 * n == 0) by (nonlinear_arith);
        }
        while i < k
            invariant
                i <= k,
                sample.wf(),
                k == sample.spec_k(),
                n == sample.spec_n(),
                index < n,
                k * n <= usize::MAX,
                want == tlwe_extracted(sample@, index as int),
                a@.len() == i * n,
                forall|t: int| 0 <= t < a@.len() ==> (#[trigger] a@[t])@ == want.mask[t],
            decreases k - i,
        {
            let mut j: usize = 0;
            proof {
                assert((i + 1) * n == i * n + n) by (nonlinear_arith);
                assert((i + 1) * n <= k * n) by (nonlinear_arith)
                    requires
                        i + 1 <= k,
                        n >= 0,
                ;
                assert(sample@[i as int].len() == n);
                assert(sample@[i as int] == sample.polys@[i as int]@);
            }
            while j < n
                invariant
                    j <= n,
                    i < k,
                    sample.wf(),
                    k == sample.spec_k(),
                    n == sample.spec_n(),
                    index < n,
                    i * n + n <= usize::MAX,
                    (i + 1) * n == i * n + n,
                    (i + 1) * n <= k * n,
                    sample@[i as int].len() == n,
                    sample@[i as int] == sample.polys@[i as int]@,
                    want == tlwe_extracted(sample@, index as int),
                    a@.len() == i * n + j,
                    forall|t: int| 0 <= t < a@.len() ==> (#[trigger] a@[t])@ == want.mask[t],
                decreases n - j,
            {
                let c: Torus = if j <= index {
                    sample.polys[i].coeffs[index - j]
                } else {
                    sample.polys[i].coeffs[n - j + index].neg()
                };
                proof {
                    let t = (i * n + j) as int;
                    assert(t / (n as int) == i && t % (n as int) == j) by {
                        vstd::arithmetic::div_mod::lemma_fundamental_div_mod_converse(
                            t,
                            n as int,
                            i as int,
                            j as int,
                        );
                    }
                    assert(c@ == extracted_entry(sample@[i as int], index as int, j as int));
                    assert(want.mask[t] == extracted_entry(
                        sample@[t / (n as int)],
                        index as int,
                        t % (n as int),
                    ));
                }
                a.push(c);
                j += 1;
            }
            i += 1;
        }
        proof {
            assert(sample@[k as int].len() == n);
            assert(sample@[k as int] == sample.polys@[k as int]@);
        }
        let b: Torus = sample.polys[k].coeffs[index];
        let r = Tlwe { a, b };
        assert(r@.mask =~= want.mask);
        r
    }

    /// Overwrites `self` with coefficient `index` of the polynomial ciphertext `sample`.
    pub fn set_from_trlwe(&mut self, sample: &crate::trlwe::sample::Trlwe, index: usize)
        requires
            sample.wf(),
            index < sample.spec_n(),
            sample.spec_k() * sample.spec_n() <= usize::MAX,
        ensures
            final(self)@ == tlwe_extracted(sample@, index as int),
    {
        *self = Self::from_trlwe(sample, index);
    }

    /// Length of the mask.
    pub fn lower_n(&self) -> (n: u32)
        requires
            self@.mask.len() <= u32::MAX,
        ensures
            n == self@.mask.len(),
    {
        self.a.len() as u32
    }

    /// Entry-wise sum.
    pub fn add(&self, other: &Self) -> (r: Self)
        requires
            self@.mask.len() == other@.mask.len(),
        ensures
            r@ == tlwe_add(self@, other@),
    {
        let mut a: Vec<Torus> = Vec::new();
        let mut i: usize = 0;
        while i < self.a.len()
            invariant
                i <= self.a@.len(),
                self.a@.len() == other.a@.len(),
                a@.len() == i,
                forall|j: int| 0 <= j < i ==> a@[j]@ == wrap_add(self.a@[j]@, other.a@[j]@),
            decreases self.a@.len() - i,
        {
            a.push(self.a[i].add(other.a[i]));
            i += 1;
        }
        let r = Tlwe { a, b: self.b.add(other.b) };
        assert(r@.mask =~= poly_add(self@.mask, other@.mask));
        r
    }

    /// Stores `lhs + rhs` in `self`.
    pub fn add_from(&mut self, lhs: &Self, rhs: &Self)
        requires
            lhs@.mask.len() == rhs@.mask.len(),
        ensures
            final(self)@ == tlwe_add(lhs@, rhs@),
    {
        *self = lhs.add(rhs);
    }

    /// Adds `rhs` to `self`.
    pub fn add_assign(&mut self, rhs: &Self)
        requires
            old(self)@.mask.len() == rhs@.mask.len(),
        ensures
            final(self)@ == tlwe_add(old(self)@, rhs@),
    {
        let r = self.add(rhs);
        *self = r;
    }

    /// Entry-wise difference.
    pub fn sub(&self, other: &Self) -> (r: Self)
        requires
            self@.mask.len() == other@.mask.len(),
        ensures
            r@ == tlwe_sub(self@, other@),
    {
        let mut a: Vec<Torus> = Vec::new();
        let mut i: usize = 0;
        while i < self.a.len()
            invariant
                i <= self.a@.len(),
                self.a@.len() == other.a@.len(),
                a@.len() == i,
                forall|j: int| 0 <= j < i ==> a@[j]@ == wrap_sub(self.a@[j]@, other.a@[j]@),
            decreases self.a@.len() - i,
        {
            a.push(self.a[i].sub(other.a[i]));
            i += 1;
        }
        let r = Tlwe { a, b: self.b.sub(other.b) };
        assert(r@.mask =~= poly_sub(self@.mask, other@.mask));
        r
    }

    /// Stores `lhs - rhs` in `self`.
    pub fn sub_from(&mut self, lhs: &Self, rhs: &Self)
        requires
            lhs@.mask.len() == rhs@.mask.len(),
        ensures
            final(self)@ == tlwe_sub(lhs@, rhs@),
    {
        *self = lhs.sub(rhs);
    }

    /// Subtracts `other` from `self`.
    pub fn sub_assign(&mut self, other: &Self)
        requires
            old(self)@.mask.len() == other@.mask.len(),
        ensures
            final(self)@ == tlwe_sub(old(self)@, other@),
    {
        let r = self.sub(other);
        *self = r;
    }

    /// Entry-wise negation.
    pub fn neg(&self) -> (r: Self)
        ensures
            r@ == tlwe_neg(self@),
    {
        let mut a: Vec<Torus> = Vec::new();
        let mut i: usize = 0;
        while i < self.a.len()
            invariant
                i <= self.a@.len(),
                a@.len() == i,
                forall|j: int| 0 <= j < i ==> a@[j]@ == wrap_neg(self.a@[j]@),
            decreases self.a@.len() - i,
        {
            a.push(self.a[i].neg());
            i += 1;
        }
        let r = Tlwe { a, b: self.b.neg() };
        assert(r@.mask =~= poly_neg(self@.mask));
        r
    }

    /// Stores `-input` in `self`.
    pub fn neg_from(&mut self, input: &Self)
        ensures
            final(self)@ == tlwe_neg(input@),
    {
        *self = input.neg();
    }

    /// The phase under `key`: the sealed message plus the sealed noise.
    pub fn phase(&self, key: &TlweKey) -> (r: Torus)
        requires
            self@.mask.len() == key@.len(),
        ensures
            r@ == tlwe_phase(self@, key@),
    {
        let mut acc: u64 = self.b.0;
        let mut i: usize = 0;
        proof {
            lemma_in_range_mod(self.b@);
        }
        while i < self.a.len()
            invariant
                i <= self.a@.len(),
                self.a@.len() == key@.len(),
                acc as int == (self.b@ - dot(self@.mask.take(i as int), key@.take(i as int)))
                    % modulus(),
            decreases self.a@.len() - i,
        {
            let p: u64 = self.a[i].0.wrapping_mul(key.s[i]);
            proof {
                lemma_dot_step(self@.mask, key@, i as int);
                lemma_sub_product_mod(
                    self.b@ - dot(self@.mask.take(i as int), key@.take(i as int)),
                    self@.mask[i as int],
                    key@[i as int],
                );
                vstd::arithmetic::div_mod::lemma_mod_bound(
                    self@.mask[i as int] * key@[i as int],
                    modulus(),
                );
                assert(self@.mask[i as int] * key@[i as int] >= 0) by (nonlinear_arith)
                    requires
                        self@.mask[i as int] >= 0,
                        key@[i as int] >= 0,
                ;
            }
            acc = acc.wrapping_sub(p);
            i += 1;
        }
        proof {
            assert(self@.mask.take(self@.mask.len() as int) =~= self@.mask);
            assert(key@.take(key@.len() as int) =~= key@);
        }
        Torus(acc)
    }
}

/// A ciphertext sealed without noise decrypts to its message, whatever the mask.
pub proof fn lemma_sealed_phase(m: int, s: Seq<int>, mask: Seq<int>)
    requires
        0 <= m < modulus(),
    ensures
        tlwe_phase(tlwe_sealed(m, s, mask), s) == m,
{
    lemma_add_sub_cancel(m, dot(mask, s));
}

/// A trivial ciphertext decrypts to its message under every key.
pub proof fn lemma_trivial_phase(n: nat, m: int, s: Seq<int>)
    requires
        0 <= m < modulus(),
    ensures
        tlwe_phase(tlwe_trivial(n, m), s) == m,
    decreases n,
{
    lemma_dot_zero(n, s);
    lemma_in_range_mod(m);
}

/// The inner product of a sum, a difference or a negation of masks is, modulo `2^64`, the
/// sum, the difference or the negation of the inner products.
pub proof fn lemma_dot_linear(a: Seq<int>, b: Seq<int>, s: Seq<int>)
    requires
        a.len() == b.len(),
    ensures
        dot(poly_add(a, b), s) % modulus() == (dot(a, s) + dot(b, s)) % modulus(),
        dot(poly_sub(a, b), s) % modulus() == (dot(a, s) - dot(b, s)) % modulus(),
        dot(poly_neg(a), s) % modulus() == (-dot(a, s)) % modulus(),
    decreases a.len(),
{
    let m = modulus();
    if a.len() == 0 || s.len() == 0 {
        assert(dot(poly_add(a, b), s) == 0);
        assert(dot(poly_sub(a, b), s) == 0);
        assert(dot(poly_neg(a), s) == 0);
        assert(dot(a, s) == 0 && dot(b, s) == 0);
    } else {
        let a0 = a.drop_last();
        let b0 = b.drop_last();
        let s0 = s.drop_last();
        lemma_dot_linear(a0, b0, s0);
        assert(poly_add(a, b).drop_last() =~= poly_add(a0, b0));
        assert(poly_sub(a, b).drop_last() =~= poly_sub(a0, b0));
        assert(poly_neg(a).drop_last() =~= poly_neg(a0));
        let x = a.last();
        let y = b.last();
        let k = s.last();
        let da = dot(a0, s0);
        let db = dot(b0, s0);
        // the last products, reduced or not, agree modulo 2^64
        vstd::arithmetic::div_mod::lemma_mul_mod_noop_left(x + y, k, m);
        vstd::arithmetic::div_mod::lemma_mul_mod_noop_left(x - y, k, m);
        vstd::arithmetic::div_mod::lemma_mul_mod_noop_left(-x, k, m);
        let sum_last = ((x + y) % m) * k;
        let sub_last = ((x - y) % m) * k;
        let neg_last = ((-x) % m) * k;
        assert(poly_add(a, b).last() == (x + y) % m);
        assert(poly_sub(a, b).last() == (x - y) % m);
        assert(poly_neg(a).last() == (-x) % m);
        vstd::arithmetic::div_mod::lemma_add_mod_noop(dot(poly_add(a0, b0), s0), sum_last, m);
        vstd::arithmetic::div_mod::lemma_add_mod_noop(da + db, (x + y) * k, m);
        vstd::arithmetic::div_mod::lemma_add_mod_noop(dot(poly_sub(a0, b0), s0), sub_last, m);
        vstd::arithmetic::div_mod::lemma_add_mod_noop(da - db, (x - y) * k, m);
        vstd::arithmetic::div_mod::lemma_add_mod_noop(dot(poly_neg(a0), s0), neg_last, m);
        vstd::arithmetic::div_mod::lemma_add_mod_noop(-da, (-x) * k, m);
        assert((x + y) * k == x * k + y * k) by (nonlinear_arith);
        assert((x - y) * k == x * k - y * k) by (nonlinear_arith);
        assert((-x) * k == -(x * k)) by (nonlinear_arith);
    }
}

/// Homomorphic addition: the sum, the difference and the negation of ciphertexts decrypt
/// to the sum, the difference and the negation of what they decrypt to.
pub proof fn lemma_phase_linear(x: TlweView, y: TlweView, s: Seq<int>)
    requires
        x.mask.len() == y.mask.len(),
    ensures
        tlwe_phase(tlwe_add(x, y), s) == wrap_add(tlwe_phase(x, s), tlwe_phase(y, s)),
        tlwe_phase(tlwe_sub(x, y), s) == wrap_sub(tlwe_phase(x, s), tlwe_phase(y, s)),
        tlwe_phase(tlwe_neg(x), s) == wrap_neg(tlwe_phase(x, s)),
{
    let m = modulus();
    lemma_dot_linear(x.mask, y.mask, s);
    let dx = dot(x.mask, s);
    let dy = dot(y.mask, s);
    // sum
    vstd::arithmetic::div_mod::lemma_sub_mod_noop(
        (x.body + y.body) % m,
        dot(poly_add(x.mask, y.mask), s),
        m,
    );
    vstd::arithmetic::div_mod::lemma_mod_twice(x.body + y.body, m);
    vstd::arithmetic::div_mod::lemma_sub_mod_noop(x.body + y.body, dx + dy, m);
    vstd::arithmetic::div_mod::lemma_add_mod_noop(x.body - dx, y.body - dy, m);
    // difference
    vstd::arithmetic::div_mod::lemma_sub_mod_noop(
        (x.body - y.body) % m,
        dot(poly_sub(x.mask, y.mask), s),
        m,
    );
    vstd::arithmetic::div_mod::lemma_mod_twice(x.body - y.body, m);
    vstd::arithmetic::div_mod::lemma_sub_mod_noop(x.body - y.body, dx - dy, m);
    vstd::arithmetic::div_mod::lemma_sub_mod_noop(x.body - dx, y.body - dy, m);
    // negation
    vstd::arithmetic::div_mod::lemma_sub_mod_noop((-x.body) % m, dot(poly_neg(x.mask), s), m);
    vstd::arithmetic::div_mod::lemma_mod_twice(-x.body, m);
    vstd::arithmetic::div_mod::lemma_sub_mod_noop(-x.body, -dx, m);
    vstd::arithmetic::div_mod::lemma_sub_mod_noop(0, x.body - dx, m);
    vstd::arithmetic::div_mod::lemma_small_mod(0nat, m as nat);
}

/// The sum, over the first `upto` mask polynomials, of the terms of coefficient `index` of
/// their products with their key polynomials, over the integers.
pub open spec fn mask_terms(x: Seq<Seq<int>>, s: Seq<Seq<int>>, index: int, n: nat, upto: nat) -> int
    decreases upto,
{
    if upto == 0 {
        0
    } else {
        mask_terms(x, s, index, n, (upto - 1) as nat) + crate::poly::torus::conv_sum(
            s[upto - 1],
            x[upto - 1],
            index,
            n,
        )
    }
}

/// Coefficient `index` of a mask sum is the residue of the sum of its terms.
proof fn lemma_mask_sum_coefficient(
    x: Seq<Seq<int>>,
    s: Seq<Seq<int>>,
    index: int,
    n: nat,
    upto: nat,
)
    requires
        upto <= s.len(),
        upto <= x.len(),
        0 <= index < n,
        forall|i: int| 0 <= i < upto ==> (#[trigger] x[i]).len() == n,
        forall|i: int| 0 <= i < upto ==> (#[trigger] s[i]).len() == n,
    ensures
        crate::trlwe::sample::mask_sum(x, s, n, upto)[index] == mask_terms(x, s, index, n, upto)
            % modulus(),
    decreases upto,
{
    let m = modulus();
    if upto == 0 {
        vstd::arithmetic::div_mod::lemma_small_mod(0nat, m as nat);
    } else {
        let t = (upto - 1) as nat;
        lemma_mask_sum_coefficient(x, s, index, n, t);
        crate::trlwe::sample::lemma_mask_sum_len(x, s, n, t);
        assert(x[t as int].len() == n && s[t as int].len() == n);
        vstd::arithmetic::div_mod::lemma_add_mod_noop(
            mask_terms(x, s, index, n, t),
            crate::poly::torus::conv_sum(s[t as int], x[t as int], index, n),
            m,
        );
    }
}

/// The inner product of the first `i * n + j` entries of an extracted mask with the
/// flattened key is, modulo `2^64`, the sum of the terms of the first `i` mask polynomials
/// and of the first `j` terms of the next.
proof fn lemma_extracted_dot(
    x: Seq<Seq<int>>,
    s: Seq<Seq<int>>,
    flat: Seq<int>,
    index: int,
    n: nat,
    i: nat,
    j: nat,
)
    requires
        1 <= n,
        0 <= index < n,
        x.len() == s.len() + 1,
        forall|c: int| 0 <= c < x.len() ==> (#[trigger] x[c]).len() == n,
        forall|c: int| 0 <= c < s.len() ==> (#[trigger] s[c]).len() == n,
        flat.len() == s.len() * n,
        forall|c: int, t: int| 0 <= c < s.len() && 0 <= t < n ==> flat[c * n + t] == #[trigger] s[c][t],
        i <= s.len(),
        j <= n,
        i == s.len() ==> j == 0,
    ensures
        i * n + j <= flat.len(),
        dot(
            tlwe_extracted(x, index).mask.take((i * n + j) as int),
            flat.take((i * n + j) as int),
        ) % modulus() == (
        mask_terms(x, s, index, n, i) + if j == 0 {
            0
        } else {
            crate::poly::torus::conv_sum(s[i as int], x[i as int], index, j)
        }) % modulus(),
    decreases i, j,
{
    let m = modulus();
    let k = s.len();
    let mask = tlwe_extracted(x, index).mask;
    assert(x[0].len() == n);
    assert(mask.len() == k * n);
    assert(i * n + j <= k * n) by (nonlinear_arith)
        requires
            i <= k,
            j <= n,
            i == k ==> j == 0,
    ;
    if j > 0 {
        let t = (i * n + j - 1) as int;
        lemma_extracted_dot(x, s, flat, index, n, i, (j - 1) as nat);
        lemma_dot_step(mask, flat, t);
        assert(t / (n as int) == i && t % (n as int) == j - 1) by {
            vstd::arithmetic::div_mod::lemma_fundamental_div_mod_converse(
                t,
                n as int,
                i as int,
                j - 1,
            );
        }
        let a = x[i as int];
        let key = s[i as int];
        assert(a.len() == n && key.len() == n);
        assert(mask[t] == extracted_entry(a, index, j - 1));
        assert(flat[t] == key[j - 1]);
        let term = crate::poly::torus::conv_term(key, a, index, j - 1);
        // the new product and the new term agree modulo 2^64
        if j - 1 <= index {
            assert(mask[t] * flat[t] == term) by (nonlinear_arith)
                requires
                    mask[t] == a[index - (j - 1)],
                    flat[t] == key[j - 1],
                    term == key[j - 1] * a[index - (j - 1)],
            ;
        } else {
            let v = a[n + index - (j - 1)];
            vstd::arithmetic::div_mod::lemma_mul_mod_noop_left(-v, key[j - 1], m);
            assert((-v) * key[j - 1] == -(key[j - 1] * v)) by (nonlinear_arith);
        }
        let before = mask_terms(x, s, index, n, i) + if j - 1 == 0 {
            0
        } else {
            crate::poly::torus::conv_sum(key, a, index, (j - 1) as nat)
        };
        vstd::arithmetic::div_mod::lemma_add_mod_noop(
            dot(mask.take(t), flat.take(t)),
            mask[t] * flat[t],
            m,
        );
        vstd::arithmetic::div_mod::lemma_add_mod_noop(before, term, m);
        assert(crate::poly::torus::conv_sum(key, a, index, 0) == 0);
    } else if i > 0 {
        lemma_extracted_dot(x, s, flat, index, n, (i - 1) as nat, n);
        assert((i - 1) * n + n == i * n + 0) by (nonlinear_arith);
    } else {
        assert(0 * n + 0 == 0) by (nonlinear_arith);
        assert(mask.take(0).len() == 0);
        vstd::arithmetic::div_mod::lemma_small_mod(0nat, m as nat);
    }
}

/// Extraction: the scalar ciphertext of coefficient `index` decrypts, under the flattened
/// key, to coefficient `index` of what the polynomial ciphertext decrypts to.
pub proof fn lemma_extracted_phase(
    x: Seq<Seq<int>>,
    s: Seq<Seq<int>>,
    flat: Seq<int>,
    index: int,
    n: nat,
)
    requires
        1 <= n,
        0 <= index < n,
        crate::trlwe::sample::trlwe_shape(x, s.len(), n),
        forall|c: int| 0 <= c < s.len() ==> (#[trigger] s[c]).len() == n,
        flat.len() == s.len() * n,
        forall|c: int, t: int| 0 <= c < s.len() && 0 <= t < n ==> flat[c * n + t] == #[trigger] s[c][t],
    ensures
        tlwe_phase(tlwe_extracted(x, index), flat) == crate::trlwe::sample::trlwe_phase(x, s)[index],
{
    let m = modulus();
    let k = s.len();
    let e = tlwe_extracted(x, index);
    assert(x[0].len() == n);
    lemma_extracted_dot(x, s, flat, index, n, k, 0);
    assert(k * n + 0 == k * n);
    assert(e.mask.take((k * n) as int) =~= e.mask);
    assert(flat.take((k * n) as int) =~= flat);
    lemma_mask_sum_coefficient(x, s, index, n, k);
    crate::trlwe::sample::lemma_mask_sum_len(x, s, n, k);
    let body = x[k as int][index];
    assert(x.last() == x[k as int]);
    assert(x[k as int].len() == n);
    let terms = mask_terms(x, s, index, n, k);
    vstd::arithmetic::div_mod::lemma_sub_mod_noop(body, dot(e.mask, flat), m);
    vstd::arithmetic::div_mod::lemma_sub_mod_noop(body, terms, m);
    vstd::arithmetic::div_mod::lemma_sub_mod_noop(body, terms % m, m);
    vstd::arithmetic::div_mod::lemma_mod_twice(terms, m);
}

/// The inner product with the zero mask is zero.
pub proof fn lemma_dot_zero(n: nat, s: Seq<int>)
    ensures
        dot(poly_const(n, 0), s) == 0,
    decreases n,
{
    let z = poly_const(n, 0);
    assert(z.len() == n);
    if n > 0 && s.len() > 0 {
        assert(z.drop_last() =~= poly_const((n - 1) as nat, 0));
        lemma_dot_zero((n - 1) as nat, s.drop_last());
        assert(z.last() == 0);
        assert(dot(z, s) == dot(z.drop_last(), s.drop_last()) + z.last() * s.last());
    } else {
        assert(dot(z, s) == 0);
    }
}

/// The views of a run of scalar ciphertexts.
pub open spec fn tlwe_views(v: Seq<Tlwe>) -> Seq<TlweView> {
    Seq::new(v.len(), |i: int| v[i]@)
}

/// The ciphertext `ct` decrypts under `s` to a value that `f` may return for `i`.
pub open spec fn seals_output<F: Fn(usize) -> Torus>(f: F, i: usize, ct: TlweView, s: Seq<int>) -> bool {
    exists|m: Torus| #[trigger] call_ensures(f, (i,), m) && tlwe_phase(ct, s) == m@
}

/// The ciphertext `ct` is the trivial ciphertext of a value that `f` may return for `i`.
pub open spec fn trivial_output<F: Fn(usize) -> Torus>(f: F, i: usize, ct: TlweView, n: nat) -> bool {
    exists|m: Torus| #[trigger] call_ensures(f, (i,), m) && ct == tlwe_trivial(n, m@)
}

/// A dense run of scalar ciphertexts of one mask length.
pub struct TlweArray {
    pub items: Vec<Tlwe>,
}

impl View for TlweArray {
    type V = Seq<TlweView>;

    open spec fn view(&self) -> Seq<TlweView> {
        tlwe_views(self.items@)
    }
}

impl Clone for TlweArray {
    fn clone(&self) -> (r: Self)
        ensures
            r@ == self@,
    {
        let mut items: Vec<Tlwe> = Vec::new();
        let mut i: usize = 0;
        while i < self.items.len()
            invariant
                i <= self.items@.len(),
                items@.len() == i,
                forall|j: int| 0 <= j < i ==> (#[trigger] items@[j])@ == self.items@[j]@,
            decreases self.items@.len() - i,
        {
            items.push(self.items[i].clone());
            i += 1;
        }
        let r = TlweArray { items };
        assert(r@ =~= self@);
        r
    }
}

impl TlweArray {
    /// Every ciphertext of the run has a mask of `n` entries.
    pub open spec fn uniform(&self, n: nat) -> bool {
        forall|i: int| 0 <= i < self@.len() ==> (#[trigger] self@[i]).mask.len() == n
    }

    /// Seals, for each index `i` below `len`, the value `f(i)` under `key`.
    pub fn from_fn<F: Fn(usize) -> Torus>(len: usize, key: &TlweKey, f: F) -> (r: Self)
        requires
            forall|i: usize| i < len ==> call_requires(f, (i,)),
        ensures
            r@.len() == len,
            r.uniform(key@.len()),
            forall|i: int| 0 <= i < len ==> seals_output(f, i as usize, #[trigger] r@[i], key@),
    {
        let mut items: Vec<Tlwe> = Vec::new();
        let mut i: usize = 0;
        while i < len
            invariant
                i <= len,
                forall|j: usize| j < len ==> call_requires(f, (j,)),
                items@.len() == i,
                forall|j: int| 0 <= j < i ==> (#[trigger] items@[j])@.mask.len() == key@.len(),
                forall|j: int|
                    0 <= j < i ==> seals_output(f, j as usize, (#[trigger] items@[j])@, key@),
            decreases len - i,
        {
            let m = f(i);
            let t = Tlwe::new(m, key);
            items.push(t);
            i += 1;
        }
        let r = TlweArray { items };
        assert forall|j: int| 0 <= j < len implies seals_output(
            f,
            j as usize,
            #[trigger] r@[j],
            key@,
        ) && r@[j].mask.len() == key@.len() by {
            assert(r@[j] == r.items@[j]@);
        }
        r
    }

    /// The trivial ciphertexts of the values `f(i)`, for each index `i` below `len`.
    pub fn from_fn_noiseless<F: Fn(usize) -> Torus>(len: usize, lower_n: u32, f: F) -> (r: Self)
        requires
            forall|i: usize| i < len ==> call_requires(f, (i,)),
        ensures
            r@.len() == len,
            r.uniform(lower_n as nat),
            forall|i: int|
                0 <= i < len ==> trivial_output(f, i as usize, #[trigger] r@[i], lower_n as nat),
    {
        let mut items: Vec<Tlwe> = Vec::new();
        let mut i: usize = 0;
        while i < len
            invariant
                i <= len,
                forall|j: usize| j < len ==> call_requires(f, (j,)),
                items@.len() == i,
                forall|j: int|
                    0 <= j < i ==> trivial_output(
                        f,
                        j as usize,
                        (#[trigger] items@[j])@,
                        lower_n as nat,
                    ),
            decreases len - i,
        {
            let m = f(i);
            items.push(Tlwe::new_noiseless(m, lower_n));
            i += 1;
        }
        let r = TlweArray { items };
        assert forall|j: int| 0 <= j < len implies trivial_output(
            f,
            j as usize,
            #[trigger] r@[j],
            lower_n as nat,
        ) && r@[j].mask.len() == lower_n by {
            assert(r@[j] == r.items@[j]@);
        }
        r
    }

    /// `len` fresh sealings of `elem` under `key`.
    pub fn from_elem(len: usize, key: &TlweKey, elem: Torus) -> (r: Self)
        ensures
            r@.len() == len,
            r.uniform(key@.len()),
            forall|i: int| 0 <= i < len ==> tlwe_phase(#[trigger] r@[i], key@) == elem@,
    {
        let mut items: Vec<Tlwe> = Vec::new();
        let mut i: usize = 0;
        while i < len
            invariant
                i <= len,
                items@.len() == i,
                forall|j: int| 0 <= j < i ==> (#[trigger] items@[j])@.mask.len() == key@.len(),
                forall|j: int| 0 <= j < i ==> tlwe_phase((#[trigger] items@[j])@, key@) == elem@,
            decreases len - i,
        {
            items.push(Tlwe::new(elem, key));
            i += 1;
        }
        let r = TlweArray { items };
        assert forall|j: int| 0 <= j < len implies tlwe_phase(#[trigger] r@[j], key@)
            == elem@ && r@[j].mask.len() == key@.len() by {
            assert(r@[j] == r.items@[j]@);
        }
        r
    }

    /// `len` trivial ciphertexts of `elem`.
    pub fn from_elem_noiseless(len: usize, lower_n: u32, elem: Torus) -> (r: Self)
        ensures
            r@.len() == len,
            r.uniform(lower_n as nat),
            forall|i: int| 0 <= i < len ==> #[trigger] r@[i] == tlwe_trivial(lower_n as nat, elem@),
    {
        let mut items: Vec<Tlwe> = Vec::new();
        let mut i: usize = 0;
        while i < len
            invariant
                i <= len,
                items@.len() == i,
                forall|j: int|
                    0 <= j < i ==> (#[trigger] items@[j])@ == tlwe_trivial(lower_n as nat, elem@),
            decreases len - i,
        {
            items.push(Tlwe::new_noiseless(elem, lower_n));
            i += 1;
        }
        let r = TlweArray { items };
        assert forall|j: int| 0 <= j < len implies #[trigger] r@[j] == tlwe_trivial(
            lower_n as nat,
            elem@,
        ) by {
            assert(r@[j] == r.items@[j]@);
        }
        r
    }

    /// `len` fresh sealings of zero under `key`.
    pub fn zeroed(len: usize, key: &TlweKey) -> (r: Self)
        ensures
            r@.len() == len,
            r.uniform(key@.len()),
            forall|i: int| 0 <= i < len ==> tlwe_phase(#[trigger] r@[i], key@) == 0,
    {
        Self::from_elem(len, key, Torus::min_value())
    }

    /// `len` trivial ciphertexts of zero.
    pub fn zeroed_noiseless(len: usize, lower_n: u32) -> (r: Self)
        ensures
            r@.len() == len,
            r.uniform(lower_n as nat),
            forall|i: int| 0 <= i < len ==> #[trigger] r@[i] == tlwe_trivial(lower_n as nat, 0),
    {
        Self::from_elem_noiseless(len, lower_n, Torus::min_value())
    }

    /// Number of ciphertexts.
    pub fn len(&self) -> (n: usize)
        ensures
            n == self@.len(),
    {
        self.items.len()
    }

    /// Whether the run holds no ciphertext.
    pub fn is_empty(&self) -> (b: bool)
        ensures
            b == (self@.len() == 0),
    {
        self.items.len() == 0
    }

    /// Mask length of the ciphertexts, read off the first one.
    pub fn lower_n(&self) -> (n: u32)
        requires
            self@.len() > 0,
            self@[0].mask.len() <= u32::MAX,
        ensures
            n == self@[0].mask.len(),
    {
        proof {
            assert(self@[0] == self.items@[0]@);
        }
        self.items[0].lower_n()
    }

    /// The ciphertexts, in order.
    pub fn as_slice(&self) -> (s: &[Tlwe])
        ensures
            s@ == self.items@,
    {
        self.items.as_slice()
    }

    /// An iterator over the ciphertexts, in order.
    pub fn iter(&self) -> (it: core::slice::Iter<'_, Tlwe>)
        ensures
            exists|s: &[Tlwe]| s@ == self.items@ && it == vstd::std_specs::slice::spec_slice_iter(s),
    {
        self.items.as_slice().iter()
    }

    /// The ciphertext at `index`.
    pub fn get(&self, index: usize) -> (t: &Tlwe)
        requires
            index < self@.len(),
        ensures
            t@ == self@[index as int],
    {
        &self.items[index]
    }

    /// Overwrites the ciphertext at `index`.
    pub fn set(&mut self, index: usize, value: Tlwe)
        requires
            index < old(self)@.len(),
        ensures
            final(self)@ == old(self)@.update(index as int, value@),
    {
        self.items[index] = value;
        assert(self@ =~= old(self)@.update(index as int, value@));
    }
}

} // verus!
