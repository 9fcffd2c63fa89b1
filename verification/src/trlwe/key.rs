use vstd::prelude::*;
use crate::entropy::random_word;
use crate::poly::torus::TorusPolynomial;
use crate::tlwe::key::is_binary;
use crate::torus::Torus;

verus! {

/// A key of `k` polynomials of `n` coefficients each, every coefficient zero or one.
pub open spec fn key_shape(s: Seq<Seq<int>>, k: nat, n: nat) -> bool {
    &&& s.len() == k
    &&& forall|i: int| 0 <= i < k ==> (#[trigger] s[i]).len() == n && is_binary(s[i])
}

/// Secret key of the polynomial ciphertexts: `k` binary polynomials of degree below `N`.
pub struct TrlweKey {
    pub s: Vec<TorusPolynomial>,
}

impl View for TrlweKey {
    type V = Seq<Seq<int>>;

    open spec fn view(&self) -> Seq<Seq<int>> {
        Seq::new(self.s@.len(), |i: int| self.s@[i]@)
    }
}

impl Clone for TrlweKey {
    fn clone(&self) -> (r: Self)
        ensures
            r@ == self@,
    {
        let mut s: Vec<TorusPolynomial> = Vec::new();
        let mut i: usize = 0;
        while i < self.s.len()
            invariant
                i <= self.s@.len(),
                s@.len() == i,
                forall|j: int| 0 <= j < i ==> (#[trigger] s@[j])@ == self.s@[j]@,
            decreases self.s@.len() - i,
        {
            s.push(self.s[i].clone());
            i += 1;
        }
        let r = TrlweKey { s };
        assert(r@ =~= self@);
        r
    }
}

impl TrlweKey {
    /// Every key polynomial has one length, and there is at least one of them.
    pub open spec fn wf(&self) -> bool {
        &&& self@.len() >= 1
        &&& self@.len() < u32::MAX
        &&& self@[0].len() <= u32::MAX
        &&& key_shape(self@, self@.len(), self@[0].len())
    }

    /// Draws a fresh binary key of `k` polynomials with `upper_n` coefficients each.
    pub fn new(upper_n: u32, k: u32) -> (key: Self)
        requires
            1 <= k < u32::MAX,
        ensures
            key.wf(),
            key_shape(key@, k as nat, upper_n as nat),
    {
        let mut s: Vec<TorusPolynomial> = Vec::new();
        let mut i: u32 = 0;
        while i < k
            invariant
                i <= k,
                s@.len() == i,
                forall|j: int| 0 <= j < i ==> (#[trigger] s@[j])@.len() == upper_n && is_binary(s@[j]@),
            decreases k - i,
        {
            let mut coeffs: Vec<Torus> = Vec::new();
            let mut t: u32 = 0;
            while t < upper_n
                invariant
                    t <= upper_n,
                    coeffs@.len() == t,
                    forall|j: int| 0 <= j < t ==> coeffs@[j].0 == 0 || coeffs@[j].0 == 1,
                decreases upper_n - t,
            {
                let w: u64 = random_word();
                coeffs.push(Torus(w % 2));
                t += 1;
            }
            let poly = TorusPolynomial::from_vec(coeffs);
            assert(is_binary(poly@));
            s.push(poly);
            i += 1;
        }
        let key = TrlweKey { s };
        assert(key_shape(key@, k as nat, upper_n as nat));
        key
    }

    /// Builds a key from its polynomials.
    pub fn from_polys(s: Vec<TorusPolynomial>) -> (key: Self)
        ensures
            key.s@ == s@,
    {
        TrlweKey { s }
    }

    /// Number of mask polynomials.
    pub fn k(&self) -> (k: u32)
        requires
            self.wf(),
        ensures
            k == self@.len(),
    {
        self.s.len() as u32
    }

    /// Number of coefficients of each polynomial.
    pub fn upper_n(&self) -> (n: u32)
        requires
            self.wf(),
        ensures
            n == self@[0].len(),
    {
        self.s[0].upper_n()
    }
}

} // verus!
