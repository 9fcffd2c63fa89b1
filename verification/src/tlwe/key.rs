use vstd::prelude::*;
use crate::entropy::random_word;

verus! {

/// Every entry of a secret is zero or one.
pub open spec fn is_binary(s: Seq<int>) -> bool {
    forall|i: int| 0 <= i < s.len() ==> #[trigger] s[i] == 0 || s[i] == 1
}

/// Secret key of the scalar ciphertexts: one small integer per mask entry.
pub struct TlweKey {
    pub s: Vec<u64>,
}

impl View for TlweKey {
    type V = Seq<int>;

    open spec fn view(&self) -> Seq<int> {
        Seq::new(self.s@.len(), |i: int| self.s@[i] as int)
    }
}

impl TlweKey {
    /// Draws a fresh key of `lower_n` binary coefficients.
    pub fn new_binary(lower_n: u32) -> (key: Self)
        ensures
            key@.len() == lower_n,
            is_binary(key@),
    {
        let mut s: Vec<u64> = Vec::new();
        let mut i: u32 = 0;
        while i < lower_n
            invariant
                i <= lower_n,
                s@.len() == i,
                forall|j: int| 0 <= j < i ==> s@[j] == 0 || s@[j] == 1,
            decreases lower_n - i,
        {
            let w: u64 = random_word();
            s.push(w % 2);
            i += 1;
        }
        TlweKey { s }
    }

    /// Builds the key whose coefficients are the given bits.
    pub fn from_bits(bits: &Vec<bool>) -> (key: Self)
        ensures
            key@.len() == bits@.len(),
            forall|i: int| 0 <= i < bits@.len() ==> key@[i] == if bits@[i] { 1int } else { 0int },
            is_binary(key@),
    {
        let mut s: Vec<u64> = Vec::new();
        let mut i: usize = 0;
        while i < bits.len()
            invariant
                i <= bits@.len(),
                s@.len() == i,
                forall|j: int| 0 <= j < i ==> s@[j] == if bits@[j] { 1u64 } else { 0u64 },
            decreases bits@.len() - i,
        {
            s.push(if bits[i] { 1u64 } else { 0u64 });
            i += 1;
        }
        TlweKey { s }
    }

    /// The scalar key under which the coefficients extracted from polynomial ciphertexts
    /// of `key` decrypt: the coefficients of its polynomials, one polynomial after the
    /// other.
    pub fn from_trlwe_key(key: &crate::trlwe::key::TrlweKey) -> (r: Self)
        requires
            key.wf(),
        ensures
            r@.len() == key@.len() * key@[0].len(),
            forall|i: int, j: int|
                0 <= i < key@.len() && 0 <= j < key@[0].len() ==> r@[i * key@[0].len() + j]
                    == #[trigger] key@[i][j],
            is_binary(r@),
    {
        let k: usize = key.s.len();
        let ghost n = key@[0].len();
        let mut s: Vec<u64> = Vec::new();
        let mut i: usize = 0;
        proof {
            assert(0 * n == 0) by (nonlinear_arith);
        }
        while i < k
            invariant
                i <= k,
                key.wf(),
                k == key@.len(),
                n == key@[0].len(),
                s@.len() == i * n,
                forall|t: int| 0 <= t < s@.len() ==> s@[t] == 0 || s@[t] == 1,
                forall|p: int, q: int|
                    0 <= p < i && 0 <= q < n ==> s@[p * n + q] == #[trigger] key@[p][q],
            decreases k - i,
        {
            let poly = &key.s[i];
            let mut j: usize = 0;
            proof {
                assert(key@[i as int].len() == n);
                assert(key@[i as int] == key.s@[i as int]@);
                assert(is_binary(key@[i as int]));
                assert((i + 1) * n == i * n + n) by (nonlinear_arith);
            }
            while j < poly.coeffs.len()
                invariant
                    j <= n,
                    i < k,
                    n == poly.coeffs@.len(),
                    poly@ == key@[i as int],
                    is_binary(poly@),
                    (i + 1) * n == i * n + n,
                    s@.len() == i * n + j,
                    forall|t: int| 0 <= t < s@.len() ==> s@[t] == 0 || s@[t] == 1,
                    forall|p: int, q: int|
                        0 <= p < i && 0 <= q < n ==> s@[p * n + q] == #[trigger] key@[p][q],
                    forall|q: int| 0 <= q < j ==> s@[i * n + q] == #[trigger] key@[i as int][q],
                decreases n - j,
            {
                let ghost before = s@;
                s.push(poly.coeffs[j].0);
                proof {
                    assert(poly@[j as int] == 0 || poly@[j as int] == 1);
                    assert forall|p: int, q: int| 0 <= p < i && 0 <= q < n implies s@[p * n + q]
                        == #[trigger] key@[p][q] by {
                        assert(p * n + n <= i * n) by (nonlinear_arith)
                            requires
                                p + 1 <= i,
                                n >= 0,
                        ;
                        assert(s@[p * n + q] == before[p * n + q]);
                    }
                    assert forall|q: int| 0 <= q < j + 1 implies s@[i * n + q]
                        == #[trigger] key@[i as int][q] by {
                        if q < j {
                            assert(s@[i * n + q] == before[i * n + q]);
                        }
                    }
                }
                j += 1;
            }
            i += 1;
        }
        let r = TlweKey { s };
        proof {
            assert forall|p: int, q: int| 0 <= p < key@.len() && 0 <= q < key@[0].len() implies r@[p
                * key@[0].len() + q] == #[trigger] key@[p][q] by {
                assert(p * n + n <= k * n) by (nonlinear_arith)
                    requires
                        p + 1 <= k,
                        n >= 0,
                ;
            }
        }
        r
    }

    /// Number of coefficients of the key, which is the mask length of its ciphertexts.
    pub fn lower_n(&self) -> (n: u32)
        requires
            self@.len() <= u32::MAX,
        ensures
            n == self@.len(),
    {
        self.s.len() as u32
    }
}

} // verus!
