use vstd::prelude::*;

verus! {

/// A polynomial with small signed integer coefficients, as used for secret keys.
pub struct BinaryPolynomial {
    pub coeffs: Vec<i16>,
}

impl View for BinaryPolynomial {
    type V = Seq<int>;

    open spec fn view(&self) -> Seq<int> {
        Seq::new(self.coeffs@.len(), |i: int| self.coeffs@[i] as int)
    }
}

/// Every coefficient of the product modulo `X^N + 1` fits 16 bits.
pub open spec fn product_fits(a: Seq<int>, b: Seq<int>) -> bool {
    forall|n: int|
        0 <= n < b.len() ==> -0x8000 <= #[trigger] crate::poly::torus::conv_sum(a, b, n, b.len())
            <= 0x7fff
}

/// The product of two polynomials modulo `X^N + 1`, over the integers.
pub open spec fn exact_mul(a: Seq<int>, b: Seq<int>) -> Seq<int> {
    Seq::new(b.len(), |n: int| crate::poly::torus::conv_sum(a, b, n, b.len()))
}

/// The first `upto` terms of a coefficient of a product of polynomials with 16-bit
/// coefficients stay within `upto * 2^30`.
proof fn lemma_conv_bound(a: Seq<int>, b: Seq<int>, n: int, upto: nat)
    requires
        a.len() == b.len(),
        0 <= n < b.len(),
        upto <= b.len(),
        forall|i: int| 0 <= i < a.len() ==> -0x8000 <= #[trigger] a[i] <= 0x7fff,
        forall|i: int| 0 <= i < b.len() ==> -0x8000 <= #[trigger] b[i] <= 0x7fff,
    ensures
        -(upto * 0x4000_0000) <= crate::poly::torus::conv_sum(a, b, n, upto) <= upto * 0x4000_0000,
    decreases upto,
{
    if upto > 0 {
        lemma_conv_bound(a, b, n, (upto - 1) as nat);
        let t = upto - 1;
        let x = a[t];
        let y = if t <= n { b[n - t] } else { b[b.len() + n - t] };
        assert(-0x4000_0000 <= x * y <= 0x4000_0000) by (nonlinear_arith)
            requires
                -0x8000 <= x <= 0x7fff,
                -0x8000 <= y <= 0x7fff,
        ;
    }
}

impl Clone for BinaryPolynomial {
    fn clone(&self) -> (r: Self)
        ensures
            r@ == self@,
    {
        let mut coeffs: Vec<i16> = Vec::new();
        let mut i: usize = 0;
        while i < self.coeffs.len()
            invariant
                i <= self.coeffs@.len(),
                coeffs@.len() == i,
                forall|j: int| 0 <= j < i ==> coeffs@[j] == self.coeffs@[j],
            decreases self.coeffs@.len() - i,
        {
            coeffs.push(self.coeffs[i]);
            i += 1;
        }
        let r = BinaryPolynomial { coeffs };
        assert(r@ =~= self@);
        r
    }
}

impl BinaryPolynomial {
    /// Polynomial of `upper_n` coefficients, coefficient `i` being `f(i)`.
    pub fn from_fn<F: Fn(usize) -> i16>(upper_n: u32, f: F) -> (p: Self)
        requires
            forall|i: usize| i < upper_n ==> call_requires(f, (i,)),
        ensures
            p@.len() == upper_n,
            forall|i: int|
                0 <= i < upper_n ==> call_ensures(f, (i as usize,), #[trigger] p.coeffs@[i]),
    {
        let mut coeffs: Vec<i16> = Vec::new();
        let mut i: usize = 0;
        while i < upper_n as usize
            invariant
                i <= upper_n,
                forall|j: usize| j < upper_n ==> call_requires(f, (j,)),
                coeffs@.len() == i,
                forall|j: int| 0 <= j < i ==> call_ensures(f, (j as usize,), #[trigger] coeffs@[j]),
            decreases upper_n - i,
        {
            let v = f(i);
            coeffs.push(v);
            i += 1;
        }
        BinaryPolynomial { coeffs }
    }

    /// The product `self * other` modulo `X^N + 1`, where every coefficient of it fits 16
    /// bits.
    pub fn naive_mul(&self, other: &Self) -> (r: Self)
        requires
            self@.len() == other@.len(),
            self@.len() <= u32::MAX,
            product_fits(self@, other@),
        ensures
            r@ == exact_mul(self@, other@),
    {
        let n: usize = self.coeffs.len();
        let mut coeffs: Vec<i16> = Vec::new();
        let mut i: usize = 0;
        while i < n
            invariant
                i <= n,
                n == self.coeffs@.len(),
                n == other.coeffs@.len(),
                n <= u32::MAX,
                product_fits(self@, other@),
                coeffs@.len() == i,
                forall|j: int|
                    0 <= j < i ==> coeffs@[j] == crate::poly::torus::conv_sum(
                        self@,
                        other@,
                        j,
                        n as nat,
                    ),
            decreases n - i,
        {
            let mut acc: i64 = 0;
            let mut t: usize = 0;
            while t < n
                invariant
                    t <= n,
                    i < n,
                    n == self.coeffs@.len(),
                    n == other.coeffs@.len(),
                    n <= u32::MAX,
                    acc == crate::poly::torus::conv_sum(self@, other@, i as int, t as nat),
                decreases n - t,
            {
                proof {
                    lemma_conv_bound(self@, other@, i as int, t as nat);
                    lemma_conv_bound(self@, other@, i as int, (t + 1) as nat);
                }
                let x: i64 = self.coeffs[t] as i64;
                if t <= i {
                    let y: i64 = other.coeffs[i - t] as i64;
                    proof {
                        assert(-0x4000_0000 <= x * y <= 0x4000_0000) by (nonlinear_arith)
                            requires
                                -0x8000 <= x <= 0x7fff,
                                -0x8000 <= y <= 0x7fff,
                        ;
                    }
                    acc = acc + x * y;
                } else {
                    let y: i64 = other.coeffs[n - t + i] as i64;
                    proof {
                        assert(-0x4000_0000 <= x * y <= 0x4000_0000) by (nonlinear_arith)
                            requires
                                -0x8000 <= x <= 0x7fff,
                                -0x8000 <= y <= 0x7fff,
                        ;
                    }
                    acc = acc - x * y;
                }
                t += 1;
            }
            proof {
                assert(-0x8000 <= crate::poly::torus::conv_sum(self@, other@, i as int, n as nat)
                    <= 0x7fff);
            }
            coeffs.push(acc as i16);
            i += 1;
        }
        let r = BinaryPolynomial { coeffs };
        assert(r@ =~= exact_mul(self@, other@));
        r
    }

    /// Stores `lhs * rhs` in `self`.
    pub fn naive_mul_from(&mut self, lhs: &Self, rhs: &Self)
        requires
            lhs@.len() == rhs@.len(),
            lhs@.len() <= u32::MAX,
            product_fits(lhs@, rhs@),
        ensures
            final(self)@ == exact_mul(lhs@, rhs@),
    {
        *self = lhs.naive_mul(rhs);
    }

    /// Number of coefficients.
    pub fn upper_n(&self) -> (n: u32)
        requires
            self.coeffs@.len() <= u32::MAX,
        ensures
            n == self@.len(),
    {
        self.coeffs.len() as u32
    }

    /// The coefficients, lowest degree first.
    pub fn as_slice(&self) -> (s: &[i16])
        ensures
            s@ == self.coeffs@,
    {
        self.coeffs.as_slice()
    }

    /// Polynomial of `upper_n` coefficients, each equal to `elem`.
    pub fn from_elem(upper_n: u32, elem: i16) -> (p: Self)
        ensures
            p@.len() == upper_n,
            forall|i: int| 0 <= i < upper_n ==> p@[i] == elem,
    {
        let mut coeffs: Vec<i16> = Vec::new();
        let mut i: u32 = 0;
        while i < upper_n
            invariant
                i <= upper_n,
                coeffs@.len() == i,
                forall|j: int| 0 <= j < i ==> coeffs@[j] == elem,
            decreases upper_n - i,
        {
            coeffs.push(elem);
            i += 1;
        }
        BinaryPolynomial { coeffs }
    }

    /// Polynomial of `upper_n` zero coefficients.
    pub fn zeroed(upper_n: u32) -> (p: Self)
        ensures
            p@.len() == upper_n,
            forall|i: int| 0 <= i < upper_n ==> p@[i] == 0,
    {
        Self::from_elem(upper_n, 0i16)
    }

    /// An iterator over the coefficients, lowest degree first.
    pub fn iter(&self) -> (it: core::slice::Iter<'_, i16>)
        ensures
            exists|s: &[i16]| s@ == self.coeffs@ && it == vstd::std_specs::slice::spec_slice_iter(s),
    {
        self.coeffs.as_slice().iter()
    }

    /// Reads coefficient `index`.
    pub fn get(&self, index: usize) -> (c: i16)
        requires
            index < self@.len(),
        ensures
            c == self@[index as int],
    {
        self.coeffs[index]
    }

    /// Overwrites coefficient `index`.
    pub fn set(&mut self, index: usize, value: i16)
        requires
            index < old(self)@.len(),
        ensures
            final(self)@ == old(self)@.update(index as int, value as int),
    {
        self.coeffs[index] = value;
        assert(self@ =~= old(self)@.update(index as int, value as int));
    }
}

} // verus!
