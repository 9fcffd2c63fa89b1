use vstd::prelude::*;
use crate::torus::Torus;
use crate::torus::wrap_add;
use crate::torus::wrap_sub;
use crate::torus::wrap_neg;

verus! {

/// Coefficient-wise sum of two coefficient sequences of one length.
pub open spec fn poly_add(a: Seq<int>, b: Seq<int>) -> Seq<int> {
    Seq::new(a.len(), |i: int| wrap_add(a[i], b[i]))
}

/// Coefficient-wise difference of two coefficient sequences of one length.
pub open spec fn poly_sub(a: Seq<int>, b: Seq<int>) -> Seq<int> {
    Seq::new(a.len(), |i: int| wrap_sub(a[i], b[i]))
}

/// Coefficient-wise negation.
pub open spec fn poly_neg(a: Seq<int>) -> Seq<int> {
    Seq::new(a.len(), |i: int| wrap_neg(a[i]))
}

/// Coefficient `i` of `p * X^a` modulo `X^N + 1`, where `N = p.len()` and `0 <= a < 2N`.
pub open spec fn rotated_coeff(p: Seq<int>, a: int, i: int) -> int {
    let n = p.len() as int;
    if a < n {
        if i < a { wrap_neg(p[i - a + n]) } else { p[i - a] }
    } else {
        if i < a - n { p[i - a + 2 * n] } else { wrap_neg(p[i - a + n]) }
    }
}

/// The product `p * X^a` modulo `X^N + 1`, where `N = p.len()` and `0 <= a < 2N`.
pub open spec fn poly_rotate(p: Seq<int>, a: int) -> Seq<int> {
    Seq::new(p.len(), |i: int| rotated_coeff(p, a, i))
}

/// The product `p * (X^a - 1)` modulo `X^N + 1`.
pub open spec fn poly_rotate_pred(p: Seq<int>, a: int) -> Seq<int> {
    poly_sub(poly_rotate(p, a), p)
}

/// Term `t` of coefficient `n` of the product `d * p` modulo `X^N + 1`, over the integers.
pub open spec fn conv_term(d: Seq<int>, p: Seq<int>, n: int, t: int) -> int {
    if t <= n {
        d[t] * p[n - t]
    } else {
        -(d[t] * p[p.len() + n - t])
    }
}

/// Sum of the first `upto` terms of coefficient `n` of `d * p` modulo `X^N + 1`.
pub open spec fn conv_sum(d: Seq<int>, p: Seq<int>, n: int, upto: nat) -> int
    decreases upto,
{
    if upto == 0 {
        0
    } else {
        conv_sum(d, p, n, (upto - 1) as nat) + conv_term(d, p, n, upto - 1)
    }
}

/// The product `d * p` modulo `X^N + 1` and `2^64`, for two sequences of one length `N`.
pub open spec fn poly_mul(d: Seq<int>, p: Seq<int>) -> Seq<int> {
    Seq::new(p.len(), |n: int| conv_sum(d, p, n, p.len()) % crate::torus::modulus())
}

/// A polynomial of fixed length whose every coefficient is `c`.
pub open spec fn poly_const(n: nat, c: int) -> Seq<int> {
    Seq::new(n, |i: int| c)
}

/// The polynomial of `n` coefficients with `c` in front and zero behind.
pub open spec fn constant_poly(n: nat, c: int) -> Seq<int> {
    Seq::new(n, |i: int| if i == 0 { c } else { 0 })
}

/// Every coefficient is a numerator in `[0, 2^64)`.
pub open spec fn poly_in_range(p: Seq<int>) -> bool {
    forall|i: int| 0 <= i < p.len() ==> 0 <= #[trigger] p[i] < crate::torus::modulus()
}

/// A polynomial over the torus modulo `X^N + 1`, coefficients lowest degree first.
pub struct TorusPolynomial {
    pub coeffs: Vec<Torus>,
}

impl View for TorusPolynomial {
    type V = Seq<int>;

    open spec fn view(&self) -> Seq<int> {
        Seq::new(self.coeffs@.len(), |i: int| self.coeffs@[i]@)
    }
}

impl Clone for TorusPolynomial {
    fn clone(&self) -> (r: Self)
        ensures
            r@ == self@,
    {
        let mut coeffs: Vec<Torus> = Vec::new();
        let mut i: usize = 0;
        while i < self.coeffs.len()
            invariant
                i <= self.coeffs@.len(),
                coeffs@.len() == i,
                forall|j: int| 0 <= j < i ==> coeffs@[j] == self.coeffs@[j],
            decreases self.coeffs@.len() - i,
        {
            coeffs.push(self.coeffs[i]);
            i += 1;
        }
        let r = TorusPolynomial { coeffs };
        assert(r@ =~= self@);
        r
    }
}

impl TorusPolynomial {
    /// Number of coefficients.
    pub fn upper_n(&self) -> (n: u32)
        requires
            self@.len() <= u32::MAX,
        ensures
            n == self@.len(),
    {
        self.coeffs.len() as u32
    }

    /// The coefficients, lowest degree first.
    pub fn as_slice(&self) -> (s: &[Torus])
        ensures
            s@ == self.coeffs@,
    {
        self.coeffs.as_slice()
    }

    /// An iterator over the coefficients, lowest degree first.
    pub fn iter(&self) -> (it: core::slice::Iter<'_, Torus>)
        ensures
            exists|s: &[Torus]| s@ == self.coeffs@ && it == vstd::std_specs::slice::spec_slice_iter(s),
    {
        self.coeffs.as_slice().iter()
    }

    /// Reads coefficient `index`.
    pub fn get(&self, index: usize) -> (c: Torus)
        requires
            index < self@.len(),
        ensures
            c@ == self@[index as int],
    {
        self.coeffs[index]
    }

    /// Overwrites coefficient `index`.
    pub fn set(&mut self, index: usize, value: Torus)
        requires
            index < old(self)@.len(),
        ensures
            final(self)@ == old(self)@.update(index as int, value@),
    {
        self.coeffs[index] = value;
        assert(self@ =~= old(self)@.update(index as int, value@));
    }

    /// Builds a polynomial from its coefficients.
    pub fn from_vec(coeffs: Vec<Torus>) -> (p: Self)
        ensures
            p.coeffs@ == coeffs@,
    {
        TorusPolynomial { coeffs }
    }

    /// Polynomial of `upper_n` coefficients, coefficient `i` being `f(i)`.
    pub fn from_fn<F: Fn(usize) -> Torus>(upper_n: u32, f: F) -> (p: Self)
        requires
            forall|i: usize| i < upper_n ==> call_requires(f, (i,)),
        ensures
            p@.len() == upper_n,
            forall|i: int|
                0 <= i < upper_n ==> call_ensures(f, (i as usize,), #[trigger] p.coeffs@[i]),
    {
        let mut coeffs: Vec<Torus> = Vec::new();
        let mut i: usize = 0;
        while i < upper_n as usize
            invariant
                i <= upper_n,
                forall|j: usize| j < upper_n ==> call_requires(f, (j,)),
                coeffs@.len() == i,
                forall|j: int| 0 <= j < i ==> call_ensures(f, (j as usize,), #[trigger] coeffs@[j]),
            decreases upper_n - i,
        {
            let v = f(i);
            coeffs.push(v);
            i += 1;
        }
        TorusPolynomial { coeffs }
    }

    /// Polynomial of `upper_n` coefficients, each equal to `elem`.
    pub fn from_elem(upper_n: u32, elem: Torus) -> (p: Self)
        ensures
            p@ == poly_const(upper_n as nat, elem@),
    {
        let mut coeffs: Vec<Torus> = Vec::new();
        let mut i: u32 = 0;
        while i < upper_n
            invariant
                i <= upper_n,
                coeffs@.len() == i,
                forall|j: int| 0 <= j < i ==> coeffs@[j] == elem,
            decreases upper_n - i,
        {
            coeffs.push(elem);
            i += 1;
        }
        let p = TorusPolynomial { coeffs };
        assert(p@ =~= poly_const(upper_n as nat, elem@));
        p
    }

    /// Polynomial of `upper_n` zero coefficients.
    pub fn zeroed(upper_n: u32) -> (p: Self)
        ensures
            p@ == poly_const(upper_n as nat, 0),
    {
        Self::from_elem(upper_n, Torus::min_value())
    }

    /// Coefficient-wise wraparound sum.
    pub fn add(&self, other: &Self) -> (r: Self)
        requires
            self@.len() == other@.len(),
        ensures
            r@ == poly_add(self@, other@),
    {
        let mut coeffs: Vec<Torus> = Vec::new();
        let mut i: usize = 0;
        while i < self.coeffs.len()
            invariant
                i <= self.coeffs@.len(),
                self.coeffs@.len() == other.coeffs@.len(),
                coeffs@.len() == i,
                forall|j: int| 0 <= j < i ==> coeffs@[j]@ == wrap_add(self@[j], other@[j]),
            decreases self.coeffs@.len() - i,
        {
            coeffs.push(self.coeffs[i].add(other.coeffs[i]));
            i += 1;
        }
        let r = TorusPolynomial { coeffs };
        assert(r@ =~= poly_add(self@, other@));
        r
    }

    /// Stores `lhs + rhs` in `self`.
    pub fn add_from(&mut self, lhs: &Self, rhs: &Self)
        requires
            lhs@.len() == rhs@.len(),
        ensures
            final(self)@ == poly_add(lhs@, rhs@),
    {
        *self = lhs.add(rhs);
    }

    /// Adds `other` to `self`.
    pub fn add_assign(&mut self, other: &Self)
        requires
            old(self)@.len() == other@.len(),
        ensures
            final(self)@ == poly_add(old(self)@, other@),
    {
        let r = self.add(other);
        *self = r;
    }

    /// Coefficient-wise wraparound difference.
    pub fn sub(&self, other: &Self) -> (r: Self)
        requires
            self@.len() == other@.len(),
        ensures
            r@ == poly_sub(self@, other@),
    {
        let mut coeffs: Vec<Torus> = Vec::new();
        let mut i: usize = 0;
        while i < self.coeffs.len()
            invariant
                i <= self.coeffs@.len(),
                self.coeffs@.len() == other.coeffs@.len(),
                coeffs@.len() == i,
                forall|j: int| 0 <= j < i ==> coeffs@[j]@ == wrap_sub(self@[j], other@[j]),
            decreases self.coeffs@.len() - i,
        {
            coeffs.push(self.coeffs[i].sub(other.coeffs[i]));
            i += 1;
        }
        let r = TorusPolynomial { coeffs };
        assert(r@ =~= poly_sub(self@, other@));
        r
    }

    /// Stores `lhs - rhs` in `self`.
    pub fn sub_from(&mut self, lhs: &Self, rhs: &Self)
        requires
            lhs@.len() == rhs@.len(),
        ensures
            final(self)@ == poly_sub(lhs@, rhs@),
    {
        *self = lhs.sub(rhs);
    }

    /// Subtracts `other` from `self`.
    pub fn sub_assign(&mut self, other: &Self)
        requires
            old(self)@.len() == other@.len(),
        ensures
            final(self)@ == poly_sub(old(self)@, other@),
    {
        let r = self.sub(other);
        *self = r;
    }

    /// Coefficient-wise negation.
    pub fn neg(&self) -> (r: Self)
        ensures
            r@ == poly_neg(self@),
    {
        let mut coeffs: Vec<Torus> = Vec::new();
        let mut i: usize = 0;
        while i < self.coeffs.len()
            invariant
                i <= self.coeffs@.len(),
                coeffs@.len() == i,
                forall|j: int| 0 <= j < i ==> coeffs@[j]@ == wrap_neg(self@[j]),
            decreases self.coeffs@.len() - i,
        {
            coeffs.push(self.coeffs[i].neg());
            i += 1;
        }
        let r = TorusPolynomial { coeffs };
        assert(r@ =~= poly_neg(self@));
        r
    }

    /// Stores `-source` in `self`.
    pub fn neg_from(&mut self, source: &Self)
        ensures
            final(self)@ == poly_neg(source@),
    {
        *self = source.neg();
    }

    /// The product `self * X^a` modulo `X^N + 1`.
    pub fn mul_by_xai(&self, a: u32) -> (r: Self)
        requires
            a < 2 * self@.len(),
        ensures
            r@ == poly_rotate(self@, a as int),
    {
        let n: usize = self.coeffs.len();
        let a: usize = a as usize;
        let mut coeffs: Vec<Torus> = Vec::new();
        let mut i: usize = 0;
        while i < n
            invariant
                i <= n,
                n == self.coeffs@.len(),
                a < 2 * n,
                coeffs@.len() == i,
                forall|j: int| 0 <= j < i ==> coeffs@[j]@ == rotated_coeff(self@, a as int, j),
            decreases n - i,
        {
            let c: Torus = if a < n {
                if i < a {
                    self.coeffs[i + (n - a)].neg()
                } else {
                    self.coeffs[i - a]
                }
            } else {
                if i < a - n {
                    self.coeffs[i + (n - (a - n))]
                } else {
                    self.coeffs[i - (a - n)].neg()
                }
            };
            coeffs.push(c);
            i += 1;
        }
        let r = TorusPolynomial { coeffs };
        assert(r@ =~= poly_rotate(self@, a as int));
        r
    }

    /// Stores `source * X^a` in `self`.
    pub fn mul_by_xai_from(&mut self, source: &Self, a: u32)
        requires
            a < 2 * source@.len(),
        ensures
            final(self)@ == poly_rotate(source@, a as int),
    {
        *self = source.mul_by_xai(a);
    }

    /// The product `self * (X^a - 1)` modulo `X^N + 1`.
    pub fn mul_by_xai_pred(&self, a: u32) -> (r: Self)
        requires
            a < 2 * self@.len(),
        ensures
            r@ == poly_rotate_pred(self@, a as int),
    {
        let rotated = self.mul_by_xai(a);
        rotated.sub(self)
    }

    /// Stores `source * (X^a - 1)` in `self`.
    pub fn mul_by_xai_pred_from(&mut self, source: &Self, a: u32)
        requires
            a < 2 * source@.len(),
        ensures
            final(self)@ == poly_rotate_pred(source@, a as int),
    {
        *self = source.mul_by_xai_pred(a);
    }

    /// The product `self * other` modulo `X^N + 1`, computed term by term with exact
    /// wraparound arithmetic.
    pub fn naive_mul(&self, other: &Self) -> (r: Self)
        requires
            self@.len() == other@.len(),
        ensures
            r@ == poly_mul(self@, other@),
    {
        let n: usize = self.coeffs.len();
        let mut coeffs: Vec<Torus> = Vec::new();
        let mut i: usize = 0;
        while i < n
            invariant
                i <= n,
                n == self.coeffs@.len(),
                n == other.coeffs@.len(),
                coeffs@.len() == i,
                forall|j: int| 0 <= j < i ==> coeffs@[j]@ == conv_sum(self@, other@, j, n as nat)
                    % crate::torus::modulus(),
            decreases n - i,
        {
            let mut acc: u64 = 0;
            let mut t: usize = 0;
            while t < n
                invariant
                    t <= n,
                    i < n,
                    n == self.coeffs@.len(),
                    n == other.coeffs@.len(),
                    acc as int == conv_sum(self@, other@, i as int, t as nat)
                        % crate::torus::modulus(),
                decreases n - t,
            {
                let ghost before = conv_sum(self@, other@, i as int, t as nat);
                if t <= i {
                    let prod: u64 = self.coeffs[t].0.wrapping_mul(other.coeffs[i - t].0);
                    proof {
                        let x = self@[t as int];
                        let y = other@[i - t];
                        assert(x * y >= 0) by (nonlinear_arith)
                            requires
                                x >= 0,
                                y >= 0,
                        ;
                        vstd::arithmetic::div_mod::lemma_mod_bound(x * y, crate::torus::modulus());
                        crate::modular::lemma_add_product_mod(before, x, y);
                    }
                    acc = acc.wrapping_add(prod);
                } else {
                    let prod: u64 = self.coeffs[t].0.wrapping_mul(other.coeffs[n - t + i].0);
                    proof {
                        let x = self@[t as int];
                        let y = other@[n + i - t];
                        assert(x * y >= 0) by (nonlinear_arith)
                            requires
                                x >= 0,
                                y >= 0,
                        ;
                        vstd::arithmetic::div_mod::lemma_mod_bound(x * y, crate::torus::modulus());
                        crate::modular::lemma_sub_product_mod(before, x, y);
                    }
                    acc = acc.wrapping_sub(prod);
                }
                t += 1;
            }
            coeffs.push(Torus(acc));
            i += 1;
        }
        let r = TorusPolynomial { coeffs };
        assert(r@ =~= poly_mul(self@, other@));
        r
    }

    /// Stores `lhs * rhs` in `self`.
    pub fn naive_mul_from(&mut self, lhs: &Self, rhs: &Self)
        requires
            lhs@.len() == rhs@.len(),
        ensures
            final(self)@ == poly_mul(lhs@, rhs@),
    {
        *self = lhs.naive_mul(rhs);
    }

    /// Adds `lhs * rhs` to `self`.
    pub fn naive_mul_add_assign(&mut self, lhs: &Self, rhs: &Self)
        requires
            lhs@.len() == rhs@.len(),
            old(self)@.len() == lhs@.len(),
        ensures
            final(self)@ == poly_add(old(self)@, poly_mul(lhs@, rhs@)),
    {
        let prod = lhs.naive_mul(rhs);
        let r = self.add(&prod);
        *self = r;
    }

    /// Digit `index` of the signed decomposition of every coefficient into `l` digits of
    /// `bg_bit` bits.
    pub fn decompose_index(&self, bg_bit: u32, l: u32, index: u32) -> (r: Self)
        requires
            crate::gadget::gadget_params_ok(l as nat, bg_bit as nat),
            index < l,
        ensures
            r@ == crate::gadget::gadget_digits(self@, bg_bit as nat, l as nat, index as nat),
    {
        let offset: u64 = crate::gadget::offset_word(l, bg_bit);
        let mut coeffs: Vec<Torus> = Vec::new();
        let mut i: usize = 0;
        while i < self.coeffs.len()
            invariant
                i <= self.coeffs@.len(),
                crate::gadget::gadget_params_ok(l as nat, bg_bit as nat),
                index < l,
                offset == crate::gadget::gadget_offset(bg_bit as nat, l as nat)
                    % crate::torus::modulus(),
                coeffs@.len() == i,
                forall|j: int| 0 <= j < i ==> coeffs@[j]@ == crate::gadget::gadget_digit(
                    self@[j],
                    bg_bit as nat,
                    l as nat,
                    index as nat,
                ),
            decreases self.coeffs@.len() - i,
        {
            coeffs.push(Torus(crate::gadget::digit_word(self.coeffs[i].0, offset, l, bg_bit, index)));
            i += 1;
        }
        let r = TorusPolynomial { coeffs };
        assert(r@ =~= crate::gadget::gadget_digits(self@, bg_bit as nat, l as nat, index as nat));
        r
    }

    /// Stores digit `i` of the decomposition of `source` in `self`.
    pub fn decompose_index_from(&mut self, source: &Self, bg_bit: u32, l: u32, i: u32)
        requires
            crate::gadget::gadget_params_ok(l as nat, bg_bit as nat),
            i < l,
        ensures
            final(self)@ == crate::gadget::gadget_digits(source@, bg_bit as nat, l as nat, i as nat),
    {
        *self = source.decompose_index(bg_bit, l, i);
    }

    /// Adds `other * X^a` to `self`.
    pub fn mul_by_xai_add_assign(&mut self, other: &Self, a: u32)
        requires
            old(self)@.len() == other@.len(),
            a < 2 * other@.len(),
        ensures
            final(self)@ == poly_add(old(self)@, poly_rotate(other@, a as int)),
    {
        let rotated = other.mul_by_xai(a);
        let r = self.add(&rotated);
        *self = r;
    }
}

/// The sum of two exponents below `2N`, reduced to `[0, 2N)`.
pub open spec fn exponent_sum(a: int, b: int, n: int) -> int {
    if a + b < 2 * n {
        a + b
    } else {
        a + b - 2 * n
    }
}

/// Rotating by `X^a` and then by `X^b` is rotating by `X^(a+b)`, the exponent taken
/// modulo `2N`.
pub proof fn lemma_rotate_twice(p: Seq<int>, a: int, b: int)
    requires
        poly_in_range(p),
        0 <= a < 2 * p.len(),
        0 <= b < 2 * p.len(),
    ensures
        poly_rotate(poly_rotate(p, a), b) == poly_rotate(p, exponent_sum(a, b, p.len() as int)),
{
    let n = p.len() as int;
    let q = poly_rotate(p, a);
    let e = exponent_sum(a, b, n);
    assert forall|i: int| 0 <= i < n implies rotated_coeff(q, b, i) == rotated_coeff(p, e, i) by {
        assert forall|j: int| 0 <= j < n implies wrap_neg(wrap_neg(#[trigger] p[j])) == p[j] by {
            let x = p[j];
            if x == 0 {
                vstd::arithmetic::div_mod::lemma_small_mod(0nat, crate::torus::modulus() as nat);
            } else {
                vstd::arithmetic::div_mod::lemma_mod_add_multiples_vanish(
                    -x,
                    crate::torus::modulus(),
                );
                vstd::arithmetic::div_mod::lemma_small_mod(
                    (crate::torus::modulus() - x) as nat,
                    crate::torus::modulus() as nat,
                );
                vstd::arithmetic::div_mod::lemma_mod_add_multiples_vanish(
                    x - crate::torus::modulus(),
                    crate::torus::modulus(),
                );
                vstd::arithmetic::div_mod::lemma_small_mod(
                    x as nat,
                    crate::torus::modulus() as nat,
                );
            }
        }
    }
    assert(poly_rotate(q, b) =~= poly_rotate(p, e));
}

/// Rotating by `X^0` changes nothing.
pub proof fn lemma_rotate_zero(p: Seq<int>)
    ensures
        poly_rotate(p, 0) == p,
{
    assert(poly_rotate(p, 0) =~= p);
}

/// The terms of a product with a sum or a difference of polynomials add up, modulo
/// `2^64`, to the sum or the difference of the terms of the two products.
pub proof fn lemma_conv_linear(d: Seq<int>, p: Seq<int>, q: Seq<int>, n: int, upto: nat)
    requires
        d.len() == p.len(),
        p.len() == q.len(),
        0 <= n < p.len(),
        upto <= p.len(),
    ensures
        conv_sum(d, poly_add(p, q), n, upto) % crate::torus::modulus() == (conv_sum(d, p, n, upto)
            + conv_sum(d, q, n, upto)) % crate::torus::modulus(),
        conv_sum(d, poly_sub(p, q), n, upto) % crate::torus::modulus() == (conv_sum(d, p, n, upto)
            - conv_sum(d, q, n, upto)) % crate::torus::modulus(),
    decreases upto,
{
    let m = crate::torus::modulus();
    if upto > 0 {
        let t = upto - 1;
        lemma_conv_linear(d, p, q, n, t as nat);
        let i = if t <= n { n - t } else { p.len() + n - t };
        let x = p[i];
        let y = q[i];
        let k = d[t];
        assert(poly_add(p, q)[i] == (x + y) % m);
        assert(poly_sub(p, q)[i] == (x - y) % m);
        vstd::arithmetic::div_mod::lemma_mul_mod_noop_right(k, x + y, m);
        vstd::arithmetic::div_mod::lemma_mul_mod_noop_right(k, x - y, m);
        assert(k * (x + y) == k * x + k * y) by (nonlinear_arith);
        assert(k * (x - y) == k * x - k * y) by (nonlinear_arith);
        let sp = conv_sum(d, p, n, t as nat);
        let sq = conv_sum(d, q, n, t as nat);
        let sa = conv_sum(d, poly_add(p, q), n, t as nat);
        let ss = conv_sum(d, poly_sub(p, q), n, t as nat);
        let ta = k * ((x + y) % m);
        let ts = k * ((x - y) % m);
        if t <= n {
            vstd::arithmetic::div_mod::lemma_add_mod_noop(sa, ta, m);
            vstd::arithmetic::div_mod::lemma_add_mod_noop(sp + sq, k * (x + y), m);
            vstd::arithmetic::div_mod::lemma_add_mod_noop(ss, ts, m);
            vstd::arithmetic::div_mod::lemma_add_mod_noop(sp - sq, k * (x - y), m);
        } else {
            vstd::arithmetic::div_mod::lemma_sub_mod_noop(sa, ta, m);
            vstd::arithmetic::div_mod::lemma_sub_mod_noop(sp + sq, k * (x + y), m);
            vstd::arithmetic::div_mod::lemma_sub_mod_noop(ss, ts, m);
            vstd::arithmetic::div_mod::lemma_sub_mod_noop(sp - sq, k * (x - y), m);
        }
    }
}

/// The product with a sum or a difference of polynomials is the sum or the difference of
/// the products.
pub proof fn lemma_mul_linear(d: Seq<int>, p: Seq<int>, q: Seq<int>)
    requires
        d.len() == p.len(),
        p.len() == q.len(),
    ensures
        poly_mul(d, poly_add(p, q)) == poly_add(poly_mul(d, p), poly_mul(d, q)),
        poly_mul(d, poly_sub(p, q)) == poly_sub(poly_mul(d, p), poly_mul(d, q)),
{
    let m = crate::torus::modulus();
    let len = p.len();
    assert forall|n: int| 0 <= n < len implies #[trigger] poly_mul(d, poly_add(p, q))[n]
        == poly_add(poly_mul(d, p), poly_mul(d, q))[n] by {
        lemma_conv_linear(d, p, q, n, len);
        vstd::arithmetic::div_mod::lemma_add_mod_noop(
            conv_sum(d, p, n, len),
            conv_sum(d, q, n, len),
            m,
        );
    }
    assert forall|n: int| 0 <= n < len implies #[trigger] poly_mul(d, poly_sub(p, q))[n]
        == poly_sub(poly_mul(d, p), poly_mul(d, q))[n] by {
        lemma_conv_linear(d, p, q, n, len);
        vstd::arithmetic::div_mod::lemma_sub_mod_noop(
            conv_sum(d, p, n, len),
            conv_sum(d, q, n, len),
            m,
        );
    }
    assert(poly_mul(d, poly_add(p, q)) =~= poly_add(poly_mul(d, p), poly_mul(d, q)));
    assert(poly_mul(d, poly_sub(p, q)) =~= poly_sub(poly_mul(d, p), poly_mul(d, q)));
}

/// Sums and differences of sums and differences may be regrouped:
/// `(a + b) + (c + d) = (a + c) + (b + d)`, `(a - b) - (c - d) = (a - c) - (b - d)`,
/// `(a + b) - (c + d) = (a - c) + (b - d)` and `(a - b) + (c - d) = (a + c) - (b + d)`.
pub proof fn lemma_regroup(a: Seq<int>, b: Seq<int>, c: Seq<int>, d: Seq<int>)
    requires
        a.len() == b.len(),
        a.len() == c.len(),
        a.len() == d.len(),
    ensures
        poly_add(poly_add(a, b), poly_add(c, d)) == poly_add(poly_add(a, c), poly_add(b, d)),
        poly_sub(poly_sub(a, b), poly_sub(c, d)) == poly_sub(poly_sub(a, c), poly_sub(b, d)),
        poly_sub(poly_add(a, b), poly_add(c, d)) == poly_add(poly_sub(a, c), poly_sub(b, d)),
        poly_add(poly_sub(a, b), poly_sub(c, d)) == poly_sub(poly_add(a, c), poly_add(b, d)),
{
    let m = crate::torus::modulus();
    assert forall|i: int| 0 <= i < a.len() implies {
        &&& wrap_add(wrap_add(a[i], b[i]), wrap_add(c[i], d[i])) == wrap_add(
            wrap_add(a[i], c[i]),
            wrap_add(b[i], d[i]),
        )
        &&& wrap_sub(wrap_sub(a[i], b[i]), wrap_sub(c[i], d[i])) == wrap_sub(
            wrap_sub(a[i], c[i]),
            wrap_sub(b[i], d[i]),
        )
        &&& wrap_sub(wrap_add(a[i], b[i]), wrap_add(c[i], d[i])) == wrap_add(
            wrap_sub(a[i], c[i]),
            wrap_sub(b[i], d[i]),
        )
        &&& wrap_add(wrap_sub(a[i], b[i]), wrap_sub(c[i], d[i])) == wrap_sub(
            wrap_add(a[i], c[i]),
            wrap_add(b[i], d[i]),
        )
    } by {
        let (w, x, y, z) = (a[i], b[i], c[i], d[i]);
        vstd::arithmetic::div_mod::lemma_add_mod_noop(w + x, y + z, m);
        vstd::arithmetic::div_mod::lemma_add_mod_noop(w + y, x + z, m);
        vstd::arithmetic::div_mod::lemma_sub_mod_noop(w - x, y - z, m);
        vstd::arithmetic::div_mod::lemma_sub_mod_noop(w - y, x - z, m);
        vstd::arithmetic::div_mod::lemma_sub_mod_noop(w + x, y + z, m);
        vstd::arithmetic::div_mod::lemma_add_mod_noop(w - y, x - z, m);
        vstd::arithmetic::div_mod::lemma_add_mod_noop(w - x, y - z, m);
        vstd::arithmetic::div_mod::lemma_sub_mod_noop(w + y, x + z, m);
    }
    assert(poly_add(poly_add(a, b), poly_add(c, d)) =~= poly_add(poly_add(a, c), poly_add(b, d)));
    assert(poly_sub(poly_sub(a, b), poly_sub(c, d)) =~= poly_sub(poly_sub(a, c), poly_sub(b, d)));
    assert(poly_sub(poly_add(a, b), poly_add(c, d)) =~= poly_add(poly_sub(a, c), poly_sub(b, d)));
    assert(poly_add(poly_sub(a, b), poly_sub(c, d)) =~= poly_sub(poly_add(a, c), poly_add(b, d)));
}

/// The coefficient of `p` that ends up, with the sign `rotation_sign`, in coefficient `n`
/// of `p * X^e`.
pub open spec fn rotation_source(len: int, e: int, n: int) -> int {
    if e < len {
        if n < e { n - e + len } else { n - e }
    } else {
        if n < e - len { n - e + 2 * len } else { n - e + len }
    }
}

/// The sign with which coefficient `rotation_source` of `p` ends up in coefficient `n` of
/// `p * X^e`: `-1` where it passed the end of the polynomial an odd number of times.
pub open spec fn rotation_sign(len: int, e: int, n: int) -> int {
    if e < len {
        if n < e { -1 } else { 1 }
    } else {
        if n < e - len { 1 } else { -1 }
    }
}

/// One term of a product with a rotated polynomial is, modulo `2^64`, the matching term
/// of the product with the polynomial itself, taken at the coefficient that the rotation
/// brings to `n` and with the sign of the rotation.
proof fn lemma_conv_term_rotated(d: Seq<int>, p: Seq<int>, e: int, n: int, t: int)
    requires
        d.len() == p.len(),
        0 <= e < 2 * p.len(),
        0 <= n < p.len(),
        0 <= t < p.len(),
    ensures
        conv_term(d, poly_rotate(p, e), n, t) % crate::torus::modulus() == (rotation_sign(
            p.len() as int,
            e,
            n,
        ) * conv_term(d, p, rotation_source(p.len() as int, e, n), t)) % crate::torus::modulus(),
{
    let m = crate::torus::modulus();
    let len = p.len() as int;
    let r = poly_rotate(p, e);
    let j = if t <= n { n - t } else { len + n - t };
    let src = rotation_source(len, e, n);
    let sgn = rotation_sign(len, e, n);
    let q = rotation_source(len, e, j);
    let s1 = rotation_sign(len, e, j);
    let q2 = if t <= src { src - t } else { len + src - t };
    assert(q == q2);
    assert(r[j] == if s1 == 1 { p[q] } else { wrap_neg(p[q]) });
    let k = d[t];
    let v = p[q];
    vstd::arithmetic::div_mod::lemma_mul_mod_noop_right(k, -v, m);
    vstd::arithmetic::div_mod::lemma_sub_mod_noop(0, k * ((-v) % m), m);
    vstd::arithmetic::div_mod::lemma_sub_mod_noop(0, k * (-v), m);
    assert(k * (-v) == -(k * v)) by (nonlinear_arith);
    assert(-(k * (-v)) == k * v) by (nonlinear_arith);
    let s0: int = if t <= n { 1 } else { -1 };
    let s2: int = if t <= src { 1 } else { -1 };
    assert((s0 == s1) <==> (sgn == s2));
    if sgn == 1 {
        assert(1 * conv_term(d, p, src, t) == conv_term(d, p, src, t));
    } else {
        assert((-1) * conv_term(d, p, src, t) == -conv_term(d, p, src, t));
    }
}

/// The terms of a product with a rotated polynomial add up, modulo `2^64`, to the terms
/// of the product with the polynomial itself at the coefficient that the rotation brings
/// to `n`, with the sign of the rotation.
proof fn lemma_conv_rotated(d: Seq<int>, p: Seq<int>, e: int, n: int, upto: nat)
    requires
        d.len() == p.len(),
        0 <= e < 2 * p.len(),
        0 <= n < p.len(),
        upto <= p.len(),
    ensures
        conv_sum(d, poly_rotate(p, e), n, upto) % crate::torus::modulus() == (rotation_sign(
            p.len() as int,
            e,
            n,
        ) * conv_sum(d, p, rotation_source(p.len() as int, e, n), upto)) % crate::torus::modulus(),
    decreases upto,
{
    let m = crate::torus::modulus();
    let len = p.len() as int;
    let sgn = rotation_sign(len, e, n);
    let src = rotation_source(len, e, n);
    if upto == 0 {
        assert(sgn * 0 == 0);
    } else {
        let t = (upto - 1) as nat;
        lemma_conv_rotated(d, p, e, n, t);
        lemma_conv_term_rotated(d, p, e, n, t as int);
        let a = conv_sum(d, poly_rotate(p, e), n, t);
        let b = conv_term(d, poly_rotate(p, e), n, t as int);
        let a2 = conv_sum(d, p, src, t);
        let b2 = conv_term(d, p, src, t as int);
        vstd::arithmetic::div_mod::lemma_add_mod_noop(a, b, m);
        vstd::arithmetic::div_mod::lemma_add_mod_noop(sgn * a2, sgn * b2, m);
        assert(sgn * (a2 + b2) == sgn * a2 + sgn * b2) by (nonlinear_arith);
    }
}

/// Multiplying by a polynomial and rotating by `X^e` commute.
pub proof fn lemma_mul_rotate(d: Seq<int>, p: Seq<int>, e: int)
    requires
        d.len() == p.len(),
        0 <= e < 2 * p.len(),
    ensures
        poly_mul(d, poly_rotate(p, e)) == poly_rotate(poly_mul(d, p), e),
{
    let m = crate::torus::modulus();
    let len = p.len();
    let left = poly_mul(d, poly_rotate(p, e));
    let right = poly_rotate(poly_mul(d, p), e);
    assert forall|n: int| 0 <= n < len implies #[trigger] left[n] == right[n] by {
        lemma_conv_rotated(d, p, e, n, len);
        let src = rotation_source(len as int, e, n);
        let sgn = rotation_sign(len as int, e, n);
        let c = conv_sum(d, p, src, len);
        assert(poly_mul(d, p)[src] == c % m);
        assert(right[n] == if sgn == 1 { c % m } else { wrap_neg(c % m) });
        vstd::arithmetic::div_mod::lemma_mod_twice(c, m);
        vstd::arithmetic::div_mod::lemma_sub_mod_noop(0, c, m);
        vstd::arithmetic::div_mod::lemma_small_mod(0nat, m as nat);
        if sgn == 1 {
            assert(1 * c == c);
        } else {
            assert((-1) * c == -c);
        }
    }
    assert(left =~= right);
}

/// Rotating by `X^e` distributes over sums and differences, and leaves zero zero.
pub proof fn lemma_rotate_linear(a: Seq<int>, b: Seq<int>, e: int)
    requires
        a.len() == b.len(),
        0 <= e < 2 * a.len(),
    ensures
        poly_rotate(poly_add(a, b), e) == poly_add(poly_rotate(a, e), poly_rotate(b, e)),
        poly_rotate(poly_sub(a, b), e) == poly_sub(poly_rotate(a, e), poly_rotate(b, e)),
        poly_rotate(poly_const(a.len(), 0), e) == poly_const(a.len(), 0),
{
    let m = crate::torus::modulus();
    let len = a.len() as int;
    assert forall|n: int| 0 <= n < len implies {
        &&& #[trigger] poly_rotate(poly_add(a, b), e)[n] == poly_add(
            poly_rotate(a, e),
            poly_rotate(b, e),
        )[n]
        &&& poly_rotate(poly_sub(a, b), e)[n] == poly_sub(poly_rotate(a, e), poly_rotate(b, e))[n]
        &&& poly_rotate(poly_const(a.len(), 0), e)[n] == 0
    } by {
        let src = rotation_source(len, e, n);
        let x = a[src];
        let y = b[src];
        assert(poly_add(a, b)[src] == (x + y) % m);
        assert(poly_sub(a, b)[src] == (x - y) % m);
        vstd::arithmetic::div_mod::lemma_sub_mod_noop(0, x + y, m);
        vstd::arithmetic::div_mod::lemma_sub_mod_noop(0, x - y, m);
        vstd::arithmetic::div_mod::lemma_add_mod_noop(-x, -y, m);
        vstd::arithmetic::div_mod::lemma_sub_mod_noop(-x, -y, m);
        vstd::arithmetic::div_mod::lemma_small_mod(0nat, m as nat);
    }
    assert(poly_rotate(poly_add(a, b), e) =~= poly_add(poly_rotate(a, e), poly_rotate(b, e)));
    assert(poly_rotate(poly_sub(a, b), e) =~= poly_sub(poly_rotate(a, e), poly_rotate(b, e)));
    assert(poly_rotate(poly_const(a.len(), 0), e) =~= poly_const(a.len(), 0));
}

/// Every coefficient multiplied by the integer `c`, modulo `2^64`.
pub open spec fn poly_scale(c: int, p: Seq<int>) -> Seq<int> {
    Seq::new(p.len(), |i: int| (c * p[i]) % crate::torus::modulus())
}

/// The terms of a product with a scaled polynomial add up, modulo `2^64`, to the scaled
/// terms of the product with the polynomial itself.
proof fn lemma_conv_scaled(d: Seq<int>, p: Seq<int>, c: int, n: int, upto: nat)
    requires
        d.len() == p.len(),
        0 <= n < p.len(),
        upto <= p.len(),
    ensures
        conv_sum(d, poly_scale(c, p), n, upto) % crate::torus::modulus() == (c * conv_sum(
            d,
            p,
            n,
            upto,
        )) % crate::torus::modulus(),
    decreases upto,
{
    let m = crate::torus::modulus();
    if upto == 0 {
        assert(c * 0 == 0);
    } else {
        let t = upto - 1;
        lemma_conv_scaled(d, p, c, n, t as nat);
        let i = if t <= n { n - t } else { p.len() + n - t };
        let k = d[t];
        let v = p[i];
        assert(poly_scale(c, p)[i] == (c * v) % m);
        vstd::arithmetic::div_mod::lemma_mul_mod_noop_right(k, c * v, m);
        assert(k * (c * v) == c * (k * v)) by (nonlinear_arith);
        let a = conv_sum(d, poly_scale(c, p), n, t as nat);
        let b = conv_sum(d, p, n, t as nat);
        let ta = k * ((c * v) % m);
        if t <= n {
            vstd::arithmetic::div_mod::lemma_add_mod_noop(a, ta, m);
            vstd::arithmetic::div_mod::lemma_add_mod_noop(c * b, c * (k * v), m);
            assert(c * (b + k * v) == c * b + c * (k * v)) by (nonlinear_arith);
        } else {
            vstd::arithmetic::div_mod::lemma_sub_mod_noop(a, ta, m);
            vstd::arithmetic::div_mod::lemma_sub_mod_noop(c * b, c * (k * v), m);
            assert(c * (b - k * v) == c * b - c * (k * v)) by (nonlinear_arith);
        }
    }
}

/// Multiplying by a polynomial and scaling by an integer commute.
pub proof fn lemma_mul_scale(d: Seq<int>, p: Seq<int>, c: int)
    requires
        d.len() == p.len(),
    ensures
        poly_mul(d, poly_scale(c, p)) == poly_scale(c, poly_mul(d, p)),
{
    let m = crate::torus::modulus();
    let len = p.len();
    assert forall|n: int| 0 <= n < len implies #[trigger] poly_mul(d, poly_scale(c, p))[n]
        == poly_scale(c, poly_mul(d, p))[n] by {
        lemma_conv_scaled(d, p, c, n, len);
        vstd::arithmetic::div_mod::lemma_mul_mod_noop_right(c, conv_sum(d, p, n, len), m);
    }
    assert(poly_mul(d, poly_scale(c, p)) =~= poly_scale(c, poly_mul(d, p)));
}

/// The sum of the first `upto` rotations of `p`, rotation `t` scaled by coefficient `t` of
/// `d`: the product `d * p` written as a sum over the coefficients of `d`.
pub open spec fn rotation_sum(d: Seq<int>, p: Seq<int>, upto: nat) -> Seq<int>
    decreases upto,
{
    if upto == 0 {
        poly_const(p.len(), 0)
    } else {
        poly_add(
            rotation_sum(d, p, (upto - 1) as nat),
            poly_scale(d[upto - 1], poly_rotate(p, upto - 1)),
        )
    }
}

/// Coefficient `n` of the sum of the first `upto` scaled rotations is the residue of the
/// first `upto` terms of coefficient `n` of the product.
proof fn lemma_rotation_sum_coefficient(d: Seq<int>, p: Seq<int>, n: int, upto: nat)
    requires
        d.len() == p.len(),
        0 <= n < p.len(),
        upto <= p.len(),
    ensures
        rotation_sum(d, p, upto).len() == p.len(),
        rotation_sum(d, p, upto)[n] == conv_sum(d, p, n, upto) % crate::torus::modulus(),
    decreases upto,
{
    let m = crate::torus::modulus();
    if upto == 0 {
        vstd::arithmetic::div_mod::lemma_small_mod(0nat, m as nat);
    } else {
        let t = (upto - 1) as int;
        lemma_rotation_sum_coefficient(d, p, n, t as nat);
        let k = d[t];
        let r = poly_rotate(p, t)[n];
        let term = conv_term(d, p, n, t);
        // the scaled rotated coefficient and the term agree modulo 2^64
        if t <= n {
            assert(r == p[n - t]);
            assert(term == k * r);
        } else {
            let v = p[p.len() + n - t];
            assert(r == wrap_neg(v));
            vstd::arithmetic::div_mod::lemma_mul_mod_noop_right(k, -v, m);
            assert(k * (-v) == -(k * v)) by (nonlinear_arith);
        }
        assert((k * r) % m == term % m);
        let before = conv_sum(d, p, n, t as nat);
        vstd::arithmetic::div_mod::lemma_add_mod_noop(before, k * r, m);
        vstd::arithmetic::div_mod::lemma_add_mod_noop(before, term, m);
        vstd::arithmetic::div_mod::lemma_mod_twice(k * r, m);
        vstd::arithmetic::div_mod::lemma_add_mod_noop(before % m, (k * r) % m, m);
        vstd::arithmetic::div_mod::lemma_mod_twice(before, m);
    }
}

/// A product is the sum of the rotations of one factor, scaled by the coefficients of
/// the other.
pub proof fn lemma_mul_is_rotation_sum(d: Seq<int>, p: Seq<int>)
    requires
        d.len() == p.len(),
    ensures
        poly_mul(d, p) == rotation_sum(d, p, p.len()),
{
    let len = p.len();
    if len == 0 {
        assert(poly_mul(d, p) =~= rotation_sum(d, p, 0));
    } else {
        assert forall|n: int| 0 <= n < len implies #[trigger] poly_mul(d, p)[n] == rotation_sum(
            d,
            p,
            len,
        )[n] by {
            lemma_rotation_sum_coefficient(d, p, n, len);
        }
        lemma_rotation_sum_coefficient(d, p, 0, len);
        assert(poly_mul(d, p) =~= rotation_sum(d, p, len));
    }
}

/// The product of anything with the zero polynomial is zero.
pub proof fn lemma_mul_zero(d: Seq<int>, n: nat)
    requires
        d.len() == n,
    ensures
        poly_mul(d, poly_const(n, 0)) == poly_const(n, 0),
{
    let z = poly_const(n, 0);
    assert(poly_scale(0, z) =~= z) by {
        vstd::arithmetic::div_mod::lemma_small_mod(0nat, crate::torus::modulus() as nat);
    }
    lemma_mul_scale(d, z, 0);
    assert(poly_scale(0, poly_mul(d, z)) =~= z) by {
        vstd::arithmetic::div_mod::lemma_small_mod(0nat, crate::torus::modulus() as nat);
        assert forall|i: int| 0 <= i < n implies 0 * #[trigger] poly_mul(d, z)[i] == 0 by {}
    }
}

/// Two multipliers may be applied in either order: `s * (d * a) = d * (s * a)`.
pub proof fn lemma_mul_commutes(s: Seq<int>, d: Seq<int>, a: Seq<int>)
    requires
        s.len() == a.len(),
        d.len() == a.len(),
    ensures
        poly_mul(s, poly_mul(d, a)) == poly_mul(d, poly_mul(s, a)),
{
    lemma_mul_is_rotation_sum(d, a);
    lemma_mul_is_rotation_sum(d, poly_mul(s, a));
    lemma_mul_through_rotation_sum(s, d, a, a.len());
}

/// A multiplier goes through a sum of scaled rotations term by term.
proof fn lemma_mul_through_rotation_sum(s: Seq<int>, d: Seq<int>, a: Seq<int>, upto: nat)
    requires
        s.len() == a.len(),
        d.len() == a.len(),
        upto <= a.len(),
    ensures
        poly_mul(s, rotation_sum(d, a, upto)) == rotation_sum(d, poly_mul(s, a), upto),
    decreases upto,
{
    let n = a.len();
    if upto == 0 {
        lemma_mul_zero(s, n);
    } else {
        let t = (upto - 1) as nat;
        lemma_mul_through_rotation_sum(s, d, a, t);
        let rot = poly_rotate(a, t as int);
        let term = poly_scale(d[t as int], rot);
        if n > 0 {
            lemma_rotation_sum_coefficient(d, a, 0, t);
        }
        lemma_mul_linear(s, rotation_sum(d, a, t), term);
        lemma_mul_scale(s, rot, d[t as int]);
        lemma_mul_rotate(s, a, t as int);
    }
}

} // verus!
