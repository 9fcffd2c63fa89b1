use vstd::prelude::*;
use vstd::arithmetic::power2::pow2;
use crate::gadget::gadget_params_ok;
use crate::gadget::pow2_word;
use crate::gadget::round_word;
use crate::gadget::switch_digit;
use crate::gadget::switch_digit_word;
use crate::poly::torus::TorusPolynomial;
use crate::poly::torus::constant_poly;
use crate::poly::torus::poly_const;
use crate::tlwe::key::TlweKey;
use crate::tlwe::sample::TlweArray;
use crate::tlwe::sample::TlweView;
use crate::torus::Torus;
use crate::torus::modulus;
use crate::trgsw::dft::bank_wf;
use crate::trgsw::sample::bank;
use crate::gadget::digit_weight;
use crate::trlwe::key::TrlweKey;
use crate::trlwe::sample::Trlwe;
use crate::trlwe::sample::lemma_shape_carries;
use crate::trlwe::sample::lemma_shapes_agree;
use crate::trlwe::sample::scaled_row;
use crate::trlwe::sample::trlwe_add;
use crate::trlwe::sample::trlwe_phase;
use crate::trlwe::sample::trlwe_shape;
use crate::trlwe::sample::trlwe_sub;
use crate::trlwe::sample::trlwe_trivial;

verus! {

/// What a packing key holds: `n * t` polynomial ciphertexts and the two parameters of the
/// decomposition. Row `i * t + j` seals coefficient `i` of the scalar key times the
/// weight of digit `j`, as a constant polynomial.
pub struct PackKeyView {
    pub rows: Seq<Seq<Seq<int>>>,
    pub t: nat,
    pub base_bit: nat,
}

/// The bodies of a window of scalar ciphertexts as the coefficients of one polynomial,
/// zero behind the window.
pub open spec fn pack_body(w: Seq<TlweView>, n: nat) -> Seq<int> {
    Seq::new(n, |r: int| if r < w.len() { w[r].body } else { 0 })
}

/// Digit `j` of mask entry `i` of every ciphertext of the window, as the coefficients of
/// one polynomial, zero behind the window.
pub open spec fn pack_digits(w: Seq<TlweView>, n: nat, i: int, t: nat, base_bit: nat, j: nat) -> Seq<
    int,
> {
    Seq::new(n, |r: int| if r < w.len() { switch_digit(w[r].mask[i], t, base_bit, j) } else { 0 })
}

/// The sum of the first `upto` terms of a packing: term `q` is row `q` of the key times
/// the polynomial of the digits `q % t` of the mask entries `q / t`.
pub open spec fn pack_sum(w: Seq<TlweView>, key: PackKeyView, k: nat, n: nat, upto: nat) -> Seq<
    Seq<int>,
>
    decreases upto,
{
    if upto == 0 {
        trlwe_trivial(k, poly_const(n, 0))
    } else {
        let q = upto - 1;
        trlwe_add(
            pack_sum(w, key, k, n, q as nat),
            scaled_row(
                pack_digits(w, n, q / (key.t as int), key.t, key.base_bit, (q % (key.t as int)) as nat),
                key.rows[q],
            ),
        )
    }
}

/// The polynomial ciphertext that packs the window `w`: the trivial ciphertext of the
/// bodies minus the key rows times the digits of the masks. Its coefficient `r` decrypts
/// to what `w[r]` decrypts to, up to the rounding of the masks to `t` digits.
pub open spec fn packed(w: Seq<TlweView>, key: PackKeyView, k: nat, n: nat) -> Seq<Seq<int>> {
    trlwe_sub(trlwe_trivial(k, pack_body(w, n)), pack_sum(w, key, k, n, key.rows.len()))
}

/// Key of the packing key switch, from a scalar key to a polynomial key.
pub struct TrlwePKSKey {
    pub rows: Vec<Trlwe>,
    pub t: u32,
    pub base_bit: u32,
}

impl View for TrlwePKSKey {
    type V = PackKeyView;

    open spec fn view(&self) -> PackKeyView {
        PackKeyView { rows: bank(self.rows@), t: self.t as nat, base_bit: self.base_bit as nat }
    }
}

impl TrlwePKSKey {
    /// Valid parameters, a whole number of rows per input coefficient, and every row
    /// well formed and of one shape.
    pub open spec fn wf(&self) -> bool {
        &&& gadget_params_ok(self.t as nat, self.base_bit as nat)
        &&& self.rows@.len() >= 1
        &&& self.rows@.len() == self.spec_in_n() * self.t
        &&& bank_wf(self.rows@, self.rows@[0].spec_k(), self.rows@[0].spec_n())
    }

    /// Number of coefficients of the scalar key that the packing starts from.
    pub open spec fn spec_in_n(&self) -> nat {
        self.rows@.len() / (self.t as nat)
    }

    /// Builds the packing key from `from_key` to `into_key`: for every coefficient `s_i`
    /// of `from_key` and every digit `j`, a fresh sealing under `into_key` of the constant
    /// `s_i * 2^(64 - (j + 1) * base_bit)`.
    pub fn new(from_key: &TlweKey, into_key: &TrlweKey, t: u32, base_bit: u32) -> (key: Self)
        requires
            into_key.wf(),
            gadget_params_ok(t as nat, base_bit as nat),
            1 <= from_key@.len(),
            from_key@.len() * t <= usize::MAX,
            1 <= into_key@[0].len(),
        ensures
            key.wf(),
            key.t == t,
            key.base_bit == base_bit,
            key.spec_in_n() == from_key@.len(),
            key.rows@[0].spec_k() == into_key@.len(),
            key.rows@[0].spec_n() == into_key@[0].len(),
            pack_key_seals(key@, from_key@, into_key@, into_key@[0].len()),
            forall|q: int|
                0 <= q < key@.rows.len() ==> trlwe_phase(#[trigger] key@.rows[q], into_key@)
                    == constant_poly(
                    into_key@[0].len(),
                    (from_key@[q / (t as int)] * digit_weight(
                        base_bit as nat,
                        (q % (t as int)) as nat,
                    )) % modulus(),
                ),
    {
        let n_in: usize = from_key.s.len();
        let upper_n: u32 = into_key.upper_n();
        let total: usize = n_in * (t as usize);
        let mut rows: Vec<Trlwe> = Vec::new();
        let mut q: usize = 0;
        proof {
            assert(t <= 64 && base_bit <= 64) by (nonlinear_arith)
                requires
                    1 <= t,
                    1 <= base_bit,
                    t * base_bit <= 64,
            ;
            assert(total >= 1) by (nonlinear_arith)
                requires
                    total == n_in * t,
                    n_in >= 1,
                    t >= 1,
            ;
        }
        while q < total
            invariant
                q <= total,
                total == n_in * t,
                n_in == from_key@.len(),
                upper_n == into_key@[0].len(),
                1 <= upper_n,
                into_key.wf(),
                gadget_params_ok(t as nat, base_bit as nat),
                t <= 64,
                base_bit <= 64,
                rows@.len() == q,
                bank_wf(rows@, into_key@.len(), into_key@[0].len()),
                forall|p: int|
                    0 <= p < q ==> trlwe_phase((#[trigger] rows@[p])@, into_key@) == constant_poly(
                        into_key@[0].len(),
                        (from_key@[p / (t as int)] * digit_weight(
                            base_bit as nat,
                            (p % (t as int)) as nat,
                        )) % modulus(),
                    ),
            decreases total - q,
        {
            let i: usize = q / (t as usize);
            let j: u32 = (q % (t as usize)) as u32;
            proof {
                assert(i < n_in) by (nonlinear_arith)
                    requires
                        q < n_in * t,
                        i == q / (t as usize),
                        t >= 1,
                ;
                assert(1 <= (j + 1) * base_bit <= t * base_bit) by (nonlinear_arith)
                    requires
                        0 <= j,
                        j + 1 <= t,
                        base_bit >= 1,
                ;
            }
            let weight: u64 = pow2_word(64 - (j + 1) * base_bit);
            let c: u64 = from_key.s[i].wrapping_mul(weight);
            let mut coeffs: Vec<Torus> = Vec::new();
            coeffs.push(Torus(c));
            let mut r: u32 = 1;
            while r < upper_n
                invariant
                    1 <= r <= upper_n,
                    coeffs@.len() == r,
                    coeffs@[0].0 == c,
                    forall|p: int| 1 <= p < r ==> coeffs@[p].0 == 0,
                decreases upper_n - r,
            {
                coeffs.push(Torus(0));
                r += 1;
            }
            let m = TorusPolynomial::from_vec(coeffs);
            assert(m@ =~= constant_poly(upper_n as nat, c as int));
            let row = Trlwe::new(m, into_key);
            rows.push(row);
            q += 1;
        }
        let key = TrlwePKSKey { rows, t, base_bit };
        proof {
            assert(key.rows@.len() / (t as nat) == n_in) by {
                vstd::arithmetic::div_mod::lemma_div_multiples_vanish(n_in as int, t as int);
                assert(n_in * t == t * n_in) by (nonlinear_arith);
            }
            assert forall|p: int| 0 <= p < key@.rows.len() implies trlwe_shape(
                #[trigger] key@.rows[p],
                into_key@.len(),
                into_key@[0].len(),
            ) by {
                assert(key@.rows[p] == key.rows@[p]@);
                assert(key.rows@[p].wf());
            }
            assert forall|p: int| 0 <= p < key@.rows.len() implies trlwe_phase(
                #[trigger] key@.rows[p],
                into_key@,
            ) == constant_poly(
                into_key@[0].len(),
                (from_key@[p / (t as int)] * digit_weight(
                    base_bit as nat,
                    (p % (t as int)) as nat,
                )) % modulus(),
            ) by {
                assert(key@.rows[p] == key.rows@[p]@);
            }
        }
        key
    }

    /// Number of digits of the decomposition.
    pub fn t(&self) -> (r: u32)
        ensures
            r == self.t,
    {
        self.t
    }

    /// Width of a digit of the decomposition, in bits.
    pub fn base_bit(&self) -> (r: u32)
        ensures
            r == self.base_bit,
    {
        self.base_bit
    }

    /// Number of mask polynomials of the ciphertexts that a packing gives.
    pub fn out_k(&self) -> (r: u32)
        requires
            self.wf(),
        ensures
            r == self.rows@[0].spec_k(),
    {
        self.rows[0].k()
    }

    /// Number of coefficients per polynomial of the ciphertexts that a packing gives.
    pub fn out_upper_n(&self) -> (r: u32)
        requires
            self.wf(),
        ensures
            r == self.rows@[0].spec_n(),
    {
        self.rows[0].upper_n()
    }
}

impl Trlwe {
    /// Packing key switch: folds the `offset` scalar ciphertexts of `array` from index
    /// `skip` on into one polynomial ciphertext whose coefficient `r` decrypts to what
    /// ciphertext `skip + r` decrypts to.
    pub fn from_tlwe_array(array: &TlweArray, skip: usize, offset: usize, key: &TrlwePKSKey) -> (r:
        Self)
        requires
            key.wf(),
            skip + offset <= array@.len(),
            offset <= key.rows@[0].spec_n(),
            forall|i: int|
                skip <= i < skip + offset ==> (#[trigger] array@[i]).mask.len() == key.spec_in_n(),
        ensures
            r@ == packed(
                array@.subrange(skip as int, skip + offset),
                key@,
                key.rows@[0].spec_k(),
                key.rows@[0].spec_n(),
            ),
            r.wf(),
            r.spec_k() == key.rows@[0].spec_k(),
            r.spec_n() == key.rows@[0].spec_n(),
    {
        let k: u32 = key.out_k();
        let n: u32 = key.out_upper_n();
        let t: usize = key.t as usize;
        let ghost w = array@.subrange(skip as int, skip + offset);
        let round: u64 = round_word(key.t, key.base_bit);
        let alen: usize = array.items.len();
        let mut acc: Trlwe = Trlwe::zeroed_noiseless(k, n);
        let mut q: usize = 0;
        while q < key.rows.len()
            invariant
                q <= key.rows@.len(),
                key.wf(),
                k == key.rows@[0].spec_k(),
                n == key.rows@[0].spec_n(),
                t == key.t,
                round == crate::gadget::switch_round(key.t as nat, key.base_bit as nat),
                skip + offset <= array@.len(),
                skip + offset <= alen,
                offset <= n,
                w == array@.subrange(skip as int, skip + offset),
                forall|i: int|
                    skip <= i < skip + offset ==> (#[trigger] array@[i]).mask.len()
                        == key.spec_in_n(),
                acc.wf(),
                acc.spec_k() == k,
                acc.spec_n() == n,
                acc@ == pack_sum(w, key@, k as nat, n as nat, q as nat),
            decreases key.rows@.len() - q,
        {
            let i: usize = q / t;
            let j: u32 = (q % t) as u32;
            proof {
                assert(i < key.spec_in_n()) by (nonlinear_arith)
                    requires
                        q < key.spec_in_n() * t,
                        i == q / t,
                        t >= 1,
                ;
            }
            let mut coeffs: Vec<Torus> = Vec::new();
            let mut r: usize = 0;
            let ghost want = pack_digits(
                w,
                n as nat,
                i as int,
                key.t as nat,
                key.base_bit as nat,
                j as nat,
            );
            while r < n as usize
                invariant
                    r <= n,
                    key.wf(),
                    j < key.t,
                    round == crate::gadget::switch_round(key.t as nat, key.base_bit as nat),
                    skip + offset <= array@.len(),
                    skip + offset <= alen,
                    offset <= n,
                    i < key.spec_in_n(),
                    w == array@.subrange(skip as int, skip + offset),
                    forall|p: int|
                        skip <= p < skip + offset ==> (#[trigger] array@[p]).mask.len()
                            == key.spec_in_n(),
                    want == pack_digits(
                        w,
                        n as nat,
                        i as int,
                        key.t as nat,
                        key.base_bit as nat,
                        j as nat,
                    ),
                    coeffs@.len() == r,
                    forall|p: int| 0 <= p < r ==> (#[trigger] coeffs@[p])@ == want[p],
                decreases n - r,
            {
                if r < offset {
                    proof {
                        assert(array@[skip + r] == array.items@[skip + r]@);
                        assert(array@[skip + r].mask.len() == key.spec_in_n());
                        assert(w[r as int] == array@[skip + r]);
                        assert(array.items@[skip + r]@.mask[i as int] == array.items@[skip
                            + r].a@[i as int]@);
                    }
                    let x: u64 = array.items[skip + r].a[i].0;
                    coeffs.push(Torus(switch_digit_word(x, round, key.t, key.base_bit, j)));
                } else {
                    coeffs.push(Torus(0));
                }
                r += 1;
            }
            let digits = TorusPolynomial::from_vec(coeffs);
            proof {
                assert(digits@ =~= want);
                assert(key.rows@[q as int].wf());
                assert(key@.rows[q as int] == key.rows@[q as int]@);
            }
            let term = key.rows[q].scaled(&digits);
            proof {
                lemma_shape_carries(term@, key.rows@[q as int]@, k as nat, n as nat);
                lemma_shapes_agree(acc@, term@, k as nat, n as nat);
            }
            let ghost before = acc@;
            acc.add_assign(&term);
            proof {
                lemma_shape_carries(acc@, before, k as nat, n as nat);
            }
            q += 1;
        }
        let mut body: Vec<Torus> = Vec::new();
        let mut r: usize = 0;
        while r < n as usize
            invariant
                r <= n,
                skip + offset <= array@.len(),
                skip + offset <= alen,
                offset <= n,
                w == array@.subrange(skip as int, skip + offset),
                body@.len() == r,
                forall|p: int| 0 <= p < r ==> (#[trigger] body@[p])@ == pack_body(w, n as nat)[p],
            decreases n - r,
        {
            if r < offset {
                proof {
                    assert(array@[skip + r] == array.items@[skip + r]@);
                    assert(w[r as int] == array@[skip + r]);
                }
                body.push(array.items[skip + r].b);
            } else {
                body.push(Torus(0));
            }
            r += 1;
        }
        let m = TorusPolynomial::from_vec(body);
        assert(m@ =~= pack_body(w, n as nat));
        let plain = Trlwe::new_noiseless(m, k, n);
        proof {
            lemma_shapes_agree(plain@, acc@, k as nat, n as nat);
        }
        let out = plain.sub(&acc);
        proof {
            lemma_shape_carries(out@, plain@, k as nat, n as nat);
        }
        out
    }

    /// Overwrites `self` with the packing of the `offset` scalar ciphertexts of `array`
    /// from index `skip` on.
    pub fn set_from_tlwe_array(
        &mut self,
        array: &TlweArray,
        skip: usize,
        offset: usize,
        key: &TrlwePKSKey,
    )
        requires
            key.wf(),
            old(self).wf(),
            old(self).spec_k() == key.rows@[0].spec_k(),
            old(self).spec_n() == key.rows@[0].spec_n(),
            skip + offset <= array@.len(),
            offset <= old(self).spec_n(),
            forall|i: int|
                skip <= i < skip + offset ==> (#[trigger] array@[i]).mask.len() == key.spec_in_n(),
        ensures
            final(self)@ == packed(
                array@.subrange(skip as int, skip + offset),
                key@,
                old(self).spec_k(),
                old(self).spec_n(),
            ),
            final(self).wf(),
            final(self).spec_k() == old(self).spec_k(),
            final(self).spec_n() == old(self).spec_n(),
    {
        *self = Self::from_tlwe_array(array, skip, offset, key);
    }
}

/// The packing key `key` seals the scalar key `s_in` under the polynomial key `s_out`:
/// row `i * t + j` is a ciphertext of `k` masks of `n` coefficients that decrypts to the
/// constant `s_in[i]` times the weight of digit `j`.
pub open spec fn pack_key_seals(
    key: PackKeyView,
    s_in: Seq<int>,
    s_out: Seq<Seq<int>>,
    n: nat,
) -> bool {
    &&& gadget_params_ok(key.t, key.base_bit)
    &&& key.rows.len() == s_in.len() * key.t
    &&& forall|q: int|
        0 <= q < key.rows.len() ==> trlwe_shape(#[trigger] key.rows[q], s_out.len(), n)
            && trlwe_phase(key.rows[q], s_out) == constant_poly(
            n,
            (s_in[q / (key.t as int)] * crate::gadget::digit_weight(
                key.base_bit,
                (q % (key.t as int)) as nat,
            )) % modulus(),
        )
}

/// Every ciphertext of the window has a mask of `n_in` entries, and every entry and body
/// is a numerator in range.
pub open spec fn window_ok(w: Seq<TlweView>, n_in: nat) -> bool {
    forall|r: int|
        0 <= r < w.len() ==> (#[trigger] w[r]).mask.len() == n_in && 0 <= w[r].body < modulus()
            && crate::poly::torus::poly_in_range(w[r].mask)
}

/// What the window decrypts to under the scalar key, as the coefficients of one
/// polynomial, zero behind the window.
pub open spec fn window_phases(w: Seq<TlweView>, s_in: Seq<int>, n: nat) -> Seq<int> {
    Seq::new(n, |r: int| if r < w.len() { crate::tlwe::sample::tlwe_phase(w[r], s_in) } else { 0 })
}

/// The sum, over the first `upto` rows of the key, of what each row decrypts to, times
/// the digits that the packing multiplies the row by.
pub open spec fn pack_phase_sum(
    w: Seq<TlweView>,
    key: PackKeyView,
    s_out: Seq<Seq<int>>,
    n: nat,
    upto: nat,
) -> Seq<int>
    decreases upto,
{
    if upto == 0 {
        poly_const(n, 0)
    } else {
        let q = upto - 1;
        crate::poly::torus::poly_add(
            pack_phase_sum(w, key, s_out, n, q as nat),
            crate::poly::torus::poly_mul(
                pack_digits(w, n, q / (key.t as int), key.t, key.base_bit, (q % (key.t as int)) as nat),
                trlwe_phase(key.rows[q], s_out),
            ),
        )
    }
}

/// What the sum of the first `upto` terms of a packing decrypts to is the sum of what
/// the rows decrypt to, each times its digits.
proof fn lemma_pack_phase_sum(
    w: Seq<TlweView>,
    key: PackKeyView,
    s_in: Seq<int>,
    s_out: Seq<Seq<int>>,
    n: nat,
    upto: nat,
)
    requires
        pack_key_seals(key, s_in, s_out, n),
        crate::sealed::key_fits(s_out, n),
        upto <= key.rows.len(),
    ensures
        trlwe_shape(pack_sum(w, key, s_out.len(), n, upto), s_out.len(), n),
        trlwe_phase(pack_sum(w, key, s_out.len(), n, upto), s_out) == pack_phase_sum(
            w,
            key,
            s_out,
            n,
            upto,
        ),
    decreases upto,
{
    let k = s_out.len();
    if upto == 0 {
        crate::trlwe::sample::lemma_trivial_phase(k, poly_const(n, 0), s_out);
    } else {
        let q = (upto - 1) as int;
        lemma_pack_phase_sum(w, key, s_in, s_out, n, q as nat);
        let digits = pack_digits(
            w,
            n,
            q / (key.t as int),
            key.t,
            key.base_bit,
            (q % (key.t as int)) as nat,
        );
        let row = key.rows[q];
        assert(trlwe_shape(row, k, n));
        let term = scaled_row(digits, row);
        assert(trlwe_shape(term, k, n));
        crate::trlwe::sample::lemma_phase_linear(pack_sum(w, key, k, n, q as nat), term, s_out, n);
        crate::trlwe::sample::lemma_phase_scaled(digits, row, s_out, n);
    }
}

/// Coefficient `r` of the sum over the rows of the first `i` key coefficients and the
/// first `j` rows of the next: the inner product of the first `i` mask entries of
/// ciphertext `r` with the key, plus key coefficient `i` times the first `j` weighted
/// digits of mask entry `i`, as a residue; zero behind the window.
proof fn lemma_pack_coefficient(
    w: Seq<TlweView>,
    key: PackKeyView,
    s_in: Seq<int>,
    s_out: Seq<Seq<int>>,
    n: nat,
    i: nat,
    j: nat,
    r: int,
)
    requires
        pack_key_seals(key, s_in, s_out, n),
        key.t * key.base_bit == 64,
        window_ok(w, s_in.len()),
        w.len() <= n,
        0 <= r < n,
        i <= s_in.len(),
        j <= key.t,
        i == s_in.len() ==> j == 0,
    ensures
        i * key.t + j <= key.rows.len(),
        pack_phase_sum(w, key, s_out, n, i * key.t + j).len() == n,
        pack_phase_sum(w, key, s_out, n, i * key.t + j)[r] == if r < w.len() {
            (crate::modular::dot(w[r].mask.take(i as int), s_in.take(i as int)) + if j == 0 {
                0
            } else {
                s_in[i as int] * crate::gadget::switch_sum(
                    w[r].mask[i as int],
                    key.t,
                    key.base_bit,
                    j,
                )
            }) % modulus()
        } else {
            0
        },
    decreases i, j,
{
    let m = modulus();
    let t = key.t;
    let bb = key.base_bit;
    let n_in = s_in.len();
    assert(i * t + j <= n_in * t) by (nonlinear_arith)
        requires
            i <= n_in,
            j <= t,
            i == n_in ==> j == 0,
    ;
    vstd::arithmetic::div_mod::lemma_small_mod(0nat, m as nat);
    if j > 0 {
        let q = (i * t + j - 1) as int;
        lemma_pack_coefficient(w, key, s_in, s_out, n, i, (j - 1) as nat, r);
        assert(q / (t as int) == i && q % (t as int) == j - 1) by {
            vstd::arithmetic::div_mod::lemma_fundamental_div_mod_converse(
                q,
                t as int,
                i as int,
                j - 1,
            );
        }
        let wgt = (s_in[i as int] * crate::gadget::digit_weight(bb, (j - 1) as nat)) % m;
        let digits = pack_digits(w, n, i as int, t, bb, (j - 1) as nat);
        assert(trlwe_phase(key.rows[q], s_out) == constant_poly(n, wgt));
        crate::sealed::lemma_mul_constant(digits, n, wgt);
        assert((i * t + j) as nat == (q + 1) as nat);
        let before = pack_phase_sum(w, key, s_out, n, q as nat);
        let term = crate::poly::torus::poly_scale(wgt, digits);
        assert(pack_phase_sum(w, key, s_out, n, (q + 1) as nat) == crate::poly::torus::poly_add(
            before,
            term,
        ));
        if r < w.len() {
            let a = w[r].mask[i as int];
            let dgt = crate::gadget::switch_digit(a, t, bb, (j - 1) as nat);
            let g = crate::gadget::digit_weight(bb, (j - 1) as nat);
            let k0 = s_in[i as int];
            assert(digits[r] == dgt);
            vstd::arithmetic::div_mod::lemma_mul_mod_noop_left(k0 * g, dgt, m);
            let d0 = crate::modular::dot(w[r].mask.take(i as int), s_in.take(i as int));
            let part = if j - 1 == 0 {
                0
            } else {
                k0 * crate::gadget::switch_sum(a, t, bb, (j - 1) as nat)
            };
            vstd::arithmetic::div_mod::lemma_add_mod_noop(d0 + part, (k0 * g) * dgt, m);
            assert(crate::gadget::switch_sum(a, t, bb, 0) == 0);
            assert(k0 * crate::gadget::switch_sum(a, t, bb, j) == k0 * crate::gadget::switch_sum(
                a,
                t,
                bb,
                (j - 1) as nat,
            ) + (k0 * g) * dgt) by (nonlinear_arith)
                requires
                    crate::gadget::switch_sum(a, t, bb, j) == crate::gadget::switch_sum(
                        a,
                        t,
                        bb,
                        (j - 1) as nat,
                    ) + g * dgt,
            ;
            assert(k0 * 0 == 0);
        } else {
            assert(digits[r] == 0);
            assert(wgt * 0 == 0);
        }
    } else if i > 0 {
        let p = (i - 1) as nat;
        lemma_pack_coefficient(w, key, s_in, s_out, n, p, t, r);
        assert(p * t + t == i * t + 0) by (nonlinear_arith)
            requires
                p + 1 == i,
        ;
        if r < w.len() {
            let a = w[r].mask[p as int];
            assert(crate::poly::torus::poly_in_range(w[r].mask));
            crate::gadget::lemma_switch_digits_recompose(a, t, bb);
            crate::modular::lemma_dot_step(w[r].mask, s_in, p as int);
            assert(s_in[p as int] * a == a * s_in[p as int]) by (nonlinear_arith);
        }
    } else {
        assert(0 * t + 0 == 0) by (nonlinear_arith);
        if r < w.len() {
            assert(w[r].mask.take(0).len() == 0);
        }
    }
}

/// Packing: where the digits of the key cover all 64 bits, coefficient `r` of the packed
/// ciphertext decrypts to what ciphertext `r` of the window decrypts to, and the
/// coefficients behind the window decrypt to zero.
pub proof fn lemma_packed_phase(
    w: Seq<TlweView>,
    key: PackKeyView,
    s_in: Seq<int>,
    s_out: Seq<Seq<int>>,
    n: nat,
)
    requires
        pack_key_seals(key, s_in, s_out, n),
        crate::sealed::key_fits(s_out, n),
        key.t * key.base_bit == 64,
        window_ok(w, s_in.len()),
        w.len() <= n,
    ensures
        trlwe_phase(packed(w, key, s_out.len(), n), s_out) == window_phases(w, s_in, n),
{
    let m = modulus();
    let k = s_out.len();
    let total = key.rows.len();
    lemma_pack_phase_sum(w, key, s_in, s_out, n, total);
    let body = pack_body(w, n);
    assert(crate::poly::torus::poly_in_range(body)) by {
        assert forall|r: int| 0 <= r < n implies 0 <= #[trigger] body[r] < m by {
            if r < w.len() {
                assert(0 <= w[r].body < m);
            }
        }
    }
    crate::trlwe::sample::lemma_trivial_phase(k, body, s_out);
    let plain = trlwe_trivial(k, body);
    assert(trlwe_shape(plain, k, n));
    crate::trlwe::sample::lemma_phase_linear(plain, pack_sum(w, key, k, n, total), s_out, n);
    let sum = pack_phase_sum(w, key, s_out, n, total);
    let got = trlwe_phase(packed(w, key, k, n), s_out);
    assert(got == crate::poly::torus::poly_sub(body, sum));
    assert(s_in.len() * key.t + 0 == total);
    assert forall|r: int| 0 <= r < n implies #[trigger] got[r] == window_phases(w, s_in, n)[r] by {
        lemma_pack_coefficient(w, key, s_in, s_out, n, s_in.len(), 0, r);
        vstd::arithmetic::div_mod::lemma_small_mod(0nat, m as nat);
        if r < w.len() {
            assert(w[r].mask.take(s_in.len() as int) =~= w[r].mask);
            assert(s_in.take(s_in.len() as int) =~= s_in);
            let d = crate::modular::dot(w[r].mask, s_in);
            vstd::arithmetic::div_mod::lemma_sub_mod_noop(w[r].body, d, m);
            vstd::arithmetic::div_mod::lemma_sub_mod_noop(w[r].body, d % m, m);
            vstd::arithmetic::div_mod::lemma_mod_twice(d, m);
        }
    }
    if n > 0 {
        lemma_pack_coefficient(w, key, s_in, s_out, n, s_in.len(), 0, 0);
    }
    assert(got =~= window_phases(w, s_in, n));
}

} // verus!
