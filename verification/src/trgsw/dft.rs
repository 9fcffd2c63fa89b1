use vstd::prelude::*;
use crate::gadget::gadget_params_ok;
use crate::trgsw::sample::GadgetView;
use crate::trgsw::sample::Trgsw;
use crate::trgsw::sample::bank;
use crate::trgsw::sample::clone_rows;
use crate::trgsw::sample::gadget_shape;
use crate::trgsw::sample::gadget_add;
use crate::trgsw::sample::gadget_sub;
use crate::trgsw::sample::gadget_same_shape;
use crate::trgsw::sample::seals;
use crate::trgsw::sample::seals_output;
use crate::trgsw::key::TrgswKey;
use crate::torus::Torus;
use crate::trlwe::dft::TrlweDft;
use crate::trlwe::dft::product;
use crate::trlwe::sample::Trlwe;
use crate::trlwe::sample::same_shape;
use crate::trlwe::sample::trlwe_add;
use crate::trlwe::sample::trlwe_sub;
use crate::trlwe::sample::trlwe_shape;
use crate::trlwe::sample::lemma_shapes_agree;
use crate::trlwe::sample::lemma_shape_carries;

verus! {

/// The three gates that one gadget ciphertext can control.
#[derive(Copy, Clone, Debug, PartialEq, Eq, Structural)]
pub enum Gate {
    /// Conditional select: the low operand receives `a + c * (b - a)`.
    Cmux,
    /// Conditional distribute: the low operand keeps `a - c * (a + b)`, the high one
    /// receives the rest of `a + b`.
    Cdemux,
    /// Conditional swap: `a - c * (a - b)` and `b + c * (a - b)`.
    Cswap,
}

/// What a gate leaves in its two operands, low one first, for the control `g`:
/// - select: `(a + g*(b - a), g*(b - a))`;
/// - distribute: `(a', (b + a) - a')` with `a' = a - g*(b + a)`, so that the sum of the two
///   operands is kept;
/// - swap: `(a - g*(a - b), b + g*(a - b))`.
pub open spec fn gate_pair(kind: Gate, g: GadgetView, a: Seq<Seq<int>>, b: Seq<Seq<int>>) -> (
    Seq<Seq<int>>,
    Seq<Seq<int>>,
) {
    match kind {
        Gate::Cmux => {
            let hi = product(g, trlwe_sub(b, a));
            (trlwe_add(a, hi), hi)
        },
        Gate::Cdemux => {
            let sum = trlwe_add(b, a);
            let lo = trlwe_sub(a, product(g, sum));
            (lo, trlwe_sub(sum, lo))
        },
        Gate::Cswap => {
            let delta = product(g, trlwe_sub(a, b));
            (trlwe_sub(a, delta), trlwe_add(b, delta))
        },
    }
}

/// Every ciphertext of the run is well formed, with `k` masks of `n` coefficients.
pub open spec fn bank_wf(v: Seq<Trlwe>, k: nat, n: nat) -> bool {
    forall|i: int| 0 <= i < v.len() ==> (#[trigger] v[i]).wf() && v[i].spec_k() == k && v[i].spec_n() == n
}

/// Index `i` is the low operand of a gate in a strided pass that starts at `offset`:
/// it lies a whole number of double strides after `offset`.
pub open spec fn is_low(i: int, offset: int, stride: int) -> bool {
    i >= offset && (i - offset) % (2 * stride) == 0
}

/// The partner of the low operand `i` in a pass over `len` slots: the slot one stride
/// further, or, where that lies past the end and wrapping is on, the slot that many
/// places from the start, if it lies before `offset`. `-1` where `i` has no partner.
pub open spec fn partner(i: int, len: int, offset: int, stride: int, wrap: bool) -> int {
    if i + stride < len {
        i + stride
    } else if wrap && i + stride - len < offset {
        i + stride - len
    } else {
        -1
    }
}

/// The low operand whose partner is slot `i`, or `-1` where there is none.
pub open spec fn low_of(i: int, len: int, offset: int, stride: int, wrap: bool) -> int {
    if i >= stride && is_low(i - stride, offset, stride) {
        i - stride
    } else if wrap && i < offset && i + len - stride < len && is_low(
        i + len - stride,
        offset,
        stride,
    ) {
        i + len - stride
    } else {
        -1
    }
}

/// The run after one strided pass of a gate: every low operand `i` with a partner and
/// that partner receive what `gate_pair` leaves of the two; every other slot stays.
pub open spec fn strided_pass(
    kind: Gate,
    g: GadgetView,
    v: Seq<Seq<Seq<int>>>,
    offset: int,
    stride: int,
    wrap: bool,
) -> Seq<Seq<Seq<int>>> {
    Seq::new(
        v.len(),
        |i: int|
            if is_low(i, offset, stride) && partner(i, v.len() as int, offset, stride, wrap) >= 0 {
                gate_pair(kind, g, v[i], v[partner(i, v.len() as int, offset, stride, wrap)]).0
            } else if low_of(i, v.len() as int, offset, stride, wrap) >= 0 {
                gate_pair(kind, g, v[low_of(i, v.len() as int, offset, stride, wrap)], v[i]).1
            } else {
                v[i]
            },
    )
}

/// A gadget ciphertext in the form that the gates consume: the encrypted control bit of
/// every gate. This exact engine keeps the rows as they are.
pub struct TrgswDft {
    pub rows: Vec<Trlwe>,
    pub l: u32,
    pub bg_bit: u32,
}

impl View for TrgswDft {
    type V = GadgetView;

    open spec fn view(&self) -> GadgetView {
        GadgetView { rows: bank(self.rows@), l: self.l as nat, bg_bit: self.bg_bit as nat }
    }
}

impl Clone for TrgswDft {
    fn clone(&self) -> (r: Self)
        ensures
            r@ == self@,
    {
        TrgswDft { rows: clone_rows(&self.rows), l: self.l, bg_bit: self.bg_bit }
    }
}

impl TrgswDft {
    /// Valid parameters, `(k + 1) * l` rows, and every row of one shape.
    pub open spec fn wf(&self) -> bool {
        &&& self@.rows.len() >= 1
        &&& 1 <= self@.rows[0].len() <= u32::MAX
        &&& 1 <= self@.rows[0][0].len() <= u32::MAX
        &&& gadget_shape(self@, self.spec_k(), self.spec_n())
    }

    /// Number of mask polynomials of each row, as a specification value.
    pub open spec fn spec_k(&self) -> nat {
        (self@.rows[0].len() - 1) as nat
    }

    /// Number of coefficients per polynomial, as a specification value.
    pub open spec fn spec_n(&self) -> nat {
        self@.rows[0][0].len()
    }

    /// Digit count of the decomposition.
    pub fn l(&self) -> (r: u32)
        ensures
            r == self@.l,
    {
        self.l
    }

    /// Digit width of the decomposition, in bits.
    pub fn bg_bit(&self) -> (r: u32)
        ensures
            r == self@.bg_bit,
    {
        self.bg_bit
    }

    /// Number of mask polynomials of each row.
    pub fn k(&self) -> (r: u32)
        requires
            self.wf(),
        ensures
            r == self.spec_k(),
    {
        proof {
            assert(self.rows@[0]@ == self@.rows[0]);
        }
        (self.rows[0].polys.len() - 1) as u32
    }

    /// Number of coefficients per polynomial.
    pub fn upper_n(&self) -> (r: u32)
        requires
            self.wf(),
        ensures
            r == self.spec_n(),
    {
        proof {
            assert(self.rows@[0]@ == self@.rows[0]);
            assert(self.rows@[0].polys@[0]@ == self@.rows[0][0]);
        }
        self.rows[0].polys[0].coeffs.len() as u32
    }

    /// Enters the product-ready form.
    pub fn from_trgsw(sample: &Trgsw) -> (r: Self)
        ensures
            r@ == sample@,
    {
        TrgswDft { rows: clone_rows(&sample.rows), l: sample.l, bg_bit: sample.bg_bit }
    }

    /// Overwrites `self` with the product-ready form of `sample`.
    pub fn set_from_trgsw(&mut self, sample: &Trgsw)
        ensures
            final(self)@ == sample@,
    {
        *self = Self::from_trgsw(sample);
    }

    /// Row-wise sum.
    pub fn add(&self, other: &Self) -> (r: Self)
        requires
            gadget_same_shape(self@, other@),
        ensures
            r@ == gadget_add(self@, other@),
            gadget_same_shape(r@, self@),
    {
        let mut rows: Vec<Trlwe> = Vec::new();
        let mut i: usize = 0;
        while i < self.rows.len()
            invariant
                i <= self.rows@.len(),
                gadget_same_shape(self@, other@),
                rows@.len() == i,
                forall|q: int| 0 <= q < i ==> (#[trigger] rows@[q])@ == gadget_add(self@, other@).rows[q],
            decreases self.rows@.len() - i,
        {
            proof {
                assert(same_shape(self@.rows[i as int], other@.rows[i as int]));
            }
            rows.push(self.rows[i].add(&other.rows[i]));
            i += 1;
        }
        let r = Self { rows, l: self.l, bg_bit: self.bg_bit };
        assert(r@.rows =~= gadget_add(self@, other@).rows);
        r
    }

    /// Stores `lhs + rhs` in `self`.
    pub fn add_from(&mut self, lhs: &Self, rhs: &Self)
        requires
            gadget_same_shape(lhs@, rhs@),
        ensures
            final(self)@ == gadget_add(lhs@, rhs@),
    {
        *self = lhs.add(rhs);
    }

    /// Row-wise difference.
    pub fn sub(&self, other: &Self) -> (r: Self)
        requires
            gadget_same_shape(self@, other@),
        ensures
            r@ == gadget_sub(self@, other@),
            gadget_same_shape(r@, self@),
    {
        let mut rows: Vec<Trlwe> = Vec::new();
        let mut i: usize = 0;
        while i < self.rows.len()
            invariant
                i <= self.rows@.len(),
                gadget_same_shape(self@, other@),
                rows@.len() == i,
                forall|q: int| 0 <= q < i ==> (#[trigger] rows@[q])@ == gadget_sub(self@, other@).rows[q],
            decreases self.rows@.len() - i,
        {
            proof {
                assert(same_shape(self@.rows[i as int], other@.rows[i as int]));
            }
            rows.push(self.rows[i].sub(&other.rows[i]));
            i += 1;
        }
        let r = Self { rows, l: self.l, bg_bit: self.bg_bit };
        assert(r@.rows =~= gadget_sub(self@, other@).rows);
        r
    }

    /// Stores `lhs - rhs` in `self`.
    pub fn sub_from(&mut self, lhs: &Self, rhs: &Self)
        requires
            gadget_same_shape(lhs@, rhs@),
        ensures
            final(self)@ == gadget_sub(lhs@, rhs@),
    {
        *self = lhs.sub(rhs);
    }

    /// What a gate of kind `kind` under the control of `self` leaves of the operands `a` and
    /// `b`, low one first.
    pub fn gate(&self, kind: Gate, a: &Trlwe, b: &Trlwe) -> (r: (Trlwe, Trlwe))
        requires
            self.wf(),
            a.wf(),
            b.wf(),
            a.spec_k() == self.spec_k(),
            a.spec_n() == self.spec_n(),
            b.spec_k() == self.spec_k(),
            b.spec_n() == self.spec_n(),
        ensures
            (r.0@, r.1@) == gate_pair(kind, self@, a@, b@),
            r.0.wf(),
            r.1.wf(),
            same_shape(r.0@, a@),
            same_shape(r.1@, a@),
    {
        let ghost k = self.spec_k();
        let ghost n = self.spec_n();
        proof {
            assert(trlwe_shape(a@, k, n));
            assert(trlwe_shape(b@, k, n));
            lemma_shapes_agree(a@, b@, k, n);
            lemma_shapes_agree(b@, a@, k, n);
        }
        let operand = match kind {
            Gate::Cmux => b.sub(a),
            Gate::Cdemux => b.add(a),
            Gate::Cswap => a.sub(b),
        };
        proof {
            if kind == Gate::Cswap {
                lemma_shape_carries(operand@, a@, k, n);
            } else {
                lemma_shape_carries(operand@, b@, k, n);
            }
            assert(operand.wf());
        }
        let prod = Trlwe::from_dft(&TrlweDft::mul_trlwe_dft(&operand, self));
        proof {
            lemma_shape_carries(prod@, operand@, k, n);
            lemma_shapes_agree(a@, prod@, k, n);
            lemma_shapes_agree(b@, prod@, k, n);
        }
        match kind {
            Gate::Cmux => {
                let lo = a.add(&prod);
                proof {
                    lemma_shape_carries(lo@, a@, k, n);
                    lemma_shapes_agree(prod@, a@, k, n);
                }
                (lo, prod)
            },
            Gate::Cdemux => {
                let lo = a.sub(&prod);
                proof {
                    lemma_shape_carries(lo@, a@, k, n);
                    lemma_shapes_agree(operand@, lo@, k, n);
                }
                let hi = operand.sub(&lo);
                proof {
                    lemma_shape_carries(hi@, operand@, k, n);
                    lemma_shapes_agree(hi@, a@, k, n);
                }
                (lo, hi)
            },
            Gate::Cswap => {
                let lo = a.sub(&prod);
                let hi = b.add(&prod);
                proof {
                    lemma_shape_carries(lo@, a@, k, n);
                    lemma_shape_carries(hi@, b@, k, n);
                    lemma_shapes_agree(hi@, a@, k, n);
                }
                (lo, hi)
            },
        }
    }

    /// Conditional select: leaves `in0 + self * (in1 - in0)` in `in0`, which is `in0`
    /// where `self` seals zero and `in1` where it seals one, and `self * (in1 - in0)` in
    /// `in1`.
    pub fn cmux(&self, in0: &mut Trlwe, in1: &mut Trlwe)
        requires
            self.wf(),
            old(in0).wf(),
            old(in1).wf(),
            old(in0).spec_k() == self.spec_k(),
            old(in0).spec_n() == self.spec_n(),
            old(in1).spec_k() == self.spec_k(),
            old(in1).spec_n() == self.spec_n(),
        ensures
            (final(in0)@, final(in1)@) == gate_pair(Gate::Cmux, self@, old(in0)@, old(in1)@),
            final(in0).wf(),
            final(in1).wf(),
            same_shape(final(in0)@, old(in0)@),
            same_shape(final(in1)@, old(in0)@),
    {
        let (lo, hi) = self.gate(Gate::Cmux, in0, in1);
        *in0 = lo;
        *in1 = hi;
    }

    /// Conditional distribute: leaves `in0 - self * (in1 + in0)` in `in0` and the rest of
    /// `in1 + in0` in `in1`, so that a value held by `in0` alone stays where `self` seals
    /// zero and moves to `in1` where it seals one.
    pub fn cdemux(&self, in0: &mut Trlwe, in1: &mut Trlwe)
        requires
            self.wf(),
            old(in0).wf(),
            old(in1).wf(),
            old(in0).spec_k() == self.spec_k(),
            old(in0).spec_n() == self.spec_n(),
            old(in1).spec_k() == self.spec_k(),
            old(in1).spec_n() == self.spec_n(),
        ensures
            (final(in0)@, final(in1)@) == gate_pair(Gate::Cdemux, self@, old(in0)@, old(in1)@),
            final(in0).wf(),
            final(in1).wf(),
            same_shape(final(in0)@, old(in0)@),
            same_shape(final(in1)@, old(in0)@),
    {
        let (lo, hi) = self.gate(Gate::Cdemux, in0, in1);
        *in0 = lo;
        *in1 = hi;
    }

    /// Conditional swap: with `delta = self * (in0 - in1)`, leaves `in0 - delta` in `in0`
    /// and `in1 + delta` in `in1`.
    pub fn cswap(&self, in0: &mut Trlwe, in1: &mut Trlwe)
        requires
            self.wf(),
            old(in0).wf(),
            old(in1).wf(),
            old(in0).spec_k() == self.spec_k(),
            old(in0).spec_n() == self.spec_n(),
            old(in1).spec_k() == self.spec_k(),
            old(in1).spec_n() == self.spec_n(),
        ensures
            (final(in0)@, final(in1)@) == gate_pair(Gate::Cswap, self@, old(in0)@, old(in1)@),
            final(in0).wf(),
            final(in1).wf(),
            same_shape(final(in0)@, old(in0)@),
            same_shape(final(in1)@, old(in0)@),
    {
        let (lo, hi) = self.gate(Gate::Cswap, in0, in1);
        *in0 = lo;
        *in1 = hi;
    }

    /// One strided pass of a gate of kind `kind` over `v`, from `offset` on: it is applied
    /// to the slots `i` and `i + stride` for every `i` a whole number of double strides
    /// after `offset`; with `wrap`, a last low slot whose partner lies past the end is
    /// paired with the slot that many places from the start, if that lies before `offset`.
    fn strided(&self, kind: Gate, v: &mut Vec<Trlwe>, offset: usize, stride: usize, wrap: bool)
        requires
            self.wf(),
            bank_wf(old(v)@, self.spec_k(), self.spec_n()),
            1 <= stride,
            2 * stride <= usize::MAX,
            offset < stride,
            offset <= old(v)@.len(),
        ensures
            bank(final(v)@) == strided_pass(
                kind,
                self@,
                bank(old(v)@),
                offset as int,
                stride as int,
                wrap,
            ),
            bank_wf(final(v)@, self.spec_k(), self.spec_n()),
    {
        let len: usize = v.len();
        let ghost start = bank(v@);
        let ghost plain = strided_pass(kind, self@, start, offset as int, stride as int, false);
        let ghost goal = strided_pass(kind, self@, start, offset as int, stride as int, wrap);
        let mut i: usize = offset;
        let mut more: bool = true;
        proof {
            assert((i - offset) % (2 * stride) == 0) by {
                vstd::arithmetic::div_mod::lemma_small_mod(0nat, (2 * stride) as nat);
            }
        }
        while more && i < len && len - i > stride
            invariant
                self.wf(),
                1 <= stride,
                2 * stride <= usize::MAX,
                offset < stride,
                offset <= len,
                v@.len() == len,
                start.len() == len,
                bank_wf(v@, self.spec_k(), self.spec_n()),
                plain == strided_pass(kind, self@, start, offset as int, stride as int, false),
                more ==> offset <= i <= len && is_low(i as int, offset as int, stride as int),
                more ==> forall|q: int| 0 <= q < len && q < i ==> (#[trigger] v@[q])@ == plain[q],
                more ==> forall|q: int| i <= q < len ==> (#[trigger] v@[q])@ == start[q],
                !more ==> forall|q: int| 0 <= q < len ==> (#[trigger] v@[q])@ == plain[q],
                !more ==> forall|q: int|
                    0 <= q < len && is_low(q, offset as int, stride as int) ==> q + stride < len,
            decreases (if more { len - i + 1 } else { 0 }),
        {
            let ghost before = v@;
            let (lo, hi) = self.gate(kind, &v[i], &v[i + stride]);
            v[i] = lo;
            v[i + stride] = hi;
            proof {
                assert(start[i as int] == before[i as int]@);
                assert(start[i + stride] == before[i + stride]@);
                assert forall|q: int| 0 <= q < len && q < i + 2 * stride implies (#[trigger] v@[q])@
                    == plain[q] by {
                    if q >= i {
                        lemma_pass_slot(kind, self@, start, offset as int, stride as int, i as int, q);
                    } else {
                        assert(v@[q] == before[q]);
                    }
                }
                assert(bank_wf(v@, self.spec_k(), self.spec_n())) by {
                    assert forall|q: int| 0 <= q < v@.len() implies (#[trigger] v@[q]).wf()
                        && v@[q].spec_k() == self.spec_k() && v@[q].spec_n() == self.spec_n() by {
                        if q != i && q != i + stride {
                            assert(v@[q] == before[q]);
                        }
                    }
                }
            }
            if len - i >= 2 * stride {
                proof {
                    lemma_low_next(i as int, offset as int, stride as int);
                }
                i = i + 2 * stride;
            } else {
                more = false;
                proof {
                    assert forall|q: int|
                        0 <= q < len && is_low(q, offset as int, stride as int) implies q + stride
                        < len by {
                        lemma_low_gap(i as int, q, offset as int, stride as int);
                    }
                }
            }
        }
        if wrap && more && i < len && stride - (len - i) < offset {
            let w: usize = stride - (len - i);
            let ghost before = v@;
            let (lo, hi) = self.gate(kind, &v[i], &v[w]);
            v[i] = lo;
            v[w] = hi;
            proof {
                assert(start[i as int] == before[i as int]@);
                assert(before[w as int]@ == plain[w as int]);
                assert forall|q: int| 0 <= q < len implies (#[trigger] v@[q])@ == goal[q] by {
                    lemma_wrap_slot(kind, self@, start, offset as int, stride as int, i as int, q);
                    if q != i && q != w {
                        assert(v@[q] == before[q]);
                    }
                    if q < offset && is_low(q + len - stride, offset as int, stride as int) {
                        lemma_low_gap(i as int, q + len - stride, offset as int, stride as int);
                    }
                }
                assert(bank_wf(v@, self.spec_k(), self.spec_n())) by {
                    assert forall|q: int| 0 <= q < v@.len() implies (#[trigger] v@[q]).wf()
                        && v@[q].spec_k() == self.spec_k() && v@[q].spec_n() == self.spec_n() by {
                        if q != i && q != w {
                            assert(v@[q] == before[q]);
                        }
                    }
                }
            }
        } else {
            proof {
                assert forall|q: int| 0 <= q < len implies (#[trigger] v@[q])@ == goal[q] by {
                    if more {
                        lemma_rest_slot(
                            kind,
                            self@,
                            start,
                            offset as int,
                            stride as int,
                            wrap,
                            i as int,
                            q,
                        );
                        lemma_rest_slot(
                            kind,
                            self@,
                            start,
                            offset as int,
                            stride as int,
                            false,
                            i as int,
                            q,
                        );
                    } else {
                        lemma_no_wrap_needed(kind, self@, start, offset as int, stride as int, q);
                    }
                }
            }
        }
        assert(bank(v@) =~= goal);
    }

    /// Conditional select over a run: for every `c` with `c * 2 * stride + stride` inside
    /// the run, the select is applied to the slots `c * 2 * stride` and
    /// `c * 2 * stride + stride`, the first one receiving the selected ciphertext.
    pub fn cmux_vectored(&self, in_: &mut Vec<Trlwe>, stride: usize)
        requires
            self.wf(),
            bank_wf(old(in_)@, self.spec_k(), self.spec_n()),
            1 <= stride,
            2 * stride <= usize::MAX,
        ensures
            bank(final(in_)@) == strided_pass(
                Gate::Cmux,
                self@,
                bank(old(in_)@),
                0,
                stride as int,
                false,
            ),
            bank_wf(final(in_)@, self.spec_k(), self.spec_n()),
    {
        self.strided(Gate::Cmux, in_, 0, stride, false);
    }

    /// Conditional distribute over a run, on the same pairs of slots as `cmux_vectored`.
    pub fn cdemux_vectored(&self, in_: &mut Vec<Trlwe>, stride: usize)
        requires
            self.wf(),
            bank_wf(old(in_)@, self.spec_k(), self.spec_n()),
            1 <= stride,
            2 * stride <= usize::MAX,
        ensures
            bank(final(in_)@) == strided_pass(
                Gate::Cdemux,
                self@,
                bank(old(in_)@),
                0,
                stride as int,
                false,
            ),
            bank_wf(final(in_)@, self.spec_k(), self.spec_n()),
    {
        self.strided(Gate::Cdemux, in_, 0, stride, false);
    }

    /// Conditional swap over a run, from `offset` on: the slots `i` and `i + stride` are
    /// swapped for every `i` a whole number of double strides after `offset`; a last such
    /// slot whose partner would lie past the end is paired with the slot that many places
    /// from the start, if that lies before `offset`.
    pub fn cswap_vectored(&self, in_: &mut Vec<Trlwe>, offset: usize, stride: usize)
        requires
            self.wf(),
            bank_wf(old(in_)@, self.spec_k(), self.spec_n()),
            2 * stride <= usize::MAX,
            offset < stride,
            offset <= old(in_)@.len(),
        ensures
            bank(final(in_)@) == strided_pass(
                Gate::Cswap,
                self@,
                bank(old(in_)@),
                offset as int,
                stride as int,
                true,
            ),
            bank_wf(final(in_)@, self.spec_k(), self.spec_n()),
    {
        self.strided(Gate::Cswap, in_, offset, stride, true);
    }
}

/// Two low slots of one pass are equal or at least a double stride apart.
pub proof fn lemma_low_gap(a: int, b: int, offset: int, stride: int)
    requires
        1 <= stride,
        is_low(a, offset, stride),
        is_low(b, offset, stride),
    ensures
        a == b || a + 2 * stride <= b || b + 2 * stride <= a,
{
    let m = 2 * stride;
    if a < b && b < a + m {
        vstd::arithmetic::div_mod::lemma_sub_mod_noop(b - offset, a - offset, m);
        vstd::arithmetic::div_mod::lemma_small_mod(0nat, m as nat);
        vstd::arithmetic::div_mod::lemma_small_mod((b - a) as nat, m as nat);
    }
    if b < a && a < b + m {
        vstd::arithmetic::div_mod::lemma_sub_mod_noop(a - offset, b - offset, m);
        vstd::arithmetic::div_mod::lemma_small_mod(0nat, m as nat);
        vstd::arithmetic::div_mod::lemma_small_mod((a - b) as nat, m as nat);
    }
}

/// The slot a double stride after a low slot is low again.
pub proof fn lemma_low_next(a: int, offset: int, stride: int)
    requires
        1 <= stride,
        is_low(a, offset, stride),
    ensures
        is_low(a + 2 * stride, offset, stride),
{
    let m = 2 * stride;
    vstd::arithmetic::div_mod::lemma_add_mod_noop(a - offset, m, m);
    vstd::arithmetic::div_mod::lemma_mod_self_0(m);
    vstd::arithmetic::div_mod::lemma_small_mod(0nat, m as nat);
}

/// After one gate on the low slot `i` and its partner `i + stride`, every slot below
/// `i + 2 * stride` of a pass without wrap is settled: slot `i` and its partner hold what
/// `gate_pair` leaves, and the slots between them and after the partner are untouched.
proof fn lemma_pass_slot(
    kind: Gate,
    g: GadgetView,
    v: Seq<Seq<Seq<int>>>,
    offset: int,
    stride: int,
    i: int,
    q: int,
)
    requires
        1 <= stride,
        0 <= offset < stride,
        is_low(i, offset, stride),
        i + stride < v.len(),
        i <= q < v.len(),
        q < i + 2 * stride,
    ensures
        strided_pass(kind, g, v, offset, stride, false)[q] == if q == i {
            gate_pair(kind, g, v[i], v[i + stride]).0
        } else if q == i + stride {
            gate_pair(kind, g, v[i], v[i + stride]).1
        } else {
            v[q]
        },
{
    if is_low(q, offset, stride) {
        lemma_low_gap(i, q, offset, stride);
    }
    if q >= stride && is_low(q - stride, offset, stride) {
        lemma_low_gap(i, q - stride, offset, stride);
    }
}

/// Where the pass stopped at the low slot `i` whose partner would lie past the end, and
/// that partner wraps to a slot before `offset`, the pass with wrap differs from the pass
/// without it in these two slots alone.
proof fn lemma_wrap_slot(
    kind: Gate,
    g: GadgetView,
    v: Seq<Seq<Seq<int>>>,
    offset: int,
    stride: int,
    i: int,
    q: int,
)
    requires
        1 <= stride,
        0 <= offset < stride,
        is_low(i, offset, stride),
        i < v.len(),
        i + stride >= v.len(),
        i + stride - v.len() < offset,
        0 <= q < v.len(),
    ensures
        strided_pass(kind, g, v, offset, stride, true)[q] == if q == i {
            gate_pair(kind, g, v[i], v[i + stride - v.len()]).0
        } else if q == i + stride - v.len() {
            gate_pair(kind, g, v[i], v[i + stride - v.len()]).1
        } else if q < i {
            strided_pass(kind, g, v, offset, stride, false)[q]
        } else {
            v[q]
        },
        strided_pass(kind, g, v, offset, stride, false)[i + stride - v.len()] == v[i + stride
            - v.len()],
{
    let len = v.len() as int;
    if is_low(q, offset, stride) {
        lemma_low_gap(i, q, offset, stride);
    }
    if q >= stride && is_low(q - stride, offset, stride) {
        lemma_low_gap(i, q - stride, offset, stride);
    }
    if q < offset && is_low(q + len - stride, offset, stride) {
        lemma_low_gap(i, q + len - stride, offset, stride);
    }
}

/// Where the pass stopped at `i` with no gate left to apply, every slot from `i` on is
/// untouched and every slot before `i` is as in the pass without wrap.
proof fn lemma_rest_slot(
    kind: Gate,
    g: GadgetView,
    v: Seq<Seq<Seq<int>>>,
    offset: int,
    stride: int,
    wrap: bool,
    i: int,
    q: int,
)
    requires
        1 <= stride,
        0 <= offset < stride,
        is_low(i, offset, stride),
        i <= v.len(),
        i == v.len() || (i + stride >= v.len() && !(wrap && i + stride - v.len() < offset)),
        0 <= q < v.len(),
    ensures
        strided_pass(kind, g, v, offset, stride, wrap)[q] == if q < i {
            strided_pass(kind, g, v, offset, stride, false)[q]
        } else {
            v[q]
        },
{
    let len = v.len() as int;
    if is_low(q, offset, stride) {
        lemma_low_gap(i, q, offset, stride);
    }
    if q >= stride && is_low(q - stride, offset, stride) {
        lemma_low_gap(i, q - stride, offset, stride);
    }
    if q < offset && is_low(q + len - stride, offset, stride) {
        lemma_low_gap(i, q + len - stride, offset, stride);
    }
}

/// Where every low slot has its partner inside the run, wrap changes nothing.
proof fn lemma_no_wrap_needed(
    kind: Gate,
    g: GadgetView,
    v: Seq<Seq<Seq<int>>>,
    offset: int,
    stride: int,
    q: int,
)
    requires
        1 <= stride,
        0 <= offset < stride,
        forall|p: int| 0 <= p < v.len() && is_low(p, offset, stride) ==> p + stride < v.len(),
        0 <= q < v.len(),
    ensures
        strided_pass(kind, g, v, offset, stride, true)[q] == strided_pass(
            kind,
            g,
            v,
            offset,
            stride,
            false,
        )[q],
{
}


/// A dense run of gadget ciphertexts of one shape.
pub struct TrgswDftArray {
    pub items: Vec<TrgswDft>,
}

impl View for TrgswDftArray {
    type V = Seq<GadgetView>;

    open spec fn view(&self) -> Seq<GadgetView> {
        Seq::new(self.items@.len(), |i: int| self.items@[i]@)
    }
}

impl Clone for TrgswDftArray {
    fn clone(&self) -> (r: Self)
        ensures
            r@ == self@,
    {
        let mut items: Vec<TrgswDft> = Vec::new();
        let mut i: usize = 0;
        while i < self.items.len()
            invariant
                i <= self.items@.len(),
                items@.len() == i,
                forall|j: int| 0 <= j < i ==> (#[trigger] items@[j])@ == self.items@[j]@,
            decreases self.items@.len() - i,
        {
            items.push(self.items[i].clone());
            i += 1;
        }
        let r = TrgswDftArray { items };
        assert(r@ =~= self@);
        r
    }
}

impl TrgswDftArray {
    /// Every ciphertext of the run is well formed, for `k` masks of `n` coefficients.
    pub open spec fn uniform(&self, k: nat, n: nat) -> bool {
        forall|i: int|
            0 <= i < self.items@.len() ==> (#[trigger] self.items@[i]).wf() && self.items@[i].spec_k()
                == k && self.items@[i].spec_n() == n
    }

    /// Seals, for each index `i` below `len`, the integer message and the exponent that
    /// `f(i)` gives, under `key`.
    pub fn from_fn<F: Fn(usize) -> (Torus, u32)>(len: usize, key: &TrgswKey, f: F) -> (r: Self)
        requires
            key.wf(),
            1 <= key.trlwe_key@[0].len(),
            (key.trlwe_key@.len() + 1) * key.l <= usize::MAX,
            forall|i: usize| i < len ==> call_requires(f, (i,)),
            forall|i: usize, o: (Torus, u32)|
                i < len && call_ensures(f, (i,), o) ==> o.0.0 <= i64::MAX && o.1 < 2
                    * key.trlwe_key@[0].len(),
        ensures
            r@.len() == len,
            r.uniform(key.trlwe_key@.len(), key.trlwe_key@[0].len()),
            forall|i: int|
                0 <= i < len ==> seals_output(
                    f,
                    i as usize,
                    #[trigger] r@[i],
                    key.trlwe_key@,
                    key.l as nat,
                    key.bg_bit as nat,
                ),
    {
        let mut items: Vec<TrgswDft> = Vec::new();
        let mut i: usize = 0;
        while i < len
            invariant
                i <= len,
                key.wf(),
                1 <= key.trlwe_key@[0].len(),
                (key.trlwe_key@.len() + 1) * key.l <= usize::MAX,
                forall|j: usize| j < len ==> call_requires(f, (j,)),
                forall|j: usize, o: (Torus, u32)|
                    j < len && call_ensures(f, (j,), o) ==> o.0.0 <= i64::MAX && o.1 < 2
                        * key.trlwe_key@[0].len(),
                items@.len() == i,
                forall|j: int|
                    0 <= j < i ==> (#[trigger] items@[j]).wf() && items@[j].spec_k()
                        == key.trlwe_key@.len() && items@[j].spec_n() == key.trlwe_key@[0].len(),
                forall|j: int|
                    0 <= j < i ==> seals_output(
                        f,
                        j as usize,
                        (#[trigger] items@[j])@,
                        key.trlwe_key@,
                        key.l as nat,
                        key.bg_bit as nat,
                    ),
            decreases len - i,
        {
            let (m, e) = f(i);
            let t = TrgswDft::from_trgsw(&Trgsw::new(m, e, key));
            items.push(t);
            i += 1;
        }
        let r = TrgswDftArray { items };
        assert forall|j: int| 0 <= j < len implies seals_output(
            f,
            j as usize,
            #[trigger] r@[j],
            key.trlwe_key@,
            key.l as nat,
            key.bg_bit as nat,
        ) by {
            assert(r@[j] == r.items@[j]@);
        }
        r
    }

    /// `len` fresh sealings of the integer message `m` times `X^e` under `key`.
    pub fn from_elem(len: usize, key: &TrgswKey, m: Torus, e: u32) -> (r: Self)
        requires
            key.wf(),
            1 <= key.trlwe_key@[0].len(),
            (key.trlwe_key@.len() + 1) * key.l <= usize::MAX,
            m.0 <= i64::MAX,
            e < 2 * key.trlwe_key@[0].len(),
        ensures
            r@.len() == len,
            r.uniform(key.trlwe_key@.len(), key.trlwe_key@[0].len()),
            forall|i: int|
                0 <= i < len ==> seals(
                    #[trigger] r@[i],
                    m@,
                    e as int,
                    key.trlwe_key@,
                    key.l as nat,
                    key.bg_bit as nat,
                ),
    {
        let mut items: Vec<TrgswDft> = Vec::new();
        let mut i: usize = 0;
        while i < len
            invariant
                i <= len,
                key.wf(),
                1 <= key.trlwe_key@[0].len(),
                (key.trlwe_key@.len() + 1) * key.l <= usize::MAX,
                m.0 <= i64::MAX,
                e < 2 * key.trlwe_key@[0].len(),
                items@.len() == i,
                forall|j: int|
                    0 <= j < i ==> (#[trigger] items@[j]).wf() && items@[j].spec_k()
                        == key.trlwe_key@.len() && items@[j].spec_n() == key.trlwe_key@[0].len(),
                forall|j: int|
                    0 <= j < i ==> seals(
                        (#[trigger] items@[j])@,
                        m@,
                        e as int,
                        key.trlwe_key@,
                        key.l as nat,
                        key.bg_bit as nat,
                    ),
            decreases len - i,
        {
            let t = TrgswDft::from_trgsw(&Trgsw::new(m, e, key));
            items.push(t);
            i += 1;
        }
        let r = TrgswDftArray { items };
        assert forall|j: int| 0 <= j < len implies seals(
            #[trigger] r@[j],
            m@,
            e as int,
            key.trlwe_key@,
            key.l as nat,
            key.bg_bit as nat,
        ) by {
            assert(r@[j] == r.items@[j]@);
        }
        r
    }

    /// Number of ciphertexts.
    pub fn len(&self) -> (n: usize)
        ensures
            n == self@.len(),
    {
        self.items.len()
    }

    /// Whether the run holds no ciphertext.
    pub fn is_empty(&self) -> (b: bool)
        ensures
            b == (self@.len() == 0),
    {
        self.items.len() == 0
    }

    /// Digit count of the decomposition, read off the first ciphertext.
    pub fn l(&self) -> (r: u32)
        requires
            self@.len() > 0,
        ensures
            r == self@[0].l,
    {
        self.items[0].l()
    }

    /// Digit width of the decomposition, read off the first ciphertext.
    pub fn bg_bit(&self) -> (r: u32)
        requires
            self@.len() > 0,
        ensures
            r == self@[0].bg_bit,
    {
        self.items[0].bg_bit()
    }

    /// Number of mask polynomials, read off the first ciphertext.
    pub fn k(&self) -> (r: u32)
        requires
            self@.len() > 0,
            self.items@[0].wf(),
        ensures
            r == self.items@[0].spec_k(),
    {
        self.items[0].k()
    }

    /// Number of coefficients per polynomial, read off the first ciphertext.
    pub fn upper_n(&self) -> (r: u32)
        requires
            self@.len() > 0,
            self.items@[0].wf(),
        ensures
            r == self.items@[0].spec_n(),
    {
        self.items[0].upper_n()
    }

    /// The ciphertexts, in order.
    pub fn as_slice(&self) -> (s: &[TrgswDft])
        ensures
            s@ == self.items@,
    {
        self.items.as_slice()
    }

    /// An iterator over the ciphertexts, in order.
    pub fn iter(&self) -> (it: core::slice::Iter<'_, TrgswDft>)
        ensures
            exists|s: &[TrgswDft]| s@ == self.items@ && it == vstd::std_specs::slice::spec_slice_iter(s),
    {
        self.items.as_slice().iter()
    }

    /// The ciphertext at `index`.
    pub fn get(&self, index: usize) -> (t: &TrgswDft)
        requires
            index < self@.len(),
        ensures
            *t == self.items@[index as int],
    {
        &self.items[index]
    }
}

} // verus!
