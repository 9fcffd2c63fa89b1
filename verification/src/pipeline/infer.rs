use vstd::prelude::*;
use vstd::arithmetic::power2::pow2;
use crate::pipeline::layout::Layout;
use crate::rotate::right_rotation;
use crate::tlwe::sample::Tlwe;
use crate::tlwe::sample::TlweArray;
use crate::tlwe::sample::TlweView;
use crate::tlwe::sample::tlwe_extracted;
use crate::tree::cmux_tree;
use crate::tree::cmux_tree_passes;
use crate::tree::gadgets;
use crate::tree::pow2_size;
use crate::tree::selectors_wf;
use crate::trgsw::dft::TrgswDft;
use crate::trgsw::dft::bank_wf;
use crate::trgsw::sample::bank;
use crate::trlwe::pack::TrlwePKSKey;
use crate::trlwe::pack::packed;
use crate::trlwe::sample::Trlwe;
use crate::trlwe::sample::TrlweArray;

verus! {

/// Where the counters of a label lie in a table: the first polynomial of its part of the
/// table, and the first slot of its part of a polynomial.
pub open spec fn label_offsets(layout: Layout, label: nat) -> (nat, nat) {
    let unit = pow2(layout.lower_label_bits as nat);
    ((label / unit) * layout.upper_lut_size as nat, (label % unit) * layout.lower_lut_size as nat)
}

/// What a read leaves: the run `t[first .. first + count]` is collapsed under the selectors
/// from `low` on, its polynomial 0 is rotated to the right under the `low` first selectors,
/// and slot `slot` of that polynomial is extracted.
pub open spec fn read_run(
    sel: Seq<TrgswDft>,
    t: Seq<Seq<Seq<int>>>,
    first: int,
    count: int,
    low: int,
    slot: int,
) -> TlweView {
    let picked = cmux_tree_passes(
        gadgets(sel.subrange(low, sel.len() as int)),
        t.subrange(first, first + count),
        (sel.len() - low) as nat,
    )[0];
    tlwe_extracted(
        right_rotation(gadgets(sel.subrange(0, low)), picked, picked[0].len(), low as nat),
        slot,
    )
}

/// The window of scalar ciphertexts that chunk `chunk` of a packing covers: where it
/// starts and how many ciphertexts it holds.
pub open spec fn window_of(len: nat, chunk: nat, n: nat) -> (nat, nat) {
    let skip = chunk * n;
    (skip, if len - skip < n { (len - skip) as nat } else { n })
}

/// The scalar ciphertexts that chunk `chunk` of a packing of the run `w` covers.
pub open spec fn window_slice(w: Seq<TlweView>, chunk: nat, n: nat) -> Seq<TlweView> {
    let (skip, count) = window_of(w.len(), chunk, n);
    w.subrange(skip as int, (skip + count) as int)
}

impl Layout {
    /// Where the counters of `label` lie in a table: the upper label bits pick a part of
    /// the table, the lower label bits a part of each polynomial.
    pub fn offsets(&self, label: usize) -> (r: (usize, usize))
        requires
            self.lower_label_bits < usize::BITS,
            label_offsets(*self, label as nat).0 <= usize::MAX,
            label_offsets(*self, label as nat).1 <= usize::MAX,
        ensures
            r.0 == label_offsets(*self, label as nat).0,
            r.1 == label_offsets(*self, label as nat).1,
    {
        let unit = pow2_size(self.lower_label_bits);
        proof {
            vstd::arithmetic::power2::lemma_pow2_pos(self.lower_label_bits as nat);
        }
        ((label / unit) * self.upper_lut_size, (label % unit) * self.lower_lut_size)
    }
}

/// Reads one counter of a table under the selectors of an address, least significant
/// first: the part `table[first .. first + count]` is collapsed under the selectors from
/// `low` on, the polynomial that is left is rotated to the right under the `low` first
/// selectors, and its slot `slot` is extracted as a scalar ciphertext.
pub fn read_slot(
    table: &Vec<Trlwe>,
    first: usize,
    count: usize,
    sel: &[TrgswDft],
    low: usize,
    slot: usize,
) -> (r: Tlwe)
    requires
        1 <= count,
        first + count <= table@.len(),
        low <= sel@.len(),
        sel@.len() - low < usize::BITS,
        table@[first as int].wf(),
        bank_wf(table@, table@[first as int].spec_k(), table@[first as int].spec_n()),
        selectors_wf(sel@, table@[first as int].spec_k(), table@[first as int].spec_n()),
        pow2(low as nat) <= 2 * table@[first as int].spec_n(),
        2 * table@[first as int].spec_n() <= u32::MAX,
        slot < table@[first as int].spec_n(),
        table@[first as int].spec_k() * table@[first as int].spec_n() <= usize::MAX,
    ensures
        r@ == read_run(sel@, bank(table@), first as int, count as int, low as int, slot as int),
{
    let ghost k = table@[first as int].spec_k();
    let ghost n = table@[first as int].spec_n();
    let mut lut: Vec<Trlwe> = Vec::new();
    let tlen: usize = table.len();
    let mut i: usize = 0;
    while i < count
        invariant
            i <= count,
            first + count <= table@.len(),
            first + count <= tlen,
            bank_wf(table@, k, n),
            lut@.len() == i,
            bank_wf(lut@, k, n),
            forall|j: int| 0 <= j < i ==> (#[trigger] lut@[j])@ == table@[first + j]@,
        decreases count - i,
    {
        let c = table[first + i].clone();
        proof {
            assert(table@[first + i].wf());
            assert(c.wf());
        }
        lut.push(c);
        i += 1;
    }
    let ghost part = bank(table@).subrange(first as int, first + count);
    assert(bank(lut@) =~= part);
    let (lower, upper) = sel.split_at(low);
    proof {
        assert(selectors_wf(lower@, k, n)) by {
            assert forall|i: int| 0 <= i < lower@.len() implies (#[trigger] lower@[i]).wf()
                && lower@[i].spec_k() == k && lower@[i].spec_n() == n by {
                assert(lower@[i] == sel@[i]);
            }
        }
        assert(selectors_wf(upper@, k, n)) by {
            assert forall|i: int| 0 <= i < upper@.len() implies (#[trigger] upper@[i]).wf()
                && upper@[i].spec_k() == k && upper@[i].spec_n() == n by {
                assert(upper@[i] == sel@[low + i]);
            }
        }
        assert(crate::tree::tree_fits(lut@, upper@));
    }
    cmux_tree(&mut lut, upper);
    let mut head = lut[0].clone();
    proof {
        assert(lut@[0].wf());
        assert(head.wf());
        assert(head@ == bank(lut@)[0]);
    }
    head.rotate_right(lower);
    Tlwe::from_trlwe(&head, slot)
}

/// The window that chunk `chunk` of a packing of `len` scalar ciphertexts covers, for
/// polynomials of `upper_n` slots: it starts at `chunk * upper_n` and holds `upper_n`
/// ciphertexts, or as many as are left.
pub fn pack_window(len: usize, chunk: usize, upper_n: usize) -> (r: (usize, usize))
    requires
        chunk * upper_n <= len,
    ensures
        r.0 == window_of(len as nat, chunk as nat, upper_n as nat).0,
        r.1 == window_of(len as nat, chunk as nat, upper_n as nat).1,
        r.0 + r.1 <= len,
        r.1 <= upper_n,
{
    let skip: usize = chunk * upper_n;
    let rest: usize = len - skip;
    (skip, if rest < upper_n { rest } else { upper_n })
}

/// Packs a run of scalar ciphertexts into polynomial ciphertexts of `N` slots each:
/// polynomial `c` packs the ciphertexts from `c * N` on, `N` of them or as many as are
/// left.
pub fn pack_results(results: &TlweArray, key: &TrlwePKSKey) -> (r: TrlweArray)
    requires
        key.wf(),
        results.uniform(key.spec_in_n()),
        results@.len() + key.rows@[0].spec_n() <= usize::MAX,
        1 <= key.rows@[0].spec_n(),
    ensures
        r@.len() == (results@.len() + key.rows@[0].spec_n() - 1) / (key.rows@[0].spec_n() as int),
        bank_wf(r.items@, key.rows@[0].spec_k(), key.rows@[0].spec_n()),
        forall|c: int|
            0 <= c < r@.len() ==> #[trigger] r@[c] == packed(
                window_slice(results@, c as nat, key.rows@[0].spec_n()),
                key@,
                key.rows@[0].spec_k(),
                key.rows@[0].spec_n(),
            ),
{
    let n: usize = key.out_upper_n() as usize;
    let len: usize = results.len();
    let chunks: usize = (len + n - 1) / n;
    let mut items: Vec<Trlwe> = Vec::new();
    let mut c: usize = 0;
    while c < chunks
        invariant
            c <= chunks,
            key.wf(),
            results.uniform(key.spec_in_n()),
            n == key.rows@[0].spec_n(),
            1 <= n,
            len == results@.len(),
            len + n <= usize::MAX,
            chunks == (len + n - 1) / (n as int),
            items@.len() == c,
            bank_wf(items@, key.rows@[0].spec_k(), key.rows@[0].spec_n()),
            c * n <= len + n,
            forall|d: int|
                0 <= d < c ==> (#[trigger] items@[d])@ == packed(
                    window_slice(results@, d as nat, n as nat),
                    key@,
                    key.rows@[0].spec_k(),
                    key.rows@[0].spec_n(),
                ),
        decreases chunks - c,
    {
        proof {
            // c < ceil(len / n) gives c * n < len
            vstd::arithmetic::div_mod::lemma_fundamental_div_mod((len + n - 1) as int, n as int);
            vstd::arithmetic::div_mod::lemma_mod_bound((len + n - 1) as int, n as int);
            assert(c * n < len) by (nonlinear_arith)
                requires
                    c + 1 <= chunks,
                    len + n - 1 == n * chunks + (len + n - 1) % (n as int),
                    0 <= (len + n - 1) % (n as int) < n,
                    n >= 1,
            ;
        }
        let (skip, offset) = pack_window(len, c, n);
        let packed_one = Trlwe::from_tlwe_array(results, skip, offset, key);
        let ghost before = items@;
        items.push(packed_one);
        proof {
            assert(window_slice(results@, c as nat, n as nat) == results@.subrange(
                skip as int,
                skip + offset,
            ));
            assert forall|d: int| 0 <= d < c + 1 implies (#[trigger] items@[d])@ == packed(
                window_slice(results@, d as nat, n as nat),
                key@,
                key.rows@[0].spec_k(),
                key.rows@[0].spec_n(),
            ) by {
                if d < c {
                    assert(items@[d] == before[d]);
                }
            }
            assert((c + 1) * n <= len + n) by (nonlinear_arith)
                requires
                    c * n < len,
            ;
            assert(bank_wf(items@, key.rows@[0].spec_k(), key.rows@[0].spec_n())) by {
                assert forall|d: int| 0 <= d < items@.len() implies (#[trigger] items@[d]).wf()
                    && items@[d].spec_k() == key.rows@[0].spec_k() && items@[d].spec_n()
                    == key.rows@[0].spec_n() by {
                    if d < c {
                        assert(items@[d] == before[d]);
                    }
                }
            }
        }
        c += 1;
    }
    let r = TrlweArray { items };
    assert forall|d: int| 0 <= d < r@.len() implies #[trigger] r@[d] == packed(
        window_slice(results@, d as nat, key.rows@[0].spec_n()),
        key@,
        key.rows@[0].spec_k(),
        key.rows@[0].spec_n(),
    ) by {
        assert(r@[d] == r.items@[d]@);
    }
    r
}

/// Training and inference agree on where a counter lies. Training writes the counter of
/// `(label, addr)` at the extended address `label * 2^addr_size + addr`: its bits below
/// `trn_low_size` name the slot, the others the polynomial. Inference reads it at the
/// offsets of the label plus the parts of the plain address, split at `inf_low_size`.
/// Both name one polynomial and one slot.
pub proof fn lemma_layout_agrees(
    num_labels: nat,
    addr_size: nat,
    input_size: nat,
    upper_n: nat,
    label: nat,
    addr: nat,
)
    requires
        1 <= upper_n,
        label < pow2(crate::pipeline::layout::ceil_log2(num_labels)),
        addr < pow2(addr_size),
        addr_size + crate::pipeline::layout::ceil_log2(num_labels) <= usize::MAX,
        pow2(
            crate::pipeline::layout::minus_or_zero(
                addr_size + crate::pipeline::layout::ceil_log2(num_labels),
                crate::pipeline::layout::floor_log2(upper_n),
            ),
        ) <= usize::MAX,
        pow2(crate::pipeline::layout::floor_log2(upper_n)) <= usize::MAX,
    ensures
        ({
            let layout = crate::pipeline::layout::layout_of(
                num_labels,
                addr_size,
                input_size,
                upper_n,
            );
            let ext = crate::pipeline::address::extended(label, addr, addr_size);
            let (first, slot) = label_offsets(layout, label);
            &&& first + addr / pow2(layout.inf_low_size as nat) == ext / pow2(
                layout.trn_low_size as nat,
            )
            &&& slot + addr % pow2(layout.inf_low_size as nat) == ext % pow2(
                layout.trn_low_size as nat,
            )
        }),
{
    let lb = crate::pipeline::layout::ceil_log2(num_labels);
    let logn = crate::pipeline::layout::floor_log2(upper_n);
    crate::pipeline::layout::lemma_floor_log2_small(upper_n);
    let layout = crate::pipeline::layout::layout_of(num_labels, addr_size, input_size, upper_n);
    let a = addr_size;
    let ext = (label * pow2(a) + addr) as int;
    let pa = pow2(a) as int;
    vstd::arithmetic::power2::lemma_pow2_pos(a);
    vstd::arithmetic::power2::lemma_pow2_pos(logn);
    vstd::arithmetic::power2::lemma2_to64();
    assert(label * pa >= 0) by (nonlinear_arith)
        requires
            label >= 0,
            pa > 0,
    ;
    if a + lb <= logn {
        // no polynomial is picked: the whole extended address names a slot
        vstd::arithmetic::power2::lemma_pow2_adds(a, lb);
        let whole = pow2(a + lb) as int;
        assert(ext < whole) by (nonlinear_arith)
            requires
                ext == label * pa + addr,
                0 <= addr < pa,
                0 <= label < pow2(lb),
                whole == pa * pow2(lb),
        ;
        vstd::arithmetic::power2::lemma_pow2_pos(lb);
        if a + lb < logn {
            vstd::arithmetic::power2::lemma_pow2_strictly_increases(a + lb, logn);
        }
        vstd::arithmetic::div_mod::lemma_small_mod(ext as nat, whole as nat);
        vstd::arithmetic::div_mod::lemma_basic_div(ext, whole);
        vstd::arithmetic::div_mod::lemma_small_mod(addr, pa as nat);
        vstd::arithmetic::div_mod::lemma_basic_div(addr as int, pa);
        vstd::arithmetic::div_mod::lemma_small_mod(label, pow2(lb));
        vstd::arithmetic::div_mod::lemma_basic_div(label as int, pow2(lb) as int);
        if a < logn {
            vstd::arithmetic::power2::lemma_pow2_strictly_increases(a, logn);
        }
        assert(pow2(a) <= usize::MAX);
        assert(layout.trn_low_size == a + lb);
        assert(layout.inf_low_size == a);
        assert(layout.lower_label_bits == lb);
        assert(layout.upper_lut_size == 1);
        assert(layout.lower_lut_size == pow2(a));
        assert((label / pow2(lb)) * 1 == 0);
    } else if a >= logn {
        // the label lies above the polynomial: it picks a part of the table
        let depth = (a + lb - logn) as nat;
        let over = (a - logn) as nat;
        vstd::arithmetic::power2::lemma_pow2_adds(over, logn);
        vstd::arithmetic::power2::lemma_pow2_pos(over);
        let pn = pow2(logn) as int;
        let po = pow2(over) as int;
        assert(layout.trn_low_size == logn);
        assert(layout.inf_low_size == logn);
        assert(layout.lower_label_bits == 0);
        assert(layout.upper_label_bits == lb);
        assert(depth - lb == over);
        if over < depth {
            vstd::arithmetic::power2::lemma_pow2_strictly_increases(over, depth);
        }
        assert(layout.upper_lut_size == po);
        assert(layout.lower_lut_size == pn);
        vstd::arithmetic::div_mod::lemma_fundamental_div_mod(addr as int, pn);
        vstd::arithmetic::div_mod::lemma_mod_bound(addr as int, pn);
        vstd::arithmetic::div_mod::lemma_div_pos_is_pos(addr as int, pn);
        let q = label * po + (addr as int) / pn;
        let r = (addr as int) % pn;
        assert(ext == q * pn + r) by (nonlinear_arith)
            requires
                ext == label * pa + addr,
                pa == po * pn,
                addr == pn * ((addr as int) / pn) + r,
                q == label * po + (addr as int) / pn,
        ;
        vstd::arithmetic::div_mod::lemma_fundamental_div_mod_converse(ext, pn, q, r);
        assert(label / 1 == label && label % 1 == 0);
        assert((label / 1) * po == label * po);
        assert((label % 1) * pn == 0);
    } else {
        // the label is split: its low bits lie inside the polynomial
        let depth = (a + lb - logn) as nat;
        let under = (logn - a) as nat;
        vstd::arithmetic::power2::lemma_pow2_adds(under, a);
        vstd::arithmetic::power2::lemma_pow2_pos(under);
        let pn = pow2(logn) as int;
        let pu = pow2(under) as int;
        assert(layout.trn_low_size == logn);
        assert(layout.inf_low_size == a);
        assert(layout.lower_label_bits == under);
        assert(layout.upper_label_bits == depth);
        assert(layout.upper_lut_size == 1);
        if a < logn {
            vstd::arithmetic::power2::lemma_pow2_strictly_increases(a, logn);
        }
        assert(layout.lower_lut_size == pa);
        vstd::arithmetic::div_mod::lemma_fundamental_div_mod(label as int, pu);
        vstd::arithmetic::div_mod::lemma_mod_bound(label as int, pu);
        vstd::arithmetic::div_mod::lemma_div_pos_is_pos(label as int, pu);
        let q = (label as int) / pu;
        let lo = (label as int) % pu;
        let r = lo * pa + addr;
        assert(ext == q * pn + r && 0 <= r < pn) by (nonlinear_arith)
            requires
                ext == label * pa + addr,
                pn == pu * pa,
                label == pu * q + lo,
                0 <= lo < pu,
                0 <= addr < pa,
                r == lo * pa + addr,
        ;
        vstd::arithmetic::div_mod::lemma_fundamental_div_mod_converse(ext, pn, q, r);
        vstd::arithmetic::div_mod::lemma_small_mod(addr, pa as nat);
        vstd::arithmetic::div_mod::lemma_basic_div(addr as int, pa);
        assert(q * 1 == q) by (nonlinear_arith);
    }
}

} // verus!
