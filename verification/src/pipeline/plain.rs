use vstd::prelude::*;
use vstd::arithmetic::power2::pow2;
use crate::tree::pow2_size;

verus! {

/// The slot of the counter of `(label, index, addr)` in a table of `num_luts_disc` tables
/// per label and addresses of `addr_size` bits.
pub open spec fn slot_of(label: nat, index: nat, addr: nat, num_luts_disc: nat, addr_size: nat) -> nat {
    (label * num_luts_disc + index) * pow2(addr_size) + addr
}

/// The counters of a classifier in the clear: one counter for every label, every table
/// of the label and every address. It says what the sealed tables hold.
pub struct PlainModel {
    pub luts: Vec<u32>,
    pub num_labels: usize,
    pub num_luts_disc: usize,
    pub addr_size: usize,
}

impl PlainModel {
    /// There is one counter for every label, table and address.
    pub open spec fn wf(&self) -> bool {
        &&& self.addr_size < usize::BITS
        &&& self.luts@.len() == self.num_labels * self.num_luts_disc * pow2(self.addr_size as nat)
    }

    /// `(label, index, addr)` names a counter of the model.
    pub open spec fn names(&self, label: nat, index: nat, addr: nat) -> bool {
        &&& label < self.num_labels
        &&& index < self.num_luts_disc
        &&& addr < pow2(self.addr_size as nat)
    }

    /// The slot of a counter, as a specification value.
    pub open spec fn spec_slot(&self, label: nat, index: nat, addr: nat) -> nat {
        slot_of(label, index, addr, self.num_luts_disc as nat, self.addr_size as nat)
    }

    /// Every counter that is named lies in the table, and two names share a slot only
    /// where they are one name.
    pub proof fn lemma_slot(&self, label: nat, index: nat, addr: nat)
        requires
            self.wf(),
            self.names(label, index, addr),
        ensures
            self.spec_slot(label, index, addr) < self.luts@.len(),
            forall|l2: nat, i2: nat, a2: nat|
                self.names(l2, i2, a2) && #[trigger] self.spec_slot(l2, i2, a2) == self.spec_slot(
                    label,
                    index,
                    addr,
                ) ==> l2 == label && i2 == index && a2 == addr,
    {
        let p = pow2(self.addr_size as nat) as int;
        let d = self.num_luts_disc as int;
        let nl = self.num_labels as int;
        vstd::arithmetic::power2::lemma_pow2_pos(self.addr_size as nat);
        let row = label * d + index;
        assert(row + 1 <= nl * d) by (nonlinear_arith)
            requires
                row == label * d + index,
                0 <= label < nl,
                0 <= index < d,
        ;
        assert(row * p + addr < nl * d * p) by (nonlinear_arith)
            requires
                row + 1 <= nl * d,
                0 <= addr < p,
                row >= 0,
        ;
        assert forall|l2: nat, i2: nat, a2: nat|
            self.names(l2, i2, a2) && #[trigger] self.spec_slot(l2, i2, a2) == self.spec_slot(
                label,
                index,
                addr,
            ) implies l2 == label && i2 == index && a2 == addr by {
            let row2 = l2 * d + i2;
            vstd::arithmetic::div_mod::lemma_fundamental_div_mod_converse(
                row * p + addr,
                p,
                row,
                addr as int,
            );
            vstd::arithmetic::div_mod::lemma_fundamental_div_mod_converse(
                row2 * p + a2,
                p,
                row2,
                a2 as int,
            );
            assert(row == row2);
            vstd::arithmetic::div_mod::lemma_fundamental_div_mod_converse(
                row,
                d,
                label as int,
                index as int,
            );
            vstd::arithmetic::div_mod::lemma_fundamental_div_mod_converse(
                row2,
                d,
                l2 as int,
                i2 as int,
            );
        }
    }

    /// A model whose counters are all zero.
    pub fn new(num_labels: usize, num_luts_disc: usize, addr_size: usize) -> (r: Self)
        requires
            addr_size < usize::BITS,
            num_labels * num_luts_disc * pow2(addr_size as nat) <= usize::MAX,
        ensures
            r.wf(),
            r.num_labels == num_labels,
            r.num_luts_disc == num_luts_disc,
            r.addr_size == addr_size,
            forall|i: int| 0 <= i < r.luts@.len() ==> r.luts@[i] == 0,
    {
        let unit = pow2_size(addr_size);
        proof {
            vstd::arithmetic::power2::lemma_pow2_pos(addr_size as nat);
            assert(num_labels * num_luts_disc <= num_labels * num_luts_disc * unit)
                by (nonlinear_arith)
                requires
                    unit >= 1,
            ;
        }
        let total: usize = num_labels * num_luts_disc * unit;
        let mut luts: Vec<u32> = Vec::new();
        let mut i: usize = 0;
        while i < total
            invariant
                i <= total,
                luts@.len() == i,
                forall|j: int| 0 <= j < i ==> luts@[j] == 0,
            decreases total - i,
        {
            luts.push(0);
            i += 1;
        }
        PlainModel { luts, num_labels, num_luts_disc, addr_size }
    }

    /// The slot of the counter of `(label, index, addr)`.
    pub fn slot(&self, label: usize, index: usize, addr: usize) -> (r: usize)
        requires
            self.wf(),
            self.names(label as nat, index as nat, addr as nat),
        ensures
            r == self.spec_slot(label as nat, index as nat, addr as nat),
            r < self.luts@.len(),
    {
        let unit = pow2_size(self.addr_size);
        let total: usize = self.luts.len();
        proof {
            self.lemma_slot(label as nat, index as nat, addr as nat);
            let p = unit as int;
            let d = self.num_luts_disc as int;
            assert(0 <= label * d <= label * d + index);
            assert((label * d + index) * p <= (label * d + index) * p + addr);
            assert(label * d + index <= (label * d + index) * p) by (nonlinear_arith)
                requires
                    p >= 1,
                    label * d + index >= 0,
            ;
        }
        (label * self.num_luts_disc + index) * unit + addr
    }

    /// Counts one more sample at `(label, index, addr)`.
    pub fn train(&mut self, label: usize, index: usize, addr: usize)
        requires
            old(self).wf(),
            old(self).names(label as nat, index as nat, addr as nat),
            old(self).luts@[old(self).spec_slot(label as nat, index as nat, addr as nat) as int]
                < u32::MAX,
        ensures
            final(self).wf(),
            final(self).num_labels == old(self).num_labels,
            final(self).num_luts_disc == old(self).num_luts_disc,
            final(self).addr_size == old(self).addr_size,
            final(self).luts@ == old(self).luts@.update(
                old(self).spec_slot(label as nat, index as nat, addr as nat) as int,
                (old(self).luts@[old(self).spec_slot(label as nat, index as nat, addr as nat) as int]
                    + 1) as u32,
            ),
    {
        let at = self.slot(label, index, addr);
        let value = self.luts[at];
        self.luts[at] = value + 1;
    }

    /// The counter of `(label, index, addr)`, reduced to `counter_size` bits.
    pub fn read(&self, label: usize, index: usize, addr: usize, counter_size: u32) -> (r: u32)
        requires
            self.wf(),
            self.names(label as nat, index as nat, addr as nat),
            counter_size < 32,
        ensures
            r == self.luts@[self.spec_slot(label as nat, index as nat, addr as nat) as int] % (pow2(
                counter_size as nat,
            ) as u32),
    {
        let at = self.slot(label, index, addr);
        proof {
            vstd::arithmetic::power2::lemma2_to64();
            vstd::arithmetic::power2::lemma_pow2_strictly_increases(counter_size as nat, 32);
            vstd::arithmetic::power2::lemma_pow2_pos(counter_size as nat);
        }
        let unit: u32 = crate::gadget::pow2_word(counter_size) as u32;
        self.luts[at] % unit
    }
}

} // verus!
