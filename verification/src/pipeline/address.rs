use vstd::prelude::*;
use vstd::arithmetic::power2::pow2;
use vstd::arithmetic::power2::lemma_pow2_pos;
use vstd::arithmetic::power2::lemma_pow2_unfold;
use crate::ideal::index_of;
use crate::torus::Torus;
use crate::tree::pow2_size;
use crate::tree::selectors_wf;
use crate::trgsw::dft::TrgswDft;
use crate::trgsw::dft::TrgswDftArray;
use crate::trgsw::key::TrgswKey;
use crate::trgsw::sample::Trgsw;
use crate::trgsw::sample::seals;

verus! {

/// Bit `i` of `value`.
pub open spec fn bit_of(value: nat, i: nat) -> bool {
    (value / pow2(i)) % 2 == 1
}

/// The address `addr` of `addr_size` bits with the label `label` set above it.
pub open spec fn extended(label: nat, addr: nat, addr_size: nat) -> nat {
    label * pow2(addr_size) + addr
}

/// The bits below position `upto` of a value spell its residue modulo `2^upto`.
pub proof fn lemma_bits_spell(value: nat, bits: Seq<bool>, upto: nat)
    requires
        upto <= bits.len(),
        forall|i: int| 0 <= i < upto ==> bits[i] == bit_of(value, i as nat),
    ensures
        index_of(bits, upto) == value % pow2(upto),
    decreases upto,
{
    vstd::arithmetic::power2::lemma2_to64();
    if upto > 0 {
        let t = (upto - 1) as nat;
        lemma_bits_spell(value, bits, t);
        lemma_pow2_unfold(upto);
        lemma_pow2_pos(t);
        let p = pow2(t) as int;
        let v = value as int;
        // v % 2p == v % p + p * ((v / p) % 2)
        vstd::arithmetic::div_mod::lemma_fundamental_div_mod(v, p);
        vstd::arithmetic::div_mod::lemma_fundamental_div_mod(v / p, 2);
        vstd::arithmetic::div_mod::lemma_mod_bound(v, p);
        vstd::arithmetic::div_mod::lemma_div_pos_is_pos(v, p);
        let q = v / p;
        let r = v % p;
        let b = q % 2;
        assert(v == p * (2 * (q / 2) + b) + r);
        assert(v == (2 * p) * (q / 2) + (p * b + r)) by (nonlinear_arith)
            requires
                v == p * (2 * (q / 2) + b) + r,
        ;
        assert(0 <= p * b + r < 2 * p) by (nonlinear_arith)
            requires
                0 <= b < 2,
                0 <= r < p,
        ;
        vstd::arithmetic::div_mod::lemma_fundamental_div_mod_converse(
            v,
            2 * p,
            q / 2,
            p * b + r,
        );
        assert(p * b == if b == 1 { p } else { 0 }) by (nonlinear_arith)
            requires
                0 <= b < 2,
        ;
    }
}

/// Sets the label above the address: `label * 2^addr_size + addr`.
pub fn extend_address(label: usize, addr: u32, addr_size: usize) -> (r: usize)
    requires
        addr_size < usize::BITS,
        addr < pow2(addr_size as nat),
        extended(label as nat, addr as nat, addr_size as nat) <= usize::MAX,
    ensures
        r == extended(label as nat, addr as nat, addr_size as nat),
{
    let unit = pow2_size(addr_size);
    proof {
        lemma_pow2_pos(addr_size as nat);
        assert(label * unit <= label * unit + addr);
    }
    label * unit + addr as usize
}

/// The `size` low bits of `value`, least significant first.
pub fn address_bits(value: u64, size: usize) -> (bits: Vec<bool>)
    requires
        size <= 64,
    ensures
        bits@.len() == size,
        forall|i: int| 0 <= i < size ==> bits@[i] == bit_of(value as nat, i as nat),
        index_of(bits@, size as nat) == (value as nat) % pow2(size as nat),
{
    let mut bits: Vec<bool> = Vec::new();
    let mut i: usize = 0;
    while i < size
        invariant
            i <= size,
            size <= 64,
            bits@.len() == i,
            forall|j: int| 0 <= j < i ==> bits@[j] == bit_of(value as nat, j as nat),
        decreases size - i,
    {
        let p: u64 = crate::gadget::pow2_word(i as u32);
        proof {
            lemma_pow2_pos(i as nat);
        }
        bits.push((value / p) % 2 == 1);
        i += 1;
    }
    proof {
        lemma_bits_spell(value as nat, bits@, size as nat);
    }
    bits
}

/// Seals every bit of an address as a selector under `key`, least significant first.
pub fn seal_bits(bits: &Vec<bool>, key: &TrgswKey) -> (r: TrgswDftArray)
    requires
        key.wf(),
        1 <= key.trlwe_key@[0].len(),
        (key.trlwe_key@.len() + 1) * key.l <= usize::MAX,
    ensures
        r@.len() == bits@.len(),
        selectors_wf(r.items@, key.trlwe_key@.len(), key.trlwe_key@[0].len()),
        forall|i: int|
            0 <= i < bits@.len() ==> seals(
                #[trigger] r@[i],
                if bits@[i] { 1 } else { 0 },
                0,
                key.trlwe_key@,
                key.l as nat,
                key.bg_bit as nat,
            ),
{
    let mut items: Vec<TrgswDft> = Vec::new();
    let mut i: usize = 0;
    while i < bits.len()
        invariant
            i <= bits@.len(),
            key.wf(),
            1 <= key.trlwe_key@[0].len(),
            (key.trlwe_key@.len() + 1) * key.l <= usize::MAX,
            items@.len() == i,
            selectors_wf(items@, key.trlwe_key@.len(), key.trlwe_key@[0].len()),
            forall|j: int|
                0 <= j < i ==> seals(
                    (#[trigger] items@[j])@,
                    if bits@[j] { 1 } else { 0 },
                    0,
                    key.trlwe_key@,
                    key.l as nat,
                    key.bg_bit as nat,
                ),
        decreases bits@.len() - i,
    {
        let m: Torus = Torus::from_raw(if bits[i] { 1 } else { 0 });
        let g = TrgswDft::from_trgsw(&Trgsw::new(m, 0, key));
        proof {
            assert(g.wf()) by {
                assert(g@.rows[0].len() >= 1);
            }
        }
        items.push(g);
        i += 1;
    }
    let r = TrgswDftArray { items };
    assert forall|j: int| 0 <= j < bits@.len() implies seals(
        #[trigger] r@[j],
        if bits@[j] { 1 } else { 0 },
        0,
        key.trlwe_key@,
        key.l as nat,
        key.bg_bit as nat,
    ) by {
        assert(r@[j] == r.items@[j]@);
    }
    r
}

/// The bits of a value below position `low` spell its residue modulo `2^low`, and the
/// bits from `low` on spell the rest of it.
pub proof fn lemma_split_bits(value: nat, bits: Seq<bool>, low: nat)
    requires
        low <= bits.len(),
        forall|i: int| 0 <= i < bits.len() ==> bits[i] == bit_of(value, i as nat),
    ensures
        index_of(bits.subrange(0, low as int), low) == value % pow2(low),
        index_of(bits.subrange(low as int, bits.len() as int), (bits.len() - low) as nat) == (value
            / pow2(low)) % pow2((bits.len() - low) as nat),
{
    let lo = bits.subrange(0, low as int);
    let hi = bits.subrange(low as int, bits.len() as int);
    let rest = value / pow2(low);
    lemma_pow2_pos(low);
    assert forall|i: int| 0 <= i < lo.len() implies lo[i] == bit_of(value, i as nat) by {
        assert(lo[i] == bits[i]);
    }
    lemma_bits_spell(value, lo, low);
    assert forall|i: int| 0 <= i < hi.len() implies hi[i] == bit_of(rest, i as nat) by {
        assert(hi[i] == bits[low + i]);
        lemma_pow2_pos(i as nat);
        vstd::arithmetic::power2::lemma_pow2_adds(low, i as nat);
        vstd::arithmetic::div_mod::lemma_div_denominator(
            value as int,
            pow2(low) as int,
            pow2(i as nat) as int,
        );
    }
    lemma_bits_spell(rest, hi, (bits.len() - low) as nat);
}

/// An address with a label set above it is below `2^(addr_size + label_size)`, and the
/// address and the label can be read off it.
pub proof fn lemma_extended_parts(label: nat, addr: nat, addr_size: nat, label_size: nat)
    requires
        addr < pow2(addr_size),
        label < pow2(label_size),
    ensures
        extended(label, addr, addr_size) < pow2(addr_size + label_size),
        extended(label, addr, addr_size) / pow2(addr_size) == label,
        extended(label, addr, addr_size) % pow2(addr_size) == addr,
{
    let pa = pow2(addr_size) as int;
    lemma_pow2_pos(addr_size);
    vstd::arithmetic::power2::lemma_pow2_adds(addr_size, label_size);
    assert(label * pa + addr < pa * pow2(label_size)) by (nonlinear_arith)
        requires
            0 <= addr < pa,
            0 <= label < pow2(label_size),
    ;
    vstd::arithmetic::div_mod::lemma_fundamental_div_mod_converse(
        label * pa + addr,
        pa,
        label as int,
        addr as int,
    );
}

} // verus!
