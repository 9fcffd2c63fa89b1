use mosfhet::poly::torus::TorusPolynomial;
use mosfhet::torus::Torus;
use mosfhet::tree::cdemux_tree;
use mosfhet::tree::cmux_tree;
use mosfhet::tree::deep_cswap;
use mosfhet::trgsw::dft::Gate;
use mosfhet::trgsw::dft::TrgswDft;
use mosfhet::trgsw::dft::TrgswDftArray;
use mosfhet::trgsw::key::TrgswKey;
use mosfhet::trgsw::sample::Trgsw;
use mosfhet::trgsw::sample::TrgswArray;
use mosfhet::trlwe::dft::TrlweDft;
use mosfhet::trlwe::key::TrlweKey;
use mosfhet::trlwe::sample::Trlwe;
use mosfhet::trlwe::sample::TrlweArray;

const PRECISION: usize = 8;

struct Keys {
    trlwe: TrlweKey,
    trgsw: TrgswKey,
}

fn keys(upper_n: u32, k: u32, l: u32, bg_bit: u32) -> Keys {
    let trlwe = TrlweKey::new(upper_n, k);
    let trgsw = TrgswKey::new(&trlwe, l, bg_bit);
    Keys { trlwe, trgsw }
}

fn constant(upper_n: u32, value: u64) -> TorusPolynomial {
    TorusPolynomial::from_elem(upper_n, Torus::from_unsigned(value, PRECISION))
}

fn seal(keys: &Keys, value: u64) -> Trlwe {
    Trlwe::new(constant(keys.trlwe.upper_n(), value), &keys.trlwe)
}

fn open(keys: &Keys, ct: &Trlwe) -> Vec<u64> {
    ct.phase(&keys.trlwe)
        .as_slice()
        .iter()
        .map(|t| t.into_unsigned(PRECISION))
        .collect()
}

fn open_all(keys: &Keys, run: &[Trlwe]) -> Vec<u64> {
    run.iter().map(|ct| open(keys, ct)[0]).collect()
}

fn selector(keys: &Keys, bit: u64) -> TrgswDft {
    TrgswDft::from_trgsw(&Trgsw::new(Torus::from_raw(bit), 0, &keys.trgsw))
}

fn selectors(keys: &Keys, value: usize, count: usize) -> TrgswDftArray {
    TrgswDftArray::from_fn(count, &keys.trgsw, |i| {
        (Torus::from_raw(((value >> i) & 1) as u64), 0)
    })
}

fn run_of(keys: &Keys, values: &[u64]) -> Vec<Trlwe> {
    values.iter().map(|v| seal(keys, *v)).collect()
}

#[test]
fn four_slot_select_tree_picks_the_third_slot() {
    let keys = keys(16, 1, 2, 16);
    let mut run = run_of(&keys, &[10, 20, 30, 40]);
    let sel = selectors(&keys, 2, 2);
    cmux_tree(&mut run, sel.as_slice());
    assert_eq!(open(&keys, &run[0]), vec![30; 16]);
}

#[test]
fn select_tree_picks_every_slot_in_turn() {
    let keys = keys(16, 1, 3, 12);
    for depth in 0..4usize {
        let values: Vec<u64> = (0..(1u64 << depth)).map(|i| 100 + i).collect();
        for pick in 0..(1usize << depth) {
            let mut run = run_of(&keys, &values);
            let sel = selectors(&keys, pick, depth);
            cmux_tree(&mut run, sel.as_slice());
            assert_eq!(open(&keys, &run[0])[0], 100 + pick as u64);
        }
    }
}

#[test]
fn distribute_tree_moves_the_first_slot_to_the_named_slot() {
    let keys = keys(16, 1, 2, 16);
    for depth in 0..4usize {
        for pick in 0..(1usize << depth) {
            let mut values = vec![0u64; 1 << depth];
            values[0] = 77;
            let mut run = run_of(&keys, &values);
            let sel = selectors(&keys, pick, depth);
            cdemux_tree(&mut run, sel.as_slice());
            let mut expected = vec![0u64; 1 << depth];
            expected[pick] = 77;
            assert_eq!(open_all(&keys, &run), expected);
        }
    }
}

#[test]
fn select_gate_takes_the_low_operand_for_zero_and_the_high_one_for_one() {
    let keys = keys(16, 2, 2, 16);
    for bit in 0..2u64 {
        let mut a = seal(&keys, 11);
        let mut b = seal(&keys, 22);
        selector(&keys, bit).cmux(&mut a, &mut b);
        assert_eq!(open(&keys, &a), vec![if bit == 0 { 11 } else { 22 }; 16]);
        assert_eq!(open(&keys, &b), vec![if bit == 0 { 0 } else { 11 }; 16]);
    }
}

#[test]
fn distribute_gate_keeps_for_zero_and_moves_for_one() {
    let keys = keys(16, 1, 2, 16);
    for bit in 0..2u64 {
        let mut a = seal(&keys, 33);
        let mut b = seal(&keys, 0);
        selector(&keys, bit).cdemux(&mut a, &mut b);
        assert_eq!(open(&keys, &a)[0], if bit == 0 { 33 } else { 0 });
        assert_eq!(open(&keys, &b)[0], if bit == 0 { 0 } else { 33 });
    }
}

#[test]
fn distribute_gate_keeps_the_sum_of_its_operands() {
    let keys = keys(16, 1, 2, 16);
    for bit in 0..2u64 {
        let mut a = seal(&keys, 33);
        let mut b = seal(&keys, 5);
        selector(&keys, bit).cdemux(&mut a, &mut b);
        // a' = a - bit * (a + b), b' = (a + b) - a'
        let low = if bit == 0 { 33 } else { 256 - 5 };
        let high = if bit == 0 { 5 } else { 33 + 5 + 5 };
        assert_eq!(open(&keys, &a)[0], low);
        assert_eq!(open(&keys, &b)[0], high);
    }
}

#[test]
fn swap_gate_exchanges_for_one_only() {
    let keys = keys(16, 1, 2, 16);
    for bit in 0..2u64 {
        let mut a = seal(&keys, 5);
        let mut b = seal(&keys, 9);
        selector(&keys, bit).cswap(&mut a, &mut b);
        assert_eq!(open(&keys, &a)[0], if bit == 0 { 5 } else { 9 });
        assert_eq!(open(&keys, &b)[0], if bit == 0 { 9 } else { 5 });
    }
}

#[test]
fn trivial_full_precision_selectors_act_exactly() {
    let upper_n = 8;
    let k = 1;
    let a = Trlwe::new_noiseless(
        TorusPolynomial::from_fn(upper_n, |i| Torus::from_raw(0x1111_1111_1111_1111 * i as u64 + 3)),
        k,
        upper_n,
    );
    let b = Trlwe::new_noiseless(
        TorusPolynomial::from_fn(upper_n, |i| Torus::from_raw(u64::MAX - 5 * i as u64)),
        k,
        upper_n,
    );
    for (l, bg_bit) in [(1u32, 64u32), (2, 32), (4, 16), (8, 8)] {
        for bit in 0..2u64 {
            let g = TrgswDft::from_trgsw(&Trgsw::new_noiseless(
                Torus::from_raw(bit),
                l,
                bg_bit,
                k,
                upper_n,
            ));
            let (lo, _) = g.gate(Gate::Cmux, &a, &b);
            let want = if bit == 0 { &a } else { &b };
            assert_eq!(lo.polys[1].as_slice(), want.polys[1].as_slice());
            assert_eq!(lo.polys[0].as_slice(), want.polys[0].as_slice());
            let (lo, hi) = g.gate(Gate::Cswap, &a, &b);
            let (first, second) = if bit == 0 { (&a, &b) } else { (&b, &a) };
            assert_eq!(lo.polys[1].as_slice(), first.polys[1].as_slice());
            assert_eq!(hi.polys[1].as_slice(), second.polys[1].as_slice());
            let prod = Trlwe::from_dft(&TrlweDft::mul_trlwe_dft(&a, &g));
            if bit == 1 {
                assert_eq!(prod.polys[1].as_slice(), a.polys[1].as_slice());
            } else {
                assert!(prod.polys[1].as_slice().iter().all(|c| c.into_raw() == 0));
            }
        }
    }
}

#[test]
fn strided_select_pairs_slots_a_stride_apart_and_leaves_the_rest() {
    let keys = keys(16, 1, 2, 16);
    let one = selector(&keys, 1);
    // 7 slots, stride 1: pairs (0,1), (2,3), (4,5); slot 6 has no partner.
    let mut run = run_of(&keys, &[1, 2, 3, 4, 5, 6, 7]);
    one.cmux_vectored(&mut run, 1);
    assert_eq!(open_all(&keys, &run), vec![2, 1, 4, 1, 6, 1, 7]);
    // 7 slots, stride 2: pairs (0,2), (4,6); slots 1, 3, 5 stay.
    let mut run = run_of(&keys, &[1, 2, 3, 4, 5, 6, 7]);
    one.cmux_vectored(&mut run, 2);
    assert_eq!(open_all(&keys, &run), vec![3, 2, 2, 4, 7, 6, 2]);
    // 6 slots, stride 4: the only pair (0,4) lies in the spare part.
    let mut run = run_of(&keys, &[1, 2, 3, 4, 5, 6]);
    one.cmux_vectored(&mut run, 4);
    assert_eq!(open_all(&keys, &run), vec![5, 2, 3, 4, 4, 6]);
    // 4 slots, stride 4: no pair at all.
    let mut run = run_of(&keys, &[1, 2, 3, 4]);
    one.cmux_vectored(&mut run, 4);
    assert_eq!(open_all(&keys, &run), vec![1, 2, 3, 4]);
    // the selector zero changes no low slot and empties the high ones.
    let zero = selector(&keys, 0);
    let mut run = run_of(&keys, &[1, 2, 3, 4]);
    zero.cmux_vectored(&mut run, 1);
    assert_eq!(open_all(&keys, &run), vec![1, 0, 3, 0]);
    let mut none: Vec<Trlwe> = Vec::new();
    one.cmux_vectored(&mut none, 1);
    assert!(none.is_empty());
}

#[test]
fn strided_distribute_uses_the_same_pairs() {
    let keys = keys(16, 1, 2, 16);
    let one = selector(&keys, 1);
    let mut run = run_of(&keys, &[9, 0, 8, 0, 7]);
    one.cdemux_vectored(&mut run, 1);
    assert_eq!(open_all(&keys, &run), vec![0, 9, 0, 8, 7]);
    let zero = selector(&keys, 0);
    let mut run = run_of(&keys, &[9, 0, 8, 0, 7]);
    zero.cdemux_vectored(&mut run, 1);
    assert_eq!(open_all(&keys, &run), vec![9, 0, 8, 0, 7]);
}

#[test]
fn strided_swap_starts_at_its_offset_and_wraps_round_the_end() {
    let keys = keys(16, 1, 2, 16);
    let one = selector(&keys, 1);
    // 8 slots, stride 2, offset 0: pairs (0,2), (4,6).
    let mut run = run_of(&keys, &[0, 1, 2, 3, 4, 5, 6, 7]);
    one.cswap_vectored(&mut run, 0, 2);
    assert_eq!(open_all(&keys, &run), vec![2, 1, 0, 3, 6, 5, 4, 7]);
    // 8 slots, stride 2, offset 1: pairs (1,3), (5,7).
    let mut run = run_of(&keys, &[0, 1, 2, 3, 4, 5, 6, 7]);
    one.cswap_vectored(&mut run, 1, 2);
    assert_eq!(open_all(&keys, &run), vec![0, 3, 2, 1, 4, 7, 6, 5]);
    // 6 slots, stride 2, offset 1: pair (1,3); slot 5 wraps round to slot 1's
    // left neighbour: its partner is slot 5 + 2 - 6 = 1, which is no slot before
    // the offset, so slot 5 stays.
    let mut run = run_of(&keys, &[0, 1, 2, 3, 4, 5]);
    one.cswap_vectored(&mut run, 1, 2);
    assert_eq!(open_all(&keys, &run), vec![0, 3, 2, 1, 4, 5]);
    // 7 slots, stride 4, offset 3: slot 3 pairs with slot 7 - 7 = 0 round the end.
    let mut run = run_of(&keys, &[0, 1, 2, 3, 4, 5, 6]);
    one.cswap_vectored(&mut run, 3, 4);
    assert_eq!(open_all(&keys, &run), vec![3, 1, 2, 0, 4, 5, 6]);
    // 5 slots, stride 2, offset 1: pair (1,3) lies in the spare part.
    let mut run = run_of(&keys, &[0, 1, 2, 3, 4]);
    one.cswap_vectored(&mut run, 1, 2);
    assert_eq!(open_all(&keys, &run), vec![0, 3, 2, 1, 4]);
    // the selector zero swaps nothing.
    let zero = selector(&keys, 0);
    let mut run = run_of(&keys, &[0, 1, 2, 3, 4, 5, 6]);
    zero.cswap_vectored(&mut run, 3, 4);
    assert_eq!(open_all(&keys, &run), vec![0, 1, 2, 3, 4, 5, 6]);
}

fn deep_cswap_model(values: &[u64], pick: usize, depth: usize) -> Vec<u64> {
    let mut v = values.to_vec();
    let len = v.len();
    for i in 0..depth {
        let stride = 1usize << i;
        for offset in 0..stride {
            if (pick >> i) & 1 == 0 {
                continue;
            }
            let mut p = offset;
            while p < len {
                if p + stride < len {
                    v.swap(p, p + stride);
                } else if p + stride - len < offset {
                    v.swap(p, p + stride - len);
                }
                p += 2 * stride;
            }
        }
    }
    v
}

#[test]
fn exchange_network_swaps_every_level_whose_bit_is_set() {
    let keys = keys(16, 1, 2, 16);
    for len in [4usize, 7, 8] {
        let depth = 3;
        let values: Vec<u64> = (0..len as u64).collect();
        for pick in 0..(1usize << depth) {
            if len < 4 {
                continue;
            }
            let mut run = run_of(&keys, &values);
            let sel = selectors(&keys, pick, depth);
            deep_cswap(&mut run, sel.as_slice());
            assert_eq!(open_all(&keys, &run), deep_cswap_model(&values, pick, depth));
        }
    }
}

#[test]
fn exchange_network_on_a_power_of_two_brings_the_named_slot_to_the_front() {
    let keys = keys(16, 1, 2, 16);
    let values: Vec<u64> = (0..8u64).map(|i| 50 + i).collect();
    for pick in 0..8usize {
        let mut run = run_of(&keys, &values);
        let sel = selectors(&keys, pick, 3);
        deep_cswap(&mut run, sel.as_slice());
        let opened = open_all(&keys, &run);
        assert_eq!(opened[0], 50 + pick as u64);
        let mut sorted = opened.clone();
        sorted.sort();
        assert_eq!(sorted, values);
    }
}

#[test]
fn blind_rotation_by_minus_the_exponent_reads_the_coefficient() {
    let upper_n = 16u32;
    let keys = keys(upper_n, 1, 2, 16);
    let ramp = TorusPolynomial::from_fn(upper_n, |i| Torus::from_unsigned(i as u64, 4));
    for e in 0..(upper_n as usize) {
        let mut ct = Trlwe::new(ramp.clone(), &keys.trlwe);
        let sel = selectors(&keys, e, 4);
        ct.rotate_right(sel.as_slice());
        let opened = ct.phase(&keys.trlwe);
        assert_eq!(opened.get(0).into_unsigned(4), e as u64);
    }
}

#[test]
fn blind_rotation_adds_up_the_exponents_of_the_set_bits() {
    let upper_n = 8u32;
    let keys = keys(upper_n, 1, 2, 16);
    let unit = TorusPolynomial::from_fn(upper_n, |i| {
        Torus::from_unsigned(if i == 0 { 1 } else { 0 }, 2)
    });
    for e in 0..(2 * upper_n as usize) {
        let mut ct = Trlwe::new(unit.clone(), &keys.trlwe);
        let sel = selectors(&keys, e, 4);
        let exps: Vec<Torus> = (0..4).map(|i| Torus::from_raw(1 << i)).collect();
        ct.blind_rotate(&exps, sel.as_slice());
        let opened: Vec<u64> = ct
            .phase(&keys.trlwe)
            .as_slice()
            .iter()
            .map(|t| t.into_unsigned(2))
            .collect();
        let mut expected = vec![0u64; upper_n as usize];
        if e < upper_n as usize {
            expected[e] = 1;
        } else {
            expected[e - upper_n as usize] = 3;
        }
        assert_eq!(opened, expected);

        let mut left = Trlwe::new(unit.clone(), &keys.trlwe);
        left.rotate_left(sel.as_slice());
        let opened_left: Vec<u64> = left
            .phase(&keys.trlwe)
            .as_slice()
            .iter()
            .map(|t| t.into_unsigned(2))
            .collect();
        assert_eq!(opened_left, expected);
    }
}

#[test]
fn gadget_ciphertexts_have_the_shape_of_their_key() {
    let keys = keys(16, 2, 3, 10);
    assert_eq!(keys.trgsw.l(), 3);
    assert_eq!(keys.trgsw.bg_bit(), 10);
    assert_eq!(keys.trgsw.k(), 2);
    assert_eq!(keys.trgsw.upper_n(), 16);
    let g = Trgsw::new(Torus::from_raw(1), 0, &keys.trgsw);
    assert_eq!(g.rows.len(), 9);
    assert_eq!((g.l(), g.bg_bit(), g.k(), g.upper_n()), (3, 10, 2, 16));
    let d = TrgswDft::from_trgsw(&g);
    assert_eq!((d.l(), d.bg_bit(), d.k(), d.upper_n()), (3, 10, 2, 16));
    let arr = TrgswArray::from_elem(4, &keys.trgsw, Torus::from_raw(1), 0);
    assert_eq!(arr.len(), 4);
    assert!(!arr.is_empty());
    assert_eq!((arr.l(), arr.bg_bit(), arr.k(), arr.upper_n()), (3, 10, 2, 16));
    let plain = TrgswArray::from_elem_noiseless(2, 3, 10, 2, 16, Torus::from_raw(1), 0);
    assert_eq!(plain.iter().count(), 2);
    let darr = TrgswDftArray::from_elem(3, &keys.trgsw, Torus::from_raw(0), 0);
    assert_eq!(darr.len(), 3);
    assert_eq!(darr.iter().count(), 3);
    assert!(TrgswDftArray::from_elem(0, &keys.trgsw, Torus::from_raw(0), 0).is_empty());
}

#[test]
fn a_sealed_gadget_row_decrypts_to_its_weighted_message() {
    let keys = keys(8, 1, 2, 8);
    let g = Trgsw::new(Torus::from_raw(1), 3, &keys.trgsw);
    // row i * l + j holds the message times 2^(64 - 8 (j + 1)) times X^3 on polynomial i:
    // the rows of the body polynomial decrypt to just that.
    for j in 0..2usize {
        let row = &g.rows[2 + j];
        let opened = row.phase(&keys.trlwe);
        for (i, c) in opened.as_slice().iter().enumerate() {
            let want = if i == 3 { 1u64 << (64 - 8 * (j + 1)) } else { 0 };
            assert_eq!(c.into_raw(), want);
        }
    }
}

#[test]
fn polynomial_ciphertext_runs_hold_what_their_builders_say() {
    let keys = keys(8, 1, 1, 8);
    let run = TrlweArray::from_fn(3, &keys.trlwe, |i| constant(8, i as u64 + 1));
    assert_eq!(run.len(), 3);
    assert_eq!((run.k(), run.upper_n()), (1, 8));
    assert_eq!(open_all(&keys, run.as_slice()), vec![1, 2, 3]);
    let zero = TrlweArray::zeroed(2, &keys.trlwe);
    assert_eq!(open_all(&keys, zero.as_slice()), vec![0, 0]);
    let plain = TrlweArray::zeroed_noiseless(2, 1, 8);
    assert!(plain
        .iter()
        .all(|ct| ct.polys.iter().all(|p| p.as_slice().iter().all(|c| c.into_raw() == 0))));
    let same = TrlweArray::from_elem_noiseless(2, 1, 8, constant(8, 4));
    assert_eq!(open_all(&keys, same.as_slice()), vec![4, 4]);
    let sealed = TrlweArray::from_elem(2, &keys.trlwe, constant(8, 6));
    assert_eq!(open_all(&keys, sealed.as_slice()), vec![6, 6]);
    let built = TrlweArray::from_fn_noiseless(2, 1, 8, |i| constant(8, 10 * i as u64));
    assert_eq!(open_all(&keys, built.as_slice()), vec![0, 10]);
    assert!(TrlweArray::zeroed_noiseless(0, 1, 8).is_empty());
    let d = TrlweDft::zeroed_noiseless(1, 8);
    assert_eq!((d.k(), d.upper_n()), (1, 8));
    let z = TrlweDft::zeroed(&keys.trlwe);
    assert_eq!(open(&keys, &Trlwe::from_dft(&z)), vec![0; 8]);
    let t = Trlwe::zeroed(&keys.trlwe);
    assert_eq!(open(&keys, &t), vec![0; 8]);
}
