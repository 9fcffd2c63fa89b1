use mosfhet::pipeline::address::address_bits;
use mosfhet::pipeline::address::extend_address;
use mosfhet::pipeline::address::seal_bits;
use mosfhet::pipeline::infer::pack_results;
use mosfhet::pipeline::infer::pack_window;
use mosfhet::pipeline::infer::read_slot;
use mosfhet::pipeline::layout::ceil_log2_of;
use mosfhet::pipeline::layout::floor_log2_of;
use mosfhet::pipeline::layout::Layout;
use mosfhet::pipeline::params::validate;
use mosfhet::pipeline::params::ParamError;
use mosfhet::pipeline::params::SchemeParams;
use mosfhet::pipeline::plain::PlainModel;
use mosfhet::pipeline::samples::sample_addresses;
use mosfhet::pipeline::score::activate;
use mosfhet::pipeline::score::predict;
use mosfhet::pipeline::score::ActivationType;
use mosfhet::pipeline::train::accumulate;
use mosfhet::pipeline::train::merge;
use mosfhet::pipeline::train::spread;
use mosfhet::pipeline::train::unit_mask;
use mosfhet::pipeline::train::unit_mask_noiseless;
use mosfhet::poly::torus::TorusPolynomial;
use mosfhet::tlwe::key::TlweKey;
use mosfhet::tlwe::sample::Tlwe;
use mosfhet::tlwe::sample::TlweArray;
use mosfhet::torus::Torus;
use mosfhet::trgsw::key::TrgswKey;
use mosfhet::trlwe::key::TrlweKey;
use mosfhet::trlwe::pack::TrlwePKSKey;
use mosfhet::trlwe::sample::Trlwe;
use mosfhet::trlwe::sample::TrlweArray;

const COUNT_BITS: usize = 6;

struct Engine {
    upper_n: u32,
    trlwe: TrlweKey,
    trgsw: TrgswKey,
    tlwe: TlweKey,
    layout: Layout,
}

fn engine(upper_n: u32, num_labels: usize, addr_size: usize, input_size: usize) -> Engine {
    let trlwe = TrlweKey::new(upper_n, 1);
    let trgsw = TrgswKey::new(&trlwe, 2, 16);
    let tlwe = TlweKey::from_trlwe_key(&trlwe);
    let layout = Layout::new(num_labels, addr_size, input_size, upper_n);
    Engine { upper_n, trlwe, trgsw, tlwe, layout }
}

fn empty_tables(e: &Engine) -> Vec<TrlweArray> {
    (0..e.layout.num_luts_disc)
        .map(|_| TrlweArray::zeroed_noiseless(e.layout.lut_vp_count, 1, e.upper_n))
        .collect()
}

fn train(e: &Engine, tables: &mut Vec<TrlweArray>, label: usize, index: usize, addr: u32) {
    let mut mask = unit_mask(e.layout.lut_vp_count, &e.trlwe, COUNT_BITS);
    let value = extend_address(label, addr, e.layout.addr_size);
    let bits = address_bits(value as u64, e.layout.addr_label_size);
    let sel = seal_bits(&bits, &e.trgsw);
    spread(&mut mask.items, sel.as_slice(), e.layout.trn_low_size);
    accumulate(&mut tables[index].items, &mask.items);
}

fn read_sealed(e: &Engine, tables: &[TrlweArray], label: usize, index: usize, addr: u32) -> Tlwe {
    let bits = address_bits(addr as u64, e.layout.addr_size);
    let sel = seal_bits(&bits, &e.trgsw);
    let (first, slot) = e.layout.offsets(label);
    read_slot(
        &tables[index].items,
        first,
        e.layout.upper_lut_size,
        sel.as_slice(),
        e.layout.inf_low_size,
        slot,
    )
}

fn read(e: &Engine, tables: &[TrlweArray], label: usize, index: usize, addr: u32) -> u64 {
    read_sealed(e, tables, label, index, addr)
        .phase(&e.tlwe)
        .into_unsigned(COUNT_BITS)
}

#[test]
fn one_trained_sample_reads_back_as_one_and_its_neighbour_as_zero() {
    let e = engine(16, 2, 6, 6);
    let mut tables = empty_tables(&e);
    train(&e, &mut tables, 0, 0, 5);
    assert_eq!(read(&e, &tables, 0, 0, 5), 1);
    assert_eq!(read(&e, &tables, 0, 0, 6), 0);
    assert_eq!(read(&e, &tables, 1, 0, 5), 0);
}

fn check_against_plain_model(upper_n: u32, num_labels: usize, addr_size: usize, groups: usize) {
    let e = engine(upper_n, num_labels, addr_size, addr_size * groups);
    assert_eq!(e.layout.num_luts_disc, groups);
    let mut tables = empty_tables(&e);
    let mut plain = PlainModel::new(num_labels, groups, addr_size);
    let mut state = 0x2545_f491_4f6c_dd1du64;
    let mut next = |bound: usize| {
        state ^= state << 13;
        state ^= state >> 7;
        state ^= state << 17;
        (state % bound as u64) as usize
    };
    let mut seen = Vec::new();
    for _ in 0..6 {
        let label = next(num_labels);
        let index = next(groups);
        let addr = next(1 << addr_size);
        train(&e, &mut tables, label, index, addr as u32);
        plain.train(label, index, addr);
        seen.push((label, index, addr));
    }
    for (label, index, addr) in seen {
        assert_eq!(
            read(&e, &tables, label, index, addr as u32),
            plain.read(label, index, addr, COUNT_BITS as u32) as u64
        );
    }
    for _ in 0..6 {
        let label = next(num_labels);
        let index = next(groups);
        let addr = next(1 << addr_size);
        assert_eq!(
            read(&e, &tables, label, index, addr as u32),
            plain.read(label, index, addr, COUNT_BITS as u32) as u64
        );
    }
}

#[test]
fn sealed_tables_count_as_the_plain_model_where_the_label_is_above_the_polynomial() {
    check_against_plain_model(16, 2, 6, 2);
}

#[test]
fn sealed_tables_count_as_the_plain_model_where_the_label_is_inside_the_polynomial() {
    check_against_plain_model(16, 4, 2, 1);
}

#[test]
fn sealed_tables_count_as_the_plain_model_where_the_label_is_split() {
    check_against_plain_model(16, 4, 3, 2);
}

#[test]
fn sealed_tables_count_as_the_plain_model_with_a_single_label() {
    check_against_plain_model(8, 1, 5, 1);
}

fn table_raws(tables: &[TrlweArray]) -> Vec<Vec<Vec<Vec<u64>>>> {
    tables
        .iter()
        .map(|t| {
            t.iter()
                .map(|ct| {
                    ct.polys
                        .iter()
                        .map(|p| p.as_slice().iter().map(|c| c.into_raw()).collect())
                        .collect()
                })
                .collect()
        })
        .collect()
}

#[test]
fn merging_in_either_order_gives_the_same_tables_bit_for_bit() {
    let e = engine(8, 2, 4, 8);
    let mut first = empty_tables(&e);
    let mut second = empty_tables(&e);
    train(&e, &mut first, 0, 0, 3);
    train(&e, &mut first, 1, 1, 9);
    train(&e, &mut second, 1, 0, 3);
    train(&e, &mut second, 0, 0, 3);
    let mut one_way = empty_tables(&e);
    merge(&mut one_way, &first);
    merge(&mut one_way, &second);
    let mut other_way = empty_tables(&e);
    merge(&mut other_way, &second);
    merge(&mut other_way, &first);
    assert_eq!(table_raws(&one_way), table_raws(&other_way));
    assert_eq!(read(&e, &one_way, 0, 0, 3), 2);
    assert_eq!(read(&e, &one_way, 1, 0, 3), 1);
    assert_eq!(read(&e, &one_way, 1, 1, 9), 1);
    assert_eq!(read(&e, &one_way, 0, 1, 9), 0);
}

#[test]
fn merging_stops_at_the_shorter_run() {
    let e = engine(8, 1, 3, 6);
    let mut acc = empty_tables(&e);
    let mut part = empty_tables(&e);
    train(&e, &mut part, 0, 1, 2);
    part.truncate(1);
    let before = table_raws(&acc);
    merge(&mut acc, &part);
    assert_eq!(table_raws(&acc), before);
    let mut t = TrlweArray::zeroed_noiseless(3, 1, 8);
    let m = unit_mask_noiseless(2, 1, 8, COUNT_BITS);
    accumulate(&mut t.items, &m.items);
    assert_eq!(t.get(0).polys[1].get(0), Torus::from_unsigned(1, COUNT_BITS));
    assert_eq!(t.get(1).polys[1].get(0).into_raw(), 0);
    assert_eq!(t.len(), 3);
}

#[test]
fn a_fresh_mask_holds_one_in_its_first_slot() {
    let key = TrlweKey::new(8, 1);
    let mask = unit_mask(4, &key, COUNT_BITS);
    assert_eq!(mask.len(), 4);
    for (i, ct) in mask.iter().enumerate() {
        for (j, c) in ct.phase(&key).as_slice().iter().enumerate() {
            let want = if i == 0 && j == 0 { 1 } else { 0 };
            assert_eq!(c.into_unsigned(COUNT_BITS), want);
        }
    }
}

#[test]
fn packing_folds_scalar_ciphertexts_into_the_slots_of_polynomials() {
    let upper_n = 8u32;
    let trlwe = TrlweKey::new(upper_n, 1);
    let tlwe = TlweKey::from_trlwe_key(&trlwe);
    let pks = TrlwePKSKey::new(&tlwe, &trlwe, 4, 16);
    assert_eq!((pks.out_k(), pks.out_upper_n(), pks.t(), pks.base_bit()), (1, 8, 4, 16));
    let results = TlweArray::from_fn(19, &tlwe, |i| Torus::from_unsigned(i as u64 % 64, 6));
    let chunks = pack_results(&results, &pks);
    assert_eq!(chunks.len(), 3);
    for (c, chunk) in chunks.iter().enumerate() {
        let opened = chunk.phase(&trlwe);
        for (r, v) in opened.as_slice().iter().enumerate() {
            let at = c * 8 + r;
            let want = if at < 19 { at as u64 % 64 } else { 0 };
            assert_eq!(v.into_unsigned(6), want);
        }
    }
    let window = Trlwe::from_tlwe_array(&results, 3, 5, &pks);
    let opened = window.phase(&trlwe);
    for (r, v) in opened.as_slice().iter().enumerate() {
        let want = if r < 5 { r as u64 + 3 } else { 0 };
        assert_eq!(v.into_unsigned(6), want);
    }
    let mut target = Trlwe::zeroed_noiseless(1, upper_n);
    target.set_from_tlwe_array(&results, 11, 8, &pks);
    assert_eq!(target.phase(&trlwe).get(7).into_unsigned(6), 18);
    assert!(pack_results(&TlweArray::zeroed_noiseless(0, 8), &pks).is_empty());
}

#[test]
fn full_packing_key_switch_on_a_small_ring() {
    let upper_n = 32usize;
    let k = 1;
    let t = 8;
    let base_bit = 4;
    let out_prec = 6;
    let trlwe_key = TrlweKey::new(upper_n as u32, k);
    let tlwe_key = TlweKey::from_trlwe_key(&trlwe_key);
    let trlwe_pks_key = TrlwePKSKey::new(&tlwe_key, &trlwe_key, t, base_bit);
    let tlwe_array = TlweArray::from_fn(upper_n + 6, &tlwe_key, |i| {
        Torus::from_unsigned(i as u64 & ((1 << out_prec) - 1), out_prec)
    });
    let trlwe = Trlwe::from_tlwe_array(&tlwe_array, 3, upper_n, &trlwe_pks_key);
    let poly = trlwe.phase(&trlwe_key);
    for (i, v) in poly.as_slice().iter().enumerate() {
        assert_eq!(v.into_unsigned(out_prec), (i as u64 + 3) & ((1 << out_prec) - 1));
    }
}

#[test]
fn packing_windows_cover_the_run() {
    assert_eq!(pack_window(19, 0, 8), (0, 8));
    assert_eq!(pack_window(19, 1, 8), (8, 8));
    assert_eq!(pack_window(19, 2, 8), (16, 3));
    assert_eq!(pack_window(16, 2, 8), (16, 0));
    assert_eq!(pack_window(0, 0, 8), (0, 0));
}

#[test]
fn layout_splits_the_extended_address_at_the_polynomial_size() {
    let l = Layout::new(10, 16, 784 * 4, 1024);
    assert_eq!(l.num_luts_disc, 196);
    assert_eq!(l.label_size, 4);
    assert_eq!(l.addr_label_size, 20);
    assert_eq!(l.log_upper_n, 10);
    assert_eq!(l.lut_vp_depth, 10);
    assert_eq!(l.lut_vp_count, 1024);
    assert_eq!(l.trn_low_size, 10);
    assert_eq!(l.inf_low_size, 10);
    assert_eq!(l.lower_label_bits, 0);
    assert_eq!(l.upper_label_bits, 4);
    assert_eq!(l.upper_lut_size, 64);
    assert_eq!(l.lower_lut_size, 1024);
    assert_eq!(l.offsets(3), (192, 0));

    let l = Layout::new(4, 3, 7, 16);
    assert_eq!(l.num_luts_disc, 3);
    assert_eq!(
        (l.label_size, l.addr_label_size, l.log_upper_n, l.lut_vp_depth, l.lut_vp_count),
        (2, 5, 4, 1, 2)
    );
    assert_eq!((l.trn_low_size, l.inf_low_size), (4, 3));
    assert_eq!((l.lower_label_bits, l.upper_label_bits), (1, 1));
    assert_eq!((l.upper_lut_size, l.lower_lut_size), (1, 8));
    assert_eq!(l.offsets(0), (0, 0));
    assert_eq!(l.offsets(1), (0, 8));
    assert_eq!(l.offsets(2), (1, 0));
    assert_eq!(l.offsets(3), (1, 8));

    let l = Layout::new(1, 2, 2, 512);
    assert_eq!((l.label_size, l.lut_vp_depth, l.lut_vp_count), (0, 0, 1));
    assert_eq!((l.trn_low_size, l.inf_low_size, l.lower_lut_size, l.upper_lut_size), (2, 2, 4, 1));
    let l = Layout::new(3, 2, 2, 512);
    assert_eq!((l.label_size, l.lower_label_bits, l.upper_label_bits), (2, 2, 0));
    assert_eq!(l.lower_lut_size, 4);
}

#[test]
fn logarithms_round_down_and_up() {
    let floors = [(0usize, 0usize), (1, 0), (2, 1), (3, 1), (4, 2), (1023, 9), (1024, 10), (4096, 12)];
    for (x, want) in floors {
        assert_eq!(floor_log2_of(x), want);
    }
    let ceils = [(0usize, 0usize), (1, 0), (2, 1), (3, 2), (4, 2), (5, 3), (10, 4), (255, 8), (256, 8), (257, 9)];
    for (x, want) in ceils {
        assert_eq!(ceil_log2_of(x), want);
    }
}

fn params(upper_n: u16, l: u8, bg_bit: u8, t: u8, base_bit: u8) -> SchemeParams {
    SchemeParams { upper_n, l, bg_bit, t, base_bit }
}

#[test]
fn parameters_are_held_against_the_rules_in_order() {
    assert_eq!(validate(&params(1024, 1, 23, 8, 4)), Ok(()));
    assert_eq!(validate(&params(512, 54, 1, 1, 54)), Ok(()));
    assert_eq!(validate(&params(4096, 2, 27, 6, 9)), Ok(()));
    assert_eq!(validate(&params(1000, 1, 23, 8, 4)), Err(ParamError::UpperNNotPowerOfTwo));
    assert_eq!(validate(&params(0, 1, 23, 8, 4)), Err(ParamError::UpperNNotPowerOfTwo));
    assert_eq!(validate(&params(256, 1, 23, 8, 4)), Err(ParamError::UpperNOutOfRange));
    assert_eq!(validate(&params(8192, 1, 23, 8, 4)), Err(ParamError::UpperNOutOfRange));
    assert_eq!(validate(&params(1024, 55, 23, 8, 4)), Err(ParamError::GadgetDigitsTooMany));
    assert_eq!(validate(&params(1024, 1, 55, 8, 4)), Err(ParamError::GadgetDigitTooWide));
    assert_eq!(validate(&params(1024, 5, 11, 8, 4)), Err(ParamError::GadgetTooPrecise));
    assert_eq!(validate(&params(1024, 16, 16, 8, 4)), Err(ParamError::GadgetTooPrecise));
    assert_eq!(validate(&params(1024, 1, 23, 55, 4)), Err(ParamError::SwitchDigitsTooMany));
    assert_eq!(validate(&params(1024, 1, 23, 8, 55)), Err(ParamError::SwitchDigitTooWide));
    assert_eq!(validate(&params(1024, 1, 23, 8, 7)), Err(ParamError::SwitchTooPrecise));
    assert_eq!(validate(&params(1000, 60, 60, 60, 60)), Err(ParamError::UpperNNotPowerOfTwo));
    assert_eq!(validate(&params(1024, 60, 60, 60, 60)), Err(ParamError::GadgetDigitsTooMany));
}

#[test]
fn address_bits_come_least_significant_first() {
    assert_eq!(address_bits(5, 4), vec![true, false, true, false]);
    assert_eq!(address_bits(5, 2), vec![true, false]);
    assert_eq!(address_bits(u64::MAX, 64), vec![true; 64]);
    assert!(address_bits(7, 0).is_empty());
    assert_eq!(extend_address(3, 5, 4), 53);
    assert_eq!(extend_address(0, 0, 0), 0);
    assert_eq!(extend_address(1, 0, 0), 1);
}

#[test]
fn sample_bits_are_cut_into_addresses() {
    let bits = vec![true, false, true, true, false, false, true];
    assert_eq!(
        sample_addresses(9, &bits, 3),
        vec![(9, 0, 5), (9, 1, 1), (9, 2, 1)]
    );
    assert_eq!(sample_addresses(2, &bits, 7), vec![(2, 0, 77)]);
    assert_eq!(sample_addresses(2, &bits, 32), vec![(2, 0, 77)]);
    assert_eq!(sample_addresses(1, &vec![], 4), vec![]);
    let ones = vec![true; 64];
    assert_eq!(
        sample_addresses(0, &ones, 32),
        vec![(0, 0, u32::MAX), (0, 1, u32::MAX)]
    );
}

#[test]
fn votes_follow_the_activation() {
    assert_eq!(activate(7, 3, ActivationType::Binary), 1);
    assert_eq!(activate(3, 3, ActivationType::Binary), 0);
    assert_eq!(activate(2, 3, ActivationType::Binary), 0);
    assert_eq!(activate(7, 3, ActivationType::Linear), 4);
    assert_eq!(activate(2, 3, ActivationType::Linear), 0);
    assert_eq!(activate(7, 0, ActivationType::Log), 3);
    assert_eq!(activate(6, 0, ActivationType::Log), 2);
    assert_eq!(activate(0, 0, ActivationType::Log), 0);
    assert_eq!(activate(30, 0, ActivationType::BoundedLog), 4);
    assert_eq!(activate(31, 0, ActivationType::BoundedLog), 5);
    assert_eq!(activate(1000, 0, ActivationType::BoundedLog), 5);
    assert_eq!(activate(1000, 0, ActivationType::Log), 9);
}

#[test]
fn the_last_of_the_largest_scores_wins() {
    assert_eq!(predict(&vec![3]), 0);
    assert_eq!(predict(&vec![1, 5, 2]), 1);
    assert_eq!(predict(&vec![5, 1, 5, 2]), 2);
    assert_eq!(predict(&vec![0, 0, 0]), 2);
}

#[test]
fn the_plain_model_counts_per_label_table_and_address() {
    let mut m = PlainModel::new(3, 2, 4);
    assert_eq!(m.luts.len(), 96);
    assert_eq!(m.slot(0, 0, 0), 0);
    assert_eq!(m.slot(2, 1, 15), 95);
    assert_eq!(m.slot(1, 0, 5), 37);
    for _ in 0..5 {
        m.train(1, 0, 5);
    }
    m.train(1, 1, 5);
    assert_eq!(m.read(1, 0, 5, 8), 5);
    assert_eq!(m.read(1, 0, 5, 2), 1);
    assert_eq!(m.read(1, 0, 5, 0), 0);
    assert_eq!(m.read(1, 1, 5, 8), 1);
    assert_eq!(m.read(1, 0, 6, 8), 0);
    assert_eq!(m.read(0, 0, 5, 8), 0);
}

#[test]
fn a_read_of_a_trivial_table_is_exact() {
    let upper_n = 8u32;
    let table: Vec<Trlwe> = (0..4u64)
        .map(|i| {
            Trlwe::new_noiseless(
                TorusPolynomial::from_fn(upper_n, |j| Torus::from_raw(100 * i + j as u64)),
                1,
                upper_n,
            )
        })
        .collect();
    let trlwe = TrlweKey::new(upper_n, 1);
    let trgsw = TrgswKey::new(&trlwe, 4, 16);
    for addr in 0..32u64 {
        let sel = seal_bits(&address_bits(addr, 5), &trgsw);
        let got = read_slot(&table, 0, 4, sel.as_slice(), 3, 0);
        let tlwe = TlweKey::from_trlwe_key(&trlwe);
        assert_eq!(got.phase(&tlwe).into_raw(), 100 * (addr >> 3) + (addr & 7));
    }
}

#[test]
fn selectors_with_digits_that_cover_the_word_count_bit_for_bit() {
    let upper_n = 8u32;
    let trlwe = TrlweKey::new(upper_n, 2);
    let trgsw = TrgswKey::new(&trlwe, 8, 8);
    let tlwe = TlweKey::from_trlwe_key(&trlwe);
    let layout = Layout::new(2, 4, 4, upper_n);
    let mut table = TrlweArray::zeroed_noiseless(layout.lut_vp_count, 2, upper_n);
    for (label, addr) in [(1usize, 9u32), (0, 9), (1, 9), (1, 2)] {
        let mut mask = unit_mask(layout.lut_vp_count, &trlwe, COUNT_BITS);
        let value = extend_address(label, addr, layout.addr_size);
        let sel = seal_bits(&address_bits(value as u64, layout.addr_label_size), &trgsw);
        spread(&mut mask.items, sel.as_slice(), layout.trn_low_size);
        accumulate(&mut table.items, &mask.items);
    }
    for label in 0..2usize {
        for addr in 0..16u32 {
            let sel = seal_bits(&address_bits(addr as u64, layout.addr_size), &trgsw);
            let (first, slot) = layout.offsets(label);
            let got = read_slot(
                &table.items,
                first,
                layout.upper_lut_size,
                sel.as_slice(),
                layout.inf_low_size,
                slot,
            );
            let want = match (label, addr) {
                (1, 9) => 2,
                (0, 9) => 1,
                (1, 2) => 1,
                _ => 0,
            };
            assert_eq!(got.phase(&tlwe), Torus::from_unsigned(want, COUNT_BITS));
        }
    }
}
