use mosfhet::gadget::digit_word;
use mosfhet::gadget::offset_word;
use mosfhet::gadget::pow2_word;
use mosfhet::gadget::round_word;
use mosfhet::gadget::switch_digit_word;
use mosfhet::pipeline::params::power_of_two;
use mosfhet::pipeline::score::floor_log2_word;
use mosfhet::pipeline::train::unit_polynomial;
use mosfhet::poly::binary::BinaryPolynomial;
use mosfhet::poly::torus::TorusPolynomial;
use mosfhet::tlwe::key::TlweKey;
use mosfhet::tlwe::sample::Tlwe;
use mosfhet::tlwe::switch::TlweKSKey;
use mosfhet::torus::Torus;
use mosfhet::tree::pow2_size;
use mosfhet::trgsw::dft::TrgswDft;
use mosfhet::trgsw::key::TrgswKey;
use mosfhet::trgsw::sample::Trgsw;
use mosfhet::trlwe::dft::TrlweDft;
use mosfhet::trlwe::key::TrlweKey;
use mosfhet::trlwe::sample::Trlwe;

fn poly(values: &[u64]) -> TorusPolynomial {
    TorusPolynomial::from_vec(values.iter().map(|v| Torus::from_raw(*v)).collect())
}

fn raws(p: &TorusPolynomial) -> Vec<u64> {
    p.iter().map(|t| t.into_raw()).collect()
}

fn opened(ct: &Trlwe, key: &TrlweKey) -> Vec<u64> {
    raws(&ct.phase(key))
}

#[test]
fn powers_of_two_and_digit_words() {
    assert_eq!(pow2_word(0), 1);
    assert_eq!(pow2_word(63), 1u64 << 63);
    assert_eq!(pow2_size(0), 1);
    assert_eq!(pow2_size(10), 1024);
    assert_eq!(offset_word(1, 64), 1u64 << 63);
    assert_eq!(offset_word(2, 8), (1u64 << 63) + (1u64 << 55));
    assert_eq!(offset_word(8, 8), 0x8080_8080_8080_8080);
    assert_eq!(round_word(8, 8), 0);
    assert_eq!(round_word(2, 6), 1u64 << 51);
    assert_eq!(round_word(1, 1), 1u64 << 62);
    let x = 0x1234_5678_9abc_def0u64;
    let off = offset_word(2, 8);
    // the two top bytes are 0x12 and 0x34: both digits are the bytes themselves
    assert_eq!(digit_word(x, off, 2, 8, 0), 0x12);
    assert_eq!(digit_word(x, off, 2, 8, 1), 0x34);
    // a byte of 0x80 and above turns negative and carries into the digit above
    let y = 0x12f0_0000_0000_0000u64;
    assert_eq!(digit_word(y, off, 2, 8, 1) as i64, -16);
    assert_eq!(digit_word(y, off, 2, 8, 0), 0x13);
    let r = round_word(2, 8);
    assert_eq!(switch_digit_word(x, r, 2, 8, 0), 0x12);
    assert_eq!(switch_digit_word(x, r, 2, 8, 1), 0x34);
    assert_eq!(switch_digit_word(0x1234_8000_0000_0000, r, 2, 8, 1), 0x35);
    assert_eq!(switch_digit_word(u64::MAX, r, 2, 8, 0), 0);
}

#[test]
fn small_helpers() {
    assert!(power_of_two(1));
    assert!(power_of_two(512));
    assert!(power_of_two(32768));
    assert!(!power_of_two(0));
    assert!(!power_of_two(3));
    assert!(!power_of_two(65535));
    assert_eq!(floor_log2_word(0), 0);
    assert_eq!(floor_log2_word(1), 0);
    assert_eq!(floor_log2_word(u64::MAX), 63);
    let unit = unit_polynomial(4, 3);
    assert_eq!(raws(&unit), vec![1u64 << 61, 0, 0, 0]);
}

#[test]
fn polynomial_setters_store_what_the_builders_return() {
    let a = poly(&[1, 2, 3, 4]);
    let b = poly(&[10, 20, 30, 40]);
    let mut out = TorusPolynomial::zeroed(4);
    out.add_from(&a, &b);
    assert_eq!(raws(&out), raws(&a.add(&b)));
    out.sub_from(&a, &b);
    assert_eq!(raws(&out), raws(&a.sub(&b)));
    out.mul_by_xai_from(&a, 5);
    assert_eq!(raws(&out), raws(&a.mul_by_xai(5)));
    out.mul_by_xai_pred_from(&a, 2);
    assert_eq!(raws(&out), raws(&a.mul_by_xai_pred(2)));
    out.naive_mul_from(&a, &b);
    assert_eq!(raws(&out), raws(&a.naive_mul(&b)));
    out.decompose_index_from(&a, 8, 2, 1);
    assert_eq!(raws(&out), raws(&a.decompose_index(8, 2, 1)));
    assert_eq!(a.upper_n(), 4);
    assert_eq!(a.iter().count(), 4);
    let x = BinaryPolynomial::from_fn(4, |i| i as i16 - 1);
    let y = BinaryPolynomial::from_elem(4, 2);
    let mut z = BinaryPolynomial::zeroed(4);
    z.naive_mul_from(&x, &y);
    assert_eq!(z.as_slice(), x.naive_mul(&y).as_slice());
    // (-1 + X^2 + 2X^3) * 2(1 + X + X^2 + X^3) modulo X^4 + 1
    assert_eq!(z.as_slice(), [-8i16, -8, -4, 4].as_slice());
    assert_eq!(z.iter().count(), 4);
}

#[test]
fn scalar_ciphertext_setters_store_what_the_builders_return() {
    let key = TlweKey::new_binary(6);
    let a = Tlwe::new(Torus::from_raw(100), &key);
    let b = Tlwe::new(Torus::from_raw(30), &key);
    let mut out = Tlwe::zero_noiseless(6);
    out.add_from(&a, &b);
    assert_eq!(out.phase(&key).into_raw(), 130);
    out.sub_from(&a, &b);
    assert_eq!(out.phase(&key).into_raw(), 70);
    out.neg_from(&a);
    assert_eq!(out.phase(&key).into_raw(), 0u64.wrapping_sub(100));
    out.set(Torus::from_raw(9), &key);
    assert_eq!(out.phase(&key).into_raw(), 9);
    let copy = out.clone();
    assert_eq!(copy.a, out.a);
    assert_eq!(copy.b, out.b);
    let other = TlweKey::new_binary(4);
    let ks = TlweKSKey::new(&key, &other, 8, 8);
    let mut moved = Tlwe::zero_noiseless(4);
    moved.key_switch_from(&a, &ks);
    assert_eq!(moved.phase(&other).into_raw(), 100);
    let ring = TrlweKey::new(4, 1);
    let ct = Trlwe::new(poly(&[5, 6, 7, 8]), &ring);
    let mut one = Tlwe::zero_noiseless(4);
    one.set_from_trlwe(&ct, 2);
    assert_eq!(one.phase(&TlweKey::from_trlwe_key(&ring)).into_raw(), 7);
}

#[test]
fn polynomial_ciphertext_arithmetic_acts_on_what_is_sealed() {
    let key = TrlweKey::new(4, 2);
    assert_eq!((key.k(), key.upper_n()), (2, 4));
    let a = Trlwe::new(poly(&[1, 2, 3, 4]), &key);
    let b = Trlwe::new(poly(&[10, 20, 30, 40]), &key);
    assert_eq!((a.k(), a.upper_n()), (2, 4));
    assert_eq!(opened(&a.add(&b), &key), vec![11, 22, 33, 44]);
    assert_eq!(opened(&b.sub(&a), &key), vec![9, 18, 27, 36]);
    let neg = |v: u64| 0u64.wrapping_sub(v);
    assert_eq!(opened(&a.neg(), &key), vec![neg(1), neg(2), neg(3), neg(4)]);
    assert_eq!(opened(&a.mul_by_xai(1), &key), vec![neg(4), 1, 2, 3]);
    assert_eq!(opened(&a.mul_by_xai(6), &key), vec![3, 4, neg(1), neg(2)]);
    assert_eq!(
        opened(&a.mul_by_xai_pred(1), &key),
        vec![neg(4).wrapping_sub(1), neg(1), neg(1), neg(1)]
    );
    assert_eq!(opened(&a.scaled(&poly(&[2, 0, 0, 0])), &key), vec![2, 4, 6, 8]);
    assert_eq!(opened(&a.scaled(&poly(&[0, 1, 0, 0])), &key), vec![neg(4), 1, 2, 3]);
    let mut out = Trlwe::zeroed_noiseless(2, 4);
    out.add_from(&a, &b);
    assert_eq!(opened(&out, &key), vec![11, 22, 33, 44]);
    out.sub_from(&b, &a);
    assert_eq!(opened(&out, &key), vec![9, 18, 27, 36]);
    out.neg_from(&a);
    assert_eq!(opened(&out, &key)[0], neg(1));
    out.mul_by_xai_from(&a, 1);
    assert_eq!(opened(&out, &key), vec![neg(4), 1, 2, 3]);
    out.mul_by_xai_pred_from(&a, 1);
    assert_eq!(opened(&out, &key)[1], neg(1));
    let mut acc = b.clone();
    acc.mul_by_xai_add_assign(&a, 1);
    assert_eq!(opened(&acc, &key), vec![10u64.wrapping_sub(4), 21, 32, 43]);
    acc.sub_assign(&b);
    assert_eq!(opened(&acc, &key), vec![neg(4), 1, 2, 3]);
    acc.set(poly(&[7, 7, 7, 7]), &key);
    assert_eq!(opened(&acc, &key), vec![7; 4]);
    acc.set_noiseless(poly(&[8, 8, 8, 8]));
    assert!(acc.polys[0].iter().all(|c| c.into_raw() == 0));
    assert_eq!(opened(&acc, &key), vec![8; 4]);
    let masks = vec![poly(&[1, 0, 0, 0]), poly(&[0, 0, 0, 0])];
    let fixed = Trlwe::with_masks(poly(&[5, 5, 5, 5]), &key, masks);
    assert_eq!(raws(&fixed.polys[0]), vec![1, 0, 0, 0]);
    assert_eq!(opened(&fixed, &key), vec![5; 4]);
    let rebuilt = Trlwe::from_polys(fixed.polys.clone());
    assert_eq!(opened(&rebuilt, &key), vec![5; 4]);
    let copy = TrlweKey::from_polys(key.s.clone());
    assert_eq!(opened(&fixed, &copy), vec![5; 4]);
    assert_eq!(opened(&fixed, &key.clone()), vec![5; 4]);
}

#[test]
fn product_ready_ciphertexts_hold_the_same_data() {
    let key = TrlweKey::new(4, 1);
    let a = Trlwe::new(poly(&[1, 2, 3, 4]), &key);
    let b = Trlwe::new(poly(&[10, 20, 30, 40]), &key);
    let da = TrlweDft::from_trlwe(&a);
    let db = TrlweDft::from_trlwe(&b);
    assert_eq!(opened(&Trlwe::from_dft(&da.add(&db)), &key), vec![11, 22, 33, 44]);
    assert_eq!(opened(&Trlwe::from_dft(&db.sub(&da)), &key), vec![9, 18, 27, 36]);
    let mut out = TrlweDft::zeroed_noiseless(1, 4);
    out.add_from(&da, &db);
    assert_eq!(opened(&Trlwe::from_dft(&out), &key), vec![11, 22, 33, 44]);
    out.sub_from(&db, &da);
    assert_eq!(opened(&Trlwe::from_dft(&out), &key), vec![9, 18, 27, 36]);
    out.add_assign(&da);
    assert_eq!(opened(&Trlwe::from_dft(&out), &key), vec![10, 20, 30, 40]);
    out.set_noiseless(poly(&[3, 3, 3, 3]));
    assert_eq!(opened(&Trlwe::from_dft(&out.clone()), &key), vec![3; 4]);
    let plain = TrlweDft::new_noiseless(poly(&[4, 4, 4, 4]), 1, 4);
    let mut back = Trlwe::zeroed_noiseless(1, 4);
    back.set_from_dft(&plain);
    assert_eq!(opened(&back, &key), vec![4; 4]);
    let gkey = TrgswKey::new(&key, 4, 16);
    let one = TrgswDft::from_trgsw(&Trgsw::new(Torus::from_raw(1), 0, &gkey));
    let mut prod = TrlweDft::zeroed_noiseless(1, 4);
    prod.mul_trlwe_dft_from(&a, &one);
    assert_eq!(opened(&Trlwe::from_dft(&prod), &key), vec![1, 2, 3, 4]);
}

fn row_phases(g: &Trgsw, key: &TrlweKey) -> Vec<Vec<u64>> {
    g.rows.iter().map(|r| opened(r, key)).collect()
}

#[test]
fn gadget_ciphertext_arithmetic_acts_row_by_row() {
    let key = TrlweKey::new(4, 1);
    let gkey = TrgswKey::new(&key, 2, 8);
    let one = Trgsw::new(Torus::from_raw(1), 0, &gkey);
    let two = Trgsw::new(Torus::from_raw(2), 0, &gkey);
    let three = Trgsw::new(Torus::from_raw(3), 0, &gkey);
    let shifted = Trgsw::new(Torus::from_raw(1), 1, &gkey);
    // the rows of the body polynomial decrypt to the weighted message
    let body_rows = |g: &Trgsw| row_phases(g, &key)[2..].to_vec();
    assert_eq!(body_rows(&one.add(&two)), body_rows(&three));
    assert_eq!(body_rows(&three.sub(&two)), body_rows(&one));
    assert_eq!(body_rows(&one.mul_by_xai(1)), body_rows(&shifted));
    let mut acc = two.clone();
    acc.add_assign(&one);
    assert_eq!(body_rows(&acc), body_rows(&three));
    let mut out = one.clone();
    out.add_from(&one, &two);
    assert_eq!(body_rows(&out), body_rows(&three));
    out.sub_from(&three, &one);
    assert_eq!(body_rows(&out), body_rows(&two));
    out.mul_by_xai_from(&one, 1);
    assert_eq!(body_rows(&out), body_rows(&shifted));
    out.mul_by_xai_pred_from(&one, 1);
    assert_eq!(body_rows(&out), body_rows(&shifted.sub(&one)));
    assert_eq!(body_rows(&one.mul_by_xai_pred(1)), body_rows(&shifted.sub(&one)));
    let mut sum = one.clone();
    sum.mul_by_xai_add_assign(&one, 1);
    assert_eq!(body_rows(&sum), body_rows(&shifted.add(&one)));
    out.set(Torus::from_raw(3), 0, &gkey);
    assert_eq!(body_rows(&out), body_rows(&three));
    out.set_noiseless(Torus::from_raw(2));
    assert_eq!(body_rows(&out), body_rows(&two));
    assert!(out.rows[2..].iter().all(|r| r.polys[0].iter().all(|c| c.into_raw() == 0)));
    let plain = Trgsw::new_noiseless(Torus::from_raw(1), 2, 8, 1, 4);
    assert_eq!(body_rows(&plain), body_rows(&one));
    assert_eq!(raws(&plain.rows[0].polys[0]), vec![1u64 << 56, 0, 0, 0]);
    assert_eq!(raws(&plain.rows[1].polys[0]), vec![1u64 << 48, 0, 0, 0]);
    assert_eq!(raws(&plain.rows[2].polys[1]), vec![1u64 << 56, 0, 0, 0]);
    let d1 = TrgswDft::from_trgsw(&one);
    let d2 = TrgswDft::from_trgsw(&two);
    let as_rows = |d: &TrgswDft| -> Vec<Vec<u64>> {
        d.rows[2..].iter().map(|r| opened(r, &key)).collect()
    };
    assert_eq!(as_rows(&d1.add(&d2)), body_rows(&three));
    assert_eq!(as_rows(&d2.sub(&d1)), body_rows(&one));
    let mut dout = d1.clone();
    dout.add_from(&d1, &d2);
    assert_eq!(as_rows(&dout), body_rows(&three));
    dout.sub_from(&d2, &d1);
    assert_eq!(as_rows(&dout), body_rows(&one));
    dout.set_from_trgsw(&two);
    assert_eq!(as_rows(&dout), body_rows(&two));
}
