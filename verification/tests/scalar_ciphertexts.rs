use mosfhet::poly::torus::TorusPolynomial;
use mosfhet::tlwe::key::TlweKey;
use mosfhet::tlwe::sample::Tlwe;
use mosfhet::tlwe::sample::TlweArray;
use mosfhet::tlwe::switch::TlweKSKey;
use mosfhet::torus::RawTorus;
use mosfhet::torus::Torus;
use mosfhet::trlwe::key::TrlweKey;
use mosfhet::trlwe::sample::Trlwe;

fn from_double(value: f64) -> Torus {
    assert!((0.0..1.0).contains(&value));
    Torus::from_raw((value * 18446744073709551616.0) as u64)
}

fn into_double(value: Torus) -> f64 {
    value.into_raw() as f64 / 18446744073709551616.0
}

#[test]
fn tlwe_key_from_trlwe_key() {
    let upper_n = 1024;
    let k = 1;
    let key1 = TrlweKey::new(upper_n, k);
    let key2 = TlweKey::from_trlwe_key(&key1);
    assert_eq!(key1.upper_n() * key1.k(), key2.lower_n());
}

#[test]
fn double_arithmetic() {
    let lower_n = 632;
    let key = TlweKey::new_binary(lower_n);

    let a = Tlwe::new(from_double(0.1), &key);
    let b = Tlwe::new(from_double(0.2), &key);
    let c = Tlwe::new_noiseless(from_double(0.3), lower_n);

    let r = Tlwe::add(&a, &b);
    let d = into_double(r.phase(&key).distance(from_double(0.3)));
    assert!(d <= 0.001);

    let r = Tlwe::sub(&c, &a);
    let d = into_double(r.phase(&key).distance(from_double(0.2)));
    assert!(d <= 0.001);

    let mut r = Tlwe::new(from_double(0.2), &key);
    r.add_assign(&c);
    let d = into_double(r.phase(&key).distance(from_double(0.5)));
    assert!(d <= 0.001);

    let mut r = Tlwe::new(from_double(0.3), &key);
    r.sub_assign(&a);
    let d = into_double(r.phase(&key).distance(from_double(0.2)));
    assert!(d <= 0.001);
}

#[test]
fn unsigned_arithmetic() {
    let lower_n = 632;
    let key = TlweKey::new_binary(lower_n);

    let a = Tlwe::new(Torus::from_unsigned(1, 3), &key);
    let b = Tlwe::new(Torus::from_unsigned(2, 3), &key);
    let c = Tlwe::new_noiseless(Torus::from_unsigned(3, 3), lower_n);

    let r = Tlwe::add(&a, &b);
    let d = into_double(r.phase(&key).distance(Torus::from_unsigned(3, 3)));
    assert!(d <= 0.001);

    let r = Tlwe::sub(&c, &a);
    let d = into_double(r.phase(&key).distance(Torus::from_unsigned(2, 3)));
    assert!(d <= 0.001);

    let mut r = Tlwe::new(Torus::from_unsigned(2, 3), &key);
    r.add_assign(&c);
    let d = into_double(r.phase(&key).distance(Torus::from_unsigned(5, 3)));
    assert!(d <= 0.001);

    let mut r = Tlwe::new(Torus::from_unsigned(2, 3), &key);
    r.sub_assign(&a);
    let d = into_double(r.phase(&key).distance(Torus::from_unsigned(1, 3)));
    assert!(d <= 0.001);

    let r = a.neg();
    let d = into_double(r.phase(&key).distance(Torus::from_unsigned(7, 3)));
    assert!(d <= 0.001);
}

#[test]
fn array_sum() {
    let lower_n = 632;
    let sigma = 3.0517578125e-05;
    let key = TlweKey::new_binary(lower_n);

    let len = 8usize;
    let elem = from_double(0.5 / (len as f64));
    let arr = TlweArray::from_elem(len, &key, elem);
    let mut sum = Tlwe::zero_noiseless(lower_n);
    sum.set_noiseless(Torus::min_value());

    for item in arr.as_slice().iter() {
        sum.add_assign(item);
    }

    let d = into_double(sum.phase(&key).distance(from_double(0.5)));
    assert!(d <= (10.0 * sigma));
}

#[test]
fn from_trlwe() {
    let upper_n = 1024;
    let k = 1;
    let log_scale = 11;
    let trlwe_key = TrlweKey::new(upper_n, k);
    let tlwe_key = TlweKey::from_trlwe_key(&trlwe_key);
    let poly = TorusPolynomial::from_fn(upper_n, |i| {
        Torus::from_unsigned(i as RawTorus, log_scale)
    });
    let trlwe = Trlwe::new(poly, &trlwe_key);
    let tlwe = Tlwe::from_trlwe(&trlwe, 42);
    assert_eq!(tlwe.phase(&tlwe_key).into_unsigned(log_scale), 42);
}

#[test]
fn key_switch() {
    let lower_n_1 = 630;
    let lower_n_2 = 1024;
    let t = 2;
    let base_bit = 6;
    let tlwe_key_1 = TlweKey::new_binary(lower_n_1);
    let tlwe_key_2 = TlweKey::new_binary(lower_n_2);
    let tlwe_ks_key = TlweKSKey::new(&tlwe_key_1, &tlwe_key_2, t, base_bit);
    let tlwe_1 = Tlwe::new(Torus::from_unsigned(1, 3), &tlwe_key_1);
    let tlwe_2 = tlwe_1.key_switch(&tlwe_ks_key);
    assert_eq!(tlwe_2.phase(&tlwe_key_2).into_unsigned(3), 1);
}

#[test]
fn a_sealed_value_decrypts_to_itself_whatever_the_mask() {
    let key = TlweKey::new_binary(40);
    for v in [0u64, 1, 0x1234_5678_9abc_def0, u64::MAX] {
        let m = Torus::from_raw(v);
        let first = Tlwe::new(m, &key);
        let second = Tlwe::new(m, &key);
        assert_eq!(first.phase(&key), m);
        assert_eq!(second.phase(&key), m);
        assert_eq!(first.lower_n(), 40);
    }
}

#[test]
fn a_given_mask_fixes_the_ciphertext() {
    let key = TlweKey::from_bits(&vec![true, false, true]);
    let mask = vec![Torus::from_raw(10), Torus::from_raw(20), Torus::from_raw(30)];
    let ct = Tlwe::with_mask(Torus::from_raw(5), &key, mask.clone());
    assert_eq!(ct.a, mask);
    assert_eq!(ct.b.into_raw(), 5 + 10 + 30);
    assert_eq!(ct.phase(&key).into_raw(), 5);
    let other = TlweKey::from_bits(&vec![false, true, false]);
    assert_eq!(ct.phase(&other).into_raw(), 45 - 20);
}

#[test]
fn trivial_ciphertexts_decrypt_under_every_key() {
    let m = Torus::from_unsigned(5, 3);
    let ct = Tlwe::new_noiseless(m, 12);
    assert_eq!(ct.lower_n(), 12);
    assert!(ct.a.iter().all(|a| a.into_raw() == 0));
    for _ in 0..4 {
        let key = TlweKey::new_binary(12);
        assert_eq!(ct.phase(&key), m);
    }
    assert_eq!(Tlwe::zero_noiseless(3).b.into_raw(), 0);
    let key = TlweKey::new_binary(7);
    assert_eq!(Tlwe::zero(&key).phase(&key).into_raw(), 0);
}

#[test]
fn fresh_keys_are_binary() {
    let key = TlweKey::new_binary(200);
    assert_eq!(key.lower_n(), 200);
    assert!(key.s.iter().all(|s| *s <= 1));
    assert!(key.s.iter().any(|s| *s == 1));
    assert!(key.s.iter().any(|s| *s == 0));
}

#[test]
fn arrays_hold_what_their_builders_say() {
    let key = TlweKey::new_binary(16);
    let arr = TlweArray::from_fn(5, &key, |i| Torus::from_unsigned(i as u64, 3));
    assert_eq!(arr.len(), 5);
    assert!(!arr.is_empty());
    assert_eq!(arr.lower_n(), 16);
    for (i, ct) in arr.iter().enumerate() {
        assert_eq!(ct.phase(&key).into_unsigned(3), i as u64);
    }
    let plain = TlweArray::from_fn_noiseless(3, 4, |i| Torus::from_raw(i as u64 + 7));
    for i in 0..3 {
        assert_eq!(plain.get(i).b.into_raw(), i as u64 + 7);
    }
    let zeros = TlweArray::zeroed(2, &key);
    assert_eq!(zeros.get(1).phase(&key).into_raw(), 0);
    let none = TlweArray::zeroed_noiseless(0, 4);
    assert!(none.is_empty());
    let same = TlweArray::from_elem_noiseless(2, 4, Torus::from_raw(9));
    assert_eq!(same.get(0).b.into_raw(), 9);
    let mut copy = same.clone();
    copy.set(1, Tlwe::new_noiseless(Torus::from_raw(1), 4));
    assert_eq!(copy.get(1).b.into_raw(), 1);
    assert_eq!(same.get(1).b.into_raw(), 9);
}

#[test]
fn every_coefficient_can_be_extracted() {
    let upper_n = 32u32;
    let k = 2u32;
    let key = TrlweKey::new(upper_n, k);
    let flat = TlweKey::from_trlwe_key(&key);
    assert_eq!(flat.lower_n(), 64);
    let poly = TorusPolynomial::from_fn(upper_n, |i| Torus::from_raw(1000 + i as u64));
    let ct = Trlwe::new(poly, &key);
    for index in 0..(upper_n as usize) {
        let one = Tlwe::from_trlwe(&ct, index);
        assert_eq!(one.lower_n(), 64);
        assert_eq!(one.phase(&flat).into_raw(), 1000 + index as u64);
    }
}

#[test]
fn a_full_precision_key_switch_is_exact() {
    let from = TlweKey::new_binary(24);
    let into = TlweKey::new_binary(40);
    let ks = TlweKSKey::new(&from, &into, 4, 16);
    assert_eq!(ks.in_lower_n(), 24);
    assert_eq!(ks.out_lower_n(), 40);
    assert_eq!(ks.t(), 4);
    assert_eq!(ks.base_bit(), 16);
    for v in [0u64, 3, 0xdead_beef_0bad_cafe, u64::MAX] {
        let ct = Tlwe::new(Torus::from_raw(v), &from);
        let moved = ct.key_switch(&ks);
        assert_eq!(moved.lower_n(), 40);
        assert_eq!(moved.phase(&into).into_raw(), v);
    }
}

#[test]
fn scaling_multiplies_the_message() {
    let key = TlweKey::new_binary(10);
    let ct = Tlwe::new(Torus::from_raw(7), &key);
    assert_eq!(ct.scaled(6).phase(&key).into_raw(), 42);
    assert_eq!(ct.scaled(0).phase(&key).into_raw(), 0);
}
