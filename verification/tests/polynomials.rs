use mosfhet::poly::binary::BinaryPolynomial;
use mosfhet::poly::torus::TorusPolynomial;
use mosfhet::torus::RawTorus;
use mosfhet::torus::Torus;

#[test]
fn binary_zeroed_clone_iter_mut_index() {
    let upper_n = 16;
    let mut poly = BinaryPolynomial::zeroed(upper_n);
    let clone = poly.clone();
    assert_eq!(poly.as_slice(), clone.as_slice());
    for i in 0..(upper_n as usize) {
        poly.set(i, i as i16 + 1);
    }
    assert_eq!(poly.get(0), 1);
    assert_eq!(poly.get(upper_n as usize - 1), upper_n as i16);
    for i in 0..(upper_n as usize) {
        assert_ne!(poly.get(i), clone.get(i));
    }
}

#[test]
fn naive_mul() {
    let upper_n = 16;
    let poly = BinaryPolynomial::from_fn(upper_n, |i| (i & 1) as i16);
    let expected = [-8, 0, -6, 0, -4, 0, -2, 0, 0, 0, 2, 0, 4, 0, 6, 0];
    assert_eq!(poly.naive_mul(&poly).as_slice(), expected.as_slice());
}

#[test]
fn binary_from_elem_and_length() {
    let poly = BinaryPolynomial::from_elem(5, -3);
    assert_eq!(poly.upper_n(), 5);
    assert_eq!(poly.as_slice(), [-3i16; 5].as_slice());
    let empty = BinaryPolynomial::zeroed(0);
    assert_eq!(empty.upper_n(), 0);
}

#[test]
fn torus_zeroed_clone_iter_mut_index() {
    let upper_n = 16;
    let mut poly = TorusPolynomial::zeroed(upper_n);
    let clone = poly.clone();
    assert_eq!(poly.as_slice(), clone.as_slice());
    for i in 0..(upper_n as usize) {
        poly.set(i, Torus::from_raw(i as RawTorus + 1));
    }
    assert_eq!(poly.get(0), Torus::from_raw(1));
    assert_eq!(
        poly.get(upper_n as usize - 1),
        Torus::from_raw(upper_n as RawTorus)
    );
    for i in 0..(upper_n as usize) {
        assert_ne!(poly.get(i), clone.get(i));
    }
}

#[test]
fn from_elem_add_sub_mul_muladd_assign() {
    let upper_n = 8;
    let a = TorusPolynomial::from_elem(upper_n, Torus::from_unsigned(1, 8));
    let b = TorusPolynomial::from_elem(upper_n, Torus::from_unsigned(2, 8));
    let c = a.add(&a);
    assert_eq!(c.as_slice(), b.as_slice());
    let c = b.sub(&a);
    assert_eq!(c.as_slice(), a.as_slice());
    let mut c = TorusPolynomial::zeroed(upper_n);
    c.add_assign(&b);
    c.sub_assign(&a);
    assert_eq!(c.as_slice(), a.as_slice());
}

#[test]
fn mul_by_xai_pred_add_assign() {
    let upper_n = 8;
    let poly_a = TorusPolynomial::from_elem(upper_n, Torus::from_unsigned(1, 4));
    let expected = [
        Torus::from_unsigned(15, 4),
        Torus::from_unsigned(1, 4),
        Torus::from_unsigned(1, 4),
        Torus::from_unsigned(1, 4),
        Torus::from_unsigned(1, 4),
        Torus::from_unsigned(1, 4),
        Torus::from_unsigned(1, 4),
        Torus::from_unsigned(1, 4),
    ];
    let poly_b = poly_a.mul_by_xai(1);
    assert_eq!(poly_b.as_slice(), expected.as_slice());
    let mut poly_b = TorusPolynomial::zeroed(upper_n);
    poly_b.mul_by_xai_add_assign(&poly_a, 1);
    assert_eq!(poly_b.as_slice(), expected.as_slice());
    let expected = [
        Torus::from_unsigned(14, 4),
        Torus::from_unsigned(0, 4),
        Torus::from_unsigned(0, 4),
        Torus::from_unsigned(0, 4),
        Torus::from_unsigned(0, 4),
        Torus::from_unsigned(0, 4),
        Torus::from_unsigned(0, 4),
        Torus::from_unsigned(0, 4),
    ];
    let poly_b = poly_a.mul_by_xai_pred(1);
    assert_eq!(poly_b.as_slice(), expected.as_slice());
}

fn ramp(upper_n: u32) -> TorusPolynomial {
    TorusPolynomial::from_fn(upper_n, |i| Torus::from_raw(i as RawTorus + 1))
}

fn raws(p: &TorusPolynomial) -> Vec<u64> {
    p.as_slice().iter().map(|t| t.into_raw()).collect()
}

#[test]
fn rotation_moves_coefficients_and_flips_signs_past_the_end() {
    let p = ramp(4);
    assert_eq!(raws(&p.mul_by_xai(0)), vec![1, 2, 3, 4]);
    let neg = |v: u64| 0u64.wrapping_sub(v);
    assert_eq!(raws(&p.mul_by_xai(1)), vec![neg(4), 1, 2, 3]);
    assert_eq!(raws(&p.mul_by_xai(3)), vec![neg(2), neg(3), neg(4), 1]);
    assert_eq!(raws(&p.mul_by_xai(4)), vec![neg(1), neg(2), neg(3), neg(4)]);
    assert_eq!(raws(&p.mul_by_xai(5)), vec![4, neg(1), neg(2), neg(3)]);
    assert_eq!(raws(&p.mul_by_xai(7)), vec![2, 3, 4, neg(1)]);
}

#[test]
fn rotating_twice_adds_the_exponents_modulo_twice_the_length() {
    let p = ramp(8);
    for a in 0..16u32 {
        for b in 0..16u32 {
            let twice = p.mul_by_xai(a).mul_by_xai(b);
            let once = p.mul_by_xai((a + b) % 16);
            assert_eq!(raws(&twice), raws(&once));
        }
    }
}

#[test]
fn exact_product_wraps_round_the_end_with_a_sign() {
    // (1 + 2X) * (3 + X^3) modulo X^4 + 1 = 3 + 6X + X^3 + 2X^4 = 1 + 6X + X^3
    let a = TorusPolynomial::from_vec(vec![
        Torus::from_raw(1),
        Torus::from_raw(2),
        Torus::from_raw(0),
        Torus::from_raw(0),
    ]);
    let b = TorusPolynomial::from_vec(vec![
        Torus::from_raw(3),
        Torus::from_raw(0),
        Torus::from_raw(0),
        Torus::from_raw(1),
    ]);
    assert_eq!(raws(&a.naive_mul(&b)), vec![1, 6, 0, 1]);
    assert_eq!(raws(&b.naive_mul(&a)), vec![1, 6, 0, 1]);
    let mut acc = ramp(4);
    acc.naive_mul_add_assign(&a, &b);
    assert_eq!(raws(&acc), vec![2, 8, 3, 5]);
}

#[test]
fn negation_and_sum_cancel() {
    let p = ramp(6);
    let n = p.neg();
    assert_eq!(raws(&p.add(&n)), vec![0; 6]);
    let mut q = TorusPolynomial::zeroed(6);
    q.neg_from(&p);
    assert_eq!(raws(&q), raws(&n));
}

#[test]
fn signed_digits_recompose_to_the_rounded_coefficient() {
    let l = 3u32;
    let bg_bit = 8u32;
    let values = [0u64, 1, 0x0123_4567_89ab_cdef, u64::MAX, 0x8000_0000_0000_0000, 0x00ff_ffff_ffff_ffff];
    let p = TorusPolynomial::from_vec(values.iter().map(|v| Torus::from_raw(*v)).collect());
    let mut sums = vec![0u64; values.len()];
    for j in 0..l {
        let d = p.decompose_index(bg_bit, l, j);
        for (i, c) in d.as_slice().iter().enumerate() {
            let digit = c.into_raw() as i64;
            assert!((-128..128).contains(&digit));
            let weight = 1u64 << (64 - (j + 1) * bg_bit);
            sums[i] = sums[i].wrapping_add((digit as u64).wrapping_mul(weight));
        }
    }
    for (sum, value) in sums.iter().zip(values.iter()) {
        let gap = sum.wrapping_sub(*value) as i64;
        assert!(gap.unsigned_abs() <= 1u64 << (64 - l * bg_bit), "gap {gap}");
    }
}

#[test]
fn single_digit_of_full_width_is_the_coefficient() {
    let p = ramp(5);
    let d = p.decompose_index(64, 1, 0);
    assert_eq!(raws(&d), raws(&p));
}
