use mosfhet::torus::Torus;

#[test]
fn from_into_raw() {
    let value = 1;
    let torus = Torus::from_raw(value);
    assert_eq!(torus.into_raw(), value);
}

#[test]
fn from_into_unsigned() {
    let value = 42;
    let log_scale = 6;
    let torus = Torus::from_unsigned(value, log_scale);
    assert_eq!(torus.into_unsigned(log_scale), value);
}

#[test]
fn add_sub_assign() {
    let mut a = Torus::min_value();
    a += Torus::max_value();
    assert_eq!(a, Torus::max_value());
    a -= Torus::max_value();
    assert_eq!(a, Torus::min_value());
}

#[test]
fn distance() {
    let a = Torus::from_raw(1);
    let b = Torus::from_raw(3);
    assert_eq!(a.distance(b).into_raw(), 2);
    let a = Torus::from_raw(3);
    let b = Torus::from_raw(1);
    assert_eq!(a.distance(b).into_raw(), 2);
    let a = Torus::max_value();
    let b = Torus::min_value();
    assert_eq!(a.distance(b).into_raw(), 1);
    let a = Torus::min_value();
    let b = Torus::max_value();
    assert_eq!(a.distance(b).into_raw(), 1);
}

#[test]
fn encoding_is_a_shift_to_the_top_bits() {
    assert_eq!(Torus::from_unsigned(0, 0).into_raw(), 0);
    assert_eq!(Torus::from_unsigned(1, 1).into_raw(), 1u64 << 63);
    assert_eq!(Torus::from_unsigned(42, 6).into_raw(), 42u64 << 58);
    assert_eq!(Torus::from_unsigned(15, 4).into_raw(), 0xf000_0000_0000_0000);
    assert_eq!(Torus::from_unsigned((1 << 31) - 1, 31).into_raw(), ((1u64 << 31) - 1) << 33);
}

#[test]
fn decoding_rounds_to_nearest_and_wraps_at_one() {
    let unit = 1u64 << 58;
    assert_eq!(Torus::from_raw(42 * unit + unit / 2 - 1).into_unsigned(6), 42);
    assert_eq!(Torus::from_raw(42 * unit + unit / 2).into_unsigned(6), 43);
    assert_eq!(Torus::from_raw(42 * unit - unit / 2).into_unsigned(6), 42);
    assert_eq!(Torus::from_raw(u64::MAX).into_unsigned(6), 0);
    assert_eq!(Torus::from_raw(12345).into_unsigned(0), 0);
}

#[test]
fn every_value_of_a_precision_round_trips() {
    for log_scale in 1..12usize {
        for value in 0..(1u64 << log_scale) {
            let torus = Torus::from_unsigned(value, log_scale);
            assert_eq!(torus.into_unsigned(log_scale), value);
        }
    }
}

#[test]
fn distance_is_the_shorter_arc() {
    let half = Torus::half();
    assert_eq!(half.into_raw(), 1u64 << 63);
    assert_eq!(Torus::min_value().distance(half).into_raw(), 1u64 << 63);
    assert_eq!(half.distance(Torus::min_value()).into_raw(), 1u64 << 63);
    let a = Torus::from_raw(5);
    let b = Torus::from_raw(u64::MAX - 4);
    assert_eq!(a.distance(b).into_raw(), 10);
    assert_eq!(a.distance(a).into_raw(), 0);
}

#[test]
fn sums_and_differences_wrap() {
    let a = Torus::from_raw(u64::MAX);
    let b = Torus::from_raw(2);
    assert_eq!(a.add(b).into_raw(), 1);
    assert_eq!(b.sub(a).into_raw(), 3);
    assert_eq!(b.neg().into_raw(), u64::MAX - 1);
    assert_eq!(Torus::min_value().neg().into_raw(), 0);
    let mut c = b;
    c.sub_assign(Torus::from_raw(3));
    assert_eq!(c.into_raw(), u64::MAX);
    c.add_assign(Torus::from_raw(1));
    assert_eq!(c.into_raw(), 0);
}
