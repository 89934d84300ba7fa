use nearest_points::key::distance_key;
use nearest_points::key::INFINITY_BITS;
use nearest_points::key::NOT_A_NUMBER_KEY;
use nearest_points::key::SIGN_BIT;

fn key(value: f64) -> u64 {
    distance_key(value.to_bits())
}

#[test]
fn the_keys_of_some_doubles() {
    assert_eq!(key(0.0), 0x8000_0000_0000_0000);
    assert_eq!(key(-0.0), 0x8000_0000_0000_0000);
    assert_eq!(key(1.0), 0xbff0_0000_0000_0000);
    assert_eq!(key(-1.0), 0x4010_0000_0000_0000);
    assert_eq!(key(0.5), 0xbfe0_0000_0000_0000);
    assert_eq!(key(f64::INFINITY), 0xfff0_0000_0000_0000);
    assert_eq!(key(f64::NEG_INFINITY), 0x0010_0000_0000_0000);
    assert_eq!(key(f64::NAN), u64::MAX);
    assert_eq!(key(f64::MAX), 0xffef_ffff_ffff_ffff);
    assert_eq!(key(f64::from_bits(1)), 0x8000_0000_0000_0001);
}

#[test]
fn the_constants_of_the_layout() {
    assert_eq!(SIGN_BIT, (-0.0f64).to_bits());
    assert_eq!(INFINITY_BITS, f64::INFINITY.to_bits());
    assert_eq!(NOT_A_NUMBER_KEY, u64::MAX);
}

#[test]
fn keys_compare_as_distances_do() {
    let values = [
        0.0f64,
        f64::from_bits(1),
        f64::MIN_POSITIVE,
        1e-300,
        0.25,
        0.5,
        0.75f64.sqrt(),
        1.0,
        3.0f64.sqrt(),
        2.0,
        1e300,
        f64::MAX,
        f64::INFINITY,
    ];
    for a in values {
        for b in values {
            assert_eq!(key(a) < key(b), a < b);
            assert_eq!(key(a) == key(b), a == b);
        }
    }
}

#[test]
fn keys_compare_as_negative_numbers_do() {
    let values = [f64::NEG_INFINITY, f64::MIN, -2.0, -1.0, -1e-300, -0.0, 0.0, 1e-300, 1.0];
    for a in values {
        for b in values {
            assert_eq!(key(a) < key(b), a < b);
            assert_eq!(key(a) == key(b), a == b);
        }
    }
}

#[test]
fn what_is_not_a_number_ranks_last() {
    let nans = [
        f64::NAN,
        -f64::NAN,
        f64::from_bits(0x7ff0_0000_0000_0001),
        f64::from_bits(0xfff8_0000_0000_0000),
        f64::INFINITY - f64::INFINITY,
    ];
    for nan in nans {
        assert!(nan.is_nan());
        assert_eq!(key(nan), NOT_A_NUMBER_KEY);
        assert!(key(f64::INFINITY) < key(nan));
        assert!(key(0.0) < key(nan));
    }
}
