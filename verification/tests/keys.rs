use fraccascade::key::{key_from_bits, INFINITY_BITS, SIGN_BIT};

fn key(x: f64) -> Option<i64> {
    key_from_bits(x.to_bits())
}

#[test]
fn key_of_both_zeros_is_zero() {
    assert_eq!(key(0.0), Some(0));
    assert_eq!(key(-0.0), Some(0));
}

#[test]
fn key_of_one_is_its_bit_pattern() {
    assert_eq!(key(1.0), Some(0x3FF0_0000_0000_0000));
    assert_eq!(key(-1.0), Some(-0x3FF0_0000_0000_0000));
}

#[test]
fn key_of_infinities() {
    assert_eq!(key(f64::INFINITY), Some(0x7FF0_0000_0000_0000));
    assert_eq!(key(f64::NEG_INFINITY), Some(-0x7FF0_0000_0000_0000));
    assert_eq!(key_from_bits(INFINITY_BITS), Some(0x7FF0_0000_0000_0000));
    assert_eq!(key_from_bits(SIGN_BIT), Some(0));
}

#[test]
fn key_of_nan_is_none() {
    assert_eq!(key(f64::NAN), None);
    assert_eq!(key(-f64::NAN), None);
    assert_eq!(key_from_bits(0x7FF0_0000_0000_0001), None);
    assert_eq!(key_from_bits(0xFFFF_FFFF_FFFF_FFFF), None);
}

#[test]
fn keys_compare_as_doubles_do() {
    let values = [
        f64::NEG_INFINITY,
        -1.0e300,
        -100.0,
        -5.0,
        -2.9,
        -1.0,
        -1.0e-300,
        -0.0,
        0.0,
        5.0e-324,
        1.0e-300,
        0.5,
        1.0,
        2.5,
        2.9,
        3.0,
        3.1,
        100.0,
        1.0e300,
        f64::INFINITY,
    ];
    for a in values.iter() {
        for b in values.iter() {
            let ka = key(*a).unwrap();
            let kb = key(*b).unwrap();
            assert_eq!(a < b, ka < kb);
            assert_eq!(a == b, ka == kb);
        }
    }
}
