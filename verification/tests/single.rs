use pdfboss_core::number::Real;
use pdfboss_core::single::Single;

fn narrow(v: f64) -> u32 {
    Single::from_real(Real { bits: v.to_bits() }).bits
}

#[test]
fn numbers_narrow_like_the_machine_narrows_them() {
    let mut numbers = vec![
        0.0,
        1.0,
        0.1,
        0.5,
        16777217.0,
        16777219.0,
        3.4028234663852886e38,
        3.4028235677973366e38,
        3.5e38,
        1e300,
        f64::MAX,
        f64::INFINITY,
        f64::MIN_POSITIVE,
        5e-324,
        1.1754943508222875e-38,
        1.1754942807573643e-38,
        1.401298464324817e-45,
        7.006492321624085e-46,
        7.006492321624087e-46,
        2.1019476964872256e-45,
        1e-60,
    ];
    let mut seed: u64 = 0x9e37_79b9_7f4a_7c15;
    for _ in 0..20_000 {
        seed ^= seed << 13;
        seed ^= seed >> 7;
        seed ^= seed << 17;
        numbers.push(f64::from_bits(seed));
        // The same fraction near one.
        numbers.push(f64::from_bits(seed % (1 << 52) | 0x3ff << 52));
        // Half way between two single-precision numbers.
        numbers.push(f64::from_bits(seed % (1 << 62) >> 29 << 29 | 1 << 28));
    }
    for v in numbers {
        if v.is_nan() {
            assert!(f32::from_bits(narrow(v)).is_nan());
        } else {
            assert_eq!(narrow(v), (v as f32).to_bits(), "{v:e}");
            assert_eq!(narrow(-v), (-v as f32).to_bits(), "{v:e}");
        }
    }
}

#[test]
fn narrowing_keeps_numbers_in_order() {
    let numbers = [f64::NEG_INFINITY, -1e40, -2.0, -0.1, 0.0, 1e-50, 0.1, 0.1 + 1e-12, 2.0];
    for pair in numbers.windows(2) {
        let low = Single { bits: narrow(pair[0]) };
        let high = Single { bits: narrow(pair[1]) };
        assert!(!high.is_below(low));
    }
    assert_eq!(narrow(0.0), 0.0f32.to_bits());
    assert_eq!(narrow(1.0), 1.0f32.to_bits());
}

#[test]
fn single_numbers_compare_by_value() {
    let single = |v: f32| Single { bits: v.to_bits() };
    assert_eq!(single(0.0), single(-0.0));
    assert_ne!(single(f32::NAN), single(f32::NAN));
    assert_ne!(single(1.0), single(2.0));
    assert!(single(-2.0).is_below(single(-1.0)));
    assert!(single(-1.0).is_below(single(0.0)));
    assert!(!single(-0.0).is_below(single(0.0)));
    assert!(single(1.0).is_below(single(f32::INFINITY)));
}
