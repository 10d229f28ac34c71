use fast_search::number::{rank_of, INFINITY_BITS, SIGN_BIT};

fn samples() -> Vec<f64> {
    vec![
        f64::NEG_INFINITY,
        f64::MIN,
        -1.0e300,
        -2.5,
        -1.0,
        -0.9,
        -0.5,
        -f64::MIN_POSITIVE,
        -5.0e-324,
        -0.0,
        0.0,
        5.0e-324,
        f64::MIN_POSITIVE,
        0.1,
        0.5,
        0.9,
        1.0,
        1.0000000000000002,
        2.5,
        100.0,
        1.0e300,
        f64::MAX,
        f64::INFINITY,
    ]
}

#[test]
fn rank_of_orders_patterns_as_their_numbers() {
    let values = samples();
    for a in values.iter() {
        for b in values.iter() {
            let key_a = rank_of(a.to_bits());
            let key_b = rank_of(b.to_bits());
            assert_eq!(key_a < key_b, a < b, "{} < {}", a, b);
            assert_eq!(key_a == key_b, a == b, "{} == {}", a, b);
            assert_eq!(key_a > key_b, a > b, "{} > {}", a, b);
        }
    }
}

#[test]
fn rank_of_gives_the_magnitude_with_the_sign() {
    assert_eq!(rank_of(0), 0);
    assert_eq!(rank_of(1), 1);
    assert_eq!(rank_of(1.0f64.to_bits()), 0x3ff0_0000_0000_0000);
    assert_eq!(rank_of((-1.0f64).to_bits()), -0x3ff0_0000_0000_0000);
    assert_eq!(rank_of(0.5f64.to_bits()), 0x3fe0_0000_0000_0000);
    assert_eq!(rank_of(SIGN_BIT + 1), -1);
    assert_eq!(rank_of(INFINITY_BITS), 0x7ff0_0000_0000_0000);
    assert_eq!(rank_of(SIGN_BIT + INFINITY_BITS), -0x7ff0_0000_0000_0000);
}

#[test]
fn rank_of_both_zeros_is_zero() {
    assert_eq!(rank_of(0.0f64.to_bits()), 0);
    assert_eq!(rank_of((-0.0f64).to_bits()), 0);
    assert_eq!((-0.0f64).to_bits(), SIGN_BIT);
}

#[test]
fn rank_of_what_is_no_number_is_below_every_number() {
    let no_numbers = [
        f64::NAN.to_bits(),
        (-f64::NAN).to_bits(),
        INFINITY_BITS + 1,
        SIGN_BIT + INFINITY_BITS + 1,
        u64::MAX,
        0x7fff_ffff_ffff_ffff,
    ];
    for bits in no_numbers.iter() {
        assert!(f64::from_bits(*bits).is_nan());
        assert_eq!(rank_of(*bits), i64::MIN);
        for number in samples().iter() {
            assert!(rank_of(*bits) < rank_of(number.to_bits()));
        }
    }
}

#[test]
fn rank_of_infinities_are_numbers() {
    assert_eq!(f64::INFINITY.to_bits(), INFINITY_BITS);
    assert!(rank_of(f64::INFINITY.to_bits()) > rank_of(f64::MAX.to_bits()));
    assert!(rank_of(f64::NEG_INFINITY.to_bits()) < rank_of(f64::MIN.to_bits()));
    assert!(rank_of(f64::NEG_INFINITY.to_bits()) > i64::MIN);
}

#[test]
fn rank_of_orders_many_patterns_as_their_numbers() {
    let mut state: u64 = 0x9e3779b97f4a7c15;
    let mut next = || {
        state ^= state << 13;
        state ^= state >> 7;
        state ^= state << 17;
        state
    };
    let mut compared = 0;
    for _ in 0..200_000 {
        let (a, b) = (next(), next());
        let (x, y) = (f64::from_bits(a), f64::from_bits(b));
        if x.is_nan() || y.is_nan() {
            continue;
        }
        assert_eq!(rank_of(a) < rank_of(b), x < y, "{:#x} {:#x}", a, b);
        assert_eq!(rank_of(a) == rank_of(b), x == y, "{:#x} {:#x}", a, b);
        compared += 1;
    }
    assert!(compared > 100_000);
}

#[test]
fn rank_of_orders_neighbouring_patterns() {
    let starts = [0u64, 1, 0x000f_ffff_ffff_ffff, 0x3ff0_0000_0000_0000, 0x7fef_ffff_ffff_ffff];
    for start in starts.iter() {
        let (low, high) = (*start, *start + 1);
        assert!(rank_of(low) < rank_of(high));
        assert!(f64::from_bits(low) < f64::from_bits(high));
        assert!(rank_of(SIGN_BIT + low) >= rank_of(SIGN_BIT + high));
        assert!(f64::from_bits(SIGN_BIT + low) >= f64::from_bits(SIGN_BIT + high));
    }
}
