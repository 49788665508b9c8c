use percolation::probability::Probability;
use percolation::single::round_significand;
use percolation::single::scale;
use percolation::single::scale_rounding;

#[test]
fn thresholds_of_plain_numbers() {
    let cases: [(f32, u32); 8] = [
        (0.0, 0),
        (1.0, 0x80_0000),
        (0.5, 0x40_0000),
        (0.25, 0x20_0000),
        (0.75, 0x60_0000),
        (1.0 / 8_388_608.0, 1),
        (0.999_999_94, 0x7f_ffff + 1),
        (0.999_999_9, 0x7f_ffff),
    ];
    for (p, want) in cases {
        let made = Probability::from_single_bits(p.to_bits()).unwrap();
        assert_eq!(made.get_threshold(), want);
    }
}

#[test]
fn thresholds_round_up() {
    // below one step of 2^-23 every positive number has threshold 1
    for p in [f32::MIN_POSITIVE, 1.0e-45, 1.0e-40, 1.0e-10, 1.0e-7] {
        let made = Probability::from_single_bits(p.to_bits()).unwrap();
        assert_eq!(made.get_threshold(), 1);
    }
    // 0.1 is not a multiple of 2^-23
    let tenth = Probability::from_single_bits(0.1f32.to_bits()).unwrap();
    assert_eq!(tenth.get_threshold(), (0.1f32 as f64 * 8_388_608.0).ceil() as u32);
    assert_eq!(tenth.get_threshold(), 838_861);
}

#[test]
fn thresholds_agree_with_float_arithmetic() {
    let mut bits: u32 = 0;
    while bits <= 0x3f80_0000 {
        let p = f32::from_bits(bits);
        let made = Probability::from_single_bits(bits).unwrap();
        assert_eq!(made.get_threshold(), (p as f64 * 8_388_608.0).ceil() as u32);
        bits += 4099;
    }
}

#[test]
fn numbers_outside_the_unit_interval_are_refused() {
    for p in [1.000_000_1f32, 2.0, -0.5, -1.0e-40, f32::INFINITY, f32::NEG_INFINITY, f32::NAN] {
        assert!(Probability::from_single_bits(p.to_bits()).is_none());
    }
    assert!(Probability::from_single_bits(0xffff_ffff).is_none());
    assert!(Probability::from_single_bits(0x3f80_0001).is_none());
}

#[test]
fn negative_zero_is_zero() {
    let made = Probability::from_single_bits((-0.0f32).to_bits()).unwrap();
    assert_eq!(made.get_threshold(), 0);
}

#[test]
fn from_threshold_accepts_up_to_two_to_the_23() {
    assert_eq!(Probability::from_threshold(0).unwrap().get_threshold(), 0);
    assert_eq!(Probability::from_threshold(12_345).unwrap().get_threshold(), 12_345);
    assert_eq!(Probability::from_threshold(0x80_0000).unwrap().get_threshold(), 0x80_0000);
    assert!(Probability::from_threshold(0x80_0001).is_none());
    assert!(Probability::from_threshold(u32::MAX).is_none());
}

#[test]
fn named_probabilities() {
    assert_eq!(Probability::never().get_threshold(), 0);
    assert_eq!(Probability::half().get_threshold(), 0x40_0000);
    assert_eq!(Probability::always().get_threshold(), 0x80_0000);
}

#[test]
fn round_significand_keeps_24_bits() {
    assert_eq!(round_significand(0), (0, 0));
    assert_eq!(round_significand(1), (1, 0));
    assert_eq!(round_significand(0xff_ffff), (0xff_ffff, 0));
    assert_eq!(round_significand(0x100_0000), (0x80_0000, 1));
    // ties go to the even significand
    assert_eq!(round_significand(0x100_0001), (0x80_0000, 1));
    assert_eq!(round_significand(0x100_0003), (0x80_0002, 1));
    assert_eq!(round_significand(0x100_0002), (0x80_0001, 1));
    assert_eq!(round_significand(0x1ff_ffff), (0x100_0000, 1));
    assert_eq!(round_significand(u64::MAX), (0x100_0000, 40));
    assert_eq!(round_significand(0x8000_0000_0000_0000), (0x80_0000, 40));
}

#[test]
fn round_significand_agrees_with_float_conversion() {
    let mut n: u64 = 1;
    for _ in 0..200_000u32 {
        n = n.wrapping_mul(6_364_136_223_846_793_005).wrapping_add(1_442_695_040_888_963_407);
        for shift in [0u32, 7, 20, 33, 39, 40, 41, 50] {
            let value = n >> shift;
            let (significand, gone) = round_significand(value);
            let rounded = (significand as f64) * 2f64.powi(gone as i32);
            assert_eq!(rounded, (value as f32) as f64);
        }
    }
}

#[test]
fn scale_has_exact_values() {
    assert_eq!(scale(0, 0x7f_ffff), 0);
    assert_eq!(scale(35, 0), 0);
    assert_eq!(scale(35, 0x7f_ffff), 34);
    assert_eq!(scale(255, 0x40_0000), 127);
    assert_eq!(scale(2, 0x40_0000), 1);
    assert_eq!(scale(1, 0x7f_ffff), 0);
    assert_eq!(scale(255, 8_355_712), 254);
    assert_eq!(scale(255, 8_355_711), 253);
    // 1000 * 8363442 / 2^23 is just below 997 and rounds to 997.0 in single precision
    assert_eq!((1000u64 * 8_363_442) >> 23, 996);
    assert_eq!(scale(1000, 8_363_442), 997);
    assert_eq!(scale_rounding(1000, 8_363_442), 997);
    assert_eq!(scale(u64::MAX, 0x7f_ffff), 0xffff_fe00_0000_0000);
}

#[test]
fn scale_paths_agree() {
    let mut n: u64 = 99;
    for _ in 0..2_000_000u32 {
        n = n.wrapping_mul(6_364_136_223_846_793_005).wrapping_add(1_442_695_040_888_963_407);
        let width = (n >> 40) & 0xff_ffff;
        let fraction = (n & 0x7f_ffff) as u32;
        assert_eq!(scale(width, fraction), scale_rounding(width, fraction));
    }
    for fraction in 8_355_000u32..8_388_608 {
        assert_eq!(scale(255, fraction), scale_rounding(255, fraction));
        let want = (255.0f32 * (fraction as f32 / 8_388_608.0)) as u64;
        assert_eq!(scale(255, fraction), want);
    }
}
