use percolation::ieee::unit_bits;
use percolation::ieee::ONE_BITS;
use percolation::probability::Probability;
use percolation::rng::SimpleRng;
use percolation::rng::FRACTION_STEPS;

fn unit_value(seed: u32) -> f32 {
    f32::from_bits((seed & 0x7f_ffff) | 0x3f80_0000) - 1.0
}

#[test]
fn gen_seed() {
    const SEED: u32 = 0;
    let mut rng: SimpleRng = SimpleRng::new(SEED);
    let mut numbers_generated: u64 = 0;
    loop {
        let prev_seed = rng.seed();
        rng.update_seed();
        numbers_generated += 1;
        if rng.seed() == prev_seed {
            panic!("seed was same!");
        } else if rng.seed() == SEED {
            break;
        }
    }
    assert_eq!(u32::MAX as u64 + 1, numbers_generated as u64);
}

#[test]
fn random_float_from_0_to_1() {
    const SEED: u32 = 0;
    let mut rng: SimpleRng = SimpleRng::new(SEED);
    for _ in u32::MIN..u32::MAX {
        let x: f32 = f32::from_bits(rng.random_float_from_0_to_1());
        assert!(0.0_f32 <= x && x <= 1.0_f32);
    }
}

#[test]
fn gen_range_u32() {
    const SEED: u32 = 0;
    let mut rng: SimpleRng = SimpleRng::new(SEED);
    const MIN: u32 = 7;
    const MAX: u32 = 42;
    for _ in u32::MIN..u32::MAX {
        let random_u32: u32 = rng.gen_range_u32(MIN..MAX);
        assert!(MIN <= random_u32 && random_u32 <= MAX);
    }
}

#[test]
fn gen_range_usize() {
    const SEED: u32 = 0;
    let mut rng: SimpleRng = SimpleRng::new(SEED);
    const MIN: usize = 7;
    const MAX: usize = 42;
    for _ in u32::MIN..u32::MAX {
        let random_usize: usize = rng.gen_range_usize(MIN..MAX);
        assert!(MIN <= random_usize && random_usize <= MAX);
    }
}

#[test]
fn buckets_are_equal_over_all_fractions() {
    // every fraction comes 2^9 times in a full period; the 2^23 fractions fall
    // 32 to each of 2^18 equal-width buckets
    const BUCKETS: usize = 2_usize.pow(18);
    let mut stats: Vec<u32> = vec![0; BUCKETS];
    for numerator in 0..FRACTION_STEPS {
        let x: f32 = f32::from_bits(unit_bits(numerator));
        assert!(0.0 <= x && x < 1.0);
        stats[(x * BUCKETS as f32) as usize] += 1;
        assert_eq!((x * BUCKETS as f32) as u32, numerator >> 5);
    }
    for count in stats {
        assert_eq!(count, 32);
    }
}

#[test]
fn low_bits_run_through_every_fraction() {
    // the low 23 bits of the state follow the same recurrence modulo 2^23, so
    // 2^23 steps meet every fraction once
    let mut seen: Vec<bool> = vec![false; FRACTION_STEPS as usize];
    let mut rng = SimpleRng::new(0x9e37_79b9);
    for _ in 0..FRACTION_STEPS {
        let numerator = rng.next_fraction() as usize;
        assert!(!seen[numerator]);
        seen[numerator] = true;
    }
    assert!(seen.iter().all(|met| *met));
}

#[test]
fn update_seed_follows_the_recurrence() {
    let mut rng = SimpleRng::new(0);
    let expected: [u32; 6] = [1, 6, 31, 156, 781, 3906];
    for want in expected {
        rng.update_seed();
        assert_eq!(rng.seed(), want);
    }
    let mut wrapping = SimpleRng::new(u32::MAX);
    wrapping.update_seed();
    assert_eq!(wrapping.seed(), 0xffff_fffc);
    let mut high = SimpleRng::new(0x9e37_79b9);
    high.update_seed();
    assert_eq!(high.seed(), 0x1715_609e);
}

#[test]
fn next_fraction_is_the_low_23_bits() {
    let mut rng = SimpleRng::new(0x9e37_79b9);
    let expected: [u32; 4] = [0x15_609e, 0x6a_e317, 0x16_6f74, 0x70_2d45];
    for want in expected {
        let got = rng.next_fraction();
        assert_eq!(got, want);
        assert_eq!(got, rng.seed() & 0x7f_ffff);
        assert!(got < FRACTION_STEPS);
    }
}

#[test]
fn float_bits_have_exact_values() {
    let mut rng = SimpleRng::new(0x9e37_79b9);
    let expected: [u32; 4] = [0x3e2b_04f0, 0x3f55_c62e, 0x3e33_7ba0, 0x3f60_5a8a];
    for want in expected {
        assert_eq!(rng.random_float_from_0_to_1(), want);
    }
}

#[test]
fn float_bits_agree_with_float_arithmetic() {
    let mut rng = SimpleRng::new(0x1357_9bdf);
    for _ in 0..3_000_000u32 {
        let bits = rng.random_float_from_0_to_1();
        assert!(bits < ONE_BITS);
        assert_eq!(bits, unit_value(rng.seed()).to_bits());
    }
    assert_eq!(unit_bits(0), 0.0f32.to_bits());
    assert_eq!(unit_bits(1), (1.0f32 / 8_388_608.0).to_bits());
    assert_eq!(unit_bits(0x40_0000), 0.5f32.to_bits());
    assert_eq!(unit_bits(0x7f_ffff), (1.0f32 - 1.0 / 8_388_608.0).to_bits());
}

#[test]
fn gen_range_u32_has_exact_values() {
    let mut rng = SimpleRng::new(0x9e37_79b9);
    let expected: [u32; 5] = [12, 36, 13, 37, 20];
    for want in expected {
        assert_eq!(rng.gen_range_u32(7..42), want);
    }
    assert_eq!(rng.seed(), 1_529_930_330);
    let mut wide = SimpleRng::new(0x9e37_79b9);
    let large: [u32; 5] = [668_044_904, 3_340_221_160, 701_105_960, 3_505_526_248, 1_527_631_464];
    for want in large {
        assert_eq!(wide.gen_range_u32(1000..4_000_000_000), want);
    }
}

#[test]
fn gen_range_usize_has_exact_values() {
    let mut rng = SimpleRng::new(0x9e37_79b9);
    let expected: [usize; 5] = [12, 36, 13, 37, 20];
    for want in expected {
        assert_eq!(rng.gen_range_usize(7..42), want);
    }
    if usize::BITS == 64 {
        let mut wide = SimpleRng::new(0x9e37_79b9);
        let large: [u64; 3] =
            [3_080_809_590_795_796_485, 15_404_050_153_002_237_957, 3_233_276_669_196_238_853];
        for want in large {
            assert_eq!(wide.gen_range_usize(5..usize::MAX) as u64, want);
        }
        assert_eq!(wide.seed(), 1_091_989_364);
    }
}

#[test]
fn gen_range_u32_agrees_with_float_arithmetic() {
    let widths: [u32; 14] = [
        0,
        1,
        2,
        35,
        255,
        1000,
        0xff_ffff,
        0x100_0000,
        0x100_0001,
        0x17f_ffff,
        0x7fff_ffff,
        0xdead_beef,
        0xffff_ff7f,
        u32::MAX,
    ];
    for width in widths {
        let mut rng = SimpleRng::new(width ^ 0x1234_5678);
        for _ in 0..500_000u32 {
            let got = rng.gen_range_u32(0..width);
            let want = ((width as f32) * unit_value(rng.seed())) as u32;
            assert_eq!(got, want);
        }
    }
}

#[test]
fn gen_range_usize_agrees_with_float_arithmetic() {
    let widths: [usize; 8] =
        [0, 3, 255, 0x100_0001, 0xffff_ffff, usize::MAX / 3, usize::MAX - 1, usize::MAX];
    for width in widths {
        let mut rng = SimpleRng::new((width as u32) ^ 0x0bad_cafe);
        for _ in 0..500_000u32 {
            let got = rng.gen_range_usize(0..width);
            let want = ((width as f32) * unit_value(rng.seed())) as usize;
            assert_eq!(got, want);
        }
    }
}

#[test]
fn gen_range_stays_inside_the_range() {
    let mut rng = SimpleRng::new(99);
    for _ in 0..1_000_000u32 {
        let drawn = rng.gen_range_u32(10..11);
        assert_eq!(drawn, 10);
    }
    assert_eq!(rng.gen_range_u32(5..5), 5);
    assert_eq!(rng.gen_range_usize(9..9), 9);
    let mut top = SimpleRng::new(3);
    for _ in 0..1_000_000u32 {
        let drawn = top.gen_range_u32(0..u32::MAX);
        assert!(drawn < u32::MAX);
    }
}

#[test]
fn gen_bool_compares_the_fraction_with_the_threshold() {
    let mut rng = SimpleRng::new(0x9e37_79b9);
    let half = Probability::half();
    // fractions 0x15609e, 0x6ae317, 0x166f74, 0x702d45 against 0x400000
    assert!(rng.gen_bool(half));
    assert!(!rng.gen_bool(half));
    assert!(rng.gen_bool(half));
    assert!(!rng.gen_bool(half));
    assert_eq!(rng.seed() & 0x7f_ffff, 0x70_2d45);
}

#[test]
fn gen_bool_at_the_extremes() {
    let mut rng = SimpleRng::new(17);
    for _ in 0..1_000_000u32 {
        assert!(!rng.gen_bool(Probability::never()));
        assert!(rng.gen_bool(Probability::always()));
    }
}

#[test]
fn gen_bool_agrees_with_float_comparison() {
    let probabilities: [f32; 9] =
        [0.0, 1.0e-40, 1.0e-9, 0.1, 0.25, 0.5, 0.592_746, 0.999_999_94, 1.0];
    for p in probabilities {
        let decoded = Probability::from_single_bits(p.to_bits()).unwrap();
        let mut rng = SimpleRng::new(p.to_bits() ^ 0x5a5a_5a5a);
        for _ in 0..500_000u32 {
            let got = rng.gen_bool(decoded);
            assert_eq!(got, unit_value(rng.seed()) < p);
        }
    }
}

#[test]
fn gen_bool_consumes_one_draw() {
    let mut a = SimpleRng::new(1234);
    let mut b = SimpleRng::new(1234);
    a.gen_bool(Probability::never());
    b.update_seed();
    assert_eq!(a.seed(), b.seed());
    a.gen_bool(Probability::always());
    b.update_seed();
    assert_eq!(a.seed(), b.seed());
}

#[test]
fn from_entropy_gives_a_working_generator() {
    let mut rng = SimpleRng::from_entropy();
    let before = rng.seed();
    rng.update_seed();
    assert_eq!(rng.seed(), before.wrapping_mul(5).wrapping_add(1));
}

#[test]
fn period_on_a_sample_of_seeds() {
    // 2^16 steps never return to the start, from several starts
    for start in [0u32, 1, 0xffff_ffff, 0x8000_0000, 0x9e37_79b9] {
        let mut rng = SimpleRng::new(start);
        for _ in 0..65_536u32 {
            rng.update_seed();
            assert_ne!(rng.seed(), start);
        }
    }
}
