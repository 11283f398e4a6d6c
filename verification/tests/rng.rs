use monte_carlo_rs::binary64::round_to_binary64;
use monte_carlo_rs::rng::Lcg;

#[test]
fn test_lcg_reproducible() {
    let mut rng1 = Lcg::new(42);
    let mut rng2 = Lcg::new(42);
    for _ in 0..100 {
        assert_eq!(rng1.next_u64(), rng2.next_u64());
    }
}

#[test]
fn test_lcg_different_seeds() {
    let mut rng1 = Lcg::new(42);
    let mut rng2 = Lcg::new(43);
    assert_ne!(rng1.next_u64(), rng2.next_u64());
}

#[test]
fn test_lcg_f64_range() {
    let mut rng = Lcg::new(42);
    for _ in 0..1000 {
        let x = rng.next_u53() as f64 / (1u64 << 53) as f64;
        assert!(x >= 0.0 && x < 1.0);
    }
}

#[test]
fn test_lcg_custom_range() {
    let mut rng = Lcg::new(42);
    for _ in 0..1000 {
        let u = rng.next_u53() as f64 / (1u64 << 53) as f64;
        let x = -5.0 + u * (5.0 - -5.0);
        assert!(x >= -5.0 && x < 5.0);
    }
}

#[test]
fn next_u64_follows_the_recurrence() {
    let mut rng = Lcg::new(42);
    assert_eq!(rng.next_u64(), 10481999410520546993);
    assert_eq!(rng.next_u64(), 4159066171780167020);
    assert_eq!(rng.next_u64(), 7615522811268512075);
}

#[test]
fn zero_seed_starts_like_seed_one() {
    let mut zero = Lcg::new(0);
    let mut one = Lcg::new(1);
    assert_eq!(zero.next_u64(), 7806831264735756412);
    assert_eq!(one.next_u64(), 7806831264735756412);
    for _ in 0..100 {
        assert_eq!(zero.next_u64(), one.next_u64());
    }
}

#[test]
fn distinct_seeds_never_meet() {
    let mut a = Lcg::new(42);
    let mut b = Lcg::new(43);
    for _ in 0..10000 {
        assert_ne!(a.next_u64(), b.next_u64());
    }
}

#[test]
fn next_u53_is_the_high_bits_of_the_draw() {
    let mut a = Lcg::new(42);
    let mut b = Lcg::new(42);
    assert_eq!(a.next_u53(), 5118163774668235);
    assert_eq!(b.next_u64() >> 11, 5118163774668235);
    for _ in 0..100 {
        assert_eq!(a.next_u53(), b.next_u64() >> 11);
    }
}

#[test]
fn next_usize_known_values() {
    let draws: [(usize, usize); 3] = [(10, 5), (1000, 568), (9007199254740993, 5118163774668235)];
    for (n, expected) in draws {
        let mut rng = Lcg::new(42);
        assert_eq!(rng.next_usize(n), expected);
    }
}

#[test]
fn next_usize_largest_bound() {
    let mut rng = Lcg::new(42);
    let r = rng.next_usize(usize::MAX);
    if usize::BITS == 64 {
        assert_eq!(r as u64, 10481999410520545280);
    }
    assert!(r < usize::MAX);
}

#[test]
fn next_usize_matches_f64_arithmetic() {
    let bounds: [usize; 9] = [1, 2, 3, 7, 100, 1 << 20, (1 << 53) + 1, (1 << 60) + 12345, usize::MAX - 7];
    for seed in 0..20u64 {
        let mut a = Lcg::new(seed);
        let mut b = Lcg::new(seed);
        for _ in 0..200 {
            for n in bounds {
                let r = a.next_usize(n);
                let u = b.next_u53() as f64 / (1u64 << 53) as f64;
                assert_eq!(r, (u * n as f64) as usize);
                assert!(r < n);
            }
        }
    }
}

#[test]
fn next_usize_of_zero_and_one() {
    let mut rng = Lcg::new(7);
    for _ in 0..100 {
        assert_eq!(rng.next_usize(0), 0);
        assert_eq!(rng.next_usize(1), 0);
    }
}

#[test]
fn next_usize_advances_one_step() {
    let mut a = Lcg::new(9);
    let mut b = Lcg::new(9);
    a.next_usize(17);
    b.next_u64();
    assert_eq!(a.next_u64(), b.next_u64());
}

#[test]
fn rounding_to_binary64() {
    assert_eq!(round_to_binary64(0), 0);
    assert_eq!(round_to_binary64(12345), 12345);
    assert_eq!(round_to_binary64((1 << 53) + 1), 1 << 53);
    assert_eq!(round_to_binary64((1 << 53) + 3), (1 << 53) + 4);
    assert_eq!(round_to_binary64((1 << 64) - 1), 1 << 64);
    let samples: [u128; 6] = [
        (1 << 70) + (1 << 17),
        (1 << 70) + (1 << 17) + 1,
        (1 << 70) + (3 << 17),
        u64::MAX as u128 * 0x1f_ffff_ffff_ffff,
        123456789012345678901234567890,
        (1 << 126) + 999,
    ];
    for x in samples {
        assert_eq!(round_to_binary64(x), x as f64 as u128);
    }
}
