use pa::field::{add_mod, inv_mod, mul_mod, sub_mod};
use pa::rng::SeededRng;
use pa::utils::{coeffs2poly, contains_value, next_pow2, rejection_sample, zeros, MAX_REJECTIONS};

const P64: u64 = 18446744073709547521;

#[test]
fn modular_arithmetic_on_wide_values() {
    assert_eq!(add_mod(u64::MAX, u64::MAX, P64), ((u64::MAX as u128 * 2) % P64 as u128) as u64);
    assert_eq!(add_mod(3, 4, 5), 2);
    assert_eq!(sub_mod(3, 4, 5), 4);
    assert_eq!(sub_mod(0, 1, P64), P64 - 1);
    assert_eq!(sub_mod(u64::MAX, 0, 7), u64::MAX % 7);
    assert_eq!(sub_mod(2, u64::MAX, 7), (2 + 7 - u64::MAX % 7) % 7);
    assert_eq!(mul_mod(P64 - 1, P64 - 1, P64), 1);
    assert_eq!(mul_mod(u64::MAX, u64::MAX, 1), 0);
}

#[test]
fn inverses_exist_for_coprime_values_only() {
    assert_eq!(inv_mod(2, 5), Some(3));
    assert_eq!(inv_mod(7, 5), Some(3));
    assert_eq!(inv_mod(2, 4), None);
    assert_eq!(inv_mod(0, 7), None);
    assert_eq!(inv_mod(0, 1), Some(0));
    let y = inv_mod(123456789, P64).unwrap();
    assert_eq!(mul_mod(123456789, y, P64), 1);
}

#[test]
fn seeded_draws_repeat_and_stay_below_the_bound() {
    let mut a = SeededRng::seeded(2021);
    let mut b = SeededRng::seeded(2021);
    let mut c = SeededRng::seeded(2022);
    let xs = a.below_vec(P64, 50);
    let mut ys = Vec::new();
    for _ in 0..50 {
        ys.push(b.below(P64));
    }
    assert_eq!(xs, ys);
    assert_ne!(xs, c.below_vec(P64, 50));
    assert!(xs.iter().all(|x| *x < P64));
    for bound in [1u64, 2, 3, 1000] {
        for _ in 0..100 {
            assert!(a.below(bound) < bound);
        }
    }
    assert_eq!(a.below_vec(5, 0), Vec::<u64>::new());
}

#[test]
fn rejection_sampling_skips_bad_values() {
    let mut r = SeededRng::seeded(1);
    let mut twin = SeededRng::seeded(1);
    let bad: Vec<u64> = (0..9).collect();
    let got = rejection_sample(10, &bad, &mut r);
    assert_eq!(got, Ok(9));
    let mut expected = twin.below(10);
    while bad.contains(&expected) {
        expected = twin.below(10);
    }
    assert_eq!(expected, 9);
    assert_eq!(r.below(1000), twin.below(1000));

    // many rejections in a row do not end the search
    let bad: Vec<u64> = (0..4095).collect();
    let mut long_runs = 0;
    for seed in 0..8u64 {
        let mut twin = SeededRng::seeded(seed);
        let mut draws = 1;
        while twin.below(4096) != 4095 {
            draws += 1;
        }
        if draws > 256 {
            long_runs += 1;
        }
        let mut r = SeededRng::seeded(seed);
        assert_eq!(rejection_sample(4096, &bad, &mut r), Ok(4095));
        assert_eq!(r.below(1000), twin.below(1000));
    }
    assert!(long_runs > 0);
    assert_eq!(MAX_REJECTIONS, usize::MAX);

    let mut r = SeededRng::seeded(3);
    let mut twin = SeededRng::seeded(3);
    assert_eq!(rejection_sample(P64, &vec![], &mut r), Ok(twin.below(P64)));
}

#[test]
fn small_helpers() {
    assert_eq!(next_pow2(0), 1);
    assert_eq!(next_pow2(1), 1);
    assert_eq!(next_pow2(2), 2);
    assert_eq!(next_pow2(3), 4);
    assert_eq!(next_pow2(128), 128);
    assert_eq!(next_pow2(129), 256);
    assert_eq!(zeros(3), vec![0, 0, 0]);
    assert!(contains_value(&vec![1, 2, 3], 2));
    assert!(!contains_value(&vec![1, 2, 3], 4));
    let f = coeffs2poly(&vec![8, 7, 15], 7);
    assert_eq!(f.coeffs, vec![1, 0, 1]);
    assert_eq!(f.modulus, 7);
}
