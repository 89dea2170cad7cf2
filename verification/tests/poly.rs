use pa::error::Error;
use pa::interpolate::eval_lagrange_basis;
use pa::ntt::{fast_transform, is_power_of_two};
use pa::poly::ModPoly;

fn poly(coeffs: &[u64], modulus: u64) -> ModPoly {
    ModPoly { coeffs: coeffs.to_vec(), modulus }
}

#[test]
fn evaluation_follows_horner() {
    let f = poly(&[3, 0, 2], 7);
    assert_eq!(f.evaluate(0), 3);
    assert_eq!(f.evaluate(1), 5);
    assert_eq!(f.evaluate(2), 4);
    assert_eq!(f.evaluate(9), 4);
    assert_eq!(ModPoly::new(7).evaluate(3), 0);
    assert_eq!(f.len(), 3);
    assert_eq!(f.get_coefficient(2), 2);
    assert_eq!(f.get_coefficient(3), 0);
    let wide = poly(&[u64::MAX, u64::MAX], 18446744073709547521);
    let x = 18446744073709547520u64;
    let c = (u64::MAX % 18446744073709547521) as u128;
    let expected = (c + c * x as u128 % 18446744073709547521) % 18446744073709547521;
    assert_eq!(wide.evaluate(x), expected as u64);
}

#[test]
fn product_is_the_convolution() {
    let f = poly(&[1, 2], 7);
    let g = poly(&[3, 4, 5], 7);
    let h = f.times(&g);
    assert_eq!(h.coeffs, vec![3, 3, 6, 3]);
    assert_eq!(h.modulus, 7);
    assert_eq!(f.times(&ModPoly::new(7)).coeffs, Vec::<u64>::new());
    for x in 0..7 {
        assert_eq!(h.evaluate(x), f.evaluate(x) * g.evaluate(x) % 7);
    }
}

#[test]
fn interpolation_takes_the_values_on_the_subgroup() {
    let q = 37u64;
    let w = 31u64;
    let ys = vec![5u64, 36, 0, 17];
    let f = ModPoly::interpolate_from_mul_subgroup(ys.clone(), q, w).unwrap();
    assert_eq!(f.len(), 4);
    let mut x = 1u64;
    for y in ys {
        assert_eq!(f.evaluate(x), y);
        x = x * w % q;
    }
    let constant = ModPoly::interpolate_from_mul_subgroup(vec![9, 9, 9, 9], q, w).unwrap();
    assert_eq!(constant.coeffs, vec![9, 0, 0, 0]);
    let none = ModPoly::interpolate_from_mul_subgroup(vec![], q, w).unwrap();
    assert_eq!(none.coeffs, Vec::<u64>::new());
}

#[test]
fn interpolation_needs_inverses() {
    assert!(matches!(
        ModPoly::interpolate_from_mul_subgroup(vec![1, 2], 6, 3),
        Err(Error::NonInvertible)
    ));
    assert!(matches!(
        ModPoly::interpolate_from_mul_subgroup(vec![1, 2], 6, 5),
        Err(Error::NonInvertible)
    ));
    assert!(matches!(
        ModPoly::interpolate_from_mul_subgroup(vec![1, 2, 3, 4, 5], 5, 2),
        Err(Error::NonInvertible)
    ));
}

#[test]
fn lagrange_basis_failures() {
    let xs = vec![1u64, 31, 36, 6];
    assert_eq!(eval_lagrange_basis(&xs, 37, 11, 4), Err(Error::DimensionMismatch));
    assert_eq!(eval_lagrange_basis(&vec![], 37, 11, 0), Err(Error::DimensionMismatch));
    assert_eq!(eval_lagrange_basis(&vec![1, 1], 37, 11, 0), Err(Error::NonInvertible));
    assert_eq!(eval_lagrange_basis(&vec![1, 3], 4, 2, 0), Err(Error::NonInvertible));
    assert_eq!(eval_lagrange_basis(&xs, 37, 31, 1), Ok(1));
    assert_eq!(eval_lagrange_basis(&xs, 37, 31, 2), Ok(0));
    assert_eq!(eval_lagrange_basis(&vec![5], 37, 2, 0), Ok(1));
}

fn naive_transform(ys: &[u64], u: u64, p: u64) -> Vec<u64> {
    let n = ys.len();
    (0..n)
        .map(|j| {
            let mut sum: u128 = 0;
            for i in 0..n {
                let mut pw: u128 = 1 % p as u128;
                for _ in 0..(i * j) {
                    pw = pw * u as u128 % p as u128;
                }
                sum = (sum + ys[i] as u128 % p as u128 * pw) % p as u128;
            }
            sum as u64
        })
        .collect()
}

#[test]
fn fast_transform_agrees_with_the_sums() {
    let p = 4293918721u64;
    let w128 = 2960092488u64;
    let mut w16 = w128;
    for _ in 0..3 {
        w16 = (w16 as u128 * w16 as u128 % p as u128) as u64;
    }
    let ys: Vec<u64> = (0..16u64).map(|i| i * i * 1_000_003 + 7).collect();
    assert_eq!(fast_transform(&ys, w16, p), naive_transform(&ys, w16, p));
    assert_eq!(fast_transform(&vec![u64::MAX], 1, p), vec![u64::MAX % p]);
    assert_eq!(fast_transform(&vec![3, 4], p - 1, p), vec![7, p - 1]);
    // any value works whose power is 1, also one of a lower order
    assert_eq!(fast_transform(&ys, 1, p), naive_transform(&ys, 1, p));
    assert_eq!(fast_transform(&ys, p - 1, p), naive_transform(&ys, p - 1, p));
    assert!(is_power_of_two(1));
    assert!(is_power_of_two(1024));
    assert!(!is_power_of_two(0));
    assert!(!is_power_of_two(12));
}

#[test]
fn interpolation_on_other_orders() {
    // three points: the subgroup of order 3 modulo 7
    let f = ModPoly::interpolate_from_mul_subgroup(vec![1, 2, 3], 7, 2).unwrap();
    assert_eq!(f.len(), 3);
    assert_eq!(f.evaluate(1), 1);
    assert_eq!(f.evaluate(2), 2);
    assert_eq!(f.evaluate(4), 3);
    // four values with a generator of order 2: the sums are still the ones stated
    let p = 37u64;
    let ys = vec![5u64, 6, 7, 8];
    let g = ModPoly::interpolate_from_mul_subgroup(ys.clone(), p, 36).unwrap();
    let sums = naive_transform(&ys, 36, p);
    let quarter = 28u64;
    assert_eq!(quarter * 4 % p, 1);
    assert_eq!(g.coeffs, sums.iter().map(|s| s * quarter % p).collect::<Vec<u64>>());
    // and with a value of order 3, whose power 4 is not 1
    let h = ModPoly::interpolate_from_mul_subgroup(ys.clone(), p, 10).unwrap();
    let inverse = 26u64;
    assert_eq!(inverse * 10 % p, 1);
    let sums = naive_transform(&ys, inverse, p);
    assert_eq!(h.coeffs, sums.iter().map(|s| s * quarter % p).collect::<Vec<u64>>());
}
