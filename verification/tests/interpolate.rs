use pa::interpolate::eval_lagrange_basis;

fn pow_mod(base: u64, exp: u64, q: u64) -> u64 {
    let mut acc: u128 = 1 % (q as u128);
    let mut i = 0;
    while i < exp {
        acc = acc * (base as u128) % (q as u128);
        i += 1;
    }
    acc as u64
}

#[test]
fn eval_lagrange() {
    let q = 37u64;
    let w = 31u64;
    let xs: Vec<u64> = (0..4).map(|i| pow_mod(w, i, q)).collect();
    let r = 11u64;
    assert_eq!(eval_lagrange_basis(&xs, q, r, 0), Ok(33));
    assert_eq!(eval_lagrange_basis(&xs, q, r, 1), Ok(25));
    assert_eq!(eval_lagrange_basis(&xs, q, r, 2), Ok(28));
    assert_eq!(eval_lagrange_basis(&xs, q, r, 3), Ok(26));
}
