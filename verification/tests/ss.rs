use pa::rng::SeededRng;
use pa::ss::{gen_shares, gen_vec_shares, reconstruct, reconstruct_vec_shares};
use rand::Rng;

#[test]
fn ss_tests() {
    let mut rng = rand::thread_rng();
    let seed: u64 = rng.gen();
    let mut rand = SeededRng::seeded(seed);
    let q = 65537u64;
    let shares = gen_shares(0, q, &mut rand);
    assert_eq!(reconstruct(shares.0, shares.1, q), 0);
    let shares = gen_shares(1, q, &mut rand);
    assert_eq!(reconstruct(shares.0, shares.1, q), 1);
    let r = rand.below(q);
    let shares = gen_shares(r, q, &mut rand);
    assert_eq!(reconstruct(shares.0, shares.1, q), r);
}

#[test]
fn ss_vec_tests() {
    let mut rng = rand::thread_rng();
    let seed: u64 = rng.gen();
    let mut rand = SeededRng::seeded(seed);
    let q = 65537u64;
    let xs = vec![0u64, 1, 2];
    let shares = gen_vec_shares(&xs, q, &mut rand);
    assert_eq!(reconstruct_vec_shares(&shares.0, &shares.1, q), xs);
}
