//! Arithmetic on residues modulo a 64-bit modulus.
//!
//! Sums, differences and products are computed with 128-bit intermediates.
//! Powers and inverses are computed by GMP, through `rug`.

use vstd::prelude::*;
use vstd::arithmetic::power::pow;
use rug::Integer;

verus! {

/// `a + b` reduced modulo `p`.
pub open spec fn spec_add_mod(a: u64, b: u64, p: u64) -> int {
    (a + b) % (p as int)
}

/// `a - b` reduced modulo `p`, never negative.
pub open spec fn spec_sub_mod(a: u64, b: u64, p: u64) -> int {
    (a - b) % (p as int)
}

/// `a * b` reduced modulo `p`.
pub open spec fn spec_mul_mod(a: u64, b: u64, p: u64) -> int {
    (a * b) % (p as int)
}

/// `base` raised to `exp`, reduced modulo `p`.
pub open spec fn spec_pow_mod(base: u64, exp: u64, p: u64) -> int {
    pow(base as int, exp as nat) % (p as int)
}

/// Whether `y` is the residue below `p` that inverts `d` modulo `p`.
pub open spec fn is_inverse(d: u64, y: u64, p: u64) -> bool {
    y < p && (d * y) % (p as int) == 1int % (p as int)
}

/// Whether some residue inverts `d` modulo `p`.
pub open spec fn invertible(d: u64, p: u64) -> bool {
    exists|y: u64| is_inverse(d, y, p)
}

/// The residue below `p` that inverts `d` modulo `p`, where there is one.
pub open spec fn spec_inverse(d: u64, p: u64) -> u64 {
    choose|y: u64| is_inverse(d, y, p)
}

/// The sum of two values modulo `p`.
pub fn add_mod(a: u64, b: u64, p: u64) -> (r: u64)
    requires
        p > 0,
    ensures
        r == spec_add_mod(a, b, p),
        r < p,
{
    let wide: u128 = (a as u128 + b as u128) % (p as u128);
    wide as u64
}

/// The difference of two values modulo `p`.
pub fn sub_mod(a: u64, b: u64, p: u64) -> (r: u64)
    requires
        p > 0,
    ensures
        r == spec_sub_mod(a, b, p),
        r < p,
{
    let x: u64 = a % p;
    let y: u64 = b % p;
    proof {
        vstd::arithmetic::div_mod::lemma_sub_mod_noop(a as int, b as int, p as int);
        if x >= y {
            vstd::arithmetic::div_mod::lemma_small_mod((x - y) as nat, p as nat);
        } else {
            vstd::arithmetic::div_mod::lemma_mod_add_multiples_vanish(x - y, p as int);
            vstd::arithmetic::div_mod::lemma_small_mod((x + p - y) as nat, p as nat);
        }
    }
    if x >= y {
        x - y
    } else {
        x + (p - y)
    }
}

/// The product of two values modulo `p`.
pub fn mul_mod(a: u64, b: u64, p: u64) -> (r: u64)
    requires
        p > 0,
    ensures
        r == spec_mul_mod(a, b, p),
        r < p,
{
    proof {
        assert(a * b <= 0xFFFF_FFFF_FFFF_FFFF * 0xFFFF_FFFF_FFFF_FFFF) by (nonlinear_arith)
            requires
                a <= 0xFFFF_FFFF_FFFF_FFFF,
                b <= 0xFFFF_FFFF_FFFF_FFFF,
        ;
    }
    let wide: u128 = ((a as u128) * (b as u128)) % (p as u128);
    wide as u64
}

/// `Integer::pow_mod` of rug, on 64-bit values: the power `base^exp` reduced
/// modulo `p`. For an exponent that is not negative and a modulus that is not
/// zero GMP always has an answer, which lies below the modulus.
#[verifier::external_body]
pub(crate) fn pow_mod(base: u64, exp: u64, p: u64) -> (r: u64)
    requires
        p > 0,
    ensures
        r == spec_pow_mod(base, exp, p),
        r < p,
{
    let power = Integer::from(base).pow_mod(&Integer::from(exp), &Integer::from(p));
    power.unwrap().to_u64().unwrap()
}

/// `Integer::invert` of rug, on 64-bit values: the inverse of `d` modulo `p`
/// where `d` and `p` are coprime, in the range from 0 up to `p`, and `None`
/// where no inverse exists.
#[verifier::external_body]
pub(crate) fn invert(d: u64, p: u64) -> (r: Option<u64>)
    requires
        p > 0,
    ensures
        match r {
            Some(y) => is_inverse(d, y, p),
            None => !invertible(d, p),
        },
{
    match Integer::from(d).invert(&Integer::from(p)) {
        Ok(y) => y.to_u64(),
        Err(_) => None,
    }
}

/// At most one residue below `p` inverts `d` modulo `p`.
pub proof fn lemma_inverse_unique(d: u64, y1: u64, y2: u64, p: u64)
    requires
        p > 0,
        is_inverse(d, y1, p),
        is_inverse(d, y2, p),
    ensures
        y1 == y2,
{
    let m = p as int;
    let a = y1 as int;
    let b = y2 as int;
    let c = d as int;
    // a = a * (c * b) and b = (a * c) * b, all modulo p
    vstd::arithmetic::div_mod::lemma_mul_mod_noop_right(a, c * b, m);
    vstd::arithmetic::div_mod::lemma_mul_mod_noop_right(a, 1, m);
    assert((a * (c * b)) % m == (a * 1) % m);
    vstd::arithmetic::div_mod::lemma_mul_mod_noop_left(c * a, b, m);
    vstd::arithmetic::div_mod::lemma_mul_mod_noop_left(1, b, m);
    assert(((c * a) * b) % m == (1 * b) % m);
    assert(a * (c * b) == (c * a) * b) by (nonlinear_arith);
    vstd::arithmetic::div_mod::lemma_small_mod(a as nat, m as nat);
    vstd::arithmetic::div_mod::lemma_small_mod(b as nat, m as nat);
}

/// The inverse of `d` modulo `p`, where there is one.
pub fn inv_mod(d: u64, p: u64) -> (r: Option<u64>)
    requires
        p > 0,
    ensures
        r == (if invertible(d, p) {
            Some(spec_inverse(d, p))
        } else {
            None
        }),
{
    match invert(d, p) {
        Some(y) => {
            proof {
                lemma_inverse_unique(d, y, spec_inverse(d, p), p);
            }
            Some(y)
        },
        None => None,
    }
}

} // verus!
