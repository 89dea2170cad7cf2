//! Completeness: a proof that an honest prover makes for inputs that are
//! bits passes the queries of the verifier.

use vstd::prelude::*;
use vstd::arithmetic::power::pow;
use crate::dft::{is_principal_root, lemma_interpolation_values, lemma_value_as_sum};
use crate::circuit::{
    lemma_bit_value_of_bit,
    lemma_bitvector_shape,
    lemma_bitvector_wires,
    spec_bitvector_gates,
};
use crate::field::spec_pow_mod;
use crate::flpcp::{
    lemma_two_party_decision,
    queries_fit,
    shares_rejoin,
    spec_decision,
    spec_masked,
    spec_queries,
    ProofView,
    dot,
    mask_sum,
    seq_sum,
    spec_accepts,
    spec_basis_values,
    spec_first_query,
    spec_mask_query,
    spec_second_offset,
    spec_second_query,
    spec_subgroup,
    spec_wire_values,
    BitvectorVerifier,
    Prover,
};
use crate::poly::{lemma_product_value, spec_product};
use crate::prime::{has_order, is_prime, lemma_prime_field_subgroup};
use crate::utils::{lemma_next_pow2_bounds, spec_next_pow2, spec_zeros};
use crate::interpolate::{lagrange_defined, spec_lagrange_basis};
use crate::lagrange::{lagrange_sum, lemma_lagrange_interpolation};
use crate::poly::{can_interpolate, poly_value, spec_interpolate};
use crate::sums::{
    cong,
    lemma_cong_add,
    lemma_cong_mul,
    lemma_cong_residue,
    lemma_sum_col_as_sum,
    lemma_sum_cols_as_sum,
    lemma_sum_cong,
    lemma_sum_row_as_sum,
    lemma_sum_rows_as_sum,
    lemma_sum_scale,
    lemma_sum_swap,
    sum_col,
    sum_row,
    sum_to,
};

verus! {

/// The inner product of joined vectors is the sum of the inner products of
/// their parts.
pub proof fn lemma_dot_concat(a: Seq<u64>, b: Seq<u64>, c: Seq<u64>, d: Seq<u64>)
    requires
        a.len() == c.len(),
        b.len() == d.len(),
    ensures
        dot(a + b, c + d) == dot(a, c) + dot(b, d),
    decreases b.len(),
{
    if b.len() == 0 {
        assert(a + b =~= a);
        assert(c + d =~= c);
    } else {
        assert((a + b).drop_last() =~= a + b.drop_last());
        assert((c + d).drop_last() =~= c + d.drop_last());
        lemma_dot_concat(a, b.drop_last(), c, d.drop_last());
    }
}

/// The inner product with a vector of zeros is zero.
pub proof fn lemma_dot_zeros(a: Seq<u64>, z: Seq<u64>)
    requires
        forall|i: int| 0 <= i < z.len() ==> z[i] == 0,
    ensures
        dot(a, z) == 0,
        dot(z, a) == 0,
    decreases z.len(),
{
    if z.len() > 0 && a.len() > 0 {
        lemma_dot_zeros(a.drop_last(), z.drop_last());
        assert(a.last() * 0 == 0 && 0 * a.last() == 0);
    }
}

/// The inner product as a sum of terms.
pub proof fn lemma_dot_as_sum(a: Seq<u64>, b: Seq<u64>, f: spec_fn(int) -> int)
    requires
        a.len() == b.len(),
        forall|i: int| 0 <= i < a.len() ==> #[trigger] f(i) == a[i] * b[i],
    ensures
        dot(a, b) == sum_to(f, a.len()),
    decreases a.len(),
{
    if a.len() > 0 {
        lemma_dot_as_sum(a.drop_last(), b.drop_last(), f);
        assert(f(a.len() - 1) == a.last() * b.last());
    }
}

/// At congruent points a polynomial has congruent values.
pub proof fn lemma_value_at_congruent(c: Seq<u64>, x: int, y: int, p: u64)
    requires
        p > 0,
        cong(x, y, p as int),
    ensures
        cong(poly_value(c, x), poly_value(c, y), p as int),
    decreases c.len(),
{
    if c.len() > 0 {
        let m = p as int;
        lemma_value_at_congruent(c.skip(1), x, y, p);
        let vx = poly_value(c.skip(1), x);
        let vy = poly_value(c.skip(1), y);
        lemma_cong_mul(x, y, vx, vy, m);
        lemma_cong_add(c[0] as int, c[0] as int, x * vx, y * vy, m);
    }
}

/// The combination of the basis polynomials with weights that are `head`
/// for the first point and the entries of `body` for the points after it,
/// as an inner product with the basis values `lag`.
pub proof fn lemma_lagrange_sum_as_dot(
    v: Seq<int>,
    head: u64,
    body: Seq<u64>,
    lag: Seq<u64>,
    xs: Seq<u64>,
    p: u64,
    r: u64,
    k: nat,
)
    requires
        k <= body.len(),
        body.len() < lag.len(),
        body.len() < v.len(),
        v[0] == head,
        forall|i: int| 0 <= i < body.len() ==> v[i + 1] == #[trigger] body[i],
        forall|i: int| 0 <= i <= body.len() ==> #[trigger] lag[i] == spec_lagrange_basis(xs, p, r, i),
    ensures
        lagrange_sum(v, xs, p, r, k + 1) == head * lag[0] + dot(
            body.take(k as int),
            lag.skip(1).take(k as int),
        ),
    decreases k,
{
    reveal_with_fuel(lagrange_sum, 2);
    if k > 0 {
        lemma_lagrange_sum_as_dot(v, head, body, lag, xs, p, r, (k - 1) as nat);
        let a = body.take(k as int);
        let b = lag.skip(1).take(k as int);
        assert(a.drop_last() =~= body.take(k - 1));
        assert(b.drop_last() =~= lag.skip(1).take(k - 1));
        assert(a.last() == body[k - 1]);
        assert(b.last() == lag[k as int]);
        assert(v[k as int] == body[k - 1]);
    } else {
        assert(v[0] * spec_lagrange_basis(xs, p, r, 0) == head * lag[0]);
    }
}

/// Points with the weight zero add nothing to the combination of the basis
/// polynomials.
pub proof fn lemma_lagrange_sum_tail(
    v: Seq<int>,
    xs: Seq<u64>,
    p: u64,
    r: u64,
    from: nat,
    count: nat,
)
    requires
        from <= count,
        count <= v.len(),
        forall|i: int| from <= i < count ==> v[i] == 0,
    ensures
        lagrange_sum(v, xs, p, r, count) == lagrange_sum(v, xs, p, r, from),
    decreases count,
{
    if count > from {
        lemma_lagrange_sum_tail(v, xs, p, r, from, (count - 1) as nat);
        assert(v[count - 1] == 0);
        assert(0 * spec_lagrange_basis(xs, p, r, count - 1) == 0);
    }
}

/// Taking one off each entry of `x` takes the sum of the entries of `t`
/// off the inner product with `t`, modulo `p`.
pub proof fn lemma_dot_less_one(x: Seq<u64>, less: Seq<u64>, t: Seq<u64>, p: u64)
    requires
        p > 0,
        x.len() == t.len(),
        less.len() == t.len(),
        forall|i: int| 0 <= i < x.len() ==> cong(#[trigger] less[i] as int, x[i] - 1, p as int),
    ensures
        cong(dot(less, t), dot(x, t) - seq_sum(t), p as int),
    decreases t.len(),
{
    if t.len() > 0 {
        let m = p as int;
        lemma_dot_less_one(x.drop_last(), less.drop_last(), t.drop_last(), p);
        let k = t.len() - 1;
        assert(cong(less[k] as int, x[k] - 1, m));
        lemma_cong_mul(less[k] as int, x[k] - 1, t[k] as int, t[k] as int, m);
        lemma_cong_add(
            dot(less.drop_last(), t.drop_last()),
            dot(x.drop_last(), t.drop_last()) - seq_sum(t.drop_last()),
            less[k] * t[k],
            (x[k] - 1) * t[k],
            m,
        );
        assert((x[k] - 1) * t[k] == x[k] * t[k] - t[k]) by (nonlinear_arith);
    }
}

/// A query that weighs the blinding value with basis value 0 and the
/// operands with the basis values after it reads the interpolated polynomial
/// at the challenge: the polynomial that interpolates `head`, the operands
/// `body` and then zeros on the subgroup of order `n` has at `r` the value
/// `head * lag[0]` plus the inner product of `body` with the rest of `lag`.
pub proof fn lemma_query_reads_polynomial(
    head: u64,
    body: Seq<u64>,
    n: nat,
    lag: Seq<u64>,
    p: u64,
    w: u64,
    r: u64,
)
    requires
        p > 0,
        body.len() < n,
        n <= u64::MAX,
        is_principal_root(w, n, p),
        can_interpolate(n, p, w),
        forall|i: int| 0 <= i < n ==> #[trigger] lagrange_defined(spec_subgroup(w, p, n), p, i),
        lag.len() == body.len() + 1,
        forall|i: int|
            0 <= i <= body.len() ==> #[trigger] lag[i] == spec_lagrange_basis(
                spec_subgroup(w, p, n),
                p,
                r,
                i,
            ),
    ensures
        cong(
            poly_value(spec_interpolate(spec_wire_values(head, body, n), p, w), r as int),
            head * lag[0] + dot(body, lag.skip(1)),
            p as int,
        ),
{
    let m = p as int;
    let xs = spec_subgroup(w, p, n);
    let ys = spec_wire_values(head, body, n);
    let f = spec_interpolate(ys, p, w);
    let v = Seq::new(n, |i: int| ys[i] as int);
    assert(ys.len() == n);
    assert forall|k: int| 0 <= k < n implies cong(#[trigger] poly_value(f, xs[k] as int), v[k], m) by {
        lemma_interpolation_values(ys, p, w, k as nat);
        lemma_cong_residue(ys[k] as int, m);
    }
    lemma_lagrange_interpolation(f, v, xs, p, r);
    assert forall|i: int| body.len() + 1 <= i < n implies v[i] == 0 by {}
    lemma_lagrange_sum_tail(v, xs, p, r, body.len() + 1, n);
    assert forall|i: int| 0 <= i < body.len() implies v[i + 1] == #[trigger] body[i] by {}
    lemma_lagrange_sum_as_dot(v, head, body, lag, xs, p, r, body.len());
    assert(body.take(body.len() as int) =~= body);
    assert(lag.skip(1).take(body.len() as int) =~= lag.skip(1));
}

/// The weighted sum of the masks as a sum of terms.
pub proof fn lemma_mask_sum_as_sum(w: u64, rs: Seq<u64>, i: nat, n: nat, f: spec_fn(int) -> int)
    requires
        forall|j: int|
            0 <= j < n ==> #[trigger] f(j) == pow(w as int, i * ((j + 1) as nat)) * rs[j],
    ensures
        mask_sum(w, rs, i, n) == sum_to(f, n),
    decreases n,
{
    if n > 0 {
        lemma_mask_sum_as_sum(w, rs, i, (n - 1) as nat, f);
        assert(f(n - 1) == pow(w as int, i * ((n - 1 + 1) as nat)) * rs[n - 1]);
    }
}

/// The sum of the masks `rs`, each weighed with the value `v[j]`, for `j`
/// below `n`.
pub open spec fn weighted_sum(rs: Seq<u64>, v: Seq<int>, n: nat) -> int
    decreases n,
{
    if n == 0 {
        0
    } else {
        weighted_sum(rs, v, (n - 1) as nat) + rs[n - 1] * v[n - 1]
    }
}

/// The sum of the masks weighed with values as a sum of terms.
pub proof fn lemma_weighted_as_sum(rs: Seq<u64>, v: Seq<int>, n: nat, f: spec_fn(int) -> int)
    requires
        forall|j: int| 0 <= j < n ==> #[trigger] f(j) == rs[j] * v[j],
    ensures
        weighted_sum(rs, v, n) == sum_to(f, n),
    decreases n,
{
    if n > 0 {
        lemma_weighted_as_sum(rs, v, (n - 1) as nat, f);
        assert(f(n - 1) == rs[n - 1] * v[n - 1]);
    }
}

/// Masks weighed with zeros add up to zero.
pub proof fn lemma_weighted_zeros(rs: Seq<u64>, v: Seq<int>, n: nat)
    requires
        forall|j: int| 0 <= j < n ==> v[j] == 0,
    ensures
        weighted_sum(rs, v, n) == 0,
    decreases n,
{
    if n > 0 {
        lemma_weighted_zeros(rs, v, (n - 1) as nat);
        assert(rs[n - 1] * 0 == 0);
    }
}

/// The query that tests the outputs asks for the values of the product
/// polynomial at the points of the inputs: the inner product of the
/// polynomial `c` with the weighted sums of the masks is, modulo `p`, the
/// sum of the masks weighed with the values `v[j]` of `c` at `w^(j + 1)`.
pub proof fn lemma_output_test(
    c: Seq<u64>,
    test: Seq<u64>,
    w: u64,
    p: u64,
    rs: Seq<u64>,
    v: Seq<int>,
)
    requires
        p > 0,
        test.len() == c.len(),
        v.len() == rs.len(),
        forall|i: int|
            0 <= i < c.len() ==> #[trigger] test[i] == mask_sum(w, rs, i as nat, rs.len()) % (
            p as int),
        forall|j: int|
            0 <= j < rs.len() ==> cong(
                #[trigger] poly_value(c, pow(w as int, (j + 1) as nat)),
                v[j],
                p as int,
            ),
    ensures
        cong(dot(c, test), weighted_sum(rs, v, rs.len()), p as int),
{
    let m = p as int;
    let ww = w as int;
    let n = c.len();
    let l = rs.len();
    let f = |i: int| c[i] * test[i];
    lemma_dot_as_sum(c, test, f);
    // the table of all terms, a row for each coefficient
    let t = |i: int, j: int| c[i] * (pow(ww, (i as nat) * ((j + 1) as nat)) * rs[j]);
    let rows = |i: int| sum_row(t, i, l);
    assert forall|i: int| 0 <= i < n implies cong(#[trigger] f(i), rows(i), m) by {
        let ms = mask_sum(w, rs, i as nat, l);
        let q = |j: int| pow(ww, (i as nat) * ((j + 1) as nat)) * rs[j];
        let e = |j: int| t(i, j);
        lemma_sum_row_as_sum(t, e, i, l);
        lemma_sum_scale(q, e, c[i] as int, l);
        lemma_mask_sum_as_sum(w, rs, i as nat, l, q);
        lemma_cong_residue(ms, m);
        lemma_cong_mul(c[i] as int, c[i] as int, test[i] as int, ms, m);
    }
    lemma_sum_cong(f, rows, n, m);
    lemma_sum_rows_as_sum(t, rows, n, l);
    lemma_sum_swap(t, n, l);
    // each column is a mask times the value of the polynomial
    let cols = |j: int| sum_col(t, j, n);
    lemma_sum_cols_as_sum(t, cols, n, l);
    let weighed = |j: int| rs[j] * v[j];
    assert forall|j: int| 0 <= j < l implies cong(#[trigger] cols(j), weighed(j), m) by {
        let x = pow(ww, (j + 1) as nat);
        let g = |i: int| c[i] * pow(x, i as nat);
        let e = |i: int| t(i, j);
        lemma_sum_col_as_sum(t, e, j, n);
        assert forall|i: int| 0 <= i < n implies #[trigger] e(i) == rs[j] * g(i) by {
            vstd::arithmetic::power::lemma_pow_multiplies(ww, (j + 1) as nat, i as nat);
            assert(((j + 1) as nat) * (i as nat) == (i as nat) * ((j + 1) as nat)) by (nonlinear_arith);
            let pw = pow(x, i as nat);
            assert(c[i] * (pw * rs[j]) == rs[j] * (c[i] * pw)) by (nonlinear_arith);
        }
        lemma_sum_scale(g, e, rs[j] as int, n);
        lemma_value_as_sum(c, x, g);
        assert(cong(poly_value(c, x), v[j], m));
        lemma_cong_mul(rs[j] as int, rs[j] as int, poly_value(c, x), v[j], m);
    }
    lemma_sum_cong(cols, weighed, l, m);
    lemma_weighted_as_sum(rs, v, l, weighed);
}

/// The inputs, each less one, modulo `p`: the right operands of the
/// multiplication gates of the circuit that tests for bits.
pub open spec fn spec_less_one(x: Seq<u64>, p: u64) -> Seq<u64> {
    Seq::new(x.len(), |i: int| ((x[i] + (p - 1)) % (p as int)) as u64)
}

/// The polynomial that interpolates the first blinding value and the
/// inputs of a proof on the subgroup of order `n`.
pub open spec fn spec_left_poly(pi: ProofView, w: u64, n: nat) -> Seq<u64> {
    spec_interpolate(spec_wire_values(pi.z[0], pi.x, n), pi.q, w)
}

/// The polynomial that interpolates the second blinding value and the
/// inputs of a proof, each less one, on the subgroup of order `n`.
pub open spec fn spec_right_poly(pi: ProofView, w: u64, n: nat) -> Seq<u64> {
    spec_interpolate(spec_wire_values(pi.z[1], spec_less_one(pi.x, pi.q), n), pi.q, w)
}

/// The basis values that the queries for the challenge `r` are made of.
pub open spec fn spec_basis_at(pi: ProofView, w: u64, n: nat, r: u64) -> Seq<u64> {
    spec_basis_values(spec_subgroup(w, pi.q, n), pi.q, r, pi.x.len() + 1)
}

/// The answer of a whole proof to the first query for the challenge `r`,
/// before it is reduced.
pub open spec fn spec_first_answer(pi: ProofView, w: u64, n: nat, r: u64) -> int {
    dot(pi.collect(), spec_first_query(spec_basis_at(pi, w, n, r), pi.c.len()))
}

/// The answer of a whole proof to the second query for the challenge `r`,
/// with the offset of the query, before it is reduced.
pub open spec fn spec_second_answer(pi: ProofView, w: u64, n: nat, r: u64) -> int {
    dot(pi.collect(), spec_second_query(spec_basis_at(pi, w, n, r), pi.c.len())) + (
    spec_second_offset(spec_basis_at(pi, w, n, r), pi.q) as u64)
}

/// The first two queries read the two polynomials of the prover at the
/// challenge: whatever inputs and blinding values a proof holds, its
/// answers to them are the values at `r` of the polynomials that
/// interpolate these.
pub proof fn lemma_answers_read_polynomials(pi: ProofView, w: u64, n: nat, r: u64)
    requires
        pi.q > 0,
        pi.w.len() == 0,
        pi.z.len() == 2,
        pi.x.len() < n,
        n <= u64::MAX,
        is_principal_root(w, n, pi.q),
        can_interpolate(n, pi.q, w),
        forall|i: int| 0 <= i < n ==> #[trigger] lagrange_defined(spec_subgroup(w, pi.q, n), pi.q, i),
    ensures
        cong(
            spec_first_answer(pi, w, n, r),
            poly_value(spec_left_poly(pi, w, n), r as int),
            pi.q as int,
        ),
        cong(
            spec_second_answer(pi, w, n, r),
            poly_value(spec_right_poly(pi, w, n), r as int),
            pi.q as int,
        ),
{
    let p = pi.q;
    let m = p as int;
    let x = pi.x;
    let z = pi.z;
    let c = pi.c;
    let l = x.len();
    let nc = c.len();
    let right = spec_less_one(x, p);
    let xs = spec_subgroup(w, p, n);
    let lag = spec_basis_at(pi, w, n, r);
    assert forall|i: int| 0 <= i <= l implies #[trigger] lag[i] == spec_lagrange_basis(xs, p, r, i) by {
        vstd::arithmetic::div_mod::lemma_mod_bound(
            crate::interpolate::lagrange_product(xs, p, r, i, xs.len()),
            m,
        );
    }
    let t = lag.skip(1);
    let e = pi.collect();
    let head = x + pi.w + z;
    assert(x + pi.w =~= x);
    assert(e =~= head + c);
    assert(z =~= seq![z[0], z[1]]);

    // the first query reads the left polynomial
    lemma_query_reads_polynomial(z[0], x, n, lag, p, w, r);
    let q1 = spec_first_query(lag, nc);
    let mid1 = seq![lag[0], 0u64];
    assert(q1 =~= (t + mid1) + spec_zeros(nc + 0));
    lemma_dot_concat(head, c, t + mid1, spec_zeros(nc + 0));
    lemma_dot_zeros(c, spec_zeros(nc + 0));
    lemma_dot_concat(x, z, t, mid1);
    assert(dot(z, mid1) == z[0] * lag[0]) by {
        reveal_with_fuel(dot, 3);
        assert(z.drop_last() =~= seq![z[0]]);
        assert(mid1.drop_last() =~= seq![lag[0]]);
        assert(z.drop_last().drop_last().len() == 0);
        assert(z[1] * 0 == 0);
    }
    assert(dot(e, q1) == dot(x, t) + z[0] * lag[0]);

    // the second query reads the right polynomial
    lemma_query_reads_polynomial(z[1], right, n, lag, p, w, r);
    let q2 = spec_second_query(lag, nc);
    let mid2 = seq![0u64, lag[0]];
    assert(q2 =~= (t + mid2) + spec_zeros(nc + 0));
    lemma_dot_concat(head, c, t + mid2, spec_zeros(nc + 0));
    lemma_dot_concat(x, z, t, mid2);
    assert(dot(z, mid2) == z[1] * lag[0]) by {
        reveal_with_fuel(dot, 3);
        assert(z.drop_last() =~= seq![z[0]]);
        assert(mid2.drop_last() =~= seq![0u64]);
        assert(z.drop_last().drop_last().len() == 0);
        assert(z[0] * 0 == 0);
    }
    assert forall|i: int| 0 <= i < l implies cong(#[trigger] right[i] as int, x[i] - 1, m) by {
        vstd::arithmetic::div_mod::lemma_mod_bound(x[i] + (p - 1), m);
        lemma_cong_residue(x[i] + (p - 1), m);
        vstd::arithmetic::div_mod::lemma_mod_add_multiples_vanish(x[i] - 1, m);
    }
    lemma_dot_less_one(x, right, t, p);
    let offset = spec_second_offset(lag, p);
    vstd::arithmetic::div_mod::lemma_mod_bound(-seq_sum(t), m);
    lemma_cong_residue(-seq_sum(t), m);
    assert(dot(e, q2) == dot(x, t) + z[1] * lag[0]);
    lemma_cong_add(dot(x, t) + z[1] * lag[0], dot(x, t) + z[1] * lag[0], offset, -seq_sum(t), m);
    lemma_cong_add(dot(right, t), dot(x, t) - seq_sum(t), z[1] * lag[0], z[1] * lag[0], m);
}

/// The test of the outputs weighs the values of the coefficient polynomial
/// at the points of the inputs: the inner product of a proof with the
/// third query is, modulo the modulus, the sum of the masks weighed with
/// values `v[j]` of the polynomial at `w^(j + 1)`.
pub proof fn lemma_output_answer(pi: ProofView, w: u64, rs: Seq<u64>, v: Seq<int>)
    requires
        pi.q > 0,
        pi.w.len() == 0,
        pi.z.len() == 2,
        rs.len() == pi.x.len(),
        v.len() == rs.len(),
        forall|j: int|
            0 <= j < rs.len() ==> cong(
                #[trigger] poly_value(pi.c, pow(w as int, (j + 1) as nat)),
                v[j],
                pi.q as int,
            ),
    ensures
        cong(
            dot(pi.collect(), spec_mask_query(w, pi.q, rs, pi.c.len())),
            weighted_sum(rs, v, rs.len()),
            pi.q as int,
        ),
{
    let p = pi.q;
    let m = p as int;
    let l = pi.x.len();
    let c = pi.c;
    let nc = c.len();
    let e = pi.collect();
    let head = pi.x + pi.w + pi.z;
    assert(e =~= head + c);
    let q0 = spec_mask_query(w, p, rs, nc);
    let test = Seq::new(nc, |i: int| (mask_sum(w, rs, i as nat, l) % m) as u64);
    assert(q0 =~= spec_zeros(l + 2) + test);
    assert(head.len() == l + 2);
    lemma_dot_concat(head, c, spec_zeros(l + 2), test);
    lemma_dot_zeros(head, spec_zeros(l + 2));
    assert forall|i: int| 0 <= i < nc implies #[trigger] test[i] == mask_sum(w, rs, i as nat, l) % m by {
        vstd::arithmetic::div_mod::lemma_mod_bound(mask_sum(w, rs, i as nat, l), m);
    }
    lemma_output_test(c, test, w, p, rs, v);
}

/// An honest run: prover and verifier share the circuit that tests each
/// input for being a bit, the inputs are bits, and the generator is a
/// principal root of unity whose order is the number of interpolation
/// points, with points whose differences have inverses.
pub open spec fn honest_run(prover: Prover, verifier: BitvectorVerifier) -> bool {
    let p = prover.ctxt.circuit.modulus;
    let w = prover.ctxt.generator;
    let l = prover.inputs@.len();
    let n = spec_next_pow2(l + 1);
    &&& p > 0
    &&& 4 * (l + 1) <= usize::MAX
    &&& prover.ctxt.circuit.out_gates@ == spec_bitvector_gates(p, l)
    &&& verifier.ctxt.circuit.out_gates@ == spec_bitvector_gates(p, l)
    &&& verifier.ctxt.circuit.modulus == p
    &&& verifier.ctxt.generator == w
    &&& forall|i: int| 0 <= i < l ==> prover.inputs@[i] == 0 || prover.inputs@[i] == 1
    &&& is_principal_root(w, n, p)
    &&& can_interpolate(n, p, w)
    &&& forall|i: int| 0 <= i < n ==> #[trigger] lagrange_defined(spec_subgroup(w, p, n), p, i)
}

/// Completeness for the whole proof: in an honest run the proof passes the
/// queries, whatever the seeds of prover and verifier are.
pub proof fn lemma_honest_proof_passes(prover: Prover, verifier: BitvectorVerifier)
    requires
        honest_run(prover, verifier),
    ensures
        spec_accepts(
            prover.spec_proof(),
            verifier.spec_query_state(prover.inputs@.len(), prover.spec_proof().c.len()),
        ),
{
    let p = prover.ctxt.circuit.modulus;
    let m = p as int;
    let w = prover.ctxt.generator;
    let x = prover.inputs@;
    let l = x.len();
    let n = spec_next_pow2(l + 1);
    lemma_bitvector_shape(p, l);
    lemma_bitvector_wires(p, l, x);
    lemma_next_pow2_bounds(l + 1);
    let left = prover.ctxt.circuit.spec_left_wires(x);
    let right = prover.ctxt.circuit.spec_right_wires(x);
    assert(left =~= x);
    assert(right =~= spec_less_one(x, p));
    assert(prover.ctxt.spec_points() == n);
    assert(verifier.ctxt.spec_points() == n);
    let pi = prover.spec_proof();
    let z = prover.spec_blinding();
    let us = spec_wire_values(z[0], left, n);
    let vs = spec_wire_values(z[1], right, n);
    let f0 = spec_left_poly(pi, w, n);
    let f1 = spec_right_poly(pi, w, n);
    let c = pi.c;
    assert(c == spec_product(f0, f1, p));
    let nc = c.len();
    let qs = verifier.spec_query_state(l, nc);
    let xs = spec_subgroup(w, p, n);
    assert(qs.xs == xs);
    let r = qs.r;
    let e = pi.collect();

    // the answers to the first two queries multiply to the value of the
    // product polynomial at the challenge
    lemma_answers_read_polynomials(pi, w, n, r);
    lemma_product_value(f0, f1, r, p);
    let v0 = poly_value(f0, r as int);
    let v1 = poly_value(f1, r as int);
    let a1 = spec_first_answer(pi, w, n, r);
    let a2 = spec_second_answer(pi, w, n, r);
    assert(a1 == dot(e, qs.q1.vec) + qs.q1.scalar);
    assert(a2 == dot(e, qs.q2.vec) + qs.q2.scalar) by {
        vstd::arithmetic::div_mod::lemma_mod_bound(-seq_sum(spec_basis_at(pi, w, n, r).skip(1)), m);
    }
    lemma_cong_residue(a1, m);
    lemma_cong_residue(a2, m);
    lemma_cong_mul(a1 % m, v0 % m, a2 % m, v1 % m, m);
    vstd::arithmetic::div_mod::lemma_mod_twice(v0, m);
    vstd::arithmetic::div_mod::lemma_mod_twice(v1, m);

    // the test of the outputs: the product polynomial is zero at the points
    // of the inputs
    let rs = verifier.spec_masks(l);
    let zero = Seq::new(l, |j: int| 0int);
    assert forall|j: int| 0 <= j < l implies cong(
        #[trigger] poly_value(c, pow(w as int, (j + 1) as nat)),
        zero[j],
        m,
    ) by {
        let at = xs[j + 1];
        assert(at == spec_pow_mod(w, (j + 1) as u64, p) as u64);
        vstd::arithmetic::div_mod::lemma_mod_bound(pow(w as int, (j + 1) as nat), m);
        lemma_cong_residue(pow(w as int, (j + 1) as nat), m);
        lemma_value_at_congruent(c, pow(w as int, (j + 1) as nat), at as int, p);
        lemma_product_value(f0, f1, at, p);
        lemma_interpolation_values(us, p, w, (j + 1) as nat);
        lemma_interpolation_values(vs, p, w, (j + 1) as nat);
        assert(us[j + 1] == x[j]);
        assert(vs[j + 1] == right[j]);
        lemma_bit_value_of_bit(x[j], p);
        vstd::arithmetic::div_mod::lemma_mul_mod_noop_general(x[j] as int, right[j] as int, m);
        vstd::arithmetic::div_mod::lemma_mod_bound(x[j] * right[j], m);
        vstd::arithmetic::div_mod::lemma_small_mod(0, m as nat);
    }
    lemma_output_answer(pi, w, rs, zero);
    lemma_weighted_zeros(rs, zero, l);
    assert(2 * 0 == 0);
}

/// A share and the share that completes it are additive shares of the
/// proof.
pub proof fn lemma_masked_shares_rejoin(pi: ProofView, mask: ProofView)
    requires
        pi.q > 0,
        mask.q == pi.q,
        mask.x.len() == pi.x.len(),
        mask.w.len() == pi.w.len(),
        mask.z.len() == pi.z.len(),
        mask.c.len() == pi.c.len(),
    ensures
        shares_rejoin(mask, spec_masked(pi, mask), pi),
{
    let other = spec_masked(pi, mask);
    assert forall|i: int| 0 <= i < pi.x.len() implies (mask.x[i] + other.x[i]) % (pi.q as int) == (
    #[trigger] pi.x[i] as int) % (pi.q as int) by {
        crate::ss::lemma_share_round_trip(pi.x[i], mask.x[i], pi.q);
    }
    assert forall|i: int| 0 <= i < pi.w.len() implies (mask.w[i] + other.w[i]) % (pi.q as int) == (
    #[trigger] pi.w[i] as int) % (pi.q as int) by {
        crate::ss::lemma_share_round_trip(pi.w[i], mask.w[i], pi.q);
    }
    assert forall|i: int| 0 <= i < pi.z.len() implies (mask.z[i] + other.z[i]) % (pi.q as int) == (
    #[trigger] pi.z[i] as int) % (pi.q as int) by {
        crate::ss::lemma_share_round_trip(pi.z[i], mask.z[i], pi.q);
    }
    assert forall|i: int| 0 <= i < pi.c.len() implies (mask.c[i] + other.c[i]) % (pi.q as int) == (
    #[trigger] pi.c[i] as int) % (pi.q as int) by {
        crate::ss::lemma_share_round_trip(pi.c[i], mask.c[i], pi.q);
    }
}

/// Completeness: in an honest run the two-party decision accepts. Whatever
/// share `mask` of the proof one aggregator holds, and whatever the seeds of
/// prover and verifier are, the answers of that share and of the share that
/// completes it pass the decision.
pub proof fn lemma_completeness(prover: Prover, verifier: BitvectorVerifier, mask: ProofView)
    requires
        honest_run(prover, verifier),
        mask.q == prover.spec_proof().q,
        mask.x.len() == prover.spec_proof().x.len(),
        mask.w.len() == prover.spec_proof().w.len(),
        mask.z.len() == prover.spec_proof().z.len(),
        mask.c.len() == prover.spec_proof().c.len(),
    ensures
        ({
            let pi = prover.spec_proof();
            let qs = verifier.spec_query_state(pi.x.len(), pi.c.len());
            spec_decision(spec_queries(mask, qs), spec_queries(spec_masked(pi, mask), qs))
        }),
{
    let pi = prover.spec_proof();
    let qs = verifier.spec_query_state(pi.x.len(), pi.c.len());
    lemma_honest_proof_passes(prover, verifier);
    lemma_masked_shares_rejoin(pi, mask);
    assert(queries_fit(pi, qs));
    lemma_two_party_decision(mask, spec_masked(pi, mask), pi, qs);
}

/// An honest run over a prime field: prover and verifier share the circuit
/// that tests each input for being a bit, the inputs are bits, the modulus
/// is a prime, and the generator has as its order the number of
/// interpolation points, which is the least power of two above the number
/// of inputs.
pub open spec fn honest_prime_run(prover: Prover, verifier: BitvectorVerifier) -> bool {
    let p = prover.ctxt.circuit.modulus;
    let w = prover.ctxt.generator;
    let l = prover.inputs@.len();
    let n = spec_next_pow2(l + 1);
    &&& is_prime(p)
    &&& has_order(w, n, p)
    &&& n < p
    &&& 4 * (l + 1) <= usize::MAX
    &&& prover.ctxt.circuit.out_gates@ == spec_bitvector_gates(p, l)
    &&& verifier.ctxt.circuit.out_gates@ == spec_bitvector_gates(p, l)
    &&& verifier.ctxt.circuit.modulus == p
    &&& verifier.ctxt.generator == w
    &&& forall|i: int| 0 <= i < l ==> prover.inputs@[i] == 0 || prover.inputs@[i] == 1
}

/// Completeness over a prime field: for inputs that are bits the two-party
/// decision accepts, whatever the seeds of prover and verifier are and
/// whatever share `mask` of the proof one aggregator holds.
pub proof fn lemma_completeness_prime(prover: Prover, verifier: BitvectorVerifier, mask: ProofView)
    requires
        honest_prime_run(prover, verifier),
        mask.q == prover.spec_proof().q,
        mask.x.len() == prover.spec_proof().x.len(),
        mask.w.len() == prover.spec_proof().w.len(),
        mask.z.len() == prover.spec_proof().z.len(),
        mask.c.len() == prover.spec_proof().c.len(),
    ensures
        ({
            let pi = prover.spec_proof();
            let qs = verifier.spec_query_state(pi.x.len(), pi.c.len());
            spec_decision(spec_queries(mask, qs), spec_queries(spec_masked(pi, mask), qs))
        }),
{
    let p = prover.ctxt.circuit.modulus;
    let w = prover.ctxt.generator;
    let n = spec_next_pow2(prover.inputs@.len() + 1);
    lemma_prime_field_subgroup(w, n, p);
    lemma_completeness(prover, verifier, mask);
}

/// Over a prime field with a generator whose order is the number of
/// interpolation points, queries exist for every proof with fewer inputs
/// than points, unless as many draws in a row as the machine can count were
/// interpolation points.
pub proof fn lemma_queries_exist(verifier: BitvectorVerifier, nx: nat)
    requires
        is_prime(verifier.ctxt.circuit.modulus),
        has_order(verifier.ctxt.generator, verifier.ctxt.spec_points(), verifier.ctxt.circuit.modulus),
        verifier.ctxt.spec_points() < verifier.ctxt.circuit.modulus,
        nx < verifier.ctxt.spec_points(),
    ensures
        verifier.answerable(nx) == (verifier.spec_challenge_at() is Some),
        !verifier.answerable(nx) ==> verifier.spec_query_error(nx) == crate::error::Error::InvalidChallenge,
{
    let p = verifier.ctxt.circuit.modulus;
    let w = verifier.ctxt.generator;
    let n = verifier.ctxt.spec_points();
    lemma_prime_field_subgroup(w, n, p);
    assert(crate::flpcp::basis_defined(verifier.spec_xs(), p, nx + 1));
}

} // verus!
