//! The seeded generator from which every random field value is drawn.
//!
//! The generator is GMP's Mersenne Twister, reached through `rug`. What it
//! returns is fixed by the seed and by the bounds of the draws made so far, so
//! two parties that seed alike and draw alike hold the same values.

use vstd::prelude::*;
use rug::Integer;
use rug::rand::RandState;

verus! {

#[verifier::external_type_specification]
#[verifier::external_body]
pub struct ExRandState<'a>(RandState<'a>);

/// The seed that a generator was made with.
pub uninterp spec fn generator_seed(g: RandState<'static>) -> u64;

/// The bounds of the draws that a generator has served since it was seeded,
/// the oldest first.
pub uninterp spec fn generator_asked(g: RandState<'static>) -> Seq<u64>;

/// The value that a generator made with `seed` returns for the last of the
/// draws whose bounds are `bounds`, served in that order.
pub uninterp spec fn drawn(seed: u64, bounds: Seq<u64>) -> u64;

/// `RandState::new` and `RandState::seed` of rug: a fresh Mersenne Twister,
/// seeded with the integer `seed`. It has served no draw yet.
#[verifier::external_body]
fn seeded_state(seed: u64) -> (g: RandState<'static>)
    ensures
        generator_seed(g) == seed,
        generator_asked(g) == Seq::<u64>::empty(),
{
    let mut g = RandState::new();
    g.seed(&Integer::from(seed));
    g
}

/// `Integer::random_below` of rug: a value from 0 up to `bound`, which the
/// seed and the bounds of all draws up to this one determine. The generator
/// moves on by one draw. Generators reach this function from `seeded_state`
/// only.
#[verifier::external_body]
fn state_below(g: &mut RandState<'static>, bound: u64) -> (v: u64)
    requires
        bound > 0,
    ensures
        v < bound,
        v == drawn(generator_seed(*old(g)), generator_asked(*old(g)).push(bound)),
        generator_seed(*final(g)) == generator_seed(*old(g)),
        generator_asked(*final(g)) == generator_asked(*old(g)).push(bound),
{
    Integer::from(bound).random_below(g).to_u64().unwrap()
}

/// `n` times the bound `bound`.
pub open spec fn repeat(bound: u64, n: nat) -> Seq<u64> {
    Seq::new(n, |i: int| bound)
}

/// The value of draw number `k`, counted from 0, among draws below `bound`
/// that follow the draws `asked` on a generator made with `seed`.
pub open spec fn draw_at(seed: u64, asked: Seq<u64>, bound: u64, k: nat) -> u64 {
    drawn(seed, asked + repeat(bound, k + 1))
}

/// The values of `n` draws below `bound` in a row that follow the draws
/// `asked` on a generator made with `seed`.
pub open spec fn draws(seed: u64, asked: Seq<u64>, bound: u64, n: nat) -> Seq<u64> {
    Seq::new(n, |k: int| draw_at(seed, asked, bound, k as nat))
}

/// Draws after `m` earlier ones of the same bound continue the same run.
pub proof fn lemma_draw_at_shift(seed: u64, asked: Seq<u64>, bound: u64, m: nat, k: nat)
    ensures
        draw_at(seed, asked + repeat(bound, m), bound, k) == draw_at(seed, asked, bound, m + k),
{
    assert((asked + repeat(bound, m)) + repeat(bound, k + 1) =~= asked + repeat(
        bound,
        m + k + 1,
    ));
}

/// The draws numbered `m` up to `m + n` of a run are the run of `n` draws
/// that follows its first `m` draws.
pub proof fn lemma_draws_window(seed: u64, asked: Seq<u64>, bound: u64, m: nat, n: nat, total: nat)
    requires
        m + n <= total,
    ensures
        draws(seed, asked + repeat(bound, m), bound, n) == draws(seed, asked, bound, total).subrange(
            m as int,
            (m + n) as int,
        ),
{
    let later = draws(seed, asked + repeat(bound, m), bound, n);
    let window = draws(seed, asked, bound, total).subrange(m as int, (m + n) as int);
    assert forall|i: int| 0 <= i < n implies later[i] == window[i] by {
        lemma_draw_at_shift(seed, asked, bound, m, i as nat);
    }
    assert(later =~= window);
}

/// `rand::random` of rand: a 64-bit value from the thread's generator, which
/// the operating system seeds. Nothing is known of the value.
#[verifier::external_body]
pub(crate) fn fresh_seed() -> u64 {
    rand::random::<u64>()
}

/// A deterministic generator of field values, made from a 64-bit seed.
pub struct SeededRng {
    state: RandState<'static>,
}

impl SeededRng {
    /// The seed that the generator was made with.
    pub closed spec fn seed(&self) -> u64 {
        generator_seed(self.state)
    }

    /// The bounds of the draws served so far, the oldest first.
    pub closed spec fn asked(&self) -> Seq<u64> {
        generator_asked(self.state)
    }

    /// A generator made with `seed` that has served no draw.
    pub fn seeded(seed: u64) -> (g: SeededRng)
        ensures
            g.seed() == seed,
            g.asked() == Seq::<u64>::empty(),
    {
        SeededRng { state: seeded_state(seed) }
    }

    /// One value from 0 up to `bound`.
    pub fn below(&mut self, bound: u64) -> (v: u64)
        requires
            bound > 0,
        ensures
            v < bound,
            v == drawn(old(self).seed(), old(self).asked().push(bound)),
            final(self).seed() == old(self).seed(),
            final(self).asked() == old(self).asked().push(bound),
    {
        state_below(&mut self.state, bound)
    }

    /// `n` values from 0 up to `bound`, in the order drawn.
    pub fn below_vec(&mut self, bound: u64, n: usize) -> (v: Vec<u64>)
        requires
            bound > 0,
        ensures
            v@ == draws(old(self).seed(), old(self).asked(), bound, n as nat),
            forall|i: int| 0 <= i < n ==> v@[i] < bound,
            final(self).seed() == old(self).seed(),
            final(self).asked() == old(self).asked() + repeat(bound, n as nat),
    {
        let ghost seed = self.seed();
        let ghost asked = self.asked();
        let mut v: Vec<u64> = Vec::new();
        let mut i: usize = 0;
        assert(asked + repeat(bound, 0) =~= asked);
        while i < n
            invariant
                bound > 0,
                i <= n,
                self.seed() == seed,
                self.asked() == asked + repeat(bound, i as nat),
                v@ == draws(seed, asked, bound, i as nat),
                forall|k: int| 0 <= k < i ==> v@[k] < bound,
            decreases n - i,
        {
            let d: u64 = self.below(bound);
            v.push(d);
            proof {
                assert((asked + repeat(bound, i as nat)).push(bound) =~= asked + repeat(
                    bound,
                    (i + 1) as nat,
                ));
                assert(v@ =~= draws(seed, asked, bound, (i + 1) as nat));
            }
            i += 1;
        }
        v
    }
}

} // verus!
