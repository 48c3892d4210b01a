//! Seeded uniform draws.

use rand::rngs::StdRng;
use rand::{Rng, SeedableRng};
use vstd::prelude::*;

verus! {

/// `rand`'s `StdRng`, a deterministic generator that is carried through.
#[verifier::external_type_specification]
#[verifier::external_body]
pub struct ExStdRng(StdRng);

/// What a generator will draw: under one or more ranges, the outcome of the last
/// of the draws `gen_range(0..n)` made for each range `n` in turn. Under no range
/// there is no draw, and nothing is said.
pub uninterp spec fn upcoming(rng: StdRng) -> Map<Seq<nat>, nat>;

/// The outcome of the last of the draws `gen_range(0..n)` made for each of one or
/// more ranges `n` in turn, on a generator made from `seed`.
pub uninterp spec fn seeded_draw(seed: u64, ranges: Seq<nat>) -> nat;

/// `StdRng::seed_from_u64`. What the generator will draw is fixed by the seed
/// alone.
#[verifier::external_body]
pub(crate) fn rng_from_seed(seed: u64) -> (r: StdRng)
    ensures
        forall|s: Seq<nat>|
            s.len() > 0 ==> #[trigger] upcoming(r)[s] == seeded_draw(seed, s),
{
    StdRng::seed_from_u64(seed)
}

/// `Rng::gen_range(0..n)` on `u64`. The outcome is below `n` and is what the
/// generator had coming for this range; each draw after it is what the generator
/// had coming after a draw of this range.
#[verifier::external_body]
pub(crate) fn draw_below(rng: &mut StdRng, n: u64) -> (r: u64)
    requires
        n > 0,
    ensures
        r < n,
        r as nat == upcoming(*old(rng))[seq![n as nat]],
        forall|s: Seq<nat>|
            s.len() > 0 ==> #[trigger] upcoming(*final(rng))[s] == upcoming(
                *old(rng),
            )[seq![n as nat] + s],
{
    rng.gen_range(0..n)
}

/// The same range `times` times.
pub open spec fn repeated(n: nat, times: nat) -> Seq<nat> {
    Seq::new(times, |i: int| n)
}

} // verus!
