//! The source of the dice: `rand`'s `StdRng`, and what is known of it.

use rand::rngs::{OsRng, StdRng};
use rand::{Rng, SeedableRng};
use vstd::prelude::*;

verus! {

/// `rand`'s `StdRng`. Nothing is known of what is inside it.
#[verifier::external_type_specification]
#[verifier::external_body]
pub struct ExStdRng(rand::rngs::StdRng);

/// `rand`'s `Error`, which says why a generator could not be made.
#[verifier::external_type_specification]
#[verifier::external_body]
pub struct ExRandError(rand::Error);

/// The system has no entropy to seed a generator with.
#[derive(Debug, Clone, Copy, PartialEq, Eq, Structural)]
pub struct NoEntropy;

/// What a generator holds in store: for each run of dice, given by the sides of
/// each in turn, the face on which the last die of the run lands.
pub uninterp spec fn upcoming(rng: StdRng) -> Map<Seq<u32>, u32>;

/// What a generator holds in store that `StdRng::seed_from_u64` made from a seed.
pub uninterp spec fn seeded_faces(seed: u64) -> Map<Seq<u32>, u32>;

/// Whether `run` is a run of dice: at least one, each with a side.
pub open spec fn is_run(run: Seq<u32>) -> bool {
    &&& run.len() > 0
    &&& forall|k: int| 0 <= k < run.len() ==> #[trigger] run[k] >= 1
}

/// Whether two stores hold the same for every run.
pub open spec fn same_store(a: Map<Seq<u32>, u32>, b: Map<Seq<u32>, u32>) -> bool {
    forall|run: Seq<u32>| is_run(run) ==> #[trigger] a[run] == b[run]
}

/// Whether `now` is what is left in store of `before` once `drawn` has been drawn.
pub open spec fn continues(
    now: Map<Seq<u32>, u32>,
    before: Map<Seq<u32>, u32>,
    drawn: Seq<u32>,
) -> bool {
    forall|run: Seq<u32>| is_run(run) ==> #[trigger] now[run] == before[drawn + run]
}

/// Draws one face of a die with `sides` sides: `StdRng::gen_range(1..=sides)`,
/// which panics on an empty range and else returns a value within it. The value
/// and the generator's next state depend on its state and the range alone.
#[verifier::external_body]
pub(crate) fn draw(rng: &mut StdRng, sides: u32) -> (face: u32)
    requires
        sides >= 1,
    ensures
        1 <= face <= sides,
        face == upcoming(*old(rng))[seq![sides]],
        continues(upcoming(*final(rng)), upcoming(*old(rng)), seq![sides]),
{
    rng.gen_range(1..=sides)
}

/// A generator made from a seed: `StdRng::seed_from_u64`, whose state depends on
/// the seed alone.
#[verifier::external_body]
pub(crate) fn seeded(seed: u64) -> (rng: StdRng)
    ensures
        upcoming(rng) == seeded_faces(seed),
{
    StdRng::seed_from_u64(seed)
}

/// A generator that no one can foresee: `StdRng::from_rng` on `OsRng`, which asks the
/// system for a seed and hands back its error where the system has none to give.
/// Nothing is said of the generator's state, which differs from call to call.
#[verifier::external_body]
pub(crate) fn fresh() -> (res: Result<StdRng, rand::Error>) {
    StdRng::from_rng(OsRng)
}

/// The generator of a seed, or one that no one can foresee where there is none.
pub fn generator(seed: Option<u64>) -> (res: Result<StdRng, NoEntropy>)
    ensures
        seed matches Some(n) ==> (res matches Ok(rng) && upcoming(rng) == seeded_faces(n)),
{
    match seed {
        Some(n) => Ok(seeded(n)),
        None => match fresh() {
            Ok(rng) => Ok(rng),
            Err(_) => Err(NoEntropy),
        },
    }
}

/// A die drawn after `drawn` is one more that has been drawn.
pub proof fn lemma_draw_on(
    now: Map<Seq<u32>, u32>,
    then: Map<Seq<u32>, u32>,
    before: Map<Seq<u32>, u32>,
    drawn: Seq<u32>,
    sides: u32,
)
    requires
        sides >= 1,
        continues(then, before, drawn),
        continues(now, then, seq![sides]),
    ensures
        then[seq![sides]] == before[drawn.push(sides)],
        continues(now, before, drawn.push(sides)),
{
    assert(is_run(seq![sides]));
    assert(drawn + seq![sides] == drawn.push(sides));
    assert forall|run: Seq<u32>| is_run(run) implies #[trigger] now[run] == before[drawn.push(sides)
        + run] by {
        let longer = seq![sides] + run;
        assert forall|k: int| 0 <= k < longer.len() implies #[trigger] longer[k] >= 1 by {
            if k > 0 {
                assert(longer[k] == run[k - 1]);
            }
        }
        assert(is_run(longer));
        assert(then[longer] == before[drawn + longer]);
        assert(drawn + longer == drawn.push(sides) + run);
    }
}

/// Nothing drawn leaves everything in store.
pub proof fn lemma_nothing_drawn(faces: Map<Seq<u32>, u32>)
    ensures
        continues(faces, faces, Seq::empty()),
{
    assert forall|run: Seq<u32>| is_run(run) implies #[trigger] faces[run] == faces[Seq::empty()
        + run] by {
        assert(Seq::<u32>::empty() + run == run);
    }
}

/// What is left in store once one run has been drawn and then another is what is left once
/// both have been drawn.
pub proof fn draws_follow_each_other(
    now: Map<Seq<u32>, u32>,
    then: Map<Seq<u32>, u32>,
    before: Map<Seq<u32>, u32>,
    a: Seq<u32>,
    b: Seq<u32>,
    run: Seq<u32>,
)
    requires
        continues(then, before, a),
        continues(now, then, b),
        run.len() > 0,
        forall|k: int| 0 <= k < run.len() ==> #[trigger] run[k] >= 1,
        forall|k: int| 0 <= k < b.len() ==> #[trigger] b[k] >= 1,
    ensures
        then[run] == before[a + run],
        now[run] == before[a + b + run],
{
    let longer = b + run;
    assert forall|k: int| 0 <= k < longer.len() implies #[trigger] longer[k] >= 1 by {
        if k < b.len() {
            assert(longer[k] == b[k]);
        } else {
            assert(longer[k] == run[k - b.len()]);
        }
    }
    assert(is_run(longer));
    assert(is_run(run));
    assert(then[longer] == before[a + longer]);
    assert(a + longer =~= a + b + run);
}

} // verus!
