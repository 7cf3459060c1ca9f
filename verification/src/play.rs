//! A roll on its way from the throw to its rest: what decides its dice, and what does
//! not.

use crate::app::{App, Launch};
use crate::arena::{settled_upto, spawn_ok, Arena, Pose};
use crate::parse::parsed;
use crate::rng::{is_run, same_store, upcoming};
use vstd::prelude::*;

verus! {

/// One thing that happens to the dice on their way to rest.
pub enum Turn {
    /// They are launched.
    Launch,
    /// Each is looked at, in its pose.
    Look(Seq<Pose>),
    /// The first die that an explosion has called for is thrown.
    Spawn,
    /// Their flight is drawn by lot, which leaves these faces in store.
    Flight(Map<Seq<u32>, u32>),
    /// Something is heard.
    Sound,
    /// The roll is taken into the history.
    Record,
}

impl App {
    /// Whether `next` is this session after the turn.
    pub open spec fn turned(self, turn: Turn, next: App) -> bool {
        match turn {
            Turn::Launch => next == (App {
                spawned: true,
                launch: None,
                sounds: next.sounds,
                ..self
            }),
            Turn::Look(poses) => self.looked(poses, next),
            Turn::Spawn => self.spawns(next),
            Turn::Flight(faces) => {
                &&& same_store(upcoming(next.rng), faces)
                &&& next == (App { rng: next.rng, ..self })
            },
            Turn::Sound => next == (App { sounds: next.sounds, ..self }),
            Turn::Record => next == (App {
                history: next.history,
                sounds: next.sounds,
                stats_cache: next.stats_cache,
                recorded: next.recorded,
                ..self
            }),
        }
    }

    /// Whether the two sessions hold the same roll: the same dice in the arena, the same
    /// that wait, and the same in store.
    pub open spec fn same_roll(self, other: App) -> bool {
        &&& self.dice@ == other.dice@
        &&& self.explosions@ == other.explosions@
        &&& self.pending@ == other.pending@
        &&& self.modifier == other.modifier
        &&& self.stake == other.stake
        &&& self.spawned == other.spawned
        &&& same_store(upcoming(self.rng), upcoming(other.rng))
    }
}

/// What waits to be heard has no part in how the dice come to rest.
proof fn lemma_settled_unheard(a: Arena, b: Arena, poses: Seq<Pose>, n: int)
    requires
        a.dice == b.dice,
        a.explosions == b.explosions,
        a.pending == b.pending,
    ensures
        settled_upto(a, poses, n).dice == settled_upto(b, poses, n).dice,
        settled_upto(a, poses, n).explosions == settled_upto(b, poses, n).explosions,
        settled_upto(a, poses, n).pending == settled_upto(b, poses, n).pending,
    decreases n,
{
    if n > 0 {
        lemma_settled_unheard(a, b, poses, n - 1);
    }
}

proof fn lemma_turn_alike(a: App, b: App, turn: Turn, x: App, y: App)
    requires
        a.same_roll(b),
        a.turned(turn, x),
        b.turned(turn, y),
        turn is Spawn ==> a.pending@[0].sides >= 1,
    ensures
        x.same_roll(y),
{
    match turn {
        Turn::Look(poses) => {
            lemma_settled_unheard(a.arena(), b.arena(), poses, poses.len() as int);
            assert(x.dice@ == x.arena().dice);
            assert(y.dice@ == y.arena().dice);
        },
        Turn::Spawn => {
            let sides = a.pending@[0].sides;
            let one = seq![sides];
            assert(is_run(one));
            assert forall|run: Seq<u32>| is_run(run) implies #[trigger] upcoming(x.rng)[run]
                == upcoming(y.rng)[run] by {
                let longer = one + run;
                assert forall|k: int| 0 <= k < longer.len() implies #[trigger] longer[k] >= 1 by {
                    if k > 0 {
                        assert(longer[k] == run[k - 1]);
                    }
                }
                assert(is_run(longer));
                assert(upcoming(a.rng)[longer] == upcoming(b.rng)[longer]);
            }
        },
        _ => {},
    }
}

/// Whether the sessions `xs` follow each other by the turns, all in order.
pub open spec fn runs(xs: Seq<App>, turns: Seq<Turn>) -> bool {
    &&& xs.len() == turns.len() + 1
    &&& forall|k: int| 0 <= k < xs.len() ==> (#[trigger] xs[k]).wf()
    &&& forall|k: int| 0 <= k < turns.len() ==> xs[k].turned(#[trigger] turns[k], xs[k + 1])
}

proof fn lemma_runs_alike(xs: Seq<App>, ys: Seq<App>, turns: Seq<Turn>, n: int)
    requires
        runs(xs, turns),
        runs(ys, turns),
        xs[0].same_roll(ys[0]),
        0 <= n <= turns.len(),
    ensures
        xs[n].same_roll(ys[n]),
    decreases n,
{
    if n > 0 {
        lemma_runs_alike(xs, ys, turns, n - 1);
        let turn = turns[n - 1];
        assert(xs[n - 1].turned(turn, xs[n]));
        assert(ys[n - 1].turned(turn, ys[n]));
        if turn is Spawn {
            assert(xs[n - 1].wf());
            let s = xs[n - 1].pending@[0];
            assert(spawn_ok(s, xs[n - 1].roll@.terms));
        }
        lemma_turn_alike(xs[n - 1], ys[n - 1], turn, xs[n], ys[n]);
    }
}

/// The same line thrown with the same dice in store shows the same faces, whichever
/// way it is rolled.
pub proof fn every_way_rolls_the_same_dice(s: App, t: App, a: Launch, b: Launch, x: App, y: App)
    requires
        s.input@ == t.input@,
        upcoming(s.rng) == upcoming(t.rng),
        s.rolled(a, x),
        t.rolled(b, y),
        x.wf(),
        y.wf(),
        parsed(s.input@) is Ok,
    ensures
        x.dice@ == y.dice@,
        x.total_spec() == y.total_spec(),
        x.same_roll(y),
{
    let terms = x.roll@.terms;
    assert forall|k: int| 0 <= k < terms.len() implies x.explosions@[k] == y.explosions@[k] by {
        assert(terms[k] == y.roll@.terms[k]);
    }
    assert(x.explosions@ =~= y.explosions@);
    assert(x.pending@ =~= y.pending@);
}

/// Two sessions that hold the same dice in store and have the same line in the cup
/// throw the same dice, however long and hard either has shaken it.
pub proof fn power_never_shapes_the_values(s: App, t: App, x: App, y: App)
    requires
        s.shake is Some,
        t.shake is Some,
        s.shake->0@ == t.shake->0@,
        parsed(s.shake->0@) is Ok,
        upcoming(s.rng) == upcoming(t.rng),
        (App { input: s.shake->0, shake: None, ..s }).rolled(Launch::Cup, x),
        (App { input: t.shake->0, shake: None, ..t }).rolled(Launch::Cup, y),
        x.wf(),
        y.wf(),
    ensures
        x.dice@ == y.dice@,
        x.total_spec() == y.total_spec(),
        x.same_roll(y),
{
    let from = App { input: s.shake->0, shake: None, ..s };
    let onto = App { input: t.shake->0, shake: None, ..t };
    every_way_rolls_the_same_dice(from, onto, Launch::Cup, Launch::Cup, x, y);
}

/// A roll that runs to rest at once ends with the dice of one that is watched, those of
/// its explosions included: thrown with the same dice in store, and with the same
/// landings and flights, two rolls hold the same dice and come to the same at every
/// turn.
pub proof fn insta_and_animation_agree(
    s: App,
    t: App,
    a: Launch,
    b: Launch,
    xs: Seq<App>,
    ys: Seq<App>,
    turns: Seq<Turn>,
    n: int,
)
    requires
        s.input@ == t.input@,
        upcoming(s.rng) == upcoming(t.rng),
        parsed(s.input@) is Ok,
        runs(xs, turns),
        runs(ys, turns),
        s.rolled(a, xs[0]),
        t.rolled(b, ys[0]),
        0 <= n <= turns.len(),
    ensures
        xs[n].dice@ == ys[n].dice@,
        xs[n].total_spec() == ys[n].total_spec(),
        xs[n].settled_spec() == ys[n].settled_spec(),
        xs[n].verdict_spec() == ys[n].verdict_spec(),
        xs[n].same_roll(ys[n]),
{
    assert(xs[0].wf());
    assert(ys[0].wf());
    every_way_rolls_the_same_dice(s, t, a, b, xs[0], ys[0]);
    lemma_runs_alike(xs, ys, turns, n);
}

} // verus!
