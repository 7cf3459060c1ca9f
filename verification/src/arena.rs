//! How dice come to rest: each shows what it rolled, speaks, and explodes if its
//! face calls for it.

use crate::parse::{Compare, TermView};
use crate::pool::{
    faces_of, in_order, lemma_of_term_same, of_roll, of_term, term_in_order, worth, worths, Die,
};
use crate::roll::{
    added, calls_for_more, can_meet, explodes_on, fair_pool, hits, product, MAX_EXPLOSIONS,
};
use vstd::prelude::*;

verus! {

/// The most sounds that wait to be played.
pub const MAX_SOUNDS: usize = 64;

/// Something that deserves a noise. Speeds and powers are held as the bits of an
/// IEEE 754 single.
#[derive(Debug, Clone, Copy, PartialEq, Eq, Structural)]
pub enum SoundEvent {
    /// A die struck a wall, the ceiling or the floor.
    Impact { sides: u32, speed: u32 },
    /// Two dice knocked together.
    Knock { sides: u32, speed: u32 },
    /// A die came to rest.
    Settle { sides: u32 },
    /// The cup crossed a peak of its sway.
    Rattle { power: u32 },
    /// The cup was emptied.
    Throw { power: u32 },
    /// A kept die rests on its highest face.
    Crit,
    /// A kept die rests on a 1.
    Fumble,
    /// A staked roll was made.
    Success,
    /// A staked roll was missed.
    Failure,
}

/// A die that an explosion calls for.
#[derive(Debug, Clone, Copy, PartialEq, Eq, Structural)]
pub struct Spawn {
    pub sides: u32,
    pub term_idx: usize,
    pub mult: i32,
    pub cond: Compare,
}

/// The sounds that wait after `ev` has been queued: a full queue takes no more.
pub open spec fn emitted(sounds: Seq<SoundEvent>, ev: SoundEvent) -> Seq<SoundEvent> {
    if sounds.len() < MAX_SOUNDS {
        sounds.push(ev)
    } else {
        sounds
    }
}

/// The sounds that wait after `ev` has been queued by force: out of a full queue the
/// oldest makes way.
pub open spec fn forced(sounds: Seq<SoundEvent>, ev: SoundEvent) -> Seq<SoundEvent> {
    if sounds.len() >= MAX_SOUNDS {
        sounds.drop_first().push(ev)
    } else {
        sounds.push(ev)
    }
}

/// A forced sound always waits at the end of the queue, and the queue stays within
/// its limit.
pub proof fn forced_sounds_survive(sounds: Seq<SoundEvent>, ev: SoundEvent)
    requires
        sounds.len() <= MAX_SOUNDS,
    ensures
        forced(sounds, ev).last() == ev,
        forced(sounds, ev).len() <= MAX_SOUNDS,
        emitted(sounds, ev).len() <= MAX_SOUNDS,
        sounds.is_prefix_of(emitted(sounds, ev)),
{
}

/// The face that a tumbling die shows, after three words of its orientation.
pub open spec fn tumbled(x: u32, y: u32, z: u32, sides: u32) -> u32 {
    if sides <= 1 {
        1
    } else {
        (1 + (x ^ ((y << 11u32) | (y >> 21u32)) ^ ((z << 22u32) | (z >> 10u32))) % sides) as u32
    }
}

/// The face that a tumbling die shows, after three words of its orientation.
pub fn tumbling_face(x: u32, y: u32, z: u32, sides: u32) -> (face: u32)
    ensures
        face == tumbled(x, y, z, sides),
        sides >= 1 ==> 1 <= face <= sides,
{
    if sides <= 1 {
        return 1;
    }
    let bits: u32 = x ^ ((y << 11u32) | (y >> 21u32)) ^ ((z << 22u32) | (z >> 10u32));
    1 + bits % sides
}

/// What coming to rest changes.
pub struct Arena {
    pub dice: Seq<Die>,
    pub explosions: Seq<usize>,
    pub pending: Seq<Spawn>,
    pub sounds: Seq<SoundEvent>,
}

/// What is known of a die after a step of the simulation.
#[derive(Debug, Clone, Copy, PartialEq, Eq, Structural)]
pub struct Pose {
    /// Three words of its orientation.
    pub x: u32,
    pub y: u32,
    pub z: u32,
    /// Whether it lies still.
    pub rests: bool,
}

/// Whether the die calls for one more as it comes to rest.
pub open spec fn bursts(d: Die, spawned: usize) -> bool {
    &&& !d.exploded
    &&& d.explode is Some
    &&& calls_for_more(d.explode->0, d.final_value, spawned as int)
}

/// The arena after the die number `i` has been looked at.
pub open spec fn settled_one(a: Arena, i: int, p: Pose) -> Arena {
    let d = a.dice[i];
    let t = d.term_idx as int;
    if d.settled {
        a
    } else if !p.rests {
        Arena {
            dice: a.dice.update(i, (Die { shown: tumbled(p.x, p.y, p.z, d.sides), ..d })),
            ..a
        }
    } else {
        let burst = bursts(d, a.explosions[t]);
        Arena {
            dice: a.dice.update(
                i,
                (Die { shown: d.final_value, settled: true, exploded: true, ..d }),
            ),
            sounds: emitted(a.sounds, SoundEvent::Settle { sides: d.sides }),
            explosions: if burst {
                a.explosions.update(t, (a.explosions[t] + 1) as usize)
            } else {
                a.explosions
            },
            pending: if burst {
                a.pending.push(
                    (Spawn {
                        sides: d.sides,
                        term_idx: d.term_idx,
                        mult: d.mult,
                        cond: d.explode->0,
                    }),
                )
            } else {
                a.pending
            },
        }
    }
}

/// The arena after the first `n` dice have been looked at.
pub open spec fn settled_upto(a: Arena, poses: Seq<Pose>, n: int) -> Arena
    decreases n,
{
    if n <= 0 {
        a
    } else {
        settled_one(settled_upto(a, poses, n - 1), n - 1, poses[n - 1])
    }
}

/// How many of the dice that wait to be thrown belong to the term number `k`.
pub open spec fn waiting(pending: Seq<Spawn>, k: int) -> nat
    decreases pending.len(),
{
    if pending.len() == 0 {
        0
    } else {
        waiting(pending.drop_last(), k) + if pending.last().term_idx == k {
            1nat
        } else {
            0
        }
    }
}

/// How many dice of the term number `k` rest on a face that meets the condition.
pub open spec fn resting_hits(dice: Seq<Die>, k: int, cond: Compare) -> nat
    decreases dice.len(),
{
    if dice.len() == 0 {
        0
    } else {
        let d = dice.last();
        resting_hits(dice.drop_last(), k, cond) + if d.term_idx == k && d.settled && cond.met(
            d.final_value,
        ) {
            1nat
        } else {
            0
        }
    }
}

/// The dice that explosions have put into play, term by term.
pub open spec fn spawned(explosions: Seq<usize>, pending: Seq<Spawn>) -> Seq<int> {
    Seq::new(explosions.len(), |k: int| explosions[k] - waiting(pending, k))
}

/// What holds of the arena at all times, where its dice are those of the roll
/// `terms`: each die is kept or dropped as its term says, and each die that rests on
/// a face that its term explodes on has called for exactly one more, up to the cap.
pub open spec fn arena_ok(a: Arena, terms: Seq<TermView>) -> bool {
    &&& a.explosions.len() == terms.len()
    &&& in_order(a.dice, terms, spawned(a.explosions, a.pending))
    &&& forall|k: int|
        0 <= k < terms.len() ==> explosions_ok(
            #[trigger] terms[k],
            a.explosions[k] as int,
            waiting(a.pending, k),
            a.dice,
            k,
        )
    &&& forall|i: int| 0 <= i < a.dice.len() ==> die_ok(#[trigger] a.dice[i])
    &&& forall|i: int| 0 <= i < a.pending.len() ==> spawn_ok(#[trigger] a.pending[i], terms)
}

pub open spec fn explosions_ok(
    t: TermView,
    n: int,
    waits: nat,
    dice: Seq<Die>,
    k: int,
) -> bool {
    &&& waits <= n
    &&& n == match explodes_on(t.mods, t.sides) {
        None => 0,
        Some(cond) => added(resting_hits(dice, k, cond)),
    }
}

pub open spec fn die_ok(d: Die) -> bool {
    &&& d.exploded == d.settled
    &&& d.settled ==> d.shown == d.final_value
    &&& 1 <= d.final_value <= d.sides
}

pub open spec fn spawn_ok(s: Spawn, terms: Seq<TermView>) -> bool {
    &&& s.term_idx < terms.len()
    &&& s.sides == terms[s.term_idx as int].sides
    &&& s.sides >= 1
    &&& s.mult == product(terms[s.term_idx as int].mods)
    &&& explodes_on(terms[s.term_idx as int].mods, s.sides) == Some(s.cond)
}

proof fn lemma_resting_hits_update(dice: Seq<Die>, i: int, d: Die, k: int, cond: Compare)
    requires
        0 <= i < dice.len(),
        !dice[i].settled,
        d.term_idx == dice[i].term_idx,
        d.final_value == dice[i].final_value,
    ensures
        resting_hits(dice.update(i, d), k, cond) == resting_hits(dice, k, cond) + if d.term_idx == k
            && d.settled && cond.met(d.final_value) {
            1nat
        } else {
            0
        },
    decreases dice.len(),
{
    let next = dice.update(i, d);
    if i == dice.len() - 1 {
        assert(next.drop_last() == dice.drop_last());
    } else {
        assert(next.drop_last() == dice.drop_last().update(i, d));
        lemma_resting_hits_update(dice.drop_last(), i, d, k, cond);
    }
}

/// Where a die rests on a face that meets the condition, there is such a face.
pub proof fn lemma_resting_hit_meets(dice: Seq<Die>, terms: Seq<TermView>, k: int, cond: Compare)
    requires
        0 <= k < terms.len(),
        forall|i: int| 0 <= i < dice.len() ==> die_ok(#[trigger] dice[i]),
        forall|i: int| 0 <= i < dice.len() ==> of_roll(#[trigger] dice[i], terms),
    ensures
        resting_hits(dice, k, cond) > 0 ==> can_meet(cond, terms[k].sides),
    decreases dice.len(),
{
    if dice.len() > 0 {
        let rest = dice.drop_last();
        assert forall|i: int| 0 <= i < rest.len() implies die_ok(#[trigger] rest[i]) && of_roll(
            rest[i],
            terms,
        ) by {
            assert(rest[i] == dice[i]);
        }
        lemma_resting_hit_meets(rest, terms, k, cond);
        let d = dice[dice.len() - 1];
        assert(die_ok(d) && of_roll(d, terms));
    }
}

/// A die that is thrown anew does not rest yet.
pub proof fn lemma_resting_hits_push(dice: Seq<Die>, d: Die, k: int, cond: Compare)
    requires
        !d.settled,
    ensures
        resting_hits(dice.push(d), k, cond) == resting_hits(dice, k, cond),
{
    assert(dice.push(d).drop_last() == dice);
}

proof fn lemma_waiting_push(pending: Seq<Spawn>, s: Spawn, k: int)
    ensures
        waiting(pending.push(s), k) == waiting(pending, k) + if s.term_idx == k {
            1nat
        } else {
            0
        },
{
    assert(pending.push(s).drop_last() == pending);
}

/// The first of those that wait leaves, and the others wait on.
pub proof fn lemma_waiting_pop(pending: Seq<Spawn>, k: int)
    requires
        pending.len() > 0,
    ensures
        waiting(pending, k) == waiting(pending.drop_first(), k) + if pending[0].term_idx == k {
            1nat
        } else {
            0
        },
    decreases pending.len(),
{
    if pending.len() == 1 {
        assert(pending.drop_first() == Seq::<Spawn>::empty());
        assert(pending.drop_last() == Seq::<Spawn>::empty());
    } else {
        lemma_waiting_pop(pending.drop_last(), k);
        assert(pending.drop_last().drop_first() == pending.drop_first().drop_last());
    }
}

/// Dice that differ only in what they show and whether they rest are the same dice.
proof fn lemma_same_order(a: Seq<Die>, b: Seq<Die>, terms: Seq<TermView>, n: Seq<int>)
    requires
        in_order(a, terms, n),
        a.len() == b.len(),
        forall|i: int|
            0 <= i < a.len() ==> (#[trigger] a[i]).term_idx == b[i].term_idx && a[i].final_value
                == b[i].final_value && a[i].kept == b[i].kept && a[i].sides == b[i].sides
                && a[i].mult == b[i].mult && a[i].explode == b[i].explode,
    ensures
        in_order(b, terms, n),
{
    assert forall|k: int| 0 <= k < terms.len() implies term_in_order(
        #[trigger] terms[k],
        of_term(b, k),
        n[k],
    ) by {
        lemma_of_term_same(a, b, k);
    }
    assert forall|i: int| 0 <= i < b.len() implies of_roll(#[trigger] b[i], terms) by {
        assert(of_roll(a[i], terms));
    }
}

/// Looking at one die keeps the arena in order.
pub proof fn settling_keeps_order(a: Arena, terms: Seq<TermView>, i: int, p: Pose)
    requires
        arena_ok(a, terms),
        0 <= i < a.dice.len(),
    ensures
        arena_ok(settled_one(a, i, p), terms),
        settled_one(a, i, p).dice.len() == a.dice.len(),
{
    let d = a.dice[i];
    let next = settled_one(a, i, p);
    let t = d.term_idx as int;
    assert(die_ok(d));
    assert(of_roll(d, terms));
    if !d.settled {
        let e = next.dice[i];
        assert(next.dice == a.dice.update(i, e));
        lemma_same_order(a.dice, next.dice, terms, spawned(a.explosions, a.pending));
        let s = Spawn {
            sides: d.sides,
            term_idx: d.term_idx,
            mult: d.mult,
            cond: d.explode->0,
        };
        let burst = p.rests && bursts(d, a.explosions[t]);
        assert forall|k: int| 0 <= k < terms.len() implies explosions_ok(
            #[trigger] terms[k],
            next.explosions[k] as int,
            waiting(next.pending, k),
            next.dice,
            k,
        ) && next.explosions[k] - waiting(next.pending, k) == a.explosions[k] - waiting(
            a.pending,
            k,
        ) by {
            assert(explosions_ok(
                terms[k],
                a.explosions[k] as int,
                waiting(a.pending, k),
                a.dice,
                k,
            ));
            lemma_waiting_push(a.pending, s, k);
            if let Some(cond) = explodes_on(terms[k].mods, terms[k].sides) {
                lemma_resting_hits_update(a.dice, i, e, k, cond);
            }
        }
        let after = spawned(next.explosions, next.pending);
        let before = spawned(a.explosions, a.pending);
        assert forall|k: int| 0 <= k < after.len() implies after[k] == before[k] by {
            assert(explosions_ok(
                terms[k],
                next.explosions[k] as int,
                waiting(next.pending, k),
                next.dice,
                k,
            ));
        }
        assert(after =~= before);
        assert forall|j: int| 0 <= j < next.dice.len() implies die_ok(#[trigger] next.dice[j]) by {
            if j != i {
                assert(next.dice[j] == a.dice[j]);
            }
        }
        assert forall|j: int| 0 <= j < next.pending.len() implies spawn_ok(
            #[trigger] next.pending[j],
            terms,
        ) by {
            if j < a.pending.len() {
                assert(next.pending[j] == a.pending[j]);
            }
        }
    }
}

proof fn lemma_all_rest(dice: Seq<Die>, k: int, cond: Compare)
    requires
        forall|i: int| 0 <= i < dice.len() ==> (#[trigger] dice[i]).settled,
    ensures
        resting_hits(dice, k, cond) == hits(
            faces_of(of_term(dice, k)),
            cond,
            of_term(dice, k).len() as int,
        ),
    decreases dice.len(),
{
    if dice.len() > 0 {
        let before = dice.drop_last();
        assert forall|i: int| 0 <= i < before.len() implies (#[trigger] before[i]).settled by {
            assert(before[i] == dice[i]);
        }
        lemma_all_rest(before, k, cond);
        assert(dice.last().settled);
        if dice.last().term_idx == k {
            let p = of_term(before, k);
            let q = of_term(dice, k);
            lemma_hits_prefix(faces_of(p), faces_of(q), cond, p.len() as int);
        }
    }
}

proof fn lemma_hits_prefix(a: Seq<u32>, b: Seq<u32>, cond: Compare, m: int)
    requires
        m <= a.len(),
        m <= b.len(),
        forall|k: int| 0 <= k < m ==> a[k] == b[k],
    ensures
        hits(a, cond, m) == hits(b, cond, m),
    decreases m,
{
    if m > 0 {
        lemma_hits_prefix(a, b, cond, m - 1);
    }
}

/// Once every die rests and none waits to be thrown, the dice of each term are a
/// pool just as the evaluator throws it: every matching die has added exactly one
/// more, until the cap.
pub proof fn settled_pools_are_fair(a: Arena, terms: Seq<TermView>, k: int)
    requires
        arena_ok(a, terms),
        a.pending.len() == 0,
        forall|i: int| 0 <= i < a.dice.len() ==> (#[trigger] a.dice[i]).settled,
        0 <= k < terms.len(),
    ensures
        fair_pool(terms[k], faces_of(of_term(a.dice, k))),
{
    let t = terms[k];
    let p = of_term(a.dice, k);
    assert(term_in_order(t, p, spawned(a.explosions, a.pending)[k]));
    assert(explosions_ok(t, a.explosions[k] as int, waiting(a.pending, k), a.dice, k));
    assert(waiting(a.pending, k) == 0);
    if let Some(cond) = explodes_on(t.mods, t.sides) {
        lemma_all_rest(a.dice, k, cond);
    }
}

proof fn lemma_worths_same(a: Seq<Die>, b: Seq<Die>)
    requires
        a.len() == b.len(),
        forall|i: int| 0 <= i < a.len() ==> worth(#[trigger] a[i]) == worth(b[i]),
    ensures
        worths(a) == worths(b),
    decreases a.len(),
{
    if a.len() > 0 {
        assert(worth(a[a.len() - 1]) == worth(b[a.len() - 1]));
        assert forall|i: int| 0 <= i < a.drop_last().len() implies worth(
            #[trigger] a.drop_last()[i],
        ) == worth(b.drop_last()[i]) by {
            assert(worth(a[i]) == worth(b[i]));
        }
        lemma_worths_same(a.drop_last(), b.drop_last());
    }
}

/// Nothing that happens to a die on its way to rest changes what the dice come to: the
/// total was decided when they were thrown.
pub proof fn settling_keeps_the_total(a: Arena, i: int, p: Pose)
    requires
        0 <= i < a.dice.len(),
    ensures
        worths(settled_one(a, i, p).dice) == worths(a.dice),
{
    lemma_worths_same(settled_one(a, i, p).dice, a.dice);
}

/// A term never holds more dice than its own and those that the cap allows, however
/// often it explodes.
pub proof fn pools_stay_within_the_cap(a: Arena, terms: Seq<TermView>, k: int)
    requires
        arena_ok(a, terms),
        0 <= k < terms.len(),
    ensures
        terms[k].count <= of_term(a.dice, k).len() <= terms[k].count + MAX_EXPLOSIONS,
{
    assert(term_in_order(terms[k], of_term(a.dice, k), spawned(a.explosions, a.pending)[k]));
    assert(explosions_ok(
        terms[k],
        a.explosions[k] as int,
        waiting(a.pending, k),
        a.dice,
        k,
    ));
}

/// A sound is queued behind the others while fewer than sixty-four wait. After that one
/// that is merely queued is lost, and one that is forced takes the place of the oldest.
pub proof fn full_queues_lose_a_sound(sounds: Seq<SoundEvent>, ev: SoundEvent)
    ensures
        sounds.len() < 64 ==> emitted(sounds, ev) == sounds.push(ev),
        sounds.len() < 64 ==> forced(sounds, ev) == sounds.push(ev),
        sounds.len() >= 64 ==> emitted(sounds, ev) == sounds,
        sounds.len() >= 64 ==> forced(sounds, ev) == sounds.drop_first().push(ev),
{
}

/// A tumbling die shows one of its faces; a change of orientation by a whole number of
/// sides shows the same one.
pub proof fn tumbling_dice_show_a_face(x: u32, sides: u32)
    ensures
        sides >= 1 ==> 1 <= tumbled(x, 0, 0, sides) <= sides,
        sides >= 2 ==> tumbled(x, 0, 0, sides) == 1 + x % sides,
        sides <= 1 ==> tumbled(x, 0, 0, sides) == 1,
{
    assert(x ^ ((0u32 << 11u32) | (0u32 >> 21u32)) ^ ((0u32 << 22u32) | (0u32 >> 10u32)) == x)
        by (bit_vector);
}

/// The three words of an orientation have a part in the face each by itself: one of them
/// counts as it stands, the next turned by eleven bits, the last turned by twenty-two.
pub proof fn each_word_turns_the_face(x: u32, y: u32, z: u32, sides: u32)
    requires
        sides >= 2,
    ensures
        tumbled(x, y, z, sides) == tumbled(
            x ^ ((y << 11u32) | (y >> 21u32)) ^ ((z << 22u32) | (z >> 10u32)),
            0,
            0,
            sides,
        ),
{
    let w = x ^ ((y << 11u32) | (y >> 21u32)) ^ ((z << 22u32) | (z >> 10u32));
    assert(w ^ ((0u32 << 11u32) | (0u32 >> 21u32)) ^ ((0u32 << 22u32) | (0u32 >> 10u32)) == w)
        by (bit_vector);
}

/// A die bursts where it has not been asked yet, its term explodes, its face meets the
/// condition, and fewer than forty have been called for.
pub proof fn dice_burst_once(d: Die, called: usize)
    ensures
        bursts(d, called) <==> !d.exploded && called < 40 && (d.explode matches Some(cond)
            && cond.met(d.final_value)),
{
}

/// A die that is looked at changes alone. One that rests already stays as it is, one that
/// tumbles shows a face, and one that comes to rest shows what it rolled, is heard, and
/// calls for one more where it bursts.
pub proof fn dice_come_to_rest_one_by_one(a: Arena, i: int, j: int, p: Pose)
    requires
        0 <= i < a.dice.len(),
        0 <= j < a.dice.len(),
    ensures
        ({
            let d = a.dice[i];
            let t = d.term_idx as int;
            let b = settled_one(a, i, p);
            &&& b.dice.len() == a.dice.len()
            &&& i != j ==> b.dice[j] == a.dice[j]
            &&& d.settled ==> b == a
            &&& !d.settled && !p.rests ==> {
                &&& b.dice[i] == (Die { shown: tumbled(p.x, p.y, p.z, d.sides), ..d })
                &&& b.sounds == a.sounds && b.pending == a.pending && b.explosions == a.explosions
            }
            &&& !d.settled && p.rests ==> {
                &&& b.dice[i] == (Die { shown: d.final_value, settled: true, exploded: true, ..d })
                &&& a.sounds.len() < 64 ==> b.sounds == a.sounds.push(
                    SoundEvent::Settle { sides: d.sides },
                )
                &&& a.sounds.len() >= 64 ==> b.sounds == a.sounds
                &&& !bursts(d, a.explosions[t]) ==> b.pending == a.pending && b.explosions
                    == a.explosions
                &&& bursts(d, a.explosions[t]) ==> {
                    &&& b.pending.len() == a.pending.len() + 1
                    &&& b.pending.drop_last() == a.pending
                    &&& b.pending.last().sides == d.sides
                    &&& b.pending.last().term_idx == d.term_idx
                    &&& b.pending.last().mult == d.mult
                    &&& d.explode == Some(b.pending.last().cond)
                    &&& t < a.explosions.len() ==> {
                        &&& b.explosions.len() == a.explosions.len()
                        &&& b.explosions[t] == a.explosions[t] + 1
                        &&& forall|k: int|
                            0 <= k < a.explosions.len() && k != t ==> #[trigger] b.explosions[k]
                                == a.explosions[k]
                    }
                }
            }
        }),
{
    let d = a.dice[i];
    let b = settled_one(a, i, p);
    if !d.settled && p.rests && bursts(d, a.explosions[d.term_idx as int]) {
        assert(b.pending.drop_last() =~= a.pending);
    }
}

proof fn lemma_settled_len(a: Arena, poses: Seq<Pose>, n: int)
    requires
        n <= a.dice.len(),
    ensures
        settled_upto(a, poses, n).dice.len() == a.dice.len(),
    decreases n,
{
    if n > 0 {
        lemma_settled_len(a, poses, n - 1);
    }
}

/// Of all dice that are looked at in turn, each ends as its own pose says.
pub proof fn each_die_follows_its_pose(a: Arena, poses: Seq<Pose>, n: int, i: int)
    requires
        0 <= n <= a.dice.len(),
        0 <= i < a.dice.len(),
    ensures
        ({
            let d = a.dice[i];
            let b = settled_upto(a, poses, n);
            let p = poses[i];
            &&& b.dice.len() == a.dice.len()
            &&& settled_upto(a, poses, 0) == a
            &&& n > 0 ==> b == settled_one(settled_upto(a, poses, n - 1), n - 1, poses[n - 1])
            &&& i >= n || d.settled ==> b.dice[i] == d
            &&& i < n && !d.settled && !p.rests ==> b.dice[i] == (Die {
                shown: tumbled(p.x, p.y, p.z, d.sides),
                ..d
            })
            &&& i < n && !d.settled && p.rests ==> b.dice[i] == (Die {
                shown: d.final_value,
                settled: true,
                exploded: true,
                ..d
            })
        }),
    decreases n,
{
    lemma_settled_len(a, poses, n);
    if n > 0 {
        lemma_settled_len(a, poses, n - 1);
        each_die_follows_its_pose(a, poses, n - 1, i);
        dice_come_to_rest_one_by_one(settled_upto(a, poses, n - 1), n - 1, i, poses[n - 1]);
    }
}

/// The dice that wait for a term, and those of it that rest on a face that meets the
/// condition, are counted one by one.
pub proof fn waiting_and_resting_dice_are_counted(
    pending: Seq<Spawn>,
    s: Spawn,
    dice: Seq<Die>,
    d: Die,
    k: int,
    cond: Compare,
)
    ensures
        waiting(Seq::empty(), k) == 0,
        waiting(pending.push(s), k) == waiting(pending, k) + if s.term_idx == k {
            1nat
        } else {
            0
        },
        resting_hits(Seq::empty(), k, cond) == 0,
        resting_hits(dice.push(d), k, cond) == resting_hits(dice, k, cond) + if d.term_idx == k
            && d.settled && cond.met(d.final_value) {
            1nat
        } else {
            0
        },
{
    assert(pending.push(s).drop_last() =~= pending);
    assert(dice.push(d).drop_last() =~= dice);
}

/// In an arena that is in order each die belongs to a term and shows one of its faces, a
/// die at rest shows what it rolled, and each die at rest on a face that its term explodes
/// on has called for one more, up to forty; no term without explosions has called for any.
pub proof fn arenas_in_order_have_called_for_their_dice(
    a: Arena,
    terms: Seq<TermView>,
    i: int,
    k: int,
)
    requires
        arena_ok(a, terms),
        0 <= i < a.dice.len(),
        0 <= k < terms.len(),
    ensures
        a.dice[i].term_idx < terms.len(),
        a.dice[i].sides == terms[a.dice[i].term_idx as int].sides,
        1 <= a.dice[i].final_value <= a.dice[i].sides,
        a.dice[i].settled ==> a.dice[i].shown == a.dice[i].final_value,
        a.explosions.len() == terms.len(),
        waiting(a.pending, k) <= a.explosions[k],
        explodes_on(terms[k].mods, terms[k].sides) is None ==> a.explosions[k] == 0,
        explodes_on(terms[k].mods, terms[k].sides) matches Some(cond) ==> {
            let n = resting_hits(a.dice, k, cond);
            &&& n <= 40 ==> a.explosions[k] == n
            &&& n >= 40 ==> a.explosions[k] == 40
        },
        of_term(a.dice, k).len() == terms[k].count + a.explosions[k] - waiting(a.pending, k),
{
    assert(of_roll(a.dice[i], terms));
    assert(die_ok(a.dice[i]));
    assert(explosions_ok(
        terms[k],
        a.explosions[k] as int,
        waiting(a.pending, k),
        a.dice,
        k,
    ));
    assert(term_in_order(terms[k], of_term(a.dice, k), spawned(a.explosions, a.pending)[k]));
}

} // verus!
