//! The dice in the arena.

use crate::parse::{term_views, Compare, DiceTerm, RollView, TermView};
use crate::rng::{continues, lemma_nothing_drawn, upcoming};
use crate::roll::{
    can_meet, explode_condition, explodes_on, faces_after, in_i32, judged, keep_flags, keeps,
    keeps_exactly, kept_sum, lemma_draws_on, lemma_faces_shift, like, playable, pool, possible_pool,
    product, resolved, roll_faces, scored, scores_in_range, subtotals, sum_least, sum_most,
    term_casts, term_multiplier, term_plays, MAX_EXPLOSIONS, OutcomeTermView,
};
use rand::rngs::StdRng;
use vstd::prelude::*;

verus! {

/// One die in the arena. Its value is decided when it is thrown; where it lands and
/// what it shows on the way there is for the eye alone.
#[derive(Debug, Clone, Copy, PartialEq, Eq, Structural)]
pub struct Die {
    pub sides: u32,
    pub final_value: u32,
    /// The face on show: a decoy until the die comes to rest.
    pub shown: u32,
    pub settled: bool,
    pub color_idx: usize,
    /// The term that the die belongs to.
    pub term_idx: usize,
    /// The multiplier of the die's term.
    pub mult: i32,
    /// Whether the die counts toward the total.
    pub kept: bool,
    /// The face on which the die explodes, if it does.
    pub explode: Option<Compare>,
    /// Whether the die has had its chance to explode.
    pub exploded: bool,
}

/// The face that a die shows before its first tumble.
pub open spec fn decoy(color: nat, sides: u32) -> u32 {
    (1 + (color * 7 + 2) % (sides as nat)) as u32
}

/// A die as it leaves the hand.
pub open spec fn fresh_die(
    sides: u32,
    value: u32,
    color: nat,
    term: nat,
    mult: int,
    kept: bool,
    explode: Option<Compare>,
) -> Die {
    Die {
        sides,
        final_value: value,
        shown: decoy(color, sides),
        settled: false,
        color_idx: color as usize,
        term_idx: term as usize,
        mult: mult as i32,
        kept,
        explode,
        exploded: false,
    }
}

/// A die as it leaves the hand.
pub fn new_die(
    sides: u32,
    value: u32,
    color_idx: usize,
    term_idx: usize,
    mult: i32,
    kept: bool,
    explode: Option<Compare>,
) -> (d: Die)
    requires
        sides >= 1,
    ensures
        d == fresh_die(
            sides,
            value,
            color_idx as nat,
            term_idx as nat,
            mult as int,
            kept,
            explode,
        ),
{
    let rest: u64 = color_idx as u64 % sides as u64;
    proof {
        let q = color_idx as int / sides as int;
        vstd::arithmetic::div_mod::lemma_fundamental_div_mod(color_idx as int, sides as int);
        assert((q * 7) * sides + (rest * 7 + 2) == color_idx * 7 + 2) by (nonlinear_arith)
            requires
                color_idx == sides * q + rest,
        ;
        vstd::arithmetic::div_mod::lemma_mod_multiples_vanish(
            q * 7,
            rest * 7 + 2,
            sides as int,
        );
        assert((sides as int) * (q * 7) == (q * 7) * sides) by (nonlinear_arith);
    }
    let shown: u32 = 1 + ((rest * 7 + 2) % sides as u64) as u32;
    Die {
        sides,
        final_value: value,
        shown,
        settled: false,
        color_idx,
        term_idx,
        mult,
        kept,
        explode,
        exploded: false,
    }
}

/// The dice of the term number `ti` that show `faces`, thrown after `start` others.
pub open spec fn base_dice(t: TermView, ti: nat, start: nat, faces: Seq<u32>) -> Seq<Die> {
    Seq::new(
        faces.len(),
        |k: int|
            fresh_die(
                t.sides,
                faces[k],
                (start + k) as nat,
                ti,
                product(t.mods),
                keeps(faces, t.mods)[k],
                explodes_on(t.mods, t.sides),
            ),
    )
}

/// The dice that a roll throws to begin with, drawn from `faces`, and what is drawn
/// for them.
pub open spec fn thrown(terms: Seq<TermView>, faces: Map<Seq<u32>, u32>) -> (Seq<Die>, Seq<u32>)
    decreases terms.len(),
{
    if terms.len() == 0 {
        (Seq::empty(), Seq::empty())
    } else {
        let (before, drawn) = thrown(terms.drop_last(), faces);
        let t = terms.last();
        let shown = faces_after(faces, drawn, t.sides, t.count as nat);
        (
            before + base_dice(t, (terms.len() - 1) as nat, before.len(), shown),
            drawn + like(t.sides, t.count as nat),
        )
    }
}

/// The faces of the dice of one term, in the order in which they were thrown, each
/// with whether it is kept.
pub open spec fn of_term(dice: Seq<Die>, ti: int) -> Seq<(u32, bool)>
    decreases dice.len(),
{
    if dice.len() == 0 {
        Seq::empty()
    } else if dice.last().term_idx == ti {
        of_term(dice.drop_last(), ti).push((dice.last().final_value, dice.last().kept))
    } else {
        of_term(dice.drop_last(), ti)
    }
}

pub open spec fn faces_of(p: Seq<(u32, bool)>) -> Seq<u32> {
    Seq::new(p.len(), |k: int| p[k].0)
}

/// Whether the dice `p` of the term `t` are kept as its modifiers say, and are as
/// many as its own and `spawned` more.
pub open spec fn term_in_order(t: TermView, p: Seq<(u32, bool)>, spawned: int) -> bool {
    &&& p.len() == t.count + spawned
    &&& possible_pool(t, faces_of(p))
    &&& forall|k: int| 0 <= k < p.len() ==> (#[trigger] p[k]).1 == judged(t, faces_of(p))[k].kept
}

/// Whether the dice are those of the roll `terms`, `spawned[k]` of them from
/// explosions of the term number `k`.
pub open spec fn in_order(dice: Seq<Die>, terms: Seq<TermView>, spawned: Seq<int>) -> bool {
    &&& spawned.len() == terms.len()
    &&& forall|k: int|
        0 <= k < terms.len() ==> term_in_order(#[trigger] terms[k], of_term(dice, k), spawned[k])
    &&& forall|i: int| 0 <= i < dice.len() ==> of_roll(#[trigger] dice[i], terms)
}

/// Whether the die is one of the roll `terms`.
pub open spec fn of_roll(d: Die, terms: Seq<TermView>) -> bool {
    &&& d.term_idx < terms.len()
    &&& d.sides == terms[d.term_idx as int].sides
    &&& d.sides >= 1
    &&& d.mult == product(terms[d.term_idx as int].mods)
    &&& d.explode == explodes_on(terms[d.term_idx as int].mods, d.sides)
}

/// What the die adds to the total.
pub open spec fn worth(d: Die) -> int {
    if d.kept {
        d.final_value * d.mult
    } else {
        0
    }
}

/// What the dice add to the total.
pub open spec fn worths(dice: Seq<Die>) -> int
    decreases dice.len(),
{
    if dice.len() == 0 {
        0
    } else {
        worths(dice.drop_last()) + worth(dice.last())
    }
}

spec fn kept_in(p: Seq<(u32, bool)>) -> int
    decreases p.len(),
{
    if p.len() == 0 {
        0
    } else {
        kept_in(p.drop_last()) + if p.last().1 {
            p.last().0 as int
        } else {
            0
        }
    }
}

spec fn by_term(dice: Seq<Die>, terms: Seq<TermView>, n: int) -> int
    decreases n,
{
    if n <= 0 {
        0
    } else {
        by_term(dice, terms, n - 1) + kept_in(of_term(dice, n - 1)) * product(terms[n - 1].mods)
    }
}

proof fn lemma_by_term_step(dice: Seq<Die>, terms: Seq<TermView>, n: int)
    requires
        dice.len() > 0,
        of_roll(dice.last(), terms),
        0 <= n <= terms.len(),
    ensures
        by_term(dice, terms, n) == by_term(dice.drop_last(), terms, n) + if dice.last().term_idx
            < n {
            worth(dice.last())
        } else {
            0
        },
    decreases n,
{
    if n > 0 {
        lemma_by_term_step(dice, terms, n - 1);
        let d = dice.last();
        if d.term_idx == n - 1 {
            let before = of_term(dice.drop_last(), n - 1);
            assert(of_term(dice, n - 1).drop_last() == before);
            let m = product(terms[n - 1].mods);
            let v = if d.kept {
                d.final_value as int
            } else {
                0
            };
            assert((kept_in(before) + v) * m == kept_in(before) * m + v * m) by (nonlinear_arith);
        }
    }
}

proof fn lemma_by_term(dice: Seq<Die>, terms: Seq<TermView>)
    requires
        forall|i: int| 0 <= i < dice.len() ==> of_roll(#[trigger] dice[i], terms),
    ensures
        worths(dice) == by_term(dice, terms, terms.len() as int),
    decreases dice.len(),
{
    if dice.len() == 0 {
        assert(dice == Seq::<Die>::empty());
        lemma_by_term_empty(terms, terms.len() as int);
    } else {
        assert forall|i: int| 0 <= i < dice.drop_last().len() implies of_roll(
            #[trigger] dice.drop_last()[i],
            terms,
        ) by {
            assert(dice.drop_last()[i] == dice[i]);
        }
        lemma_by_term(dice.drop_last(), terms);
        lemma_by_term_step(dice, terms, terms.len() as int);
    }
}

proof fn lemma_by_term_empty(terms: Seq<TermView>, n: int)
    requires
        0 <= n <= terms.len(),
    ensures
        by_term(Seq::empty(), terms, n) == 0,
    decreases n,
{
    if n > 0 {
        lemma_by_term_empty(terms, n - 1);
        assert(of_term(Seq::<Die>::empty(), n - 1) == Seq::<(u32, bool)>::empty());
        assert(kept_in(Seq::empty()) == 0);
        assert(0 * product(terms[n - 1].mods) == 0);
    }
}

proof fn lemma_kept_in(t: TermView, p: Seq<(u32, bool)>, m: int)
    requires
        0 <= m <= p.len(),
        forall|k: int| 0 <= k < p.len() ==> (#[trigger] p[k]).1 == judged(t, faces_of(p))[k].kept,
    ensures
        kept_in(p.take(m)) == kept_sum(judged(t, faces_of(p)).take(m)),
    decreases m,
{
    if m > 0 {
        lemma_kept_in(t, p, m - 1);
        assert(p.take(m).drop_last() == p.take(m - 1));
        assert(judged(t, faces_of(p)).take(m).drop_last() == judged(t, faces_of(p)).take(m - 1));
        assert(p[m - 1].1 == judged(t, faces_of(p))[m - 1].kept);
    }
}

/// What the first `n` terms come to where each is scored on the faces that its dice
/// show.
pub open spec fn scored_upto(dice: Seq<Die>, terms: Seq<TermView>, n: int) -> int
    decreases n,
{
    if n <= 0 {
        0
    } else {
        scored_upto(dice, terms, n - 1) + scored(
            terms[n - 1],
            faces_of(of_term(dice, n - 1)),
        ).subtotal
    }
}

proof fn lemma_scored_upto(dice: Seq<Die>, terms: Seq<TermView>, spawned: Seq<int>, n: int)
    requires
        in_order(dice, terms, spawned),
        0 <= n <= terms.len(),
    ensures
        by_term(dice, terms, n) == scored_upto(dice, terms, n),
    decreases n,
{
    if n > 0 {
        lemma_scored_upto(dice, terms, spawned, n - 1);
        let t = terms[n - 1];
        let p = of_term(dice, n - 1);
        assert(term_in_order(t, p, spawned[n - 1]));
        lemma_kept_in(t, p, p.len() as int);
        assert(p.take(p.len() as int) == p);
        let dice = judged(t, faces_of(p));
        assert(dice.take(p.len() as int) == dice);
    }
}

/// The dice in the arena come to what their terms come to, each resolved on the
/// faces that its dice show: the animated roll and the instant one agree.
pub proof fn arena_agrees_with_terms(dice: Seq<Die>, terms: Seq<TermView>, spawned: Seq<int>)
    requires
        in_order(dice, terms, spawned),
    ensures
        worths(dice) == scored_upto(dice, terms, terms.len() as int),
{
    lemma_by_term(dice, terms);
    lemma_scored_upto(dice, terms, spawned, terms.len() as int);
}

proof fn lemma_scored_bounds(dice: Seq<Die>, terms: Seq<TermView>, spawned: Seq<int>, n: int)
    requires
        in_order(dice, terms, spawned),
        forall|k: int| 0 <= k < terms.len() ==> term_plays(#[trigger] terms[k]),
        0 <= n <= terms.len(),
    ensures
        sum_least(terms.take(n)) <= scored_upto(dice, terms, n) <= sum_most(terms.take(n)),
    decreases n,
{
    if n > 0 {
        lemma_scored_bounds(dice, terms, spawned, n - 1);
        assert(terms.take(n).drop_last() == terms.take(n - 1));
        let t = terms[n - 1];
        assert(term_in_order(t, of_term(dice, n - 1), spawned[n - 1]));
        scores_in_range(t, faces_of(of_term(dice, n - 1)));
    }
}

/// An `i32` holds what the dice of a roll that can be thrown come to.
pub proof fn lemma_worths_fit(dice: Seq<Die>, r: RollView, spawned: Seq<int>)
    requires
        playable(r),
        in_order(dice, r.terms, spawned),
    ensures
        in_i32(r.modifier + worths(dice)),
{
    arena_agrees_with_terms(dice, r.terms, spawned);
    lemma_scored_bounds(dice, r.terms, spawned, r.terms.len() as int);
    assert(r.terms.take(r.terms.len() as int) == r.terms);
}

/// A die that is added to one term leaves the others as they were.
pub proof fn lemma_of_term_push(dice: Seq<Die>, d: Die, ti: int)
    ensures
        of_term(dice.push(d), ti) == if d.term_idx == ti {
            of_term(dice, ti).push((d.final_value, d.kept))
        } else {
            of_term(dice, ti)
        },
{
    assert(dice.push(d).drop_last() == dice);
}

/// Dice that differ only in what they show are kept alike.
pub proof fn lemma_of_term_same(a: Seq<Die>, b: Seq<Die>, ti: int)
    requires
        a.len() == b.len(),
        forall|i: int|
            0 <= i < a.len() ==> (#[trigger] a[i]).term_idx == b[i].term_idx && a[i].final_value
                == b[i].final_value && a[i].kept == b[i].kept,
    ensures
        of_term(a, ti) == of_term(b, ti),
    decreases a.len(),
{
    if a.len() > 0 {
        assert(a.last().term_idx == b.last().term_idx);
        lemma_of_term_same(a.drop_last(), b.drop_last(), ti);
    }
}

/// One more die of the term number `ti` from an explosion keeps the dice in order.
pub proof fn lemma_spawn_in_order(
    dice: Seq<Die>,
    d: Die,
    terms: Seq<TermView>,
    spawned: Seq<int>,
    ti: int,
)
    requires
        in_order(dice, terms, spawned),
        0 <= ti < terms.len(),
        d.term_idx == ti,
        of_roll(d, terms),
        d.kept,
        1 <= d.final_value <= d.sides,
        d.explode matches Some(cond) && can_meet(cond, d.sides),
        0 <= spawned[ti] < MAX_EXPLOSIONS,
    ensures
        in_order(dice.push(d), terms, spawned.update(ti, spawned[ti] + 1)),
{
    let next = dice.push(d);
    let after = spawned.update(ti, spawned[ti] + 1);
    assert forall|k: int| 0 <= k < terms.len() implies term_in_order(
        #[trigger] terms[k],
        of_term(next, k),
        after[k],
    ) by {
        lemma_of_term_push(dice, d, k);
        let p = of_term(dice, k);
        assert(term_in_order(terms[k], p, spawned[k]));
        if k == ti {
            let q = of_term(next, k);
            let t = terms[k];
            assert(faces_of(q).take(t.count as int) == faces_of(p).take(t.count as int));
            assert forall|j: int| 0 <= j < q.len() implies (#[trigger] q[j]).1 == judged(
                t,
                faces_of(q),
            )[j].kept by {
                if j < p.len() {
                    assert(q[j] == p[j]);
                    assert(p[j].1 == judged(t, faces_of(p))[j].kept);
                }
            }
            assert forall|j: int| 0 <= j < faces_of(q).len() implies 1 <= #[trigger] faces_of(
                q,
            )[j] <= t.sides by {
                if j < p.len() {
                    assert(faces_of(p)[j] == faces_of(q)[j]);
                }
            }
        }
    }
    assert forall|i: int| 0 <= i < next.len() implies of_roll(#[trigger] next[i], terms) by {
        if i < dice.len() {
            assert(next[i] == dice[i]);
        }
    }
}

proof fn lemma_of_term_base(
    before: Seq<Die>,
    t: TermView,
    ti: nat,
    faces: Seq<u32>,
    n: int,
    k: int,
)
    requires
        0 <= n <= faces.len(),
        ti <= usize::MAX,
    ensures
        ({
            let more = base_dice(t, ti, before.len(), faces).take(n);
            of_term(before + more, k) == if k == ti {
                of_term(before, k) + Seq::new(
                    n as nat,
                    |j: int| (faces[j], keeps(faces, t.mods)[j]),
                )
            } else {
                of_term(before, k)
            }
        }),
    decreases n,
{
    let all = base_dice(t, ti, before.len(), faces);
    if n == 0 {
        assert(before + all.take(0) == before);
    } else {
        lemma_of_term_base(before, t, ti, faces, n - 1, k);
        assert(before + all.take(n) == (before + all.take(n - 1)).push(all[n - 1]));
        lemma_of_term_push(before + all.take(n - 1), all[n - 1], k);
    }
}

/// Whether the dice of all terms before `n` have been thrown, and no others.
spec fn thrown_upto(dice: Seq<Die>, terms: Seq<TermView>, n: int) -> bool {
    &&& forall|k: int|
        0 <= k < n ==> term_in_order(#[trigger] terms[k], of_term(dice, k), 0)
    &&& forall|k: int| n <= k < terms.len() ==> (#[trigger] of_term(dice, k)).len() == 0
    &&& forall|i: int| 0 <= i < dice.len() ==> of_roll(#[trigger] dice[i], terms)
}

proof fn lemma_thrown_upto(
    dice: Seq<Die>,
    terms: Seq<TermView>,
    n: int,
    faces: Seq<u32>,
)
    requires
        0 <= n < terms.len() <= usize::MAX,
        thrown_upto(dice, terms, n),
        term_casts(terms[n]),
        faces.len() == terms[n].count,
        forall|k: int| 0 <= k < faces.len() ==> 1 <= #[trigger] faces[k] <= terms[n].sides,
    ensures
        thrown_upto(dice + base_dice(terms[n], n as nat, dice.len(), faces), terms, n + 1),
{
    let t = terms[n];
    let more = base_dice(t, n as nat, dice.len(), faces);
    let next = dice + more;
    assert(more.take(faces.len() as int) == more);
    keeps_exactly(faces, t.mods);
    assert forall|k: int| 0 <= k < n + 1 implies term_in_order(
        #[trigger] terms[k],
        of_term(next, k),
        0,
    ) by {
        lemma_of_term_base(dice, t, n as nat, faces, faces.len() as int, k);
        if k == n {
            let p = of_term(next, k);
            assert(faces_of(p) == faces);
            assert(faces.take(t.count as int) == faces);
        } else {
            assert(term_in_order(terms[k], of_term(dice, k), 0));
        }
    }
    assert forall|k: int| n + 1 <= k < terms.len() implies (#[trigger] of_term(next, k)).len()
        == 0 by {
        lemma_of_term_base(dice, t, n as nat, faces, faces.len() as int, k);
        assert(of_term(dice, k).len() == 0);
    }
    assert(in_i32(product(t.mods))) by {
        assert(t.mods.take(t.mods.len() as int) == t.mods);
    }
    assert forall|i: int| 0 <= i < next.len() implies of_roll(#[trigger] next[i], terms) by {
        if i < dice.len() {
            assert(next[i] == dice[i]);
        }
    }
}

/// Throws the dice of a roll to begin with: every term's own, none from explosions.
pub fn throw_pool(terms: &Vec<DiceTerm>, rng: &mut StdRng) -> (dice: Vec<Die>)
    requires
        forall|k: int| 0 <= k < terms@.len() ==> term_casts(#[trigger] term_views(terms@)[k]),
    ensures
        dice@ == thrown(term_views(terms@), upcoming(*old(rng))).0,
        continues(
            upcoming(*final(rng)),
            upcoming(*old(rng)),
            thrown(term_views(terms@), upcoming(*old(rng))).1,
        ),
        in_order(dice@, term_views(terms@), Seq::new(terms@.len(), |k: int| 0)),
        forall|i: int|
            0 <= i < dice@.len() ==> !(#[trigger] dice@[i]).settled && !dice@[i].exploded,
        forall|i: int|
            0 <= i < dice@.len() ==> 1 <= (#[trigger] dice@[i]).final_value <= dice@[i].sides,
{
    let ghost views = term_views(terms@);
    let ghost store = upcoming(*rng);
    let mut dice: Vec<Die> = Vec::new();
    let mut k: usize = 0;
    proof {
        lemma_nothing_drawn(store);
        assert(views.take(0) == Seq::<TermView>::empty());
    }
    while k < terms.len()
        invariant
            k <= terms@.len(),
            views == term_views(terms@),
            forall|j: int| 0 <= j < terms@.len() ==> term_casts(#[trigger] views[j]),
            dice@ == thrown(views.take(k as int), store).0,
            continues(upcoming(*rng), store, thrown(views.take(k as int), store).1),
            thrown_upto(dice@, views, k as int),
            forall|i: int|
                0 <= i < dice@.len() ==> !(#[trigger] dice@[i]).settled && !dice@[i].exploded,
            forall|i: int|
                0 <= i < dice@.len() ==> 1 <= (#[trigger] dice@[i]).final_value <= dice@[i].sides,
        decreases terms@.len() - k,
    {
        let term = &terms[k];
        let ghost t = views[k as int];
        let ghost before = dice@;
        let ghost then = upcoming(*rng);
        let ghost drawn = thrown(views.take(k as int), store).1;
        assert(term_casts(t));
        let faces = roll_faces(term.sides, term.count, rng);
        let kept = keep_flags(term, &faces);
        let mult: i32 = term_multiplier(term);
        let explode = explode_condition(term);
        let n: usize = faces.len();
        proof {
            lemma_faces_shift(then, store, drawn, t.sides, t.count as nat);
            lemma_draws_on(upcoming(*rng), then, store, drawn, t.sides, t.count as nat);
            keeps_exactly(faces@, t.mods);
        }
        let start: usize = dice.len();
        let ghost more = base_dice(t, k as nat, start as nat, faces@);
        let mut j: usize = 0;
        while j < n
            invariant
                j <= n,
                n == faces@.len(),
                kept@.len() == n,
                kept@ == keeps(faces@, t.mods),
                t == term@,
                t.sides >= 1,
                mult == product(t.mods),
                explode == explodes_on(t.mods, t.sides),
                start == before.len(),
                more == base_dice(t, k as nat, start as nat, faces@),
                dice@ == before + more.take(j as int),
            decreases n - j,
        {
            let color: usize = dice.len();
            dice.push(new_die(term.sides, faces[j], color, k, mult, kept[j], explode));
            j += 1;
            assert(dice@ == before + more.take(j as int));
        }
        proof {
            assert(more.take(n as int) == more);
            lemma_thrown_upto(before, views, k as int, faces@);
            assert(views.take(k + 1).drop_last() == views.take(k as int));
            assert forall|i: int| 0 <= i < dice@.len() implies !(#[trigger] dice@[i]).settled
                && !dice@[i].exploded && 1 <= dice@[i].final_value <= dice@[i].sides by {
                if i < before.len() {
                    assert(dice@[i] == before[i]);
                }
            }
        }
        k += 1;
    }
    assert(views.take(k as int) == views);
    dice
}

/// What the dice and a flat modifier come to, where an `i32` holds it.
pub fn total_of(dice: &Vec<Die>, modifier: i32) -> (total: Option<i32>)
    ensures
        match total {
            Some(total) => total == modifier + worths(dice@),
            None => !in_i32(modifier + worths(dice@)),
        },
{
    let mut sum: i128 = modifier as i128;
    let mut k: usize = 0;
    assert(dice@.take(0) == Seq::<Die>::empty());
    while k < dice.len()
        invariant
            k <= dice@.len(),
            sum == modifier + worths(dice@.take(k as int)),
            -0x8000_0000_0000_0000 * k - 0x8000_0000 <= sum <= 0x8000_0000_0000_0000 * k
                + 0x8000_0000,
        decreases dice@.len() - k,
    {
        let d = dice[k];
        assert(dice@.take(k + 1).drop_last() == dice@.take(k as int));
        if d.kept {
            assert(-0x8000_0000_0000_0000 <= d.final_value * d.mult <= 0x8000_0000_0000_0000)
                by (nonlinear_arith)
                requires
                    0 <= d.final_value <= 0xffff_ffff,
                    -0x8000_0000 <= d.mult <= 0x7fff_ffff,
            ;
            sum = sum + d.final_value as i128 * d.mult as i128;
        }
        k += 1;
    }
    assert(dice@.take(k as int) == dice@);
    if sum < i32::MIN as i128 || sum > i32::MAX as i128 {
        None
    } else {
        Some(sum as i32)
    }
}

/// The face of each die, and whether it is kept.
pub open spec fn faces_thrown(dice: Seq<Die>) -> Seq<(u32, bool)> {
    Seq::new(dice.len(), |k: int| (dice[k].final_value, dice[k].kept))
}

/// The face of each die of each term, and whether it is kept.
pub open spec fn faces_printed(terms: Seq<OutcomeTermView>) -> Seq<(u32, bool)>
    decreases terms.len(),
{
    if terms.len() == 0 {
        Seq::empty()
    } else {
        let dice = terms.last().dice;
        faces_printed(terms.drop_last()) + Seq::new(
            dice.len(),
            |k: int| (dice[k].value, dice[k].kept),
        )
    }
}

proof fn lemma_worths_add(a: Seq<Die>, b: Seq<Die>)
    ensures
        worths(a + b) == worths(a) + worths(b),
    decreases b.len(),
{
    if b.len() == 0 {
        assert(a + b == a);
    } else {
        lemma_worths_add(a, b.drop_last());
        assert((a + b).drop_last() == a + b.drop_last());
    }
}

proof fn lemma_base_worths(t: TermView, ti: nat, start: nat, faces: Seq<u32>, m: int)
    requires
        faces.len() == t.count,
        in_i32(product(t.mods)),
        0 <= m <= faces.len(),
    ensures
        worths(base_dice(t, ti, start, faces).take(m)) == kept_sum(judged(t, faces).take(m))
            * product(t.mods),
    decreases m,
{
    let dice = base_dice(t, ti, start, faces);
    let seen = judged(t, faces);
    if m <= 0 {
        assert(dice.take(m) == Seq::<Die>::empty());
        assert(seen.take(m).len() == 0);
        assert(0 * product(t.mods) == 0);
    } else {
        lemma_base_worths(t, ti, start, faces, m - 1);
        assert(dice.take(m).drop_last() == dice.take(m - 1));
        assert(seen.take(m).drop_last() == seen.take(m - 1));
        assert(faces.take(t.count as int) == faces);
        let p = product(t.mods);
        let v = if seen[m - 1].kept {
            seen[m - 1].value as int
        } else {
            0
        };
        let before = kept_sum(seen.take(m - 1));
        assert((before + v) * p == before * p + v * p) by (nonlinear_arith);
    }
}

/// From the same store of dice, the arena throws what the evaluator prints: the same
/// faces, of which the same are kept, for the same total. Where a term explodes the
/// two part ways, since the arena throws all other dice before those that are added.
pub proof fn printing_rolls_the_same_dice(terms: Seq<TermView>, faces: Map<Seq<u32>, u32>)
    requires
        forall|k: int| 0 <= k < terms.len() ==> term_casts(#[trigger] terms[k]),
        forall|k: int|
            0 <= k < terms.len() ==> explodes_on((#[trigger] terms[k]).mods, terms[k].sides)
                is None,
    ensures
        faces_thrown(thrown(terms, faces).0) == faces_printed(resolved(terms, faces).0),
        worths(thrown(terms, faces).0) == subtotals(resolved(terms, faces).0),
        thrown(terms, faces).1 == resolved(terms, faces).1,
    decreases terms.len(),
{
    if terms.len() > 0 {
        let rest = terms.drop_last();
        assert forall|k: int| 0 <= k < rest.len() implies term_casts(#[trigger] rest[k])
            && explodes_on(rest[k].mods, rest[k].sides) is None by {
            assert(rest[k] == terms[k]);
        }
        printing_rolls_the_same_dice(rest, faces);
        let t = terms[terms.len() - 1];
        let (before, drawn) = thrown(rest, faces);
        let shown = faces_after(faces, drawn, t.sides, t.count as nat);
        let dice = base_dice(t, (terms.len() - 1) as nat, before.len(), shown);
        assert(pool(faces, drawn, t) == shown);
        assert(shown.take(t.count as int) == shown);
        let all = resolved(terms, faces).0;
        assert(all.drop_last() == resolved(rest, faces).0);
        keeps_exactly(shown, t.mods);
        assert(faces_thrown(before + dice) == faces_thrown(before) + faces_thrown(dice));
        let seen = judged(t, shown);
        assert(faces_thrown(dice) == Seq::new(
            seen.len(),
            |k: int| (seen[k].value, seen[k].kept),
        ));
        lemma_worths_add(before, dice);
        assert(in_i32(product(t.mods.take(t.mods.len() as int))));
        assert(t.mods.take(t.mods.len() as int) == t.mods);
        lemma_base_worths(
            t,
            (terms.len() - 1) as nat,
            before.len(),
            shown,
            shown.len() as int,
        );
        assert(dice.take(shown.len() as int) == dice);
        assert(seen.take(shown.len() as int) == seen);
    }
}

/// A die that an explosion adds always counts: it adds its face, as often as its term
/// counts, so that a total whose terms count forward never falls while dice are added.
pub proof fn explosions_add_to_the_total(
    dice: Seq<Die>,
    sides: u32,
    face: u32,
    term: nat,
    mult: i32,
    cond: Compare,
)
    ensures
        ({
            let d = fresh_die(sides, face, dice.len(), term, mult as int, true, Some(cond));
            &&& worths(dice.push(d)) == worths(dice) + face * mult
            &&& mult >= 0 ==> worths(dice.push(d)) >= worths(dice)
        }),
{
    let d = fresh_die(sides, face, dice.len(), term, mult as int, true, Some(cond));
    assert(dice.push(d).drop_last() == dice);
    assert(mult >= 0 ==> face * mult >= 0) by (nonlinear_arith)
        requires
            face >= 0,
    ;
}

/// A die leaves the hand as it is said to be: with its sides, its face and its term, not at
/// rest yet, and not asked yet whether it explodes.
pub proof fn fresh_dice_are_as_said(
    sides: u32,
    value: u32,
    color: usize,
    term: usize,
    mult: i32,
    kept: bool,
    explode: Option<Compare>,
)
    ensures
        ({
            let d = fresh_die(
                sides,
                value,
                color as nat,
                term as nat,
                mult as int,
                kept,
                explode,
            );
            &&& d.sides == sides
            &&& d.final_value == value
            &&& d.color_idx == color
            &&& d.term_idx == term
            &&& d.mult == mult
            &&& d.kept == kept
            &&& d.explode == explode
            &&& !d.settled
            &&& !d.exploded
            &&& sides >= 1 ==> 1 <= d.shown <= sides
        }),
{
}

/// The decoys of the dice go round their faces in steps of seven, from the third on.
pub proof fn decoys_go_in_steps_of_seven(color: nat, sides: u32)
    requires
        sides >= 1,
    ensures
        1 <= decoy(color, sides) <= sides,
        sides >= 3 ==> decoy(0, sides) == 3,
        decoy(color + 1, sides) == 1 + (decoy(color, sides) - 1 + 7) % (sides as int),
{
    let n = sides as int;
    let before = color * 7 + 2;
    vstd::arithmetic::div_mod::lemma_add_mod_noop(before as int, 7, n);
    let left = before as int % n;
    vstd::arithmetic::div_mod::lemma_add_mod_noop(left, 7, n);
    vstd::arithmetic::div_mod::lemma_mod_twice(before as int, n);
    assert((color + 1) * 7 + 2 == before + 7);
    if sides >= 3 {
        vstd::arithmetic::div_mod::lemma_small_mod(2, sides as nat);
    }
}

/// The dice of a term are those that belong to it, in the order in which they were thrown.
pub proof fn terms_pick_their_dice(a: Seq<Die>, b: Seq<Die>, d: Die, ti: int)
    ensures
        of_term(Seq::empty(), ti) == Seq::<(u32, bool)>::empty(),
        d.term_idx == ti ==> of_term(seq![d], ti) == seq![(d.final_value, d.kept)],
        d.term_idx != ti ==> of_term(seq![d], ti) == Seq::<(u32, bool)>::empty(),
        of_term(a + b, ti) == of_term(a, ti) + of_term(b, ti),
    decreases b.len(),
{
    assert(seq![d].drop_last() =~= Seq::<Die>::empty());
    reveal_with_fuel(of_term, 2);
    assert(d.term_idx == ti ==> of_term(seq![d], ti) =~= seq![(d.final_value, d.kept)]);
    if b.len() == 0 {
        assert(a + b =~= a);
        assert(of_term(a, ti) + of_term(b, ti) =~= of_term(a, ti));
    } else {
        terms_pick_their_dice(a, b.drop_last(), d, ti);
        assert((a + b).drop_last() =~= a + b.drop_last());
        assert(of_term(a + b, ti) =~= of_term(a, ti) + of_term(b, ti));
    }
}

/// A kept die is worth its face times its multiplier, a dropped one nothing, and several
/// what each of them is.
pub proof fn kept_dice_are_worth_their_face(a: Seq<Die>, b: Seq<Die>, d: Die)
    ensures
        worths(Seq::empty()) == 0,
        d.kept ==> worths(seq![d]) == d.final_value * d.mult,
        !d.kept ==> worths(seq![d]) == 0,
        worths(a + b) == worths(a) + worths(b),
{
    assert(seq![d].drop_last() =~= Seq::<Die>::empty());
    reveal_with_fuel(worths, 2);
    lemma_worths_add(a, b);
}

/// One term more leaves the dice before it as they were, and throws its own dice after
/// them, in order: as many as it has, with its sides, its multiplier and its explosions,
/// kept as its modifiers say of the faces that they show.
pub proof fn terms_throw_their_own_dice(
    terms: Seq<TermView>,
    t: TermView,
    faces: Map<Seq<u32>, u32>,
    k: int,
)
    requires
        0 <= k < t.count,
        terms.len() <= usize::MAX,
        thrown(terms, faces).0.len() + t.count <= usize::MAX,
        in_i32(product(t.mods)),
    ensures
        ({
            let (before, drawn) = thrown(terms, faces);
            let (after, all) = thrown(terms.push(t), faces);
            let own = after.skip(before.len() as int);
            let shown = Seq::new(own.len(), |j: int| own[j].final_value);
            &&& after.len() == before.len() + t.count
            &&& before.is_prefix_of(after)
            &&& all.len() == drawn.len() + t.count
            &&& drawn.is_prefix_of(all)
            &&& all[drawn.len() + k] == t.sides
            &&& own[k].final_value == faces[all.take(drawn.len() + k + 1)]
            &&& own[k].sides == t.sides
            &&& own[k].term_idx == terms.len()
            &&& own[k].color_idx == before.len() + k
            &&& own[k].mult == product(t.mods)
            &&& own[k].explode == explodes_on(t.mods, t.sides)
            &&& own[k].kept == keeps(shown, t.mods)[k]
            &&& !own[k].settled && !own[k].exploded
        }),
        thrown(Seq::empty(), faces).0.len() == 0,
        thrown(Seq::empty(), faces).1.len() == 0,
{
    let (before, drawn) = thrown(terms, faces);
    let (after, all) = thrown(terms.push(t), faces);
    assert(terms.push(t).drop_last() =~= terms);
    let first = faces_after(faces, drawn, t.sides, t.count as nat);
    let own = after.skip(before.len() as int);
    assert(own =~= base_dice(t, terms.len(), before.len(), first));
    assert(Seq::new(own.len(), |j: int| own[j].final_value) =~= first);
    assert(all.take(drawn.len() + k + 1) =~= drawn + like(t.sides, (k + 1) as nat));
}

/// What the first terms come to is the sum of what each comes to on the faces that its
/// dice show.
pub proof fn scores_are_summed_by_term(dice: Seq<Die>, terms: Seq<TermView>, n: int)
    requires
        n >= 0,
    ensures
        scored_upto(dice, terms, 0) == 0,
        scored_upto(dice, terms, n + 1) == scored_upto(dice, terms, n) + scored(
            terms[n],
            faces_of(of_term(dice, n)),
        ).subtotal,
{
}

/// Faces go die by die.
pub proof fn faces_go_one_by_one(p: Seq<(u32, bool)>, dice: Seq<Die>, k: int)
    ensures
        faces_of(p).len() == p.len(),
        0 <= k < p.len() ==> faces_of(p)[k] == p[k].0,
        faces_thrown(dice).len() == dice.len(),
        0 <= k < dice.len() ==> faces_thrown(dice)[k] == (dice[k].final_value, dice[k].kept),
{
}

} // verus!
