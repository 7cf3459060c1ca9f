//! The rules of a roll: explode, then keep or drop, then multiply, then add up,
//! and judge the total against the stake.

use crate::keep::{
    in_play, keep_n_values, narrowed, narrowing_breaks_ties, narrowing_keeps_exactly,
    narrowing_keeps_the_best,
};
use crate::parse::{Compare, DiceTerm, Goal, Roll, RollView, Stake, TermMod, TermView};
use crate::rng::{continues, draw, is_run, lemma_draw_on, lemma_nothing_drawn, upcoming};
use crate::text::{dec, dec_int, push_dec, push_int};
use rand::rngs::StdRng;
use vstd::prelude::*;

verus! {

/// The most dice that the explosions of one term may add.
pub const MAX_EXPLOSIONS: usize = 40;

/// The lead of `total` over the stake: how much it is made by, or missed by where
/// it is negative.
pub open spec fn lead(total: int, stake: Stake) -> int {
    match stake.goal {
        Goal::Over => total - stake.target,
        Goal::Under => stake.target - total,
    }
}

/// `n`, or the nearest number to it that an `i32` holds.
pub open spec fn clamped(n: int) -> int {
    if n < i32::MIN {
        i32::MIN as int
    } else if n > i32::MAX {
        i32::MAX as int
    } else {
        n
    }
}

/// Judges `total` against `stake`: whether it is made, and by how much.
pub fn check(total: i32, stake: Stake) -> (r: (bool, i32))
    ensures
        r.0 == (lead(total as int, stake) >= 0),
        r.1 == clamped(lead(total as int, stake)),
        r.0 == (r.1 >= 0),
{
    let raw: i64 = match stake.goal {
        Goal::Over => total as i64 - stake.target as i64,
        Goal::Under => stake.target as i64 - total as i64,
    };
    let margin: i32 = if raw < i32::MIN as i64 {
        i32::MIN
    } else if raw > i32::MAX as i64 {
        i32::MAX
    } else {
        raw as i32
    };
    (margin >= 0, margin)
}

/// The verdict in words.
pub open spec fn verdict_words(success: bool, margin: int) -> Seq<char> {
    if success && margin == 0 {
        "SUCCESS — exactly"@
    } else if success {
        "SUCCESS by "@ + dec_int(margin)
    } else {
        "FAIL by "@ + dec_int(-margin)
    }
}

/// The verdict in words.
pub fn verdict_text(success: bool, margin: i32) -> (s: String)
    ensures
        s@ == verdict_words(success, margin as int),
{
    if success {
        if margin == 0 {
            "SUCCESS — exactly".to_owned()
        } else {
            let mut s = "SUCCESS by ".to_owned();
            push_int(&mut s, margin);
            s
        }
    } else {
        let mut s = "FAIL by ".to_owned();
        if margin <= 0 {
            push_dec(&mut s, (-(margin as i64)) as u64);
        } else {
            push_int(&mut s, -margin);
        }
        s
    }
}

/// Whether `value` is the highest face of a die with two sides or more.
pub open spec fn is_crit(sides: u32, value: u32) -> bool {
    sides >= 2 && value == sides
}

/// Whether `value` is a 1 on a die with two sides or more.
pub open spec fn is_fumble(sides: u32, value: u32) -> bool {
    sides >= 2 && value == 1
}

pub fn crit_face(sides: u32, value: u32) -> (r: bool)
    ensures
        r == is_crit(sides, value),
{
    sides >= 2 && value == sides
}

pub fn fumble_face(sides: u32, value: u32) -> (r: bool)
    ensures
        r == is_fumble(sides, value),
{
    sides >= 2 && value == 1
}

/// The face on which the dice of a term with these modifiers explode: the first
/// explosion among them decides.
pub open spec fn explodes_on(mods: Seq<TermMod>, sides: u32) -> Option<Compare>
    decreases mods.len(),
{
    if mods.len() == 0 {
        None
    } else {
        match mods[0] {
            TermMod::Explode(Some(c)) => Some(c),
            TermMod::Explode(None) => Some(Compare::Eq(sides)),
            _ => explodes_on(mods.drop_first(), sides),
        }
    }
}

/// The explode condition of a term, if it has one.
pub fn explode_condition(term: &DiceTerm) -> (r: Option<Compare>)
    ensures
        r == explodes_on(term@.mods, term.sides),
{
    let mut k: usize = 0;
    assert(term.mods@.skip(0) == term.mods@);
    while k < term.mods.len()
        invariant
            k <= term.mods@.len(),
            explodes_on(term.mods@.skip(k as int), term.sides) == explodes_on(
                term.mods@,
                term.sides,
            ),
        decreases term.mods@.len() - k,
    {
        assert(term.mods@.skip(k as int).drop_first() == term.mods@.skip(k + 1));
        match term.mods[k] {
            TermMod::Explode(Some(c)) => {
                return Some(c);
            },
            TermMod::Explode(None) => {
                return Some(Compare::Eq(term.sides));
            },
            _ => {},
        }
        k += 1;
    }
    None
}

/// The factor that one modifier contributes.
pub open spec fn factor(m: TermMod) -> int {
    match m {
        TermMod::Mul(n) => n as int,
        _ => 1,
    }
}

/// The product of a term's multipliers.
pub open spec fn product(mods: Seq<TermMod>) -> int
    decreases mods.len(),
{
    if mods.len() == 0 {
        1
    } else {
        product(mods.drop_last()) * factor(mods.last())
    }
}

pub open spec fn in_i32(n: int) -> bool {
    i32::MIN <= n <= i32::MAX
}

/// Whether an `i32` holds the product of the multipliers, and all on the way to it.
pub open spec fn product_fits(mods: Seq<TermMod>) -> bool {
    forall|k: int| 0 <= k <= mods.len() ==> in_i32(#[trigger] product(mods.take(k)))
}

/// The product of a term's multipliers, where an `i32` holds it.
fn product_of(mods: &Vec<TermMod>) -> (r: Option<i32>)
    ensures
        match r {
            Some(m) => m == product(mods@) && product_fits(mods@),
            None => !product_fits(mods@),
        },
{
    let mut m: i32 = 1;
    let mut k: usize = 0;
    while k < mods.len()
        invariant
            k <= mods@.len(),
            m == product(mods@.take(k as int)),
            forall|j: int| 0 <= j <= k ==> in_i32(#[trigger] product(mods@.take(j))),
        decreases mods@.len() - k,
    {
        assert(mods@.take(k + 1).drop_last() == mods@.take(k as int));
        match mods[k] {
            TermMod::Mul(n) => {
                assert(-0x4000_0000_0000_0000 <= m * n <= 0x4000_0000_0000_0000) by (nonlinear_arith)
                    requires
                        -0x8000_0000 <= m <= 0x7fff_ffff,
                        -0x8000_0000 <= n <= 0x7fff_ffff,
                ;
                let wide: i64 = m as i64 * n as i64;
                assert(wide == product(mods@.take(k + 1)));
                if wide < i32::MIN as i64 || wide > i32::MAX as i64 {
                    return None;
                }
                m = wide as i32;
            },
            _ => {},
        }
        k += 1;
    }
    assert(mods@.take(k as int) == mods@);
    Some(m)
}

/// The product of a term's multipliers.
pub fn term_multiplier(term: &DiceTerm) -> (m: i32)
    requires
        product_fits(term@.mods),
    ensures
        m == product(term@.mods),
{
    match product_of(&term.mods) {
        Some(m) => m,
        None => 1,
    }
}

/// Whether a modifier keeps high dice or low ones, and how many of the `base` dice
/// that are in play before it.
pub open spec fn keep_rule(m: TermMod, base: nat) -> Option<(bool, nat)> {
    match m {
        TermMod::KeepHigh(n) => Some((true, n as nat)),
        TermMod::DropLow(n) => Some((true, if n < base { (base - n) as nat } else { 0 })),
        TermMod::KeepLow(n) => Some((false, n as nat)),
        TermMod::DropHigh(n) => Some((false, if n < base { (base - n) as nat } else { 0 })),
        _ => None,
    }
}

/// Which dice of the pool `values` stay in play under the modifiers, each in turn
/// narrowing what the ones before it left.
pub open spec fn keeps(values: Seq<u32>, mods: Seq<TermMod>) -> Seq<bool>
    decreases mods.len(),
{
    if mods.len() == 0 {
        Seq::new(values.len(), |k: int| true)
    } else {
        let before = keeps(values, mods.drop_last());
        match keep_rule(mods.last(), in_play(before, values.len() as int)) {
            Some((high, n)) => narrowed(values, before, n, high),
            None => before,
        }
    }
}

/// How many of `base` dice stay in play under the modifiers.
pub open spec fn kept_count(base: nat, mods: Seq<TermMod>) -> nat
    decreases mods.len(),
{
    if mods.len() == 0 {
        base
    } else {
        let before = kept_count(base, mods.drop_last());
        match keep_rule(mods.last(), before) {
            Some((high, n)) => if n < before {
                n
            } else {
                before
            },
            None => before,
        }
    }
}

proof fn lemma_all_in_play(n: nat, m: int)
    requires
        0 <= m <= n,
    ensures
        in_play(Seq::new(n, |k: int| true), m) == m,
    decreases m,
{
    if m > 0 {
        lemma_all_in_play(n, m - 1);
    }
}

/// The modifiers leave as many dice in play as they say, whatever the faces.
pub proof fn keeps_exactly(values: Seq<u32>, mods: Seq<TermMod>)
    ensures
        keeps(values, mods).len() == values.len(),
        in_play(keeps(values, mods), values.len() as int) == kept_count(values.len(), mods),
    decreases mods.len(),
{
    if mods.len() == 0 {
        lemma_all_in_play(values.len(), values.len() as int);
    } else {
        let before = keeps(values, mods.drop_last());
        keeps_exactly(values, mods.drop_last());
        if let Some((high, n)) = keep_rule(mods.last(), in_play(before, values.len() as int)) {
            narrowing_keeps_exactly(values, before, n, high);
        }
    }
}

/// How many dice are in play.
fn count_in_play(kept: &Vec<bool>) -> (n: u32)
    requires
        kept@.len() <= u32::MAX,
    ensures
        n == in_play(kept@, kept@.len() as int),
{
    let mut n: u32 = 0;
    let mut k: usize = 0;
    while k < kept.len()
        invariant
            n <= k <= kept@.len() <= u32::MAX,
            n == in_play(kept@, k as int),
        decreases kept@.len() - k,
    {
        if kept[k] {
            n += 1;
        }
        k += 1;
    }
    n
}

/// Which of the first `base` dice stay in play under the modifiers.
fn apply_keep_drop(values: &Vec<u32>, base: usize, mods: &Vec<TermMod>) -> (kept: Vec<bool>)
    requires
        base <= values@.len(),
        base <= u32::MAX,
    ensures
        kept@ == keeps(values@.take(base as int), mods@),
{
    let mut kept: Vec<bool> = Vec::new();
    let mut k: usize = 0;
    while k < base
        invariant
            k <= base,
            kept@ == Seq::new(k as nat, |j: int| true),
        decreases base - k,
    {
        kept.push(true);
        k += 1;
        assert(kept@ == Seq::new(k as nat, |j: int| true));
    }
    let ghost pool = values@.take(base as int);
    let mut m: usize = 0;
    assert(mods@.take(0) == Seq::<TermMod>::empty());
    while m < mods.len()
        invariant
            m <= mods@.len(),
            base <= values@.len(),
            base <= u32::MAX,
            pool == values@.take(base as int),
            kept@.len() == base,
            kept@ == keeps(pool, mods@.take(m as int)),
        decreases mods@.len() - m,
    {
        assert(mods@.take(m + 1).drop_last() == mods@.take(m as int));
        let live: u32 = count_in_play(&kept);
        match mods[m] {
            TermMod::KeepHigh(n) => keep_n_values(values, &mut kept, n as usize, true),
            TermMod::DropLow(n) => keep_n_values(
                values,
                &mut kept,
                live.saturating_sub(n) as usize,
                true,
            ),
            TermMod::KeepLow(n) => keep_n_values(values, &mut kept, n as usize, false),
            TermMod::DropHigh(n) => keep_n_values(
                values,
                &mut kept,
                live.saturating_sub(n) as usize,
                false,
            ),
            _ => {},
        }
        m += 1;
    }
    assert(mods@.take(m as int) == mods@);
    kept
}

/// Which of a term's own dice, which show `faces`, stay in play.
pub fn keep_flags(term: &DiceTerm, faces: &Vec<u32>) -> (kept: Vec<bool>)
    requires
        faces@.len() == term.count,
    ensures
        kept@ == keeps(faces@, term@.mods),
{
    assert(faces@.take(faces@.len() as int) == faces@);
    apply_keep_drop(faces, faces.len(), &term.mods)
}

/// A run of `n` dice with `sides` sides.
pub open spec fn like(sides: u32, n: nat) -> Seq<u32> {
    Seq::new(n, |k: int| sides)
}

/// The face of the die number `k` out of a run with `sides` sides, drawn from
/// `faces` after `drawn`.
pub open spec fn face_at(faces: Map<Seq<u32>, u32>, drawn: Seq<u32>, sides: u32, k: nat) -> u32 {
    faces[drawn + like(sides, k + 1)]
}

/// Whether a die that shows `face` calls for one more, where explosions of its term
/// have added `spawned` dice so far.
pub open spec fn calls_for_more(cond: Compare, face: u32, spawned: int) -> bool {
    spawned < MAX_EXPLOSIONS && cond.met(face)
}

/// Whether a die that shows `face` calls for one more, where explosions of its term
/// have added `spawned` dice so far.
pub fn explodes(cond: Compare, face: u32, spawned: usize) -> (r: bool)
    ensures
        r == calls_for_more(cond, face, spawned as int),
{
    spawned < MAX_EXPLOSIONS && cond.matches(face)
}

/// How many dice a pool ends up with in which the dice before `i` have been looked
/// at, which holds `len` dice so far, `spawned` of them from explosions: each
/// matching die adds one, up to the cap.
pub open spec fn grown(
    faces: Map<Seq<u32>, u32>,
    drawn: Seq<u32>,
    sides: u32,
    cond: Compare,
    i: nat,
    len: nat,
    spawned: nat,
) -> nat
    decreases (MAX_EXPLOSIONS - spawned) + (len - i),
    when i <= len && spawned <= MAX_EXPLOSIONS
{
    if i >= len {
        len
    } else if calls_for_more(cond, face_at(faces, drawn, sides, i), spawned as int) {
        grown(faces, drawn, sides, cond, i + 1, len + 1, spawned + 1)
    } else {
        grown(faces, drawn, sides, cond, i + 1, len, spawned)
    }
}

/// The faces of the pool that the term `t` throws, drawn from `faces` after `drawn`:
/// its own dice first, then those that explosions add.
pub open spec fn pool(faces: Map<Seq<u32>, u32>, drawn: Seq<u32>, t: TermView) -> Seq<u32> {
    let size = match explodes_on(t.mods, t.sides) {
        None => t.count as nat,
        Some(cond) => grown(faces, drawn, t.sides, cond, 0, t.count as nat, 0),
    };
    Seq::new(size, |k: int| face_at(faces, drawn, t.sides, k as nat))
}

/// How many of the first `m` faces meet the condition.
pub open spec fn hits(faces: Seq<u32>, cond: Compare, m: int) -> nat
    decreases m,
{
    if m <= 0 {
        0
    } else {
        hits(faces, cond, m - 1) + if cond.met(faces[m - 1]) {
            1nat
        } else {
            0
        }
    }
}

/// How many dice explosions add to a pool with `n` matching faces.
pub open spec fn added(n: nat) -> nat {
    if n < MAX_EXPLOSIONS {
        n
    } else {
        MAX_EXPLOSIONS as nat
    }
}

/// What holds of every pool of the term `t`: each face is one of the die's, and
/// each matching die has added exactly one more, until the cap is reached.
pub open spec fn fair_pool(t: TermView, faces: Seq<u32>) -> bool {
    &&& forall|k: int| 0 <= k < faces.len() ==> 1 <= #[trigger] faces[k] <= t.sides
    &&& faces.len() == t.count + match explodes_on(t.mods, t.sides) {
        None => 0,
        Some(cond) => added(hits(faces, cond, faces.len() as int)),
    }
}

proof fn lemma_hits_agree(a: Seq<u32>, b: Seq<u32>, cond: Compare, m: int)
    requires
        m <= a.len(),
        m <= b.len(),
        forall|k: int| 0 <= k < m ==> a[k] == b[k],
    ensures
        hits(a, cond, m) == hits(b, cond, m),
    decreases m,
{
    if m > 0 {
        lemma_hits_agree(a, b, cond, m - 1);
    }
}

proof fn lemma_grown_shift(
    then: Map<Seq<u32>, u32>,
    before: Map<Seq<u32>, u32>,
    drawn: Seq<u32>,
    sides: u32,
    cond: Compare,
    i: nat,
    len: nat,
    spawned: nat,
)
    requires
        sides >= 1,
        continues(then, before, drawn),
        i <= len,
        spawned <= MAX_EXPLOSIONS,
    ensures
        grown(then, Seq::empty(), sides, cond, i, len, spawned) == grown(
            before,
            drawn,
            sides,
            cond,
            i,
            len,
            spawned,
        ),
    decreases (MAX_EXPLOSIONS - spawned) + (len - i),
{
    if i < len {
        lemma_face_shift(then, before, drawn, sides, i);
        if calls_for_more(cond, face_at(before, drawn, sides, i), spawned as int) {
            lemma_grown_shift(then, before, drawn, sides, cond, i + 1, len + 1, spawned + 1);
        } else {
            lemma_grown_shift(then, before, drawn, sides, cond, i + 1, len, spawned);
        }
    }
}

proof fn lemma_face_shift(
    then: Map<Seq<u32>, u32>,
    before: Map<Seq<u32>, u32>,
    drawn: Seq<u32>,
    sides: u32,
    k: nat,
)
    requires
        sides >= 1,
        continues(then, before, drawn),
    ensures
        face_at(then, Seq::empty(), sides, k) == face_at(before, drawn, sides, k),
{
    let run = like(sides, k + 1);
    assert(is_run(run));
    assert(Seq::<u32>::empty() + run == run);
    assert(then[run] == before[drawn + run]);
}

/// A run drawn later from the same store is the run at its place in the store.
pub proof fn lemma_faces_shift(
    then: Map<Seq<u32>, u32>,
    before: Map<Seq<u32>, u32>,
    drawn: Seq<u32>,
    sides: u32,
    n: nat,
)
    requires
        sides >= 1,
        continues(then, before, drawn),
    ensures
        faces_after(then, Seq::empty(), sides, n) == faces_after(before, drawn, sides, n),
{
    assert forall|k: int| 0 <= k < n implies faces_after(then, Seq::empty(), sides, n)[k]
        == faces_after(before, drawn, sides, n)[k] by {
        lemma_face_shift(then, before, drawn, sides, k as nat);
    }
    assert(faces_after(then, Seq::empty(), sides, n) =~= faces_after(before, drawn, sides, n));
}

/// A pool drawn later from the same store is the pool at its place in the store.
proof fn lemma_pool_shift(
    then: Map<Seq<u32>, u32>,
    before: Map<Seq<u32>, u32>,
    drawn: Seq<u32>,
    t: TermView,
)
    requires
        t.sides >= 1,
        continues(then, before, drawn),
    ensures
        pool(then, Seq::empty(), t) == pool(before, drawn, t),
{
    if let Some(cond) = explodes_on(t.mods, t.sides) {
        lemma_grown_shift(then, before, drawn, t.sides, cond, 0, t.count as nat, 0);
    }
    assert forall|k: int| 0 <= k < pool(then, Seq::empty(), t).len() implies pool(
        then,
        Seq::empty(),
        t,
    )[k] == pool(before, drawn, t)[k] by {
        lemma_face_shift(then, before, drawn, t.sides, k as nat);
    }
    assert(pool(then, Seq::empty(), t) =~= pool(before, drawn, t));
}

/// A run drawn after `drawn` has been drawn as well.
pub proof fn lemma_draws_on(
    now: Map<Seq<u32>, u32>,
    then: Map<Seq<u32>, u32>,
    before: Map<Seq<u32>, u32>,
    drawn: Seq<u32>,
    sides: u32,
    n: nat,
)
    requires
        sides >= 1,
        continues(then, before, drawn),
        continues(now, then, like(sides, n)),
    ensures
        continues(now, before, drawn + like(sides, n)),
{
    assert forall|run: Seq<u32>| is_run(run) implies #[trigger] now[run] == before[drawn + like(
        sides,
        n,
    ) + run] by {
        let longer = like(sides, n) + run;
        assert forall|k: int| 0 <= k < longer.len() implies #[trigger] longer[k] >= 1 by {
            if k >= n {
                assert(longer[k] == run[k - n]);
            }
        }
        assert(is_run(longer));
        assert(then[longer] == before[drawn + longer]);
        assert(drawn + longer == drawn + like(sides, n) + run);
    }
}

/// Draws one more die of a run.
fn draw_like(rng: &mut StdRng, sides: u32, faces: &mut Vec<u32>, Ghost(store): Ghost<
    Map<Seq<u32>, u32>,
>)
    requires
        sides >= 1,
        continues(upcoming(*old(rng)), store, like(sides, old(faces)@.len())),
    ensures
        final(faces)@ == old(faces)@.push(
            face_at(store, Seq::empty(), sides, old(faces)@.len()),
        ),
        1 <= final(faces)@.last() <= sides,
        continues(upcoming(*final(rng)), store, like(sides, final(faces)@.len())),
{
    let ghost n = faces@.len();
    let ghost then = upcoming(*rng);
    let face: u32 = draw(rng, sides);
    proof {
        lemma_draw_on(upcoming(*rng), then, store, like(sides, n), sides);
        assert(like(sides, n).push(sides) == like(sides, n + 1));
        assert(Seq::<u32>::empty() + like(sides, n + 1) == like(sides, n + 1));
    }
    faces.push(face);
}

/// The faces of a run of `n` dice with `sides` sides, drawn from `faces` after `drawn`.
pub open spec fn faces_after(
    faces: Map<Seq<u32>, u32>,
    drawn: Seq<u32>,
    sides: u32,
    n: nat,
) -> Seq<u32> {
    Seq::new(n, |k: int| face_at(faces, drawn, sides, k as nat))
}

/// Throws `count` dice with `sides` sides.
pub fn roll_faces(sides: u32, count: u32, rng: &mut StdRng) -> (faces: Vec<u32>)
    requires
        sides >= 1,
    ensures
        faces@ == faces_after(upcoming(*old(rng)), Seq::empty(), sides, count as nat),
        continues(upcoming(*final(rng)), upcoming(*old(rng)), like(sides, count as nat)),
        forall|k: int| 0 <= k < faces@.len() ==> 1 <= #[trigger] faces@[k] <= sides,
{
    let ghost store = upcoming(*rng);
    let mut faces: Vec<u32> = Vec::new();
    proof {
        lemma_nothing_drawn(store);
        assert(like(sides, 0) == Seq::<u32>::empty());
    }
    let mut k: u32 = 0;
    while k < count
        invariant
            k <= count,
            sides >= 1,
            faces@ == faces_after(store, Seq::empty(), sides, k as nat),
            forall|j: int| 0 <= j < k ==> 1 <= #[trigger] faces@[j] <= sides,
            continues(upcoming(*rng), store, like(sides, k as nat)),
        decreases count - k,
    {
        draw_like(rng, sides, &mut faces, Ghost(store));
        k += 1;
        assert(faces@ == faces_after(store, Seq::empty(), sides, k as nat));
    }
    faces
}

/// Throws the pool of a term: its own dice, and those that explosions add.
pub fn roll_pool(term: &DiceTerm, rng: &mut StdRng) -> (faces: Vec<u32>)
    requires
        term.sides >= 1,
    ensures
        faces@ == pool(upcoming(*old(rng)), Seq::empty(), term@),
        continues(
            upcoming(*final(rng)),
            upcoming(*old(rng)),
            like(term.sides, faces@.len()),
        ),
        fair_pool(term@, faces@),
{
    let ghost store = upcoming(*rng);
    let sides: u32 = term.sides;
    let mut faces = roll_faces(sides, term.count, rng);
    match explode_condition(term) {
        None => {},
        Some(cond) => {
            let mut spawned: usize = 0;
            let mut i: usize = 0;
            while i < faces.len()
                invariant
                    sides == term.sides,
                    sides >= 1,
                    i <= faces@.len(),
                    spawned <= MAX_EXPLOSIONS,
                    faces@.len() == term.count + spawned,
                    spawned == added(hits(faces@, cond, i as int)),
                    forall|j: int|
                        0 <= j < faces@.len() ==> #[trigger] faces@[j] == face_at(
                            store,
                            Seq::empty(),
                            sides,
                            j as nat,
                        ),
                    forall|j: int| 0 <= j < faces@.len() ==> 1 <= #[trigger] faces@[j] <= sides,
                    continues(upcoming(*rng), store, like(sides, faces@.len())),
                    grown(store, Seq::empty(), sides, cond, 0, term.count as nat, 0) == grown(
                        store,
                        Seq::empty(),
                        sides,
                        cond,
                        i as nat,
                        faces@.len(),
                        spawned as nat,
                    ),
                decreases (MAX_EXPLOSIONS - spawned) + (faces@.len() - i),
            {
                let ghost before = faces@;
                if explodes(cond, faces[i], spawned) {
                    draw_like(rng, sides, &mut faces, Ghost(store));
                    spawned += 1;
                }
                proof {
                    lemma_hits_agree(before, faces@, cond, i + 1);
                }
                i += 1;
            }
        },
    }
    assert(faces@ == pool(store, Seq::empty(), term@));
    faces
}

/// One die of a roll that has been resolved.
#[derive(Debug, Clone, Copy, PartialEq, Eq, Structural)]
pub struct OutcomeDie {
    pub value: u32,
    /// Whether the die counts toward the total.
    pub kept: bool,
    /// Whether an explosion added the die.
    pub exploded: bool,
    /// A kept die on its highest face.
    pub crit: bool,
    /// A kept die on a 1.
    pub fumble: bool,
}

/// One term of a roll that has been resolved.
#[derive(Debug, Clone, PartialEq, Eq)]
pub struct OutcomeTerm {
    /// The term as written, e.g. "4d6dl1" or "3d6!".
    pub notation: String,
    pub sides: u32,
    pub dice: Vec<OutcomeDie>,
    /// The product of the term's multipliers.
    pub multiplier: i32,
    /// The sum of the term's kept dice, multiplied.
    pub subtotal: i32,
}

pub struct OutcomeTermView {
    pub notation: Seq<char>,
    pub sides: u32,
    pub dice: Seq<OutcomeDie>,
    pub multiplier: int,
    pub subtotal: int,
}

impl View for OutcomeTerm {
    type V = OutcomeTermView;

    open spec fn view(&self) -> OutcomeTermView {
        OutcomeTermView {
            notation: self.notation@,
            sides: self.sides,
            dice: self.dice@,
            multiplier: self.multiplier as int,
            subtotal: self.subtotal as int,
        }
    }
}

/// A roll that has been resolved: every die, the total, and the verdict where the
/// roll is staked.
#[derive(Debug, Clone, PartialEq, Eq)]
pub struct Outcome {
    pub expression: String,
    pub terms: Vec<OutcomeTerm>,
    pub modifier: i32,
    pub total: i32,
    pub target: Option<i32>,
    pub goal: Option<Goal>,
    pub success: Option<bool>,
    pub margin: Option<i32>,
}

pub struct OutcomeView {
    pub expression: Seq<char>,
    pub terms: Seq<OutcomeTermView>,
    pub modifier: i32,
    pub total: int,
    pub target: Option<i32>,
    pub goal: Option<Goal>,
    pub success: Option<bool>,
    pub margin: Option<i32>,
}

/// The views of `terms`, in order.
pub open spec fn outcome_views(terms: Seq<OutcomeTerm>) -> Seq<OutcomeTermView> {
    Seq::new(terms.len(), |k: int| terms[k]@)
}

impl View for Outcome {
    type V = OutcomeView;

    open spec fn view(&self) -> OutcomeView {
        OutcomeView {
            expression: self.expression@,
            terms: outcome_views(self.terms@),
            modifier: self.modifier,
            total: self.total as int,
            target: self.target,
            goal: self.goal,
            success: self.success,
            margin: self.margin,
        }
    }
}

/// One modifier as it is written.
pub open spec fn mod_text(m: TermMod) -> Seq<char> {
    match m {
        TermMod::KeepHigh(n) => "kh"@ + dec(n as nat),
        TermMod::KeepLow(n) => "kl"@ + dec(n as nat),
        TermMod::DropHigh(n) => "dh"@ + dec(n as nat),
        TermMod::DropLow(n) => "dl"@ + dec(n as nat),
        TermMod::Explode(None) => "!"@,
        TermMod::Explode(Some(Compare::Eq(n))) => "!="@ + dec(n as nat),
        TermMod::Explode(Some(Compare::Gt(n))) => "!>"@ + dec(n as nat),
        TermMod::Explode(Some(Compare::Lt(n))) => "!<"@ + dec(n as nat),
        TermMod::Mul(n) => "*"@ + dec_int(n as int),
    }
}

pub open spec fn mods_text(mods: Seq<TermMod>) -> Seq<char>
    decreases mods.len(),
{
    if mods.len() == 0 {
        Seq::empty()
    } else {
        mods_text(mods.drop_last()) + mod_text(mods.last())
    }
}

/// A term as it is written.
pub open spec fn notation(t: TermView) -> Seq<char> {
    (if t.count == 1 {
        Seq::empty()
    } else {
        dec(t.count as nat)
    }) + "d"@ + dec(t.sides as nat) + mods_text(t.mods)
}

fn push_counted(s: &mut String, word: &str, n: u32)
    ensures
        final(s)@ == old(s)@ + (word@ + dec(n as nat)),
{
    s.append(word);
    push_dec(s, n as u64);
    assert(s@ == old(s)@ + (word@ + dec(n as nat)));
}

fn push_mod(s: &mut String, m: TermMod)
    ensures
        final(s)@ == old(s)@ + mod_text(m),
{
    match m {
        TermMod::KeepHigh(n) => push_counted(s, "kh", n),
        TermMod::KeepLow(n) => push_counted(s, "kl", n),
        TermMod::DropHigh(n) => push_counted(s, "dh", n),
        TermMod::DropLow(n) => push_counted(s, "dl", n),
        TermMod::Explode(None) => s.append("!"),
        TermMod::Explode(Some(Compare::Eq(n))) => push_counted(s, "!=", n),
        TermMod::Explode(Some(Compare::Gt(n))) => push_counted(s, "!>", n),
        TermMod::Explode(Some(Compare::Lt(n))) => push_counted(s, "!<", n),
        TermMod::Mul(n) => {
            s.append("*");
            push_int(s, n);
            assert(s@ == old(s)@ + mod_text(m));
        },
    }
}

/// A term as it is written.
pub fn term_notation(term: &DiceTerm) -> (s: String)
    ensures
        s@ == notation(term@),
{
    let mut s = String::new();
    if term.count != 1 {
        push_dec(&mut s, term.count as u64);
    }
    s.append("d");
    push_dec(&mut s, term.sides as u64);
    let ghost head = s@;
    let mut k: usize = 0;
    while k < term.mods.len()
        invariant
            k <= term.mods@.len(),
            s@ == head + mods_text(term.mods@.take(k as int)),
        decreases term.mods@.len() - k,
    {
        let ghost before = s@;
        push_mod(&mut s, term.mods[k]);
        proof {
            let longer = term.mods@.take(k + 1);
            assert(longer.drop_last() == term.mods@.take(k as int));
            assert(before + mod_text(longer.last()) == head + mods_text(longer));
        }
        k += 1;
    }
    assert(term.mods@.take(k as int) == term.mods@);
    assert(s@ == notation(term@));
    s
}

/// The dice of a term whose pool shows `faces`: its own dice are kept or dropped as
/// the modifiers say, those that explosions added are always kept.
pub open spec fn judged(t: TermView, faces: Seq<u32>) -> Seq<OutcomeDie> {
    let flags = keeps(faces.take(t.count as int), t.mods);
    Seq::new(
        faces.len(),
        |k: int|
            {
                let kept = k >= t.count || flags[k];
                OutcomeDie {
                    value: faces[k],
                    kept,
                    exploded: k >= t.count,
                    crit: kept && is_crit(t.sides, faces[k]),
                    fumble: kept && is_fumble(t.sides, faces[k]),
                }
            },
    )
}

/// The sum of the kept dice.
pub open spec fn kept_sum(dice: Seq<OutcomeDie>) -> int
    decreases dice.len(),
{
    if dice.len() == 0 {
        0
    } else {
        kept_sum(dice.drop_last()) + if dice.last().kept {
            dice.last().value as int
        } else {
            0
        }
    }
}

/// What the term `t` comes to where its pool shows `faces`.
pub open spec fn scored(t: TermView, faces: Seq<u32>) -> OutcomeTermView {
    let dice = judged(t, faces);
    OutcomeTermView {
        notation: notation(t),
        sides: t.sides,
        dice,
        multiplier: product(t.mods),
        subtotal: kept_sum(dice) * product(t.mods),
    }
}

/// Whether an `i32` holds what the term `t` comes to, resolved as `out`, and all on the
/// way to it.
pub open spec fn score_fits(t: TermView, out: OutcomeTermView) -> bool {
    &&& product_fits(t.mods)
    &&& in_i32(kept_sum(out.dice))
    &&& in_i32(out.subtotal)
}

/// Resolves the term whose pool shows `faces`, where an `i32` holds what it comes to.
fn try_score(term: &DiceTerm, faces: &Vec<u32>) -> (out: Option<OutcomeTerm>)
    requires
        faces@.len() >= term.count,
    ensures
        match out {
            Some(out) => out@ == scored(term@, faces@) && score_fits(term@, out@),
            None => !score_fits(term@, scored(term@, faces@)),
        },
{
    let base: usize = term.count as usize;
    let kept = apply_keep_drop(faces, base, &term.mods);
    proof {
        keeps_exactly(faces@.take(base as int), term@.mods);
    }
    let ghost want = judged(term@, faces@);
    let mut dice: Vec<OutcomeDie> = Vec::new();
    let mut sum: i128 = 0;
    let mut k: usize = 0;
    while k < faces.len()
        invariant
            k <= faces@.len(),
            base == term.count,
            base <= faces@.len(),
            kept@.len() == base,
            kept@ == keeps(faces@.take(base as int), term@.mods),
            want == judged(term@, faces@),
            dice@ == want.take(k as int),
            sum == kept_sum(want.take(k as int)),
            0 <= sum <= 0x1_0000_0000 * k,
        decreases faces@.len() - k,
    {
        let value: u32 = faces[k];
        let exploded = k >= base;
        let stays = exploded || kept[k];
        let die = OutcomeDie {
            value,
            kept: stays,
            exploded,
            crit: stays && crit_face(term.sides, value),
            fumble: stays && fumble_face(term.sides, value),
        };
        proof {
            assert(want.take(k + 1).drop_last() == want.take(k as int));
            assert(want.take(k + 1) == want.take(k as int).push(die));
        }
        dice.push(die);
        if stays {
            sum = sum + value as i128;
        }
        k += 1;
    }
    assert(want.take(k as int) == want);
    let multiplier: i32 = match product_of(&term.mods) {
        Some(m) => m,
        None => {
            return None;
        },
    };
    if sum > i32::MAX as i128 {
        return None;
    }
    assert(-0x4000_0000_0000_0000 <= sum * multiplier <= 0x4000_0000_0000_0000)
        by (nonlinear_arith)
        requires
            0 <= sum <= 0x7fff_ffff,
            -0x8000_0000 <= multiplier <= 0x7fff_ffff,
    ;
    let subtotal: i64 = sum as i64 * multiplier as i64;
    if subtotal < i32::MIN as i64 || subtotal > i32::MAX as i64 {
        return None;
    }
    Some(
        OutcomeTerm {
            notation: term_notation(term),
            sides: term.sides,
            dice,
            multiplier,
            subtotal: subtotal as i32,
        },
    )
}

/// Resolves the term whose pool shows `faces`.
pub fn score_term(term: &DiceTerm, faces: &Vec<u32>) -> (out: OutcomeTerm)
    requires
        faces@.len() >= term.count,
        score_fits(term@, scored(term@, faces@)),
    ensures
        out@ == scored(term@, faces@),
{
    try_score(term, faces).unwrap()
}

/// Whether a die with `sides` sides has a face that meets the condition.
pub open spec fn can_meet(cond: Compare, sides: u32) -> bool {
    exists|f: u32| 1 <= f <= sides && #[trigger] cond.met(f)
}

/// How many dice explosions can add to a term at the most.
pub open spec fn most_added(t: TermView) -> int {
    match explodes_on(t.mods, t.sides) {
        None => 0,
        Some(cond) => if can_meet(cond, t.sides) {
            MAX_EXPLOSIONS as int
        } else {
            0
        },
    }
}

/// Whether a die with `sides` sides has a face that meets the condition.
fn meets_some_face(cond: Compare, sides: u32) -> (r: bool)
    ensures
        r == can_meet(cond, sides),
{
    match cond {
        Compare::Eq(n) => {
            assert(1 <= n <= sides ==> cond.met(n));
            1 <= n && n <= sides
        },
        Compare::Lt(n) => {
            assert(1 < n && 1 <= sides ==> cond.met(1));
            1 < n && 1 <= sides
        },
        Compare::Gt(n) => {
            assert(n < sides ==> cond.met(sides));
            n < sides
        },
    }
}

/// A bound on what the kept dice of a term can add up to: each shows its highest face.
pub open spec fn reach(t: TermView) -> int {
    (kept_count(t.count as nat, t.mods) + most_added(t)) * t.sides
}

/// The least that a term can come to.
pub open spec fn least(t: TermView) -> int {
    if product(t.mods) >= 0 {
        kept_count(t.count as nat, t.mods) * product(t.mods)
    } else {
        reach(t) * product(t.mods)
    }
}

/// The most that a term can come to.
pub open spec fn most(t: TermView) -> int {
    if product(t.mods) >= 0 {
        reach(t) * product(t.mods)
    } else {
        kept_count(t.count as nat, t.mods) * product(t.mods)
    }
}

pub open spec fn sum_least(terms: Seq<TermView>) -> int
    decreases terms.len(),
{
    if terms.len() == 0 {
        0
    } else {
        sum_least(terms.drop_last()) + least(terms.last())
    }
}

pub open spec fn sum_most(terms: Seq<TermView>) -> int
    decreases terms.len(),
{
    if terms.len() == 0 {
        0
    } else {
        sum_most(terms.drop_last()) + most(terms.last())
    }
}

/// Whether every die of the term has a side, and an `i32` holds its multiplier.
pub open spec fn term_casts(t: TermView) -> bool {
    t.sides >= 1 && product_fits(t.mods)
}

/// Whether the terms can be thrown: every die has a side, and an `i32` holds each
/// multiplier.
pub open spec fn castable(terms: Seq<TermView>) -> bool {
    forall|k: int| 0 <= k < terms.len() ==> term_casts(#[trigger] terms[k])
}

/// Whether every die of the term has a side, and an `i32` holds all that the term
/// can come to.
pub open spec fn term_plays(t: TermView) -> bool {
    &&& t.sides >= 1
    &&& product_fits(t.mods)
    &&& reach(t) <= i32::MAX
    &&& i32::MIN <= least(t)
    &&& most(t) <= i32::MAX
}

/// Whether every die of the roll has a side, and an `i32` holds every total that it can
/// come to.
pub open spec fn playable(r: RollView) -> bool {
    &&& forall|k: int| 0 <= k < r.terms.len() ==> term_plays(#[trigger] r.terms[k])
    &&& i32::MIN <= r.modifier + sum_least(r.terms)
    &&& r.modifier + sum_most(r.terms) <= i32::MAX
}

/// Each kept die adds at least 1 and at most its sides.
pub proof fn lemma_kept_sum_bounds(t: TermView, faces: Seq<u32>, m: int)
    requires
        forall|k: int| 0 <= k < faces.len() ==> 1 <= #[trigger] faces[k] <= t.sides,
        faces.len() >= t.count,
        0 <= m <= faces.len(),
    ensures
        ({
            let flags = keeps(faces.take(t.count as int), t.mods);
            let kept = if m <= t.count {
                in_play(flags, m) as int
            } else {
                in_play(flags, t.count as int) + (m - t.count)
            };
            kept <= kept_sum(judged(t, faces).take(m)) <= kept * t.sides
        }),
    decreases m,
{
    let dice = judged(t, faces);
    let flags = keeps(faces.take(t.count as int), t.mods);
    if m > 0 {
        lemma_kept_sum_bounds(t, faces, m - 1);
        assert(dice.take(m).drop_last() == dice.take(m - 1));
        assert(1 <= faces[m - 1] <= t.sides);
        let kept = if m <= t.count {
            in_play(flags, m) as int
        } else {
            in_play(flags, t.count as int) + (m - t.count)
        };
        assert((kept - 1) * t.sides + t.sides == kept * t.sides) by (nonlinear_arith);
    }
}

/// Whether `faces` can be a pool of the term `t`, or one that has yet to explode to
/// its end.
pub open spec fn possible_pool(t: TermView, faces: Seq<u32>) -> bool {
    &&& forall|k: int| 0 <= k < faces.len() ==> 1 <= #[trigger] faces[k] <= t.sides
    &&& t.count <= faces.len()
    &&& faces.len() <= t.count + most_added(t)
}

proof fn lemma_no_hits(t: TermView, faces: Seq<u32>, cond: Compare, m: int)
    requires
        forall|k: int| 0 <= k < faces.len() ==> 1 <= #[trigger] faces[k] <= t.sides,
        !can_meet(cond, t.sides),
        0 <= m <= faces.len(),
    ensures
        hits(faces, cond, m) == 0,
    decreases m,
{
    if m > 0 {
        lemma_no_hits(t, faces, cond, m - 1);
        assert(1 <= faces[m - 1] <= t.sides);
    }
}

/// A fair pool is a possible one.
proof fn lemma_fair_is_possible(t: TermView, faces: Seq<u32>)
    requires
        fair_pool(t, faces),
    ensures
        possible_pool(t, faces),
{
    if let Some(cond) = explodes_on(t.mods, t.sides) {
        if !can_meet(cond, t.sides) {
            lemma_no_hits(t, faces, cond, faces.len() as int);
        }
    }
}

/// Whatever its pool shows, the term comes to no less than its least and no more
/// than its most.
pub proof fn scores_in_range(t: TermView, faces: Seq<u32>)
    requires
        term_plays(t),
        possible_pool(t, faces),
    ensures
        0 <= kept_sum(judged(t, faces)) <= reach(t),
        least(t) <= scored(t, faces).subtotal <= most(t),
        in_i32(kept_sum(judged(t, faces))),
        in_i32(scored(t, faces).subtotal),
{
    let dice = judged(t, faces);
    let sum = kept_sum(dice);
    let low = kept_count(t.count as nat, t.mods) as int;
    let p = product(t.mods);
    lemma_kept_sum_bounds(t, faces, faces.len() as int);
    assert(dice.take(faces.len() as int) == dice);
    keeps_exactly(faces.take(t.count as int), t.mods);
    let kept = low + (faces.len() - t.count);
    let cap = most_added(t);
    assert(kept * t.sides <= (low + cap) * t.sides) by (nonlinear_arith)
        requires
            kept <= low + cap,
            t.sides >= 1,
    ;
    if p >= 0 {
        assert(low * p <= sum * p <= reach(t) * p) by (nonlinear_arith)
            requires
                p >= 0,
                low <= sum <= reach(t),
        ;
    } else {
        assert(reach(t) * p <= sum * p <= low * p) by (nonlinear_arith)
            requires
                p < 0,
                low <= sum <= reach(t),
        ;
    }
}

/// How many dice of the term stay in play.
fn kept_by(term: &DiceTerm) -> (n: u32)
    ensures
        n == kept_count(term.count as nat, term@.mods),
        n <= term.count,
{
    let base: u32 = term.count;
    let mut n: u32 = base;
    let mut k: usize = 0;
    while k < term.mods.len()
        invariant
            k <= term.mods@.len(),
            base == term.count,
            n == kept_count(base as nat, term.mods@.take(k as int)),
            n <= base,
        decreases term.mods@.len() - k,
    {
        assert(term.mods@.take(k + 1).drop_last() == term.mods@.take(k as int));
        let limit: u32 = match term.mods[k] {
            TermMod::KeepHigh(m) => m,
            TermMod::KeepLow(m) => m,
            TermMod::DropHigh(m) => n.saturating_sub(m),
            TermMod::DropLow(m) => n.saturating_sub(m),
            _ => n,
        };
        if limit < n {
            n = limit;
        }
        k += 1;
    }
    assert(term.mods@.take(k as int) == term.mods@);
    n
}

/// What the term comes to at the least and at the most, where it can be thrown.
fn range_of(term: &DiceTerm) -> (r: Option<(i32, i32)>)
    ensures
        match r {
            Some((lo, hi)) => term_plays(term@) && lo == least(term@) && hi == most(term@),
            None => !term_plays(term@),
        },
{
    if term.sides == 0 {
        return None;
    }
    let p: i32 = match product_of(&term.mods) {
        Some(p) => p,
        None => {
            return None;
        },
    };
    let low: u32 = kept_by(term);
    let cap: u64 = match explode_condition(term) {
        None => 0,
        Some(cond) => if meets_some_face(cond, term.sides) {
            40
        } else {
            0
        },
    };
    let dice: u64 = low as u64 + cap;
    let sides: u32 = term.sides;
    assert(0 <= dice * sides <= 0x1_0000_0040 * 0x1_0000_0000) by (nonlinear_arith)
        requires
            0 <= dice <= 0x1_0000_0040,
            0 <= sides <= 0x1_0000_0000,
    ;
    let high: u128 = dice as u128 * sides as u128;
    assert(high == reach(term@));
    if high > i32::MAX as u128 {
        return None;
    }
    let high: i64 = high as i64;
    assert(low <= high) by (nonlinear_arith)
        requires
            high == dice * sides,
            low <= dice,
            sides >= 1,
    ;
    assert(-0x4000_0000_0000_0000 <= high * p <= 0x4000_0000_0000_0000) by (nonlinear_arith)
        requires
            0 <= high <= 0x7fff_ffff,
            -0x8000_0000 <= p <= 0x7fff_ffff,
    ;
    assert(-0x4000_0000_0000_0000 <= low * p <= 0x4000_0000_0000_0000) by (nonlinear_arith)
        requires
            0 <= low <= 0x7fff_ffff,
            -0x8000_0000 <= p <= 0x7fff_ffff,
    ;
    let a: i64 = low as i64 * p as i64;
    let b: i64 = high * p as i64;
    let (lo, hi): (i64, i64) = if p >= 0 {
        (a, b)
    } else {
        (b, a)
    };
    assert(lo == least(term@) && hi == most(term@));
    assert(lo <= hi) by {
        if p >= 0 {
            assert(low * p <= high * p) by (nonlinear_arith)
                requires
                    p >= 0,
                    low <= high,
            ;
        } else {
            assert(high * p <= low * p) by (nonlinear_arith)
                requires
                    p < 0,
                    low <= high,
            ;
        }
    }
    if lo < i32::MIN as i64 || hi > i32::MAX as i64 {
        return None;
    }
    Some((lo as i32, hi as i32))
}

impl Roll {
    /// Whether the roll can be thrown: every die has a side, and an `i32` holds each
    /// multiplier.
    pub fn casts(&self) -> (r: bool)
        ensures
            r == castable(self@.terms),
    {
        let ghost terms = self@.terms;
        let mut k: usize = 0;
        while k < self.terms.len()
            invariant
                k <= self.terms@.len(),
                terms == self@.terms,
                forall|j: int| 0 <= j < k ==> term_casts(#[trigger] terms[j]),
            decreases self.terms@.len() - k,
        {
            if self.terms[k].sides == 0 || product_of(&self.terms[k].mods).is_none() {
                assert(!term_casts(terms[k as int]));
                return false;
            }
            assert(term_casts(terms[k as int]));
            k += 1;
        }
        true
    }

    /// Whether every die of the roll has a side, and an `i32` holds every total that it
    /// can come to.
    pub fn fits(&self) -> (r: bool)
        ensures
            r == playable(self@),
    {
        let mut lo: i128 = self.modifier as i128;
        let mut hi: i128 = self.modifier as i128;
        let mut k: usize = 0;
        let ghost terms = self@.terms;
        assert(terms.take(0) == Seq::<TermView>::empty());
        while k < self.terms.len()
            invariant
                k <= self.terms@.len(),
                terms == self@.terms,
                forall|j: int| 0 <= j < k ==> term_plays(#[trigger] terms[j]),
                lo == self.modifier + sum_least(terms.take(k as int)),
                hi == self.modifier + sum_most(terms.take(k as int)),
                -0x8000_0000 * (k + 1) <= lo <= 0x8000_0000 * (k + 1),
                -0x8000_0000 * (k + 1) <= hi <= 0x8000_0000 * (k + 1),
            decreases self.terms@.len() - k,
        {
            assert(terms.take(k + 1).drop_last() == terms.take(k as int));
            match range_of(&self.terms[k]) {
                None => {
                    assert(!term_plays(terms[k as int]));
                    return false;
                },
                Some((l, h)) => {
                    lo = lo + l as i128;
                    hi = hi + h as i128;
                },
            }
            k += 1;
        }
        assert(terms.take(k as int) == terms);
        i32::MIN as i128 <= lo && hi <= i32::MAX as i128
    }
}

/// The sum of the terms' subtotals.
pub open spec fn subtotals(terms: Seq<OutcomeTermView>) -> int
    decreases terms.len(),
{
    if terms.len() == 0 {
        0
    } else {
        subtotals(terms.drop_last()) + terms.last().subtotal
    }
}

/// The outcome of a roll whose terms have been resolved: the total, and the verdict
/// where the roll is staked.
pub open spec fn concluded(
    expression: Seq<char>,
    r: RollView,
    terms: Seq<OutcomeTermView>,
) -> OutcomeView {
    let total = r.modifier + subtotals(terms);
    OutcomeView {
        expression,
        terms,
        modifier: r.modifier,
        total,
        target: match r.stake {
            Some(stake) => Some(stake.target),
            None => None,
        },
        goal: match r.stake {
            Some(stake) => Some(stake.goal),
            None => None,
        },
        success: match r.stake {
            Some(stake) => Some(lead(total, stake) >= 0),
            None => None,
        },
        margin: match r.stake {
            Some(stake) => Some(clamped(lead(total, stake)) as i32),
            None => None,
        },
    }
}

/// What the resolved terms of a roll and its flat modifier come to.
fn sum_up(roll: &Roll, terms: &Vec<OutcomeTerm>) -> (total: i128)
    ensures
        total == roll.modifier + subtotals(outcome_views(terms@)),
{
    let ghost views = outcome_views(terms@);
    let mut total: i128 = roll.modifier as i128;
    let mut k: usize = 0;
    assert(views.take(0) == Seq::<OutcomeTermView>::empty());
    while k < terms.len()
        invariant
            k <= terms@.len(),
            views == outcome_views(terms@),
            total == roll.modifier + subtotals(views.take(k as int)),
            -0x8000_0000 * (k + 1) <= total <= 0x8000_0000 * (k + 1),
        decreases terms@.len() - k,
    {
        assert(views.take(k + 1).drop_last() == views.take(k as int));
        total = total + terms[k].subtotal as i128;
        k += 1;
    }
    assert(views.take(k as int) == views);
    total
}

/// Sums up a roll whose terms have been resolved.
pub fn conclude(expression: &str, roll: &Roll, terms: Vec<OutcomeTerm>) -> (outcome: Outcome)
    requires
        in_i32(roll.modifier + subtotals(outcome_views(terms@))),
    ensures
        outcome@ == concluded(expression@, roll@, outcome_views(terms@)),
{
    let total: i32 = sum_up(roll, &terms) as i32;
    let (target, goal, success, margin) = match roll.stake {
        Some(stake) => {
            let (success, margin) = check(total, stake);
            (Some(stake.target), Some(stake.goal), Some(success), Some(margin))
        },
        None => (None, None, None, None),
    };
    Outcome {
        expression: expression.to_owned(),
        terms,
        modifier: roll.modifier,
        total,
        target,
        goal,
        success,
        margin,
    }
}

/// The terms of a roll as they are resolved with dice drawn from `faces`, and the
/// dice drawn for them.
pub open spec fn resolved(terms: Seq<TermView>, faces: Map<Seq<u32>, u32>) -> (
    Seq<OutcomeTermView>,
    Seq<u32>,
)
    decreases terms.len(),
{
    if terms.len() == 0 {
        (Seq::empty(), Seq::empty())
    } else {
        let (before, drawn) = resolved(terms.drop_last(), faces);
        let t = terms.last();
        let shown = pool(faces, drawn, t);
        (before.push(scored(t, shown)), drawn + like(t.sides, shown.len()))
    }
}

/// The faces that the dice show.
pub open spec fn values_of(dice: Seq<OutcomeDie>) -> Seq<u32> {
    Seq::new(dice.len(), |k: int| dice[k].value)
}

/// The faces of the pools that the terms throw with dice drawn from `faces`, and the
/// dice drawn for them.
pub open spec fn pools(terms: Seq<TermView>, faces: Map<Seq<u32>, u32>) -> (
    Seq<Seq<u32>>,
    Seq<u32>,
)
    decreases terms.len(),
{
    if terms.len() == 0 {
        (Seq::empty(), Seq::empty())
    } else {
        let (before, drawn) = pools(terms.drop_last(), faces);
        let shown = pool(faces, drawn, terms.last());
        (before.push(shown), drawn + like(terms.last().sides, shown.len()))
    }
}

/// The terms as they are resolved where their pools show `shown`.
pub open spec fn scores(terms: Seq<TermView>, shown: Seq<Seq<u32>>) -> Seq<OutcomeTermView> {
    Seq::new(terms.len(), |k: int| scored(terms[k], shown[k]))
}

pub open spec fn pool_views(shown: Seq<Vec<u32>>) -> Seq<Seq<u32>> {
    Seq::new(shown.len(), |k: int| shown[k]@)
}

/// A roll is resolved on the pools that its terms throw.
proof fn lemma_resolved(terms: Seq<TermView>, faces: Map<Seq<u32>, u32>)
    ensures
        pools(terms, faces).0.len() == terms.len(),
        resolved(terms, faces).0 == scores(terms, pools(terms, faces).0),
        resolved(terms, faces).1 == pools(terms, faces).1,
    decreases terms.len(),
{
    if terms.len() > 0 {
        let rest = terms.drop_last();
        lemma_resolved(rest, faces);
        let shown = pools(terms, faces).0;
        let before = pools(rest, faces).0;
        assert(resolved(terms, faces).0 =~= scores(terms, shown)) by {
            assert forall|k: int| 0 <= k < rest.len() implies scores(rest, before)[k] == scores(
                terms,
                shown,
            )[k] by {
                assert(rest[k] == terms[k]);
                assert(before[k] == shown[k]);
            }
        }
    } else {
        assert(resolved(terms, faces).0 =~= scores(terms, pools(terms, faces).0));
    }
}

/// Whether each of the pools is one that its term can throw.
pub open spec fn fair_pools(terms: Seq<TermView>, shown: Seq<Seq<u32>>) -> bool {
    &&& shown.len() == terms.len()
    &&& forall|k: int| 0 <= k < terms.len() ==> fair_pool(#[trigger] terms[k], shown[k])
}

/// Whether each of the terms has dice with at least one side.
pub open spec fn all_sided(terms: Seq<TermView>) -> bool {
    forall|k: int| 0 <= k < terms.len() ==> (#[trigger] terms[k]).sides >= 1
}

/// Whether an `i32` holds what the roll comes to, its terms resolved as `terms`, and what
/// each of them comes to.
pub open spec fn outcome_fits(r: RollView, terms: Seq<OutcomeTermView>) -> bool {
    &&& forall|k: int| 0 <= k < r.terms.len() ==> score_fits(#[trigger] r.terms[k], terms[k])
    &&& in_i32(r.modifier + subtotals(terms))
}

proof fn lemma_scores_in_range(terms: Seq<TermView>, shown: Seq<Seq<u32>>)
    requires
        forall|k: int| 0 <= k < terms.len() ==> term_plays(#[trigger] terms[k]),
        fair_pools(terms, shown),
    ensures
        forall|k: int|
            0 <= k < terms.len() ==> score_fits(#[trigger] terms[k], scores(terms, shown)[k]),
        sum_least(terms) <= subtotals(scores(terms, shown)) <= sum_most(terms),
    decreases terms.len(),
{
    if terms.len() > 0 {
        let rest = terms.drop_last();
        let before = shown.drop_last();
        assert forall|k: int| 0 <= k < rest.len() implies term_plays(#[trigger] rest[k])
            && fair_pool(rest[k], before[k]) by {
            assert(rest[k] == terms[k]);
        }
        lemma_scores_in_range(rest, before);
        let n = terms.len() - 1;
        assert(term_plays(terms[n]) && fair_pool(terms[n], shown[n]));
        lemma_fair_is_possible(terms[n], shown[n]);
        scores_in_range(terms[n], shown[n]);
        assert(scores(terms, shown).drop_last() =~= scores(rest, before));
        assert forall|k: int| 0 <= k < terms.len() implies score_fits(
            #[trigger] terms[k],
            scores(terms, shown)[k],
        ) by {
            if k < n {
                assert(score_fits(rest[k], scores(rest, before)[k]));
            }
        }
    }
}

/// Whatever the dice of a roll that can be thrown show, an `i32` holds what it comes to,
/// which is no less than its least and no more than its most.
pub proof fn playable_rolls_fit(r: RollView, shown: Seq<Seq<u32>>)
    requires
        playable(r),
        fair_pools(r.terms, shown),
    ensures
        outcome_fits(r, scores(r.terms, shown)),
        sum_least(r.terms) <= subtotals(scores(r.terms, shown)) <= sum_most(r.terms),
{
    lemma_scores_in_range(r.terms, shown);
}

/// Throws the pools of all terms of the roll.
pub fn throw_pools(roll: &Roll, rng: &mut StdRng) -> (shown: Vec<Vec<u32>>)
    requires
        all_sided(roll@.terms),
    ensures
        pool_views(shown@) == pools(roll@.terms, upcoming(*old(rng))).0,
        continues(
            upcoming(*final(rng)),
            upcoming(*old(rng)),
            pools(roll@.terms, upcoming(*old(rng))).1,
        ),
        fair_pools(roll@.terms, pool_views(shown@)),
{
    let ghost store = upcoming(*rng);
    let ghost want = roll@.terms;
    let mut shown: Vec<Vec<u32>> = Vec::new();
    let mut k: usize = 0;
    proof {
        lemma_nothing_drawn(store);
        assert(want.take(0) == Seq::<TermView>::empty());
        assert(pool_views(shown@) == Seq::<Seq<u32>>::empty());
    }
    while k < roll.terms.len()
        invariant
            k <= roll.terms@.len(),
            want == roll@.terms,
            all_sided(want),
            shown@.len() == k,
            pool_views(shown@) == pools(want.take(k as int), store).0,
            continues(upcoming(*rng), store, pools(want.take(k as int), store).1),
            forall|j: int| 0 <= j < k ==> fair_pool(#[trigger] want[j], pool_views(shown@)[j]),
        decreases roll.terms@.len() - k,
    {
        let ghost drawn = pools(want.take(k as int), store).1;
        let ghost then = upcoming(*rng);
        let ghost views = pool_views(shown@);
        let term = &roll.terms[k];
        assert(want[k as int].sides >= 1);
        let faces = roll_pool(term, rng);
        proof {
            lemma_pool_shift(then, store, drawn, term@);
            lemma_draws_on(upcoming(*rng), then, store, drawn, term.sides, faces@.len());
            assert(want.take(k + 1).drop_last() == want.take(k as int));
        }
        shown.push(faces);
        proof {
            let next = pool_views(shown@);
            assert(next == views.push(faces@));
            assert forall|j: int| 0 <= j < k + 1 implies fair_pool(#[trigger] want[j], next[j]) by {
                if j < k {
                    assert(next[j] == views[j]);
                }
            }
        }
        k += 1;
    }
    assert(want.take(k as int) == want);
    shown
}

/// Resolves the roll whose pools show `shown`, where an `i32` holds what it comes to.
pub fn resolve(expression: &str, roll: &Roll, shown: &Vec<Vec<u32>>) -> (outcome: Option<Outcome>)
    requires
        shown@.len() == roll.terms@.len(),
        forall|k: int|
            0 <= k < shown@.len() ==> (#[trigger] shown@[k])@.len() >= roll.terms@[k].count,
    ensures
        match outcome {
            Some(outcome) => {
                &&& outcome_fits(roll@, scores(roll@.terms, pool_views(shown@)))
                &&& outcome@ == concluded(
                    expression@,
                    roll@,
                    scores(roll@.terms, pool_views(shown@)),
                )
            },
            None => !outcome_fits(roll@, scores(roll@.terms, pool_views(shown@))),
        },
{
    let ghost want = roll@.terms;
    let ghost views = pool_views(shown@);
    let mut terms: Vec<OutcomeTerm> = Vec::new();
    let mut k: usize = 0;
    while k < roll.terms.len()
        invariant
            k <= roll.terms@.len(),
            shown@.len() == roll.terms@.len(),
            forall|j: int|
                0 <= j < shown@.len() ==> (#[trigger] shown@[j])@.len() >= roll.terms@[j].count,
            want == roll@.terms,
            views == pool_views(shown@),
            terms@.len() == k,
            forall|j: int|
                0 <= j < k ==> score_fits(#[trigger] want[j], scores(want, views)[j]),
            forall|j: int|
                0 <= j < k ==> outcome_views(terms@)[j] == #[trigger] scores(want, views)[j],
        decreases roll.terms@.len() - k,
    {
        let ghost before = outcome_views(terms@);
        assert(shown@[k as int]@.len() >= roll.terms@[k as int].count);
        assert(views[k as int] == shown@[k as int]@);
        match try_score(&roll.terms[k], &shown[k]) {
            None => {
                assert(!score_fits(want[k as int], scores(want, views)[k as int]));
                return None;
            },
            Some(out) => {
                terms.push(out);
                assert forall|j: int| 0 <= j < k + 1 implies outcome_views(terms@)[j]
                    == #[trigger] scores(want, views)[j] by {
                    if j < k {
                        assert(outcome_views(terms@)[j] == before[j]);
                    }
                }
            },
        }
        k += 1;
    }
    assert(outcome_views(terms@) =~= scores(want, views));
    let total: i128 = sum_up(roll, &terms);
    if total < i32::MIN as i128 || total > i32::MAX as i128 {
        return None;
    }
    Some(conclude(expression, roll, terms))
}

/// Throws the roll once and resolves it, where an `i32` holds what it comes to.
pub fn try_evaluate(expression: &str, roll: &Roll, rng: &mut StdRng) -> (outcome: Option<Outcome>)
    requires
        all_sided(roll@.terms),
    ensures
        ({
            let shown = pools(roll@.terms, upcoming(*old(rng))).0;
            let terms = resolved(roll@.terms, upcoming(*old(rng))).0;
            &&& fair_pools(roll@.terms, shown)
            &&& terms == scores(roll@.terms, shown)
            &&& outcome is Some <==> outcome_fits(roll@, terms)
            &&& outcome matches Some(o) ==> o@ == concluded(expression@, roll@, terms)
        }),
        continues(
            upcoming(*final(rng)),
            upcoming(*old(rng)),
            resolved(roll@.terms, upcoming(*old(rng))).1,
        ),
{
    proof {
        lemma_resolved(roll@.terms, upcoming(*rng));
    }
    let shown = throw_pools(roll, rng);
    assert forall|k: int| 0 <= k < shown@.len() implies (#[trigger] shown@[k])@.len()
        >= roll.terms@[k].count by {
        assert(fair_pool(roll@.terms[k], pool_views(shown@)[k]));
    }
    resolve(expression, roll, &shown)
}

/// Throws the roll once and resolves it.
pub fn evaluate(expression: &str, roll: &Roll, rng: &mut StdRng) -> (outcome: Outcome)
    requires
        playable(roll@),
    ensures
        outcome@ == concluded(
            expression@,
            roll@,
            resolved(roll@.terms, upcoming(*old(rng))).0,
        ),
        continues(
            upcoming(*final(rng)),
            upcoming(*old(rng)),
            resolved(roll@.terms, upcoming(*old(rng))).1,
        ),
        fairly_thrown(roll@.terms, outcome@),
        roll.modifier + sum_least(roll@.terms) <= outcome.total <= roll.modifier + sum_most(
            roll@.terms,
        ),
{
    let ghost store = upcoming(*rng);
    proof {
        lemma_playable_is_sided(roll@);
    }
    let outcome = try_evaluate(expression, roll, rng);
    proof {
        playable_rolls_fit(roll@, pools(roll@.terms, store).0);
        lemma_resolved(roll@.terms, store);
        lemma_fairly_thrown(roll@.terms, pools(roll@.terms, store).0, outcome->0@);
    }
    outcome.unwrap()
}

/// Whether each of the outcome's terms shows a pool that the term can throw: faces of
/// its dice, and one die more for each that explodes, up to the cap.
pub open spec fn fairly_thrown(terms: Seq<TermView>, o: OutcomeView) -> bool {
    &&& o.terms.len() == terms.len()
    &&& forall|k: int|
        0 <= k < terms.len() ==> fair_pool(#[trigger] terms[k], values_of(o.terms[k].dice))
}

/// An outcome that is resolved on fair pools shows them.
pub proof fn lemma_fairly_thrown(terms: Seq<TermView>, shown: Seq<Seq<u32>>, o: OutcomeView)
    requires
        fair_pools(terms, shown),
        o.terms == scores(terms, shown),
    ensures
        fairly_thrown(terms, o),
{
    assert forall|k: int| 0 <= k < terms.len() implies fair_pool(
        #[trigger] terms[k],
        values_of(o.terms[k].dice),
    ) by {
        assert(values_of(o.terms[k].dice) =~= shown[k]);
    }
}

proof fn lemma_playable_is_sided(r: RollView)
    requires
        playable(r),
    ensures
        all_sided(r.terms),
{
    assert forall|k: int| 0 <= k < r.terms.len() implies (#[trigger] r.terms[k]).sides >= 1 by {
        assert(term_plays(r.terms[k]));
    }
}

/// Throws the roll once and returns its total alone.
pub fn sample_total(roll: &Roll, rng: &mut StdRng) -> (total: i32)
    requires
        playable(roll@),
    ensures
        total == roll.modifier + subtotals(resolved(roll@.terms, upcoming(*old(rng))).0),
        roll.modifier + sum_least(roll@.terms) <= total <= roll.modifier + sum_most(roll@.terms),
        continues(
            upcoming(*final(rng)),
            upcoming(*old(rng)),
            resolved(roll@.terms, upcoming(*old(rng))).1,
        ),
{
    evaluate("", roll, rng).total
}

/// A dropped die is neither a crit nor a fumble, and a die that an explosion added is
/// always kept.
pub proof fn only_kept_dice_shine(t: TermView, faces: Seq<u32>, k: int)
    requires
        0 <= k < faces.len(),
    ensures
        !judged(t, faces)[k].kept ==> !judged(t, faces)[k].crit && !judged(t, faces)[k].fumble,
        k >= t.count ==> judged(t, faces)[k].kept && judged(t, faces)[k].exploded,
        k < t.count ==> !judged(t, faces)[k].exploded,
{
}

/// Of two dice of a pool from which the highest are kept, or the lowest dropped, one
/// that is kept shows no less than one that is not; and as many are kept as is said.
pub proof fn keeping_high_keeps_the_best(values: Seq<u32>, n: u32, i: int, j: int)
    requires
        0 <= i < values.len(),
        0 <= j < values.len(),
        n <= values.len(),
    ensures
        keeps(values, seq![TermMod::KeepHigh(n)])[i] && !keeps(
            values,
            seq![TermMod::KeepHigh(n)],
        )[j] ==> values[i] >= values[j],
        in_play(keeps(values, seq![TermMod::KeepHigh(n)]), values.len() as int) == n,
        keeps(values, seq![TermMod::DropLow(n)])[i] && !keeps(
            values,
            seq![TermMod::DropLow(n)],
        )[j] ==> values[i] >= values[j],
        in_play(keeps(values, seq![TermMod::DropLow(n)]), values.len() as int) == values.len() - n,
{
    let all = keeps(values, Seq::empty());
    let keep = seq![TermMod::KeepHigh(n)];
    let drop = seq![TermMod::DropLow(n)];
    assert(keep.drop_last() == Seq::<TermMod>::empty());
    assert(drop.drop_last() == Seq::<TermMod>::empty());
    keeps_exactly(values, keep);
    keeps_exactly(values, drop);
    keeps_exactly(values, Seq::empty());
    reveal_with_fuel(kept_count, 2);
    if keeps(values, keep)[i] && !keeps(values, keep)[j] {
        narrowing_keeps_the_best(values, all, n as nat, true, i, j);
    }
    if keeps(values, drop)[i] && !keeps(values, drop)[j] {
        narrowing_keeps_the_best(values, all, (values.len() - n) as nat, true, i, j);
    }
}

/// Of two dice of a pool from which the lowest are kept, or the highest dropped, one
/// that is kept shows no more than one that is not; and as many are kept as is said.
pub proof fn keeping_low_keeps_the_worst(values: Seq<u32>, n: u32, i: int, j: int)
    requires
        0 <= i < values.len(),
        0 <= j < values.len(),
        n <= values.len(),
    ensures
        keeps(values, seq![TermMod::KeepLow(n)])[i] && !keeps(
            values,
            seq![TermMod::KeepLow(n)],
        )[j] ==> values[i] <= values[j],
        in_play(keeps(values, seq![TermMod::KeepLow(n)]), values.len() as int) == n,
        keeps(values, seq![TermMod::DropHigh(n)])[i] && !keeps(
            values,
            seq![TermMod::DropHigh(n)],
        )[j] ==> values[i] <= values[j],
        in_play(keeps(values, seq![TermMod::DropHigh(n)]), values.len() as int) == values.len() - n,
{
    let all = keeps(values, Seq::empty());
    let keep = seq![TermMod::KeepLow(n)];
    let drop = seq![TermMod::DropHigh(n)];
    assert(keep.drop_last() == Seq::<TermMod>::empty());
    assert(drop.drop_last() == Seq::<TermMod>::empty());
    keeps_exactly(values, keep);
    keeps_exactly(values, drop);
    keeps_exactly(values, Seq::empty());
    reveal_with_fuel(kept_count, 2);
    if keeps(values, keep)[i] && !keeps(values, keep)[j] {
        narrowing_keeps_the_best(values, all, n as nat, false, i, j);
    }
    if keeps(values, drop)[i] && !keeps(values, drop)[j] {
        narrowing_keeps_the_best(values, all, (values.len() - n) as nat, false, i, j);
    }
}

/// Keep and drop modifiers compose: one more never brings a die back, a keep leaves at
/// most as many dice in play as it says, and a drop takes that many of those that
/// the modifiers before it left.
pub proof fn modifiers_narrow_in_turn(values: Seq<u32>, mods: Seq<TermMod>, m: TermMod, i: int)
    requires
        0 <= i < values.len(),
    ensures
        keeps(values, mods.push(m))[i] ==> keeps(values, mods)[i],
        ({
            let before = in_play(keeps(values, mods), values.len() as int) as int;
            let after = in_play(keeps(values, mods.push(m)), values.len() as int) as int;
            match m {
                TermMod::KeepHigh(n) => after == if n < before { n as int } else { before },
                TermMod::KeepLow(n) => after == if n < before { n as int } else { before },
                TermMod::DropHigh(n) => after == if n < before { before - n } else { 0 },
                TermMod::DropLow(n) => after == if n < before { before - n } else { 0 },
                _ => keeps(values, mods.push(m)) == keeps(values, mods),
            }
        }),
{
    let all = mods.push(m);
    assert(all.drop_last() == mods);
    keeps_exactly(values, mods);
    keeps_exactly(values, all);
}

/// What makes a stake one way misses it the other way, but for the target itself,
/// which makes both.
pub proof fn stakes_mirror_each_other(total: int, target: i32)
    ensures
        ({
            let over = lead(total, Stake { target, goal: Goal::Over });
            let under = lead(total, Stake { target, goal: Goal::Under });
            &&& over == -under
            &&& over >= 0 && under >= 0 <==> total == target
        }),
{
}

/// The dice that have been drawn for a roll are as many as its pools hold, so that the
/// next roll begins with the next die.
pub proof fn rolls_follow_each_other(terms: Seq<TermView>, faces: Map<Seq<u32>, u32>)
    ensures
        resolved(terms, faces).0.len() == terms.len(),
        resolved(terms, faces).1.len() == dice_in(resolved(terms, faces).0),
    decreases terms.len(),
{
    if terms.len() > 0 {
        rolls_follow_each_other(terms.drop_last(), faces);
        let before = resolved(terms.drop_last(), faces).0;
        let all = resolved(terms, faces).0;
        assert(all.drop_last() == before);
    }
}

/// How many dice the terms hold.
pub open spec fn dice_in(terms: Seq<OutcomeTermView>) -> nat
    decreases terms.len(),
{
    if terms.len() == 0 {
        0
    } else {
        dice_in(terms.drop_last()) + terms.last().dice.len()
    }
}

/// A pool never holds more dice than its own and those that the cap allows; no more
/// than its own where none of its faces explodes.
pub proof fn explosions_are_capped(t: TermView, faces: Seq<u32>)
    requires
        fair_pool(t, faces),
    ensures
        t.count <= faces.len() <= t.count + most_added(t) <= t.count + MAX_EXPLOSIONS,
{
    lemma_fair_is_possible(t, faces);
}

/// Of two dice that are in play before a keep or drop modifier, one that it leaves in
/// play shows no less than one that it takes out, where it keeps the high dice or drops
/// the low ones, and no more where it keeps the low dice or drops the high ones; whatever
/// modifiers stand before it. Of two that show the same, the later one stays in the first
/// case and the earlier one in the second. Where there is no modifier, every die is in
/// play.
pub proof fn each_modifier_keeps_the_best(
    values: Seq<u32>,
    mods: Seq<TermMod>,
    m: TermMod,
    i: int,
    j: int,
)
    requires
        0 <= i < values.len(),
        0 <= j < values.len(),
        keeps(values, mods.push(m))[i],
        keeps(values, mods)[j],
        !keeps(values, mods.push(m))[j],
    ensures
        keeps(values, mods)[i],
        m is KeepHigh || m is DropLow ==> values[i] > values[j] || (values[i] == values[j] && i
            > j),
        m is KeepLow || m is DropHigh ==> values[i] < values[j] || (values[i] == values[j] && i
            < j),
        m is KeepHigh || m is DropLow || m is KeepLow || m is DropHigh,
        keeps(values, Seq::empty())[i],
{
    let all = mods.push(m);
    assert(all.drop_last() == mods);
    keeps_exactly(values, mods);
    keeps_exactly(values, Seq::empty());
    let before = keeps(values, mods);
    if let Some((high, n)) = keep_rule(m, in_play(before, values.len() as int)) {
        narrowing_keeps_the_best(values, before, n, high, i, j);
        if values[i] == values[j] {
            narrowing_breaks_ties(values, before, n, high, i, j);
        }
    }
}

/// Without a keep or drop modifier every die is in play, and no more flags are given than
/// there are dice.
pub proof fn all_dice_are_in_play_at_first(values: Seq<u32>, i: int)
    requires
        0 <= i < values.len(),
    ensures
        keeps(values, Seq::empty())[i],
        keeps(values, Seq::empty()).len() == values.len(),
{
}

/// A total leads an over stake by what it has more than the target, and an under stake by
/// what it has less: a greater total never hurts the one nor helps the other.
pub proof fn leads_measure_the_distance(total: int, more: int, target: i32)
    requires
        total <= more,
    ensures
        lead(total, (Stake { target, goal: Goal::Over })) + target == total,
        lead(total, (Stake { target, goal: Goal::Under })) + total == target,
        lead(more, (Stake { target, goal: Goal::Over })) - lead(
            total,
            (Stake { target, goal: Goal::Over }),
        ) == more - total,
        lead(total, (Stake { target, goal: Goal::Under })) - lead(
            more,
            (Stake { target, goal: Goal::Under }),
        ) == more - total,
{
}

/// A margin that an `i32` holds is told as it is; one that it does not hold as the nearest
/// that it does. The order of two margins is never turned round.
pub proof fn margins_are_clamped_in_order(a: int, b: int)
    requires
        a <= b,
    ensures
        in_i32(a) ==> clamped(a) == a,
        a > i32::MAX ==> clamped(a) == i32::MAX,
        a < i32::MIN ==> clamped(a) == i32::MIN,
        i32::MIN <= clamped(a) <= clamped(b) <= i32::MAX,
        (clamped(a) >= 0) == (a >= 0),
{
}

/// An `i32` holds the numbers from -2 147 483 648 to 2 147 483 647.
pub proof fn an_i32_has_its_limits(n: int)
    ensures
        in_i32(n) <==> -0x8000_0000 <= n < 0x8000_0000,
{
}

/// The words of a verdict begin with the verdict and end with how far it was made or
/// missed; a stake that is hit on the head is told apart.
pub proof fn verdicts_say_by_how_much(margin: int)
    ensures
        margin > 0 ==> verdict_words(true, margin) == "SUCCESS by "@ + dec(margin as nat),
        verdict_words(true, 0) == "SUCCESS — exactly"@,
        margin < 0 ==> verdict_words(false, margin) == "FAIL by "@ + dec((-margin) as nat),
{
}

/// The highest face of a die with two sides or more is a crit and a 1 on it a fumble;
/// nothing else is either, and no face is both.
pub proof fn crits_and_fumbles_are_the_extremes(sides: u32, value: u32)
    requires
        1 <= value <= sides,
    ensures
        is_crit(sides, value) <==> sides > 1 && forall|f: u32|
            1 <= f <= sides ==> #[trigger] at_most(f, value),
        is_fumble(sides, value) <==> sides > 1 && forall|f: u32|
            1 <= f <= sides ==> #[trigger] at_most(value, f),
        !(is_crit(sides, value) && is_fumble(sides, value)),
{
    if forall|f: u32| 1 <= f <= sides ==> #[trigger] at_most(f, value) {
        assert(at_most(sides, value));
    }
    if forall|f: u32| 1 <= f <= sides ==> #[trigger] at_most(value, f) {
        assert(at_most(value, 1));
    }
}

/// Whether `a` is at most `b`.
pub open spec fn at_most(a: u32, b: u32) -> bool {
    a <= b
}

/// A face meets a comparison as the sign says.
pub proof fn comparisons_mean_what_they_say(n: u32, v: u32)
    ensures
        Compare::Eq(n).met(v) <==> v == n,
        Compare::Gt(n).met(v) <==> v > n,
        Compare::Lt(n).met(v) <==> v < n,
{
}

/// The first explosion among the modifiers decides on what face the dice of a term
/// explode, a bare one on their highest; where there is none they do not.
pub proof fn the_first_explosion_decides(mods: Seq<TermMod>, k: int, sides: u32)
    requires
        0 <= k <= mods.len(),
        forall|j: int| 0 <= j < k ==> !((#[trigger] mods[j]) is Explode),
    ensures
        k == mods.len() ==> explodes_on(mods, sides) is None,
        k < mods.len() && mods[k] == TermMod::Explode(None) ==> explodes_on(mods, sides) == Some(
            Compare::Eq(sides),
        ),
        k < mods.len() && mods[k] is Explode && mods[k]->Explode_0 is Some ==> explodes_on(
            mods,
            sides,
        ) == mods[k]->Explode_0,
    decreases k,
{
    if k > 0 {
        let rest = mods.drop_first();
        assert forall|j: int| 0 <= j < k - 1 implies !((#[trigger] rest[j]) is Explode) by {
            assert(rest[j] == mods[j + 1]);
        }
        assert(!(mods[0] is Explode));
        if k < mods.len() {
            assert(rest[k - 1] == mods[k]);
        }
        the_first_explosion_decides(rest, k - 1, sides);
    }
}

/// The multiplier of a term is the product of its multiplications, and nothing else
/// among its modifiers has a part in it.
pub proof fn multipliers_multiply(a: Seq<TermMod>, b: Seq<TermMod>, m: TermMod, n: i32)
    ensures
        product(a + b) == product(a) * product(b),
        product(seq![TermMod::Mul(n)]) == n,
        !(m is Mul) ==> product(seq![m]) == 1,
        product(Seq::empty()) == 1,
    decreases b.len(),
{
    assert(seq![TermMod::Mul(n)].drop_last() == Seq::<TermMod>::empty());
    assert(seq![m].drop_last() == Seq::<TermMod>::empty());
    assert(product(Seq::empty()) == 1);
    reveal_with_fuel(product, 2);
    if b.len() == 0 {
        assert(a + b == a);
    } else {
        multipliers_multiply(a, b.drop_last(), m, n);
        assert((a + b).drop_last() == a + b.drop_last());
        assert(product(a) * product(b.drop_last()) * factor(b.last()) == product(a) * (product(
            b.drop_last(),
        ) * factor(b.last()))) by (nonlinear_arith);
    }
}

/// The kept dice count for their faces and the others for nothing.
pub proof fn kept_dice_add_up(a: Seq<OutcomeDie>, b: Seq<OutcomeDie>, d: OutcomeDie)
    ensures
        kept_sum(a + b) == kept_sum(a) + kept_sum(b),
        kept_sum(seq![d]) == if d.kept { d.value as int } else { 0 },
        kept_sum(Seq::empty()) == 0,
    decreases b.len(),
{
    assert(seq![d].drop_last() == Seq::<OutcomeDie>::empty());
    reveal_with_fuel(kept_sum, 2);
    if b.len() == 0 {
        assert(a + b == a);
    } else {
        kept_dice_add_up(a, b.drop_last(), d);
        assert((a + b).drop_last() == a + b.drop_last());
    }
}

/// What several terms come to is the sum of what each comes to.
pub proof fn subtotals_add_up(
    a: Seq<OutcomeTermView>,
    b: Seq<OutcomeTermView>,
    t: OutcomeTermView,
)
    ensures
        subtotals(a + b) == subtotals(a) + subtotals(b),
        subtotals(seq![t]) == t.subtotal,
        subtotals(Seq::empty()) == 0,
    decreases b.len(),
{
    assert(seq![t].drop_last() == Seq::<OutcomeTermView>::empty());
    reveal_with_fuel(subtotals, 2);
    if b.len() == 0 {
        assert(a + b == a);
    } else {
        subtotals_add_up(a, b.drop_last(), t);
        assert((a + b).drop_last() == a + b.drop_last());
    }
}

/// How many of the faces meet a condition.
pub proof fn hits_add_up(faces: Seq<u32>, f: u32, cond: Compare, m: int)
    requires
        0 <= m <= faces.len(),
    ensures
        hits(faces, cond, 0) == 0,
        hits(faces.push(f), cond, (faces.len() + 1) as int) == hits(faces, cond, faces.len() as int)
            + if cond.met(f) { 1int } else { 0 },
        hits(faces.push(f), cond, m) == hits(faces, cond, m),
{
    lemma_hits_agree(faces.push(f), faces, cond, m);
    lemma_hits_agree(faces.push(f), faces, cond, faces.len() as int);
}

/// A pool that has been thrown fairly shows faces of its die alone. It holds the dice that
/// the term asks for and one more for each of its dice, added ones included, whose face
/// explodes, but no more than forty more; without an explosion among the modifiers it
/// holds just those that the term asks for.
pub proof fn fair_pools_hold_what_exploded(t: TermView, faces: Seq<u32>, k: int)
    requires
        fair_pool(t, faces),
        0 <= k < faces.len(),
    ensures
        1 <= faces[k] <= t.sides,
        explodes_on(t.mods, t.sides) is None ==> faces.len() == t.count,
        explodes_on(t.mods, t.sides) matches Some(cond) ==> {
            let n = hits(faces, cond, faces.len() as int);
            &&& n <= 40 ==> faces.len() == t.count + n
            &&& n >= 40 ==> faces.len() == t.count + 40
        },
{
}

/// Each die of a resolved term shows its face. The term's own dice come first and are kept
/// as the modifiers say, those that explosions added come after them and are always kept;
/// only a kept die crits on its highest face or fumbles on a 1.
pub proof fn resolved_dice_show_the_faces(t: TermView, faces: Seq<u32>, k: int)
    requires
        0 <= k < faces.len(),
    ensures
        scored(t, faces).dice.len() == faces.len(),
        scored(t, faces).dice[k].value == faces[k],
        scored(t, faces).dice[k].exploded <==> k >= t.count,
        k >= t.count ==> scored(t, faces).dice[k].kept,
        k < t.count <= faces.len() ==> scored(t, faces).dice[k].kept == keeps(
            faces.take(t.count as int),
            t.mods,
        )[k],
        scored(t, faces).dice[k].crit <==> scored(t, faces).dice[k].kept && is_crit(
            t.sides,
            faces[k],
        ),
        scored(t, faces).dice[k].fumble <==> scored(t, faces).dice[k].kept && is_fumble(
            t.sides,
            faces[k],
        ),
{
}

/// A term comes to the sum of its kept dice times the product of its multiplications. One
/// multiplication more multiplies what it comes to, and leaves its dice alone.
pub proof fn multiplying_scales_the_subtotal(t: TermView, faces: Seq<u32>, n: i32)
    ensures
        scored(t, faces).multiplier == product(t.mods),
        product(t.mods) == 1 ==> scored(t, faces).subtotal == kept_sum(scored(t, faces).dice),
        scored(t, faces).sides == t.sides,
        scored(t, faces).notation == notation(t),
        ({
            let more = TermView { mods: t.mods.push(TermMod::Mul(n)), ..t };
            &&& scored(more, faces).dice == scored(t, faces).dice
            &&& scored(more, faces).subtotal == scored(t, faces).subtotal * n
        }),
{
    let more = TermView { mods: t.mods.push(TermMod::Mul(n)), ..t };
    assert(more.mods.drop_last() == t.mods);
    assert(judged(more, faces) =~= judged(t, faces));
    let sum = kept_sum(judged(t, faces));
    assert(sum * (product(t.mods) * n) == sum * product(t.mods) * n) by (nonlinear_arith);
    assert(sum * 1 == sum);
}

/// An outcome holds the expression and the terms as they are, the flat modifier, and the
/// sum of all. A staked roll is judged: an over stake is made by a total that meets or
/// beats the target, an under stake by one that stays at or below it, and the margin is
/// the distance. A roll without a stake is not judged.
pub proof fn outcomes_are_judged_by_the_stake(
    expression: Seq<char>,
    r: RollView,
    terms: Seq<OutcomeTermView>,
)
    ensures
        ({
            let o = concluded(expression, r, terms);
            &&& o.expression == expression
            &&& o.terms == terms
            &&& o.modifier == r.modifier
            &&& o.total - subtotals(terms) == r.modifier
            &&& r.stake is None ==> o.target is None && o.goal is None && o.success is None
                && o.margin is None
            &&& r.stake matches Some(stake) ==> {
                &&& o.target == Some(stake.target)
                &&& o.goal == Some(stake.goal)
                &&& stake.goal is Over ==> {
                    &&& o.success == Some(o.total >= stake.target)
                    &&& in_i32(o.total - stake.target) ==> o.margin == Some(
                        (o.total - stake.target) as i32,
                    )
                }
                &&& stake.goal is Under ==> {
                    &&& o.success == Some(o.total <= stake.target)
                    &&& in_i32(stake.target - o.total) ==> o.margin == Some(
                        (stake.target - o.total) as i32,
                    )
                }
            }
        }),
{
}

/// The terms of a roll are resolved one by one, in order, and no term has a part in how
/// one before it comes out.
pub proof fn terms_are_resolved_in_order(
    terms: Seq<TermView>,
    t: TermView,
    faces: Map<Seq<u32>, u32>,
    k: int,
)
    requires
        0 <= k < terms.len(),
    ensures
        resolved(terms.push(t), faces).0.len() == terms.len() + 1,
        resolved(terms.push(t), faces).0[k] == resolved(terms, faces).0[k],
        resolved(terms, faces).0[k].notation == notation(terms[k]),
        resolved(terms, faces).0[k].sides == terms[k].sides,
        resolved(terms, faces).0[k].multiplier == product(terms[k].mods),
        exists|shown: Seq<u32>|
            resolved(terms, faces).0[k] == #[trigger] scored(terms[k], shown),
{
    assert(terms.push(t).drop_last() == terms);
    lemma_resolved(terms, faces);
    lemma_resolved(terms.push(t), faces);
    let shown = pools(terms, faces).0[k];
    assert(resolved(terms, faces).0[k] == scored(terms[k], shown));
}

/// Each modifier is written with its sign or word and its number, and a run of modifiers
/// as one after the other.
pub proof fn modifiers_are_written_in_order(a: Seq<TermMod>, b: Seq<TermMod>, n: u32, k: i32)
    ensures
        mod_text(TermMod::KeepHigh(n)) == "kh"@ + dec(n as nat),
        mod_text(TermMod::KeepLow(n)) == "kl"@ + dec(n as nat),
        mod_text(TermMod::DropHigh(n)) == "dh"@ + dec(n as nat),
        mod_text(TermMod::DropLow(n)) == "dl"@ + dec(n as nat),
        mod_text(TermMod::Explode(None)) == "!"@,
        mod_text(TermMod::Explode(Some(Compare::Eq(n)))) == "!="@ + dec(n as nat),
        mod_text(TermMod::Explode(Some(Compare::Gt(n)))) == "!>"@ + dec(n as nat),
        mod_text(TermMod::Explode(Some(Compare::Lt(n)))) == "!<"@ + dec(n as nat),
        mod_text(TermMod::Mul(k)) == "*"@ + dec_int(k as int),
        mods_text(Seq::empty()) == Seq::<char>::empty(),
        mods_text(seq![TermMod::Mul(k)]) == mod_text(TermMod::Mul(k)),
        mods_text(a + b) == mods_text(a) + mods_text(b),
    decreases b.len(),
{
    let one = seq![TermMod::Mul(k)];
    assert(one.drop_last() =~= Seq::<TermMod>::empty());
    reveal_with_fuel(mods_text, 2);
    assert(mods_text(one) =~= mod_text(TermMod::Mul(k)));
    if b.len() == 0 {
        assert(a + b =~= a);
        assert(mods_text(a) + mods_text(b) =~= mods_text(a));
    } else {
        modifiers_are_written_in_order(a, b.drop_last(), n, k);
        assert((a + b).drop_last() =~= a + b.drop_last());
        assert(mods_text(a + b) =~= mods_text(a) + mods_text(b));
    }
}

/// A term is written with its count, unless it is one die, its sides and its modifiers.
pub proof fn terms_are_written_by_parts(t: TermView)
    ensures
        t.count == 1 ==> notation(t) == "d"@ + dec(t.sides as nat) + mods_text(t.mods),
        t.count != 1 ==> notation(t) == dec(t.count as nat) + "d"@ + dec(t.sides as nat)
            + mods_text(t.mods),
{
    assert(Seq::<char>::empty() + "d"@ =~= "d"@);
}

/// The pools as one run of dice.
pub open spec fn in_a_row(shown: Seq<Seq<u32>>) -> Seq<u32>
    decreases shown.len(),
{
    if shown.len() == 0 {
        Seq::empty()
    } else {
        in_a_row(shown.drop_last()) + shown.last()
    }
}

proof fn lemma_pool_drawn(faces: Map<Seq<u32>, u32>, drawn: Seq<u32>, t: TermView, k: int)
    requires
        0 <= k < pool(faces, drawn, t).len(),
    ensures
        pool(faces, drawn, t)[k] == faces[(drawn + like(t.sides, pool(faces, drawn, t).len())).take(
            drawn.len() + k + 1,
        )],
{
    let n = pool(faces, drawn, t).len();
    assert((drawn + like(t.sides, n)).take(drawn.len() + k + 1) =~= drawn + like(
        t.sides,
        (k + 1) as nat,
    ));
}

/// The dice of a roll are drawn one after the other, none twice and none left out: the die
/// number `m` of all the pools shows what is in store for the first `m + 1` dice.
pub proof fn dice_are_drawn_in_a_row(terms: Seq<TermView>, faces: Map<Seq<u32>, u32>, m: int)
    requires
        0 <= m < in_a_row(pools(terms, faces).0).len(),
    ensures
        in_a_row(pools(terms, faces).0).len() == pools(terms, faces).1.len(),
        in_a_row(pools(terms, faces).0)[m] == faces[pools(terms, faces).1.take(m + 1)],
        resolved(terms, faces).1 == pools(terms, faces).1,
        resolved(terms, faces).0 == scores(terms, pools(terms, faces).0),
    decreases terms.len(),
{
    lemma_resolved(terms, faces);
    lemma_row_len(terms, faces);
    if terms.len() > 0 {
        let t = terms.last();
        let (before, drawn) = pools(terms.drop_last(), faces);
        let all = pools(terms, faces).0;
        let shown = pool(faces, drawn, t);
        assert(all.drop_last() =~= before);
        lemma_row_len(terms.drop_last(), faces);
        if m < drawn.len() {
            dice_are_drawn_in_a_row(terms.drop_last(), faces, m);
            assert(pools(terms, faces).1.take(m + 1) =~= drawn.take(m + 1));
        } else {
            lemma_pool_drawn(faces, drawn, t, m - drawn.len());
        }
    }
}

proof fn lemma_row_len(terms: Seq<TermView>, faces: Map<Seq<u32>, u32>)
    ensures
        in_a_row(pools(terms, faces).0).len() == pools(terms, faces).1.len(),
    decreases terms.len(),
{
    if terms.len() > 0 {
        let (before, drawn) = pools(terms.drop_last(), faces);
        lemma_row_len(terms.drop_last(), faces);
        assert(pools(terms, faces).0.drop_last() =~= before);
    }
}

/// The dice drawn for a term come after those of the terms before it and have its sides; a
/// term without explosions draws as many as it has dice.
pub proof fn terms_draw_their_own_dice(terms: Seq<TermView>, t: TermView, faces: Map<Seq<u32>, u32>)
    ensures
        ({
            let before = pools(terms, faces).1;
            let after = pools(terms.push(t), faces).1;
            &&& before.is_prefix_of(after)
            &&& forall|k: int| before.len() <= k < after.len() ==> #[trigger] after[k] == t.sides
            &&& explodes_on(t.mods, t.sides) is None ==> after.len() == before.len() + t.count
        }),
{
    assert(terms.push(t).drop_last() == terms);
}

/// A die calls for one more where it meets the condition, as long as explosions of its term
/// have added fewer than forty.
pub proof fn matching_dice_call_for_more(n: u32, face: u32, spawned: int)
    ensures
        calls_for_more(Compare::Eq(n), face, spawned) <==> spawned < 40 && face == n,
        calls_for_more(Compare::Gt(n), face, spawned) <==> spawned < 40 && face > n,
        calls_for_more(Compare::Lt(n), face, spawned) <==> spawned < 40 && face < n,
{
}

/// Explosions can add forty dice to a term where one of its faces meets the condition, and
/// none where none does.
pub proof fn explosions_need_a_face(t: TermView, n: u32)
    ensures
        can_meet(Compare::Eq(n), t.sides) <==> 1 <= n <= t.sides,
        can_meet(Compare::Gt(n), t.sides) <==> n < t.sides,
        can_meet(Compare::Lt(n), t.sides) <==> 1 < n && 1 <= t.sides,
        explodes_on(t.mods, t.sides) is None ==> most_added(t) == 0,
        explodes_on(t.mods, t.sides) matches Some(cond) ==> most_added(t) == if can_meet(
            cond,
            t.sides,
        ) {
            40int
        } else {
            0
        },
{
    if 1 <= n <= t.sides {
        assert(Compare::Eq(n).met(n));
    }
    if n < t.sides {
        assert(Compare::Gt(n).met(t.sides));
    }
    if 1 < n && 1 <= t.sides {
        assert(Compare::Lt(n).met(1));
    }
}

proof fn lemma_even_faces(t: TermView, v: u32, m: int)
    requires
        0 <= m <= t.count,
    ensures
        kept_sum(judged(t, like(v, t.count as nat)).take(m)) == in_play(
            keeps(like(v, t.count as nat), t.mods),
            m,
        ) * v,
    decreases m,
{
    let faces = like(v, t.count as nat);
    let dice = judged(t, faces);
    assert(faces.take(t.count as int) =~= faces);
    let flags = keeps(faces, t.mods);
    if m > 0 {
        lemma_even_faces(t, v, m - 1);
        assert(dice.take(m).drop_last() =~= dice.take(m - 1));
        let before = in_play(flags, m - 1) as int;
        assert((before + 1) * v == before * v + v) by (nonlinear_arith);
    } else {
        assert(dice.take(0) =~= Seq::<OutcomeDie>::empty());
        assert(0 * v == 0);
    }
}

/// The range of a term without explosions is reached at both ends: by a pool that shows
/// nothing but ones, and by one that shows nothing but highest faces. Where the multiplier
/// is negative, the ends change places.
pub proof fn ranges_are_reached(t: TermView)
    requires
        explodes_on(t.mods, t.sides) is None,
        t.sides >= 1,
    ensures
        product(t.mods) >= 0 ==> scored(t, like(1, t.count as nat)).subtotal == least(t),
        product(t.mods) >= 0 ==> scored(t, like(t.sides, t.count as nat)).subtotal == most(t),
        product(t.mods) < 0 ==> scored(t, like(1, t.count as nat)).subtotal == most(t),
        product(t.mods) < 0 ==> scored(t, like(t.sides, t.count as nat)).subtotal == least(t),
        kept_sum(judged(t, like(t.sides, t.count as nat))) == reach(t),
        possible_pool(t, like(1, t.count as nat)),
        possible_pool(t, like(t.sides, t.count as nat)),
{
    let low = like(1, t.count as nat);
    let high = like(t.sides, t.count as nat);
    lemma_even_faces(t, 1, t.count as int);
    lemma_even_faces(t, t.sides, t.count as int);
    assert(judged(t, low).take(t.count as int) =~= judged(t, low));
    assert(judged(t, high).take(t.count as int) =~= judged(t, high));
    keeps_exactly(low, t.mods);
    keeps_exactly(high, t.mods);
}

/// Each die that explosions can add widens the range of a term by its sides.
pub proof fn explosions_widen_the_range(t: TermView)
    ensures
        reach(t) == kept_count(t.count as nat, t.mods) * t.sides + most_added(t) * t.sides,
        product(t.mods) == 1 ==> least(t) == kept_count(t.count as nat, t.mods),
        product(t.mods) == 1 ==> most(t) == reach(t),
        product(t.mods) == -1 ==> least(t) == -reach(t),
        product(t.mods) == -1 ==> most(t) == -kept_count(t.count as nat, t.mods),
{
    let kept = kept_count(t.count as nat, t.mods) as int;
    assert((kept + most_added(t)) * t.sides == kept * t.sides + most_added(t) * t.sides)
        by (nonlinear_arith);
    assert(kept * -1 == -kept);
    assert(reach(t) * -1 == -reach(t));
}

/// The range of a roll is the sum of the ranges of its terms.
pub proof fn ranges_add_up(a: Seq<TermView>, b: Seq<TermView>, t: TermView)
    ensures
        sum_least(Seq::empty()) == 0,
        sum_most(Seq::empty()) == 0,
        sum_least(seq![t]) == least(t),
        sum_most(seq![t]) == most(t),
        sum_least(a + b) == sum_least(a) + sum_least(b),
        sum_most(a + b) == sum_most(a) + sum_most(b),
    decreases b.len(),
{
    assert(seq![t].drop_last() =~= Seq::<TermView>::empty());
    reveal_with_fuel(sum_least, 2);
    reveal_with_fuel(sum_most, 2);
    if b.len() == 0 {
        assert(a + b =~= a);
    } else {
        ranges_add_up(a, b.drop_last(), t);
        assert((a + b).drop_last() =~= a + b.drop_last());
    }
}

/// A product fits step by step: with one modifier more it does where it did before and an
/// `i32` holds what it then comes to.
pub proof fn products_fit_step_by_step(mods: Seq<TermMod>, m: TermMod)
    ensures
        product_fits(Seq::empty()),
        product_fits(mods.push(m)) <==> product_fits(mods) && i32::MIN <= product(mods.push(m))
            <= i32::MAX,
{
    let all = mods.push(m);
    let none = Seq::<TermMod>::empty();
    assert forall|k: int| 0 <= k <= none.len() implies in_i32(#[trigger] product(none.take(k))) by {
        assert(none.take(k) =~= none);
    }
    assert(all.take(all.len() as int) =~= all);
    assert forall|k: int| 0 <= k <= mods.len() implies #[trigger] mods.take(k) == all.take(k) by {
        assert(mods.take(k) =~= all.take(k));
    }
    if product_fits(all) {
        assert forall|k: int| 0 <= k <= mods.len() implies in_i32(
            #[trigger] product(mods.take(k)),
        ) by {
            assert(mods.take(k) == all.take(k));
            assert(in_i32(product(all.take(k))));
        }
        assert(in_i32(product(all.take(all.len() as int))));
    }
    if product_fits(mods) && in_i32(product(all)) {
        assert forall|k: int| 0 <= k <= all.len() implies in_i32(#[trigger] product(all.take(k))) by {
            if k <= mods.len() {
                assert(mods.take(k) == all.take(k));
                assert(in_i32(product(mods.take(k))));
            }
        }
    }
}

/// What a term comes to fits where an `i32` holds its multiplier, the sum of its kept dice
/// and its subtotal; what a roll comes to where each of its terms does and an `i32` holds
/// the total.
pub proof fn outcomes_fit_where_all_of_it_does(
    t: TermView,
    out: OutcomeTermView,
    r: RollView,
    terms: Seq<OutcomeTermView>,
)
    ensures
        score_fits(t, out) <==> product_fits(t.mods) && i32::MIN <= kept_sum(out.dice) <= i32::MAX
            && i32::MIN <= out.subtotal <= i32::MAX,
        outcome_fits(r, terms) ==> i32::MIN <= concluded(Seq::empty(), r, terms).total <= i32::MAX,
        outcome_fits(r, terms) ==> forall|k: int|
            0 <= k < r.terms.len() ==> score_fits(#[trigger] r.terms[k], terms[k]),
        (forall|k: int| 0 <= k < r.terms.len() ==> score_fits(#[trigger] r.terms[k], terms[k]))
            && i32::MIN <= concluded(Seq::empty(), r, terms).total <= i32::MAX ==> outcome_fits(
            r,
            terms,
        ),
{
}

/// A roll can be thrown where each of its dice has a side and an `i32` holds each
/// multiplier; it plays where an `i32` also holds the whole range of each term and of the
/// total.
pub proof fn rolls_play_within_an_i32(t: TermView, r: RollView)
    ensures
        term_casts(t) <==> t.sides >= 1 && product_fits(t.mods),
        term_plays(t) <==> t.sides >= 1 && product_fits(t.mods) && reach(t) <= i32::MAX && i32::MIN
            <= least(t) && most(t) <= i32::MAX,
        castable(Seq::empty()),
        castable(r.terms.push(t)) <==> castable(r.terms) && term_casts(t),
        playable(r) ==> castable(r.terms),
        playable(r) <==> (forall|k: int| 0 <= k < r.terms.len() ==> term_plays(#[trigger] r.terms[k]))
            && i32::MIN <= r.modifier + sum_least(r.terms) && r.modifier + sum_most(r.terms)
            <= i32::MAX,
{
    let all = r.terms.push(t);
    if castable(all) {
        assert(term_casts(all[r.terms.len() as int]));
        assert forall|k: int| 0 <= k < r.terms.len() implies term_casts(#[trigger] r.terms[k]) by {
            assert(term_casts(all[k]));
        }
    }
    if playable(r) {
        assert forall|k: int| 0 <= k < r.terms.len() implies term_casts(#[trigger] r.terms[k]) by {
            assert(term_plays(r.terms[k]));
        }
    }
}

/// Views of several things are those of each, in order.
pub proof fn views_go_one_by_one(
    terms: Seq<OutcomeTerm>,
    shown: Seq<Vec<u32>>,
    dice: Seq<OutcomeDie>,
    k: int,
)
    ensures
        outcome_views(terms).len() == terms.len(),
        pool_views(shown).len() == shown.len(),
        values_of(dice).len() == dice.len(),
        0 <= k < terms.len() ==> outcome_views(terms)[k] == terms[k]@,
        0 <= k < shown.len() ==> pool_views(shown)[k] == shown[k]@,
        0 <= k < dice.len() ==> values_of(dice)[k] == dice[k].value,
{
}

/// Dice that are thrown without a term show what is in store, one after the other.
pub proof fn runs_show_what_is_in_store(
    faces: Map<Seq<u32>, u32>,
    drawn: Seq<u32>,
    sides: u32,
    n: nat,
    k: int,
)
    requires
        0 <= k < n,
    ensures
        faces_after(faces, drawn, sides, n).len() == n,
        faces_after(faces, drawn, sides, n)[k] == faces[(drawn + like(sides, n)).take(
            drawn.len() + k + 1,
        )],
        like(sides, n).len() == n,
        like(sides, n)[k] == sides,
{
    assert((drawn + like(sides, n)).take(drawn.len() + k + 1) =~= drawn + like(
        sides,
        (k + 1) as nat,
    ));
}

/// What is known of an outcome is what it holds, term by term.
pub proof fn outcomes_show_what_they_hold(o: Outcome, t: OutcomeTerm)
    ensures
        o@.expression == o.expression@,
        o@.terms == outcome_views(o.terms@),
        o@.modifier == o.modifier,
        o@.total == o.total,
        o@.target == o.target,
        o@.goal == o.goal,
        o@.success == o.success,
        o@.margin == o.margin,
        t@.notation == t.notation@,
        t@.sides == t.sides,
        t@.dice == t.dice@,
        t@.multiplier == t.multiplier,
        t@.subtotal == t.subtotal,
{
}

proof fn lemma_grown_counts(
    faces: Map<Seq<u32>, u32>,
    drawn: Seq<u32>,
    sides: u32,
    cond: Compare,
    count: nat,
    i: nat,
    len: nat,
    spawned: nat,
)
    requires
        i <= len,
        spawned <= MAX_EXPLOSIONS,
        len == count + spawned,
        spawned == added(hits(faces_after(faces, drawn, sides, len), cond, i as int)),
    ensures
        ({
            let m = grown(faces, drawn, sides, cond, i, len, spawned);
            m == count + added(hits(faces_after(faces, drawn, sides, m), cond, m as int))
        }),
    decreases (MAX_EXPLOSIONS - spawned) + (len - i),
{
    if i < len {
        let row = faces_after(faces, drawn, sides, len);
        if calls_for_more(cond, face_at(faces, drawn, sides, i), spawned as int) {
            lemma_hits_agree(
                faces_after(faces, drawn, sides, len + 1),
                row,
                cond,
                (i + 1) as int,
            );
            lemma_grown_counts(faces, drawn, sides, cond, count, i + 1, len + 1, spawned + 1);
        } else {
            lemma_grown_counts(faces, drawn, sides, cond, count, i + 1, len, spawned);
        }
    }
}

/// A pool holds its own dice and one more for each of its dice, added ones too, that shows
/// a face that explodes, until forty have been added; without an explosion its own alone.
pub proof fn pools_grow_by_what_explodes(faces: Map<Seq<u32>, u32>, drawn: Seq<u32>, t: TermView)
    ensures
        explodes_on(t.mods, t.sides) is None ==> pool(faces, drawn, t).len() == t.count,
        explodes_on(t.mods, t.sides) matches Some(cond) ==> {
            let shown = pool(faces, drawn, t);
            let n = hits(shown, cond, shown.len() as int);
            &&& n <= 40 ==> shown.len() == t.count + n
            &&& n >= 40 ==> shown.len() == t.count + 40
        },
{
    if let Some(cond) = explodes_on(t.mods, t.sides) {
        let shown = pool(faces, drawn, t);
        lemma_grown_counts(faces, drawn, t.sides, cond, t.count as nat, 0, t.count as nat, 0);
        assert(shown =~= faces_after(faces, drawn, t.sides, shown.len()));
    }
}

} // verus!
