//! Where dice enter the arena, and how it sounds when they meet it.

use crate::app::App;
use crate::arena::{emitted, SoundEvent};
use vstd::prelude::*;

verus! {

/// The most impacts of one step that are heard.
pub const KNOCK_BUDGET: usize = 8;

/// The columns, the depth slots and the layers that dice enter from.
pub const COLUMNS: usize = 6;

pub const DEPTHS: usize = 3;

pub const LAYERS: usize = 4;

/// Where a die enters: its column out of `columns`, its depth and its layer.
#[derive(Debug, Clone, Copy, PartialEq, Eq, Structural)]
pub struct Slot {
    pub column: usize,
    pub columns: usize,
    pub depth: usize,
    pub layer: usize,
}

/// The columns that `count` dice are spread over.
pub open spec fn columns_for(count: int) -> int {
    if count < 1 {
        1
    } else if count > COLUMNS {
        COLUMNS as int
    } else {
        count
    }
}

/// Where the die number `i` out of `count` enters: across first, then in depth, then a
/// layer down.
pub open spec fn slot_of(i: int, count: int) -> (int, int, int) {
    let n = columns_for(count);
    (i % n, (i / n) % (DEPTHS as int), i / (n * DEPTHS))
}

pub fn slot(i: usize, count: usize) -> (s: Slot)
    ensures
        s.columns == columns_for(count as int),
        (s.column as int, s.depth as int, s.layer as int) == slot_of(i as int, count as int),
{
    let columns: usize = if count < 1 {
        1
    } else if count > COLUMNS {
        COLUMNS
    } else {
        count
    };
    assert(columns * 3 <= 18 && columns * 3 >= 3);
    Slot {
        column: i % columns,
        columns,
        depth: (i / columns) % DEPTHS,
        layer: i / (columns * DEPTHS),
    }
}

/// No two dice enter from the same place, and as many as a roll may begin with stay
/// within the layers.
pub proof fn dice_enter_apart(count: int, i: int, j: int)
    requires
        0 <= i < count,
        0 <= j < count,
    ensures
        slot_of(i, count) == slot_of(j, count) ==> i == j,
        0 <= slot_of(i, count).0 < columns_for(count),
        0 <= slot_of(i, count).1 < DEPTHS,
        count <= COLUMNS * DEPTHS * LAYERS ==> 0 <= slot_of(i, count).2 < LAYERS,
        count <= 72 ==> slot_of(i, count).2 < 4,
{
    let n = columns_for(count);
    lemma_slot_rebuilds(i, n);
    lemma_slot_rebuilds(j, n);
    if n == COLUMNS {
        assert(i / 18 < 4 || i >= 72);
    }
    assert(n * DEPTHS == 3 * n);
    if n < COLUMNS {
        assert(i / (3 * n) == 0) by (nonlinear_arith)
            requires
                0 <= i < n,
                n >= 1,
        ;
    }
}

proof fn lemma_slot_rebuilds(i: int, n: int)
    requires
        0 <= i,
        1 <= n,
    ensures
        i == (i / (n * 3)) * (n * 3) + ((i / n) % 3) * n + i % n,
        0 <= i % n < n,
{
    vstd::arithmetic::div_mod::lemma_fundamental_div_mod(i, n);
    vstd::arithmetic::div_mod::lemma_div_pos_is_pos(i, n);
    vstd::arithmetic::div_mod::lemma_fundamental_div_mod(i / n, 3);
    vstd::arithmetic::div_mod::lemma_div_denominator(i, n, 3);
    let q = i / n;
    let l = q / 3;
    let d = q % 3;
    assert(n * q == l * (n * 3) + d * n) by (nonlinear_arith)
        requires
            q == 3 * l + d,
    ;
}

/// A die that struck something hard.
#[derive(Debug, Clone, Copy, PartialEq, Eq, Structural)]
pub struct Hit {
    pub sides: u32,
    /// Its speed, as the bits of an IEEE 754 single.
    pub speed: u32,
    /// Whether it struck another die.
    pub die: bool,
}

pub open spec fn hit_sound(h: Hit) -> SoundEvent {
    if h.die {
        SoundEvent::Knock { sides: h.sides, speed: h.speed }
    } else {
        SoundEvent::Impact { sides: h.sides, speed: h.speed }
    }
}

/// The sounds that wait after the first `n` hits.
pub open spec fn hits_heard(sounds: Seq<SoundEvent>, hits: Seq<Hit>, n: int) -> Seq<SoundEvent>
    decreases n,
{
    if n <= 0 {
        sounds
    } else {
        emitted(hits_heard(sounds, hits, n - 1), hit_sound(hits[n - 1]))
    }
}

impl App {
    /// Lets the hits of one step be heard, the first few of them.
    pub fn voice_hits(&mut self, hits: &Vec<Hit>)
        requires
            old(self).wf(),
        ensures
            final(self).wf(),
            final(self).sounds@ == hits_heard(
                old(self).sounds@,
                hits@,
                if hits@.len() < KNOCK_BUDGET {
                    hits@.len() as int
                } else {
                    KNOCK_BUDGET as int
                },
            ),
            hits@.len() >= 8 ==> final(self).sounds@ == hits_heard(old(self).sounds@, hits@, 8),
            hits@.len() <= 8 ==> final(self).sounds@ == hits_heard(
                old(self).sounds@,
                hits@,
                hits@.len() as int,
            ),
            *final(self) == (App { sounds: final(self).sounds, ..*old(self) }),
    {
        let n: usize = if hits.len() < KNOCK_BUDGET {
            hits.len()
        } else {
            KNOCK_BUDGET
        };
        let mut k: usize = 0;
        while k < n
            invariant
                k <= n <= hits@.len(),
                self.wf(),
                self.sounds@ == hits_heard(old(self).sounds@, hits@, k as int),
                *self == (App { sounds: self.sounds, ..*old(self) }),
            decreases n - k,
        {
            let h = hits[k];
            if h.die {
                self.emit(SoundEvent::Knock { sides: h.sides, speed: h.speed });
            } else {
                self.emit(SoundEvent::Impact { sides: h.sides, speed: h.speed });
            }
            k += 1;
        }
    }
}

/// Dice are spread over as many columns as there are dice, but at least one and at most
/// six; they fill a row, then three rows in depth, then go a layer down.
pub proof fn dice_enter_row_by_row(i: int, count: int)
    requires
        0 <= i,
    ensures
        count < 1 ==> columns_for(count) == 1,
        1 <= count <= 6 ==> columns_for(count) == count,
        count > 6 ==> columns_for(count) == 6,
        ({
            let n = columns_for(count);
            let (column, depth, layer) = slot_of(i, count);
            &&& 0 <= column < n
            &&& 0 <= depth < 3
            &&& 0 <= layer
            &&& i == layer * (n * 3) + depth * n + column
        }),
{
    let n = columns_for(count);
    lemma_slot_rebuilds(i, n);
    vstd::arithmetic::div_mod::lemma_div_pos_is_pos(i, n * 3);
}

/// A die that strikes another knocks, one that strikes anything else makes an impact, with
/// its sides and its speed; hits are heard in order while there is room.
pub proof fn hits_are_heard_in_order(sounds: Seq<SoundEvent>, hits: Seq<Hit>, n: int)
    requires
        0 <= n < hits.len(),
    ensures
        ({
            let h = hits[n];
            let before = hits_heard(sounds, hits, n);
            let after = hits_heard(sounds, hits, n + 1);
            &&& before.len() >= 64 ==> after == before
            &&& before.len() < 64 && h.die ==> after == before.push(
                SoundEvent::Knock { sides: h.sides, speed: h.speed },
            )
            &&& before.len() < 64 && !h.die ==> after == before.push(
                SoundEvent::Impact { sides: h.sides, speed: h.speed },
            )
        }),
        hits_heard(sounds, hits, 0) == sounds,
{
}

} // verus!
