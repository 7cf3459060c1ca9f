//! The state of a session: the line being typed, the dice in the arena, the rolls
//! made so far, and what waits to be heard.

use crate::arena::{
    arena_ok, die_ok, each_die_follows_its_pose, emitted, explosions_ok, forced,
    lemma_resting_hit_meets, lemma_resting_hits_push, lemma_waiting_pop, resting_hits, settled_one,
    settled_pools_are_fair, settled_upto, settling_keeps_order, spawn_ok, spawned, tumbling_face,
    waiting, Arena, Pose, SoundEvent, Spawn, MAX_SOUNDS,
};
use crate::cli::can_throw;
use crate::edit::{
    bytes, bytes_before, caret, caret_is_in_the_text, count_bytes, find_caret, insert_at, remove_at,
    typing_is_undone_by_erasing,
};
use crate::parse::{parse, parsed, Roll, RollView, Stake, TermView};
use crate::pool::{
    arena_agrees_with_terms, faces_of, fresh_die, in_order, lemma_spawn_in_order, lemma_worths_fit,
    new_die, of_roll, of_term, scored_upto, throw_pool, thrown, total_of, worths, Die,
};
use crate::rng::{continues, draw, generator, seeded, seeded_faces, upcoming, NoEntropy};
use crate::roll::{
    check, clamped, concluded, crit_face, explodes, fair_pool, fumble_face, is_crit, is_fumble,
    lead, castable, in_i32, playable, scored, subtotals, term_casts, OutcomeTermView,
};
use crate::stats::StatsCache;
use crate::text::{chars_of, trim, trimmed};
use rand::rngs::StdRng;
use vstd::prelude::*;

verus! {

/// The most rolls that are remembered.
pub const MAX_HISTORY: usize = 200;

/// Which pane lies over the arena, if any.
#[derive(Debug, Clone, Copy, PartialEq, Eq, Structural)]
pub enum Pane {
    Closed,
    Help,
    History,
    Stats,
}

/// One roll that has come to rest.
#[derive(Debug, Clone, PartialEq, Eq)]
pub struct HistoryEntry {
    /// The expression as typed.
    pub expr: String,
    /// The face of each kept die, in the order of the pool.
    pub values: Vec<u32>,
    pub total: i32,
}

pub struct EntryView {
    pub expr: Seq<char>,
    pub values: Seq<u32>,
    pub total: i32,
}

impl View for HistoryEntry {
    type V = EntryView;

    open spec fn view(&self) -> EntryView {
        EntryView { expr: self.expr@, values: self.values@, total: self.total }
    }
}

/// What Enter does, from the most ceremony to the least.
#[derive(Debug, Clone, Copy, PartialEq, Eq, Structural)]
pub enum RollMode {
    Shake,
    Roll,
    Insta,
}

impl RollMode {
    pub open spec fn after(self) -> RollMode {
        match self {
            RollMode::Shake => RollMode::Roll,
            RollMode::Roll => RollMode::Insta,
            RollMode::Insta => RollMode::Shake,
        }
    }

    /// The mode that Tab turns to.
    pub fn next(self) -> (m: RollMode)
        ensures
            m == self.after(),
    {
        match self {
            RollMode::Shake => RollMode::Roll,
            RollMode::Roll => RollMode::Insta,
            RollMode::Insta => RollMode::Shake,
        }
    }

    /// The word for the mode.
    pub fn label(self) -> (s: &'static str)
        ensures
            s@ == (match self {
                RollMode::Shake => "shake"@,
                RollMode::Roll => "roll"@,
                RollMode::Insta => "insta"@,
            }),
    {
        match self {
            RollMode::Shake => "shake",
            RollMode::Roll => "roll",
            RollMode::Insta => "insta",
        }
    }
}

/// Three turns lead through all modes and back to the first.
pub proof fn modes_go_round(m: RollMode)
    ensures
        m.after() != m,
        m.after().after() != m,
        m.after().after().after() == m,
{
}

/// How the dice that have just been picked are to be launched.
#[derive(Debug, Clone, Copy, PartialEq, Eq, Structural)]
pub enum Launch {
    /// They rain in from the top.
    Rain,
    /// They fly out of the cup.
    Cup,
    /// They rain in, and run to rest at once.
    Insta,
}

pub struct App {
    /// The line being typed.
    pub input: String,
    /// The byte of the caret in `input`.
    pub cursor: usize,
    /// The first line of the open pane that is shown.
    pub pane_scroll: u16,
    pub dice: Vec<Die>,
    pub modifier: i32,
    pub stake: Option<Stake>,
    pub error: Option<String>,
    /// The rolls that have come to rest, the newest last.
    pub history: Vec<HistoryEntry>,
    pub pane: Pane,
    pub mode: RollMode,
    /// Whether the roll in the arena is in the history.
    pub recorded: bool,
    /// Whether the dice have been launched.
    pub spawned: bool,
    /// The launch that is due.
    pub launch: Option<Launch>,
    /// The expression that was locked in when the cup was picked up.
    pub shake: Option<String>,
    /// What waits to be heard, the oldest first.
    pub sounds: Vec<SoundEvent>,
    pub muted: bool,
    pub stats_cache: Option<StatsCache>,
    /// How many dice each term's explosions have called for.
    pub explosions: Vec<usize>,
    /// The dice that explosions have called for and that have yet to be thrown.
    pub pending: Vec<Spawn>,
    pub rng: StdRng,
    /// The roll that the dice belong to.
    pub roll: Ghost<RollView>,
}

/// The faces of the kept dice, in the order of the pool.
pub open spec fn kept_values(dice: Seq<Die>) -> Seq<u32>
    decreases dice.len(),
{
    if dice.len() == 0 {
        Seq::empty()
    } else if dice.last().kept {
        kept_values(dice.drop_last()).push(dice.last().final_value)
    } else {
        kept_values(dice.drop_last())
    }
}

/// Whether the die is to be celebrated.
pub open spec fn crits(d: Die) -> bool {
    d.kept && d.settled && is_crit(d.sides, d.final_value)
}

/// Whether the die is to be pitied.
pub open spec fn fumbles(d: Die) -> bool {
    d.kept && d.settled && is_fumble(d.sides, d.final_value)
}

/// The numbers of the dice that crit.
pub open spec fn crit_indices(dice: Seq<Die>, n: int) -> Seq<int>
    decreases n,
{
    if n <= 0 {
        Seq::empty()
    } else if crits(dice[n - 1]) {
        crit_indices(dice, n - 1).push(n - 1)
    } else {
        crit_indices(dice, n - 1)
    }
}

/// The numbers of the dice that fumble.
pub open spec fn fumble_indices(dice: Seq<Die>, n: int) -> Seq<int>
    decreases n,
{
    if n <= 0 {
        Seq::empty()
    } else if fumbles(dice[n - 1]) {
        fumble_indices(dice, n - 1).push(n - 1)
    } else {
        fumble_indices(dice, n - 1)
    }
}

/// The numbers as integers.
pub open spec fn ints(v: Seq<usize>) -> Seq<int> {
    Seq::new(v.len(), |k: int| v[k] as int)
}

/// The last `MAX_HISTORY` entries.
pub open spec fn recent(history: Seq<EntryView>) -> Seq<EntryView> {
    if history.len() > MAX_HISTORY {
        history.skip(history.len() - MAX_HISTORY)
    } else {
        history
    }
}

pub open spec fn entries(history: Seq<HistoryEntry>) -> Seq<EntryView> {
    Seq::new(history.len(), |k: int| history[k]@)
}

/// Whether a sound tells how a roll came out.
pub open spec fn is_climax(ev: SoundEvent) -> bool {
    ev == SoundEvent::Crit || ev == SoundEvent::Fumble || ev == SoundEvent::Success || ev
        == SoundEvent::Failure
}

/// The sounds that tell how a roll came out.
pub open spec fn climaxes(sounds: Seq<SoundEvent>) -> Seq<SoundEvent>
    decreases sounds.len(),
{
    if sounds.len() == 0 {
        Seq::empty()
    } else if is_climax(sounds.last()) {
        climaxes(sounds.drop_last()).push(sounds.last())
    } else {
        climaxes(sounds.drop_last())
    }
}

/// The sounds that wait once a roll has come to rest.
pub open spec fn concluding(
    sounds: Seq<SoundEvent>,
    crit: bool,
    fumble: bool,
    verdict: Option<bool>,
) -> Seq<SoundEvent> {
    let a = if crit {
        forced(sounds, SoundEvent::Crit)
    } else {
        sounds
    };
    let b = if fumble {
        forced(a, SoundEvent::Fumble)
    } else {
        a
    };
    match verdict {
        Some(true) => forced(b, SoundEvent::Success),
        Some(false) => forced(b, SoundEvent::Failure),
        None => b,
    }
}

/// What a roll that has come to rest is celebrated for: the numbers of the dice.
#[derive(Debug, Clone, PartialEq, Eq)]
pub struct Celebration {
    pub crits: Vec<usize>,
    pub fumbles: Vec<usize>,
}

impl App {
    pub open spec fn arena(&self) -> Arena {
        Arena {
            dice: self.dice@,
            explosions: self.explosions@,
            pending: self.pending@,
            sounds: self.sounds@,
        }
    }

    /// What holds of a session at all times.
    pub open spec fn wf(&self) -> bool {
        &&& castable(self.roll@.terms)
        &&& self.modifier == self.roll@.modifier
        &&& self.stake == self.roll@.stake
        &&& arena_ok(self.arena(), self.roll@.terms)
        &&& self.shake is Some ==> parsed(self.shake->0@) is Ok
        &&& self.history@.len() <= MAX_HISTORY
        &&& self.memo_exact()
    }

    /// What the dice come to.
    pub open spec fn total_spec(&self) -> int {
        self.modifier + worths(self.dice@)
    }

    /// Whether an `i32` holds the total, once there is one to tell.
    pub open spec fn can_tell(&self) -> bool {
        self.settled_spec() ==> in_i32(self.total_spec())
    }

    pub open spec fn settled_spec(&self) -> bool {
        &&& self.spawned
        &&& self.pending@.len() == 0
        &&& self.dice@.len() > 0
        &&& forall|i: int| 0 <= i < self.dice@.len() ==> (#[trigger] self.dice@[i]).settled
    }

    pub open spec fn verdict_spec(&self) -> Option<(bool, i32)> {
        if self.stake is Some && self.settled_spec() {
            let l = lead(self.total_spec(), self.stake->0);
            Some((l >= 0, clamped(l) as i32))
        } else {
            None
        }
    }

    /// How many characters stand before the caret.
    pub open spec fn caret(&self) -> int {
        caret(self.input@, self.cursor as int)
    }

    /// Whether the line and one more character fit in memory.
    pub open spec fn has_room(&self) -> bool {
        bytes(self.input@) + 4 <= usize::MAX
    }

    /// The byte of the caret: never past the end, never inside a character.
    pub fn cursor_byte(&self) -> (at: usize)
        ensures
            at == bytes(self.input@.take(self.caret())),
            at <= self.cursor,
    {
        let chars = chars_of(self.input.as_str());
        find_caret(&chars, self.cursor).1
    }

    /// Whether `next` is this session with `c` put before the caret.
    pub open spec fn types(self, c: char, next: App) -> bool {
        &&& next.input@ == self.input@.insert(self.caret(), c)
        &&& next.cursor == bytes(next.input@.take(self.caret() + 1))
        &&& next == (App { input: next.input, cursor: next.cursor, ..self })
    }

    /// Whether `next` is this session without the character before the caret.
    pub open spec fn erases(self, next: App) -> bool {
        if self.caret() == 0 {
            next == self
        } else {
            &&& next.input@ == self.input@.remove(self.caret() - 1)
            &&& next.cursor == bytes(self.input@.take(self.caret() - 1))
            &&& next == (App { input: next.input, cursor: next.cursor, ..self })
        }
    }

    /// Puts a character before the caret.
    pub fn input_insert(&mut self, c: char)
        requires
            old(self).has_room(),
        ensures
            old(self).types(c, *final(self)),
    {
        let chars = chars_of(self.input.as_str());
        let (k, at) = find_caret(&chars, self.cursor);
        let (text, past) = insert_at(&chars, k, at, c);
        self.input = text;
        self.cursor = past;
    }

    /// Takes out the character before the caret, if there is one.
    pub fn input_backspace(&mut self)
        ensures
            old(self).erases(*final(self)),
    {
        let chars = chars_of(self.input.as_str());
        let (k, at) = find_caret(&chars, self.cursor);
        if k == 0 {
            return;
        }
        proof {
            assert(chars@.take(k as int).drop_last() == chars@.take(k - 1));
        }
        self.input = remove_at(&chars, k - 1);
        self.cursor = bytes_before(&chars, k - 1);
    }

    /// Takes out the character after the caret, if there is one.
    pub fn input_delete(&mut self)
        ensures
            final(self).input@ == if old(self).caret() < old(self).input@.len() {
                old(self).input@.remove(old(self).caret())
            } else {
                old(self).input@
            },
            final(self).cursor == bytes(old(self).input@.take(old(self).caret())),
            *final(self) == (App {
                input: final(self).input,
                cursor: final(self).cursor,
                ..*old(self)
            }),
    {
        let chars = chars_of(self.input.as_str());
        let (k, at) = find_caret(&chars, self.cursor);
        if k < chars.len() {
            self.input = remove_at(&chars, k);
        }
        self.cursor = at;
    }

    /// Moves the caret over the character before it, if there is one.
    pub fn cursor_left(&mut self)
        ensures
            final(self).cursor == bytes(
                old(self).input@.take(
                    if old(self).caret() > 0 {
                        old(self).caret() - 1
                    } else {
                        0
                    },
                ),
            ),
            *final(self) == (App { cursor: final(self).cursor, ..*old(self) }),
    {
        let chars = chars_of(self.input.as_str());
        let (k, at) = find_caret(&chars, self.cursor);
        if k > 0 {
            proof {
                assert(chars@.take(k as int).drop_last() == chars@.take(k - 1));
            }
            self.cursor = bytes_before(&chars, k - 1);
        } else {
            self.cursor = at;
        }
    }

    /// Moves the caret over the character after it, if there is one.
    pub fn cursor_right(&mut self)
        requires
            bytes(old(self).input@) <= usize::MAX,
        ensures
            final(self).cursor == bytes(
                old(self).input@.take(
                    if old(self).caret() < old(self).input@.len() {
                        old(self).caret() + 1
                    } else {
                        old(self).caret()
                    },
                ),
            ),
            *final(self) == (App { cursor: final(self).cursor, ..*old(self) }),
    {
        let chars = chars_of(self.input.as_str());
        let (k, at) = find_caret(&chars, self.cursor);
        if k < chars.len() {
            proof {
                crate::edit::lemma_bytes_grow(chars@, k + 1, chars@.len() as int);
                assert(chars@.take(chars@.len() as int) == chars@);
            }
            self.cursor = bytes_before(&chars, k + 1);
        } else {
            self.cursor = at;
        }
    }

    /// Moves the caret to the start.
    pub fn cursor_home(&mut self)
        ensures
            *final(self) == (App { cursor: 0, ..*old(self) }),
    {
        self.cursor = 0;
    }

    /// Moves the caret to the end.
    pub fn cursor_end(&mut self)
        requires
            bytes(old(self).input@) <= usize::MAX,
        ensures
            final(self).cursor == bytes(old(self).input@),
            *final(self) == (App { cursor: final(self).cursor, ..*old(self) }),
    {
        let chars = chars_of(self.input.as_str());
        self.cursor = count_bytes(&chars);
    }

    /// Opens a pane at its top, or closes the open one.
    pub fn set_pane(&mut self, pane: Pane)
        ensures
            *final(self) == (App { pane, pane_scroll: 0, ..*old(self) }),
    {
        self.pane = pane;
        self.pane_scroll = 0;
    }

    /// Whether this is how a session begins with `text` on its line and `faces` in
    /// store: a text that reads has been rolled, one that does not has been
    /// complained of.
    pub open spec fn opens_with(&self, text: Seq<char>, faces: Map<Seq<u32>, u32>) -> bool {
        &&& self.input@ == text
        &&& self.cursor == bytes(text)
        &&& self.history@.len() == 0
        &&& self.pane == Pane::Closed
        &&& self.pane_scroll == 0
        &&& self.mode == RollMode::Shake
        &&& self.sounds@.len() == 0
        &&& self.pending@.len() == 0
        &&& self.shake is None
        &&& self.stats_cache is None
        &&& !self.muted
        &&& !self.spawned
        &&& !self.recorded
        &&& if text.len() == 0 || parsed(text) is Err {
            &&& self.dice@.len() == 0
            &&& self.modifier == 0
            &&& self.stake is None
            &&& self.launch is None
            &&& upcoming(self.rng) == faces
            &&& if text.len() == 0 {
                self.error is None
            } else {
                self.error matches Some(said) && said@ == parsed(text)->Err_0
            }
        } else {
            let r = parsed(text)->Ok_0;
            &&& self.error is None
            &&& self.launch == Some(Launch::Rain)
            &&& self.roll@ == r
            &&& self.modifier == r.modifier
            &&& self.stake == r.stake
            &&& self.dice@ == thrown(r.terms, faces).0
            &&& continues(upcoming(self.rng), faces, thrown(r.terms, faces).1)
        }
    }

    /// A session whose dice no one can foresee. It takes entropy from the system, and
    /// fails only where the system has none to give.
    pub fn new(initial: &str) -> (res: Result<App, NoEntropy>)
        requires
            can_throw(trimmed(initial@)),
            bytes(trimmed(initial@)) <= usize::MAX,
        ensures
            res matches Ok(app) ==> app.wf() && exists|rng: StdRng| #[trigger]
                app.opens_with(trimmed(initial@), upcoming(rng)),
    {
        match generator(None) {
            Err(e) => Err(e),
            Ok(rng) => {
                let ghost start = rng;
                let app = App::with_rng(initial, rng);
                assert(app.opens_with(trimmed(initial@), upcoming(start)));
                Ok(app)
            },
        }
    }

    /// A session with the dice of a seed: the same seed always rolls the same dice.
    pub fn with_seed(initial: &str, seed: u64) -> (app: App)
        requires
            can_throw(trimmed(initial@)),
            bytes(trimmed(initial@)) <= usize::MAX,
        ensures
            app.wf(),
            app.opens_with(trimmed(initial@), seeded_faces(seed)),
    {
        App::with_rng(initial, seeded(seed))
    }

    /// A session with the given dice. An expression to begin with is rolled at once.
    pub fn with_rng(initial: &str, rng: StdRng) -> (app: App)
        requires
            can_throw(trimmed(initial@)),
            bytes(trimmed(initial@)) <= usize::MAX,
        ensures
            app.wf(),
            app.opens_with(trimmed(initial@), upcoming(rng)),
    {
        let ghost empty = RollView { terms: Seq::empty(), modifier: 0, stake: None };
        let text = trim(initial);
        let blank = text.as_str().is_empty();
        let chars = chars_of(text.as_str());
        let cursor: usize = count_bytes(&chars);
        let mut app = App {
            input: text,
            cursor,
            pane_scroll: 0,
            dice: Vec::new(),
            modifier: 0,
            stake: None,
            error: None,
            history: Vec::new(),
            pane: Pane::Closed,
            mode: RollMode::Shake,
            recorded: false,
            spawned: false,
            launch: None,
            shake: None,
            sounds: Vec::new(),
            muted: false,
            stats_cache: None,
            explosions: Vec::new(),
            pending: Vec::new(),
            rng,
            roll: Ghost(empty),
        };
        if !blank {
            app.roll();
        }
        app
    }

    /// Reads the line and, if it reads, throws its dice: their values are decided
    /// here and nowhere else.
    pub fn build_pool(&mut self) -> (ok: bool)
        requires
            old(self).wf(),
            can_throw(old(self).input@),
        ensures
            final(self).wf(),
            match parsed(old(self).input@) {
                Err(e) => {
                    &&& !ok
                    &&& final(self).error matches Some(said) && said@ == e
                    &&& *final(self) == (App { error: final(self).error, ..*old(self) })
                },
                Ok(r) => {
                    &&& ok
                    &&& final(self).error is None
                    &&& final(self).roll@ == r
                    &&& final(self).dice@ == thrown(r.terms, upcoming(old(self).rng)).0
                    &&& continues(
                        upcoming(final(self).rng),
                        upcoming(old(self).rng),
                        thrown(r.terms, upcoming(old(self).rng)).1,
                    )
                    &&& final(self).pending@.len() == 0
                    &&& *final(self) == (App {
                        error: final(self).error,
                        modifier: r.modifier,
                        stake: r.stake,
                        dice: final(self).dice,
                        explosions: final(self).explosions,
                        pending: final(self).pending,
                        spawned: false,
                        recorded: false,
                        rng: final(self).rng,
                        roll: final(self).roll,
                        ..*old(self)
                    })
                },
            },
    {
        match parse(self.input.as_str()) {
            Err(e) => {
                self.error = Some(e);
                false
            },
            Ok(roll) => {
                let ghost r = roll@;
                assert forall|k: int| 0 <= k < roll.terms@.len() implies term_casts(
                    #[trigger] crate::parse::term_views(roll.terms@)[k],
                ) by {
                    assert(term_casts(r.terms[k]));
                }
                let dice = throw_pool(&roll.terms, &mut self.rng);
                let mut explosions: Vec<usize> = Vec::new();
                let mut k: usize = 0;
                while k < roll.terms.len()
                    invariant
                        k <= roll.terms@.len(),
                        explosions@ == Seq::new(k as nat, |j: int| 0usize),
                    decreases roll.terms@.len() - k,
                {
                    explosions.push(0);
                    k += 1;
                    assert(explosions@ == Seq::new(k as nat, |j: int| 0usize));
                }
                let pending: Vec<Spawn> = Vec::new();
                proof {
                    lemma_fresh_arena(dice@, r.terms, explosions@, pending@, self.sounds@);
                }
                self.error = None;
                self.modifier = roll.modifier;
                self.stake = roll.stake;
                self.dice = dice;
                self.explosions = explosions;
                self.pending = pending;
                self.spawned = false;
                self.recorded = false;
                self.roll = Ghost(r);
                true
            },
        }
    }

    /// What a roll of the line leaves behind: the complaint, or the dice and the
    /// launch that is due.
    pub open spec fn rolled(self, launch: Launch, next: App) -> bool {
        match parsed(self.input@) {
            Err(e) => {
                &&& next.error matches Some(said) && said@ == e
                &&& next == (App { error: next.error, ..self })
            },
            Ok(r) => {
                &&& next.error is None
                &&& next.roll@ == r
                &&& next.dice@ == thrown(r.terms, upcoming(self.rng)).0
                &&& continues(
                    upcoming(next.rng),
                    upcoming(self.rng),
                    thrown(r.terms, upcoming(self.rng)).1,
                )
                &&& next.pending@.len() == 0
                &&& next == (App {
                    error: next.error,
                    modifier: r.modifier,
                    stake: r.stake,
                    dice: next.dice,
                    explosions: next.explosions,
                    pending: next.pending,
                    spawned: false,
                    recorded: false,
                    launch: Some(launch),
                    rng: next.rng,
                    roll: next.roll,
                    ..self
                })
            },
        }
    }

    /// Rolls the line: the dice rain in.
    pub fn roll(&mut self)
        requires
            old(self).wf(),
            can_throw(old(self).input@),
        ensures
            final(self).wf(),
            old(self).rolled(Launch::Rain, *final(self)),
    {
        if self.build_pool() {
            self.launch = Some(Launch::Rain);
        }
    }

    /// Rolls the line: the dice rain in and run to rest at once.
    pub fn insta_roll(&mut self)
        requires
            old(self).wf(),
            can_throw(old(self).input@),
        ensures
            final(self).wf(),
            old(self).rolled(Launch::Insta, *final(self)),
    {
        if self.build_pool() {
            self.launch = Some(Launch::Insta);
        }
    }

    /// Picks up the cup, unless it is up already. The line is read now, so that a
    /// slip shows at once, and locked in.
    pub fn start_shake(&mut self)
        requires
            old(self).wf(),
        ensures
            final(self).wf(),
            old(self).shake is Some ==> *final(self) == *old(self),
            old(self).shake is None ==> match parsed(old(self).input@) {
                Err(e) => {
                    &&& final(self).error matches Some(said) && said@ == e
                    &&& *final(self) == (App { error: final(self).error, ..*old(self) })
                },
                Ok(_) => {
                    &&& final(self).error is None
                    &&& final(self).shake matches Some(locked) && locked@ == old(self).input@
                    &&& *final(self) == (App {
                        error: final(self).error,
                        shake: final(self).shake,
                        ..*old(self)
                    })
                },
            },
    {
        if self.shake.is_some() {
            return;
        }
        match parse(self.input.as_str()) {
            Err(e) => {
                self.error = Some(e);
            },
            Ok(_) => {
                self.error = None;
                self.shake = Some(self.input.clone());
            },
        }
    }

    /// Whether the cup is up.
    pub fn shaking(&self) -> (r: bool)
        ensures
            r == self.shake is Some,
    {
        self.shake.is_some()
    }

    /// Puts the cup down. Nothing is rolled.
    pub fn cancel_shake(&mut self)
        ensures
            *final(self) == (App { shake: None, ..*old(self) }),
    {
        self.shake = None;
    }

    /// Empties the cup: rolls what was locked in when it was picked up.
    pub fn throw(&mut self)
        requires
            old(self).wf(),
            old(self).shake is Some ==> can_throw(old(self).shake->0@),
        ensures
            final(self).wf(),
            match old(self).shake {
                None => *final(self) == *old(self),
                Some(locked) => (App { input: locked, shake: None, ..*old(self) }).rolled(
                    Launch::Cup,
                    *final(self),
                ),
            },
    {
        match self.shake.take() {
            None => {},
            Some(locked) => {
                self.input = locked;
                if self.build_pool() {
                    self.launch = Some(Launch::Cup);
                }
            },
        }
    }

    /// Queues a sound, unless the queue is full.
    pub fn emit(&mut self, ev: SoundEvent)
        requires
            old(self).wf(),
        ensures
            final(self).wf(),
            final(self).sounds@ == emitted(old(self).sounds@, ev),
            *final(self) == (App { sounds: final(self).sounds, ..*old(self) }),
    {
        if self.sounds.len() < MAX_SOUNDS {
            self.sounds.push(ev);
        }
    }

    /// Queues a sound that must be heard: out of a full queue the oldest makes way.
    pub fn emit_priority(&mut self, ev: SoundEvent)
        requires
            old(self).wf(),
        ensures
            final(self).wf(),
            final(self).sounds@ == forced(old(self).sounds@, ev),
            *final(self) == (App { sounds: final(self).sounds, ..*old(self) }),
    {
        if self.sounds.len() >= MAX_SOUNDS {
            self.sounds.remove(0);
            assert(self.sounds@ == old(self).sounds@.drop_first());
        }
        self.sounds.push(ev);
    }

    /// Hands over what waits to be heard: nothing while muted.
    pub fn take_sounds(&mut self) -> (events: Vec<SoundEvent>)
        requires
            old(self).wf(),
        ensures
            final(self).wf(),
            final(self).sounds@.len() == 0,
            *final(self) == (App { sounds: final(self).sounds, ..*old(self) }),
            events@ == if old(self).muted {
                Seq::empty()
            } else {
                old(self).sounds@
            },
    {
        let mut events: Vec<SoundEvent> = Vec::new();
        std::mem::swap(&mut self.sounds, &mut events);
        if self.muted {
            Vec::new()
        } else {
            events
        }
    }

    /// Takes note that the launch that was due has been made. Dice that flew out of
    /// the cup are heard, with the power of the throw.
    pub fn launched(&mut self, power: u32)
        requires
            old(self).wf(),
        ensures
            final(self).wf(),
            final(self).sounds@ == if old(self).launch == Some(Launch::Cup) {
                emitted(old(self).sounds@, SoundEvent::Throw { power })
            } else {
                old(self).sounds@
            },
            *final(self) == (App {
                spawned: true,
                launch: None,
                sounds: final(self).sounds,
                ..*old(self)
            }),
    {
        if let Some(Launch::Cup) = self.launch {
            self.emit(SoundEvent::Throw { power });
        }
        self.spawned = true;
        self.launch = None;
    }

    /// Whether every die of a launched roll rests, and none waits to be thrown.
    pub fn all_settled(&self) -> (r: bool)
        ensures
            r == self.settled_spec(),
    {
        if !self.spawned || !self.pending.is_empty() || self.dice.is_empty() {
            return false;
        }
        let mut k: usize = 0;
        while k < self.dice.len()
            invariant
                k <= self.dice@.len(),
                forall|i: int| 0 <= i < k ==> (#[trigger] self.dice@[i]).settled,
            decreases self.dice@.len() - k,
        {
            if !self.dice[k].settled {
                assert(!self.dice@[k as int].settled);
                return false;
            }
            k += 1;
        }
        true
    }

    /// Whether an `i32` holds the total, once there is one to tell.
    pub fn tellable(&self) -> (r: bool)
        ensures
            r == self.can_tell(),
    {
        !self.all_settled() || total_of(&self.dice, self.modifier).is_some()
    }

    /// What the dice and the modifier come to.
    pub fn total(&self) -> (total: i32)
        requires
            in_i32(self.total_spec()),
        ensures
            total == self.total_spec(),
    {
        total_of(&self.dice, self.modifier).unwrap()
    }

    /// The verdict on a staked roll, once every die rests.
    pub fn verdict(&self) -> (v: Option<(bool, i32)>)
        requires
            self.can_tell(),
        ensures
            v == self.verdict_spec(),
    {
        match self.stake {
            None => None,
            Some(stake) => if self.all_settled() {
                Some(check(self.total(), stake))
            } else {
                None
            },
        }
    }

    /// The numbers of the dice that crit.
    pub fn crit_dice(&self) -> (v: Vec<usize>)
        ensures
            ints(v@) == crit_indices(self.dice@, self.dice@.len() as int),
    {
        let mut v: Vec<usize> = Vec::new();
        let mut k: usize = 0;
        assert(ints(v@) == Seq::<int>::empty());
        while k < self.dice.len()
            invariant
                k <= self.dice@.len(),
                ints(v@) == crit_indices(self.dice@, k as int),
            decreases self.dice@.len() - k,
        {
            let d = self.dice[k];
            if d.kept && d.settled && crit_face(d.sides, d.final_value) {
                let ghost before = ints(v@);
                v.push(k);
                assert(ints(v@) == before.push(k as int));
            }
            k += 1;
        }
        v
    }

    /// The numbers of the dice that fumble.
    pub fn fumble_dice(&self) -> (v: Vec<usize>)
        ensures
            ints(v@) == fumble_indices(self.dice@, self.dice@.len() as int),
    {
        let mut v: Vec<usize> = Vec::new();
        let mut k: usize = 0;
        assert(ints(v@) == Seq::<int>::empty());
        while k < self.dice.len()
            invariant
                k <= self.dice@.len(),
                ints(v@) == fumble_indices(self.dice@, k as int),
            decreases self.dice@.len() - k,
        {
            let d = self.dice[k];
            if d.kept && d.settled && fumble_face(d.sides, d.final_value) {
                let ghost before = ints(v@);
                v.push(k);
                assert(ints(v@) == before.push(k as int));
            }
            k += 1;
        }
        v
    }

    /// Looks at the die number `i` after a step of the simulation.
    fn settle_die(&mut self, i: usize, p: Pose)
        requires
            old(self).wf(),
            i < old(self).dice@.len(),
        ensures
            final(self).wf(),
            final(self).arena() == settled_one(old(self).arena(), i as int, p),
            *final(self) == (App {
                dice: final(self).dice,
                explosions: final(self).explosions,
                pending: final(self).pending,
                sounds: final(self).sounds,
                ..*old(self)
            }),
    {
        proof {
            settling_keeps_order(self.arena(), self.roll@.terms, i as int, p);
            assert(of_roll(self.dice@[i as int], self.roll@.terms));
        }
        let mut d = self.dice[i];
        if d.settled {
            return;
        }
        if !p.rests {
            d.shown = tumbling_face(p.x, p.y, p.z, d.sides);
            self.dice.set(i, d);
            assert(self.arena() == settled_one(old(self).arena(), i as int, p));
            return;
        }
        let t: usize = d.term_idx;
        if !d.exploded {
            if let Some(cond) = d.explode {
                if explodes(cond, d.final_value, self.explosions[t]) {
                    let n: usize = self.explosions[t] + 1;
                    self.explosions.set(t, n);
                    self.pending.push(Spawn { sides: d.sides, term_idx: t, mult: d.mult, cond });
                }
            }
        }
        d.shown = d.final_value;
        d.settled = true;
        d.exploded = true;
        self.dice.set(i, d);
        if self.sounds.len() < MAX_SOUNDS {
            self.sounds.push(SoundEvent::Settle { sides: d.sides });
        }
        assert(self.arena() == settled_one(old(self).arena(), i as int, p));
    }

    /// Whether `next` is this session after every die has been looked at, and nothing
    /// else has changed.
    pub open spec fn looked(self, poses: Seq<Pose>, next: App) -> bool {
        &&& next.arena() == settled_upto(self.arena(), poses, poses.len() as int)
        &&& next.dice@.len() == self.dice@.len()
        &&& next == (App {
            dice: next.dice,
            explosions: next.explosions,
            pending: next.pending,
            sounds: next.sounds,
            ..self
        })
    }

    /// Whether `next` is this session after the first die that waits has been thrown.
    pub open spec fn spawns(self, next: App) -> bool {
        let s = self.pending@[0];
        &&& self.pending@.len() > 0
        &&& next.pending@ == self.pending@.drop_first()
        &&& next.dice@ == self.dice@.push(
            fresh_die(
                s.sides,
                upcoming(self.rng)[seq![s.sides]],
                self.dice@.len(),
                s.term_idx as nat,
                s.mult as int,
                true,
                Some(s.cond),
            ),
        )
        &&& continues(upcoming(next.rng), upcoming(self.rng), seq![s.sides])
        &&& next == (App { dice: next.dice, pending: next.pending, rng: next.rng, ..self })
    }

    /// Looks at all dice after a step of the simulation, `poses` saying of each how it
    /// lies.
    pub fn sync_and_settle(&mut self, poses: &Vec<Pose>)
        requires
            old(self).wf(),
            poses@.len() == old(self).dice@.len(),
        ensures
            final(self).wf(),
            old(self).looked(poses@, *final(self)),
    {
        let n: usize = poses.len();
        let mut i: usize = 0;
        while i < n
            invariant
                i <= n,
                n == poses@.len(),
                self.wf(),
                self.dice@.len() == n,
                self.arena() == settled_upto(old(self).arena(), poses@, i as int),
                *self == (App {
                    dice: self.dice,
                    explosions: self.explosions,
                    pending: self.pending,
                    sounds: self.sounds,
                    ..*old(self)
                }),
            decreases n - i,
        {
            proof {
                settling_keeps_order(self.arena(), self.roll@.terms, i as int, poses@[i as int]);
            }
            self.settle_die(i, poses[i]);
            i += 1;
        }
    }

    /// Throws the next die that an explosion has called for. It always counts, and
    /// may explode in its turn.
    pub fn spawn_next(&mut self) -> (r: Option<usize>)
        requires
            old(self).wf(),
        ensures
            final(self).wf(),
            match r {
                None => old(self).pending@.len() == 0 && *final(self) == *old(self),
                Some(i) => i == old(self).dice@.len() && old(self).spawns(*final(self)),
            },
    {
        if self.pending.is_empty() {
            return None;
        }
        assert(spawn_ok(self.pending@[0], self.roll@.terms));
        let s = self.pending.remove(0);
        assert(self.pending@ == old(self).pending@.drop_first());
        let value: u32 = draw(&mut self.rng, s.sides);
        let i: usize = self.dice.len();
        let d = new_die(s.sides, value, i, s.term_idx, s.mult, true, Some(s.cond));
        self.dice.push(d);
        proof {
            lemma_spawned(old(self).arena(), self.arena(), self.roll@.terms, d);
        }
        Some(i)
    }

    /// Takes a roll that has come to rest into the history, and lets the moment be
    /// heard: a crit, a fumble and the verdict ring once each.
    pub fn record_roll(&mut self) -> (c: Celebration)
        requires
            old(self).wf(),
            in_i32(old(self).total_spec()),
        ensures
            final(self).wf(),
            entries(final(self).history@) == recent(
                entries(old(self).history@).push(
                    (EntryView {
                        expr: trimmed(old(self).input@),
                        values: kept_values(old(self).dice@),
                        total: old(self).total_spec() as i32,
                    }),
                ),
            ),
            ints(c.crits@) == crit_indices(old(self).dice@, old(self).dice@.len() as int),
            ints(c.fumbles@) == fumble_indices(old(self).dice@, old(self).dice@.len() as int),
            final(self).sounds@ == concluding(
                old(self).sounds@,
                c.crits@.len() > 0,
                c.fumbles@.len() > 0,
                match old(self).verdict_spec() {
                    Some((success, _)) => Some(success),
                    None => None,
                },
            ),
            *final(self) == (App {
                history: final(self).history,
                sounds: final(self).sounds,
                stats_cache: None,
                ..*old(self)
            }),
    {
        let mut values: Vec<u32> = Vec::new();
        let mut k: usize = 0;
        assert(self.dice@.take(0) == Seq::<Die>::empty());
        while k < self.dice.len()
            invariant
                k <= self.dice@.len(),
                values@ == kept_values(self.dice@.take(k as int)),
            decreases self.dice@.len() - k,
        {
            assert(self.dice@.take(k + 1).drop_last() == self.dice@.take(k as int));
            if self.dice[k].kept {
                values.push(self.dice[k].final_value);
            }
            k += 1;
        }
        assert(self.dice@.take(k as int) == self.dice@);
        let entry = HistoryEntry {
            expr: trim(self.input.as_str()),
            values,
            total: self.total(),
        };
        let ghost long = self.history@.push(entry);
        // The odds show the history, which changes even where its length does not.
        self.stats_cache = None;
        self.history.push(entry);
        let ghost mut gone = 0int;
        assert(long.skip(0) == long);
        while self.history.len() > MAX_HISTORY
            invariant
                0 <= gone,
                gone > 0 ==> self.history@.len() >= MAX_HISTORY,
                gone <= long.len(),
                self.history@ == long.skip(gone),
                *self == (App { history: self.history, stats_cache: None, ..*old(self) }),
            decreases self.history@.len(),
        {
            self.history.remove(0);
            proof {
                gone = gone + 1;
                assert(self.history@ == long.skip(gone));
            }
        }
        proof {
            let want = entries(old(self).history@).push(entry@);
            assert(entries(long) == want);
            assert(entries(self.history@) == recent(want));
        }
        let crits = self.crit_dice();
        let fumbles = self.fumble_dice();
        let verdict = self.verdict();
        if !crits.is_empty() {
            self.emit_priority(SoundEvent::Crit);
        }
        if !fumbles.is_empty() {
            self.emit_priority(SoundEvent::Fumble);
        }
        match verdict {
            Some((true, _)) => self.emit_priority(SoundEvent::Success),
            Some((false, _)) => self.emit_priority(SoundEvent::Failure),
            None => {},
        }
        Celebration { crits, fumbles }
    }

    /// Records the roll in the arena, the first time that it is found at rest.
    pub fn record_if_settled(&mut self) -> (c: Option<Celebration>)
        requires
            old(self).wf(),
            old(self).can_tell(),
        ensures
            final(self).wf(),
            c is Some <==> !old(self).recorded && old(self).settled_spec(),
            c is None ==> *final(self) == *old(self),
            c is Some ==> {
                &&& final(self).recorded
                &&& entries(final(self).history@) == recent(
                    entries(old(self).history@).push(
                        (EntryView {
                            expr: trimmed(old(self).input@),
                            values: kept_values(old(self).dice@),
                            total: old(self).total_spec() as i32,
                        }),
                    ),
                )
                &&& ints(c->0.crits@) == crit_indices(
                    old(self).dice@,
                    old(self).dice@.len() as int,
                )
                &&& ints(c->0.fumbles@) == fumble_indices(
                    old(self).dice@,
                    old(self).dice@.len() as int,
                )
                &&& final(self).sounds@ == concluding(
                    old(self).sounds@,
                    c->0.crits@.len() > 0,
                    c->0.fumbles@.len() > 0,
                    match old(self).verdict_spec() {
                        Some((success, _)) => Some(success),
                        None => None,
                    },
                )
                &&& *final(self) == (App {
                    history: final(self).history,
                    sounds: final(self).sounds,
                    stats_cache: None,
                    recorded: true,
                    ..*old(self)
                })
            },
    {
        if self.recorded || !self.all_settled() {
            return None;
        }
        let c = self.record_roll();
        self.recorded = true;
        Some(c)
    }

    /// Ends a roll that ran to rest at once: of all that it made heard, the landing of
    /// its first die and the climax remain.
    pub fn hush(&mut self)
        requires
            old(self).wf(),
        ensures
            final(self).wf(),
            final(self).sounds@ == (if old(self).dice@.len() > 0 {
                seq![SoundEvent::Settle { sides: old(self).dice@[0].sides }]
            } else {
                Seq::empty()
            }) + climaxes(old(self).sounds@),
            *final(self) == (App { sounds: final(self).sounds, ..*old(self) }),
    {
        let mut kept: Vec<SoundEvent> = Vec::new();
        if !self.dice.is_empty() {
            kept.push(SoundEvent::Settle { sides: self.dice[0].sides });
        }
        let ghost head = kept@;
        let mut k: usize = 0;
        assert(self.sounds@.take(0) == Seq::<SoundEvent>::empty());
        while k < self.sounds.len()
            invariant
                k <= self.sounds@.len(),
                kept@ == head + climaxes(self.sounds@.take(k as int)),
            decreases self.sounds@.len() - k,
        {
            let ev = self.sounds[k];
            assert(self.sounds@.take(k + 1).drop_last() == self.sounds@.take(k as int));
            if ev == SoundEvent::Crit || ev == SoundEvent::Fumble || ev == SoundEvent::Success || ev
                == SoundEvent::Failure {
                kept.push(ev);
            }
            k += 1;
            assert(kept@ == head + climaxes(self.sounds@.take(k as int)));
        }
        assert(self.sounds@.take(k as int) == self.sounds@);
        assert(head == if self.dice@.len() > 0 {
            seq![SoundEvent::Settle { sides: self.dice@[0].sides }]
        } else {
            Seq::empty()
        });
        self.sounds = kept;
    }
}

/// Dice that have just been thrown are in order.
proof fn lemma_fresh_arena(
    dice: Seq<Die>,
    terms: Seq<TermView>,
    explosions: Seq<usize>,
    pending: Seq<Spawn>,
    sounds: Seq<SoundEvent>,
)
    requires
        in_order(dice, terms, Seq::new(terms.len(), |k: int| 0)),
        forall|i: int| 0 <= i < dice.len() ==> !(#[trigger] dice[i]).settled && !dice[i].exploded,
        forall|i: int|
            0 <= i < dice.len() ==> 1 <= (#[trigger] dice[i]).final_value <= dice[i].sides,
        explosions == Seq::new(terms.len(), |k: int| 0usize),
        pending.len() == 0,
    ensures
        arena_ok((Arena { dice, explosions, pending, sounds }), terms),
{
    assert(spawned(explosions, pending) =~= Seq::new(terms.len(), |k: int| 0int));
    assert forall|k: int| 0 <= k < terms.len() implies explosions_ok(
        #[trigger] terms[k],
        explosions[k] as int,
        waiting(pending, k),
        dice,
        k,
    ) by {
        if let Some(cond) = crate::roll::explodes_on(terms[k].mods, terms[k].sides) {
            lemma_none_rests(dice, k, cond);
        }
    }
}

proof fn lemma_none_rests(dice: Seq<Die>, k: int, cond: crate::parse::Compare)
    requires
        forall|i: int| 0 <= i < dice.len() ==> !(#[trigger] dice[i]).settled,
    ensures
        resting_hits(dice, k, cond) == 0,
    decreases dice.len(),
{
    if dice.len() > 0 {
        let before = dice.drop_last();
        assert forall|i: int| 0 <= i < before.len() implies !(#[trigger] before[i]).settled by {
            assert(before[i] == dice[i]);
        }
        lemma_none_rests(before, k, cond);
        assert(!dice.last().settled);
    }
}

/// The next die that an explosion has called for keeps the arena in order.
proof fn lemma_spawned(a: Arena, b: Arena, terms: Seq<TermView>, d: Die)
    requires
        arena_ok(a, terms),
        a.pending.len() > 0,
        b.dice == a.dice.push(d),
        b.pending == a.pending.drop_first(),
        b.explosions == a.explosions,
        d.sides == a.pending[0].sides,
        d.term_idx == a.pending[0].term_idx,
        d.mult == a.pending[0].mult,
        d.explode == Some(a.pending[0].cond),
        d.kept,
        !d.settled,
        !d.exploded,
        1 <= d.final_value <= d.sides,
    ensures
        arena_ok(b, terms),
{
    let s = a.pending[0];
    let t = s.term_idx as int;
    assert(spawn_ok(s, terms));
    assert(of_roll(d, terms));
    let before = spawned(a.explosions, a.pending);
    assert(explosions_ok(terms[t], a.explosions[t] as int, waiting(a.pending, t), a.dice, t));
    lemma_waiting_pop(a.pending, t);
    lemma_resting_hit_meets(a.dice, terms, t, s.cond);
    lemma_spawn_in_order(a.dice, d, terms, before, t);
    let after = spawned(b.explosions, b.pending);
    assert forall|k: int| 0 <= k < after.len() implies after[k] == before.update(
        t,
        before[t] + 1,
    )[k] by {
        lemma_waiting_pop(a.pending, k);
    }
    assert(after =~= before.update(t, before[t] + 1));
    assert forall|k: int| 0 <= k < terms.len() implies explosions_ok(
        #[trigger] terms[k],
        b.explosions[k] as int,
        waiting(b.pending, k),
        b.dice,
        k,
    ) by {
        assert(explosions_ok(terms[k], a.explosions[k] as int, waiting(a.pending, k), a.dice, k));
        lemma_waiting_pop(a.pending, k);
        if let Some(cond) = crate::roll::explodes_on(terms[k].mods, terms[k].sides) {
            lemma_resting_hits_push(a.dice, d, k, cond);
        }
    }
    assert forall|i: int| 0 <= i < b.dice.len() implies die_ok(#[trigger] b.dice[i]) by {
        if i < a.dice.len() {
            assert(b.dice[i] == a.dice[i]);
        }
    }
    assert forall|i: int| 0 <= i < b.pending.len() implies spawn_ok(
        #[trigger] b.pending[i],
        terms,
    ) by {
        assert(b.pending[i] == a.pending[i + 1]);
    }
}

/// The history holds the newest rolls, the last one at its end, and never grows
/// without bound.
pub proof fn the_newest_rolls_are_kept(history: Seq<EntryView>, e: EntryView)
    ensures
        recent(history.push(e)).len() <= MAX_HISTORY,
        recent(history.push(e)).last() == e,
        recent(history.push(e)).is_suffix_of(history.push(e)),
        history.len() < MAX_HISTORY ==> recent(history.push(e)) == history.push(e),
{
}

/// Each term of the roll, resolved on the faces that its dice in the arena show.
pub open spec fn arena_terms(app: App) -> Seq<OutcomeTermView> {
    Seq::new(
        app.roll@.terms.len(),
        |k: int| scored(app.roll@.terms[k], faces_of(of_term(app.dice@, k))),
    )
}

proof fn lemma_arena_terms(app: App, n: int)
    requires
        0 <= n <= app.roll@.terms.len(),
    ensures
        subtotals(arena_terms(app).take(n)) == scored_upto(app.dice@, app.roll@.terms, n),
    decreases n,
{
    if n > 0 {
        lemma_arena_terms(app, n - 1);
        assert(arena_terms(app).take(n).drop_last() == arena_terms(app).take(n - 1));
    }
}

/// A roll that has come to rest in the arena comes to what the evaluator makes of the
/// same faces: its pools are such as the evaluator throws, and total and verdict agree.
pub proof fn arena_and_evaluator_agree(app: App, expression: Seq<char>)
    requires
        app.wf(),
        app.settled_spec(),
    ensures
        forall|k: int|
            0 <= k < app.roll@.terms.len() ==> fair_pool(
                #[trigger] app.roll@.terms[k],
                faces_of(of_term(app.dice@, k)),
            ),
        concluded(expression, app.roll@, arena_terms(app)).total == app.total_spec(),
        app.stake is Some ==> concluded(expression, app.roll@, arena_terms(app)).success == Some(
            (app.verdict_spec()->0).0,
        ),
        app.stake is Some ==> concluded(expression, app.roll@, arena_terms(app)).margin == Some(
            (app.verdict_spec()->0).1,
        ),
{
    let n = app.roll@.terms.len() as int;
    arena_agrees_with_terms(app.dice@, app.roll@.terms, spawned(app.explosions@, app.pending@));
    lemma_arena_terms(app, n);
    assert(arena_terms(app).take(n) == arena_terms(app));
    assert forall|k: int| 0 <= k < n implies fair_pool(
        #[trigger] app.roll@.terms[k],
        faces_of(of_term(app.dice@, k)),
    ) by {
        settled_pools_are_fair(app.arena(), app.roll@.terms, k);
    }
}

/// Where an `i32` holds every total that the roll can come to, it holds that of its dice
/// at all times.
pub proof fn playable_totals_can_be_told(app: App)
    requires
        app.wf(),
        playable(app.roll@),
    ensures
        in_i32(app.total_spec()),
        app.can_tell(),
{
    lemma_worths_fit(app.dice@, app.roll@, spawned(app.explosions@, app.pending@));
}

/// A character typed and then taken back leaves the line as it was, and the caret
/// where it stood.
pub proof fn erasing_undoes_typing(app: App, c: char, typed: App, erased: App)
    requires
        app.types(c, typed),
        typed.erases(erased),
    ensures
        erased.input@ == app.input@,
        erased.cursor == bytes(app.input@.take(app.caret())),
        erased.caret() == app.caret(),
        erased == (App { input: erased.input, cursor: erased.cursor, ..app }),
{
    caret_is_in_the_text(app.input@, app.cursor as int);
    typing_is_undone_by_erasing(app.input@, app.caret(), c);
}

/// The modes follow each other from the most ceremony to the least, and round again.
pub proof fn modes_lose_ceremony()
    ensures
        RollMode::Shake.after() == RollMode::Roll,
        RollMode::Roll.after() == RollMode::Insta,
        RollMode::Insta.after() == RollMode::Shake,
{
}

/// The values of a roll are the faces of its kept dice, in order.
pub proof fn kept_values_go_in_order(a: Seq<Die>, b: Seq<Die>, d: Die)
    ensures
        kept_values(Seq::empty()) == Seq::<u32>::empty(),
        d.kept ==> kept_values(seq![d]) == seq![d.final_value],
        !d.kept ==> kept_values(seq![d]) == Seq::<u32>::empty(),
        kept_values(a + b) == kept_values(a) + kept_values(b),
    decreases b.len(),
{
    assert(seq![d].drop_last() =~= Seq::<Die>::empty());
    reveal_with_fuel(kept_values, 2);
    assert(d.kept ==> kept_values(seq![d]) =~= seq![d.final_value]);
    if b.len() == 0 {
        assert(a + b =~= a);
        assert(kept_values(a) + kept_values(b) =~= kept_values(a));
    } else {
        kept_values_go_in_order(a, b.drop_last(), d);
        assert((a + b).drop_last() =~= a + b.drop_last());
        assert(kept_values(a + b) =~= kept_values(a) + kept_values(b));
    }
}

/// Only dice that are kept and rest are celebrated or pitied: on their highest face, and on
/// a 1, where they have more than one side.
pub proof fn only_kept_dice_at_rest_count(d: Die)
    ensures
        crits(d) <==> d.kept && d.settled && is_crit(d.sides, d.final_value),
        fumbles(d) <==> d.kept && d.settled && is_fumble(d.sides, d.final_value),
{
}

/// The numbers of the dice that crit, and of those that fumble, are all of them and no
/// others, each once and in order.
pub proof fn celebrations_name_each_die(dice: Seq<Die>, n: int, i: int)
    requires
        0 <= n <= dice.len(),
        0 <= i < n,
    ensures
        crit_indices(dice, n).contains(i) <==> crits(dice[i]),
        fumble_indices(dice, n).contains(i) <==> fumbles(dice[i]),
        forall|j: int, k: int|
            0 <= j < k < crit_indices(dice, n).len() ==> #[trigger] crit_indices(dice, n)[j]
                < #[trigger] crit_indices(dice, n)[k],
        forall|j: int, k: int|
            0 <= j < k < fumble_indices(dice, n).len() ==> #[trigger] fumble_indices(dice, n)[j]
                < #[trigger] fumble_indices(dice, n)[k],
        forall|j: int|
            0 <= j < crit_indices(dice, n).len() ==> 0 <= #[trigger] crit_indices(dice, n)[j] < n,
        forall|j: int|
            0 <= j < fumble_indices(dice, n).len() ==> 0 <= #[trigger] fumble_indices(dice, n)[j]
                < n,
    decreases n,
{
    lemma_indices_below(dice, n - 1);
    let before = crit_indices(dice, n - 1);
    let all = crit_indices(dice, n);
    let lost = fumble_indices(dice, n - 1);
    let gone = fumble_indices(dice, n);
    if i < n - 1 {
        celebrations_name_each_die(dice, n - 1, i);
        if before.contains(i) {
            let j = choose|j: int| 0 <= j < before.len() && before[j] == i;
            assert(all[j] == i);
        }
        if lost.contains(i) {
            let j = choose|j: int| 0 <= j < lost.len() && lost[j] == i;
            assert(gone[j] == i);
        }
    } else {
        if crits(dice[i]) {
            assert(all[before.len() as int] == i);
        }
        if fumbles(dice[i]) {
            assert(gone[lost.len() as int] == i);
        }
        if n > 1 {
            celebrations_name_each_die(dice, n - 1, 0);
        }
    }
}

proof fn lemma_indices_below(dice: Seq<Die>, n: int)
    ensures
        forall|j: int|
            0 <= j < crit_indices(dice, n).len() ==> 0 <= #[trigger] crit_indices(dice, n)[j] < n,
        forall|j: int|
            0 <= j < fumble_indices(dice, n).len() ==> 0 <= #[trigger] fumble_indices(dice, n)[j]
                < n,
    decreases n,
{
    if n > 0 {
        lemma_indices_below(dice, n - 1);
        let before = crit_indices(dice, n - 1);
        let all = crit_indices(dice, n);
        assert forall|j: int| 0 <= j < all.len() implies 0 <= #[trigger] all[j] < n by {
            if j < before.len() {
                assert(all[j] == before[j]);
            }
        }
        let lost = fumble_indices(dice, n - 1);
        let gone = fumble_indices(dice, n);
        assert forall|j: int| 0 <= j < gone.len() implies 0 <= #[trigger] gone[j] < n by {
            if j < lost.len() {
                assert(gone[j] == lost[j]);
            }
        }
    }
}

/// The history remembers two hundred rolls, the newest of them.
pub proof fn histories_remember_the_last_rolls(history: Seq<EntryView>, k: int)
    ensures
        history.len() <= 200 ==> recent(history) == history,
        history.len() > 200 ==> recent(history).len() == 200,
        0 <= k < recent(history).len() ==> recent(history)[k] == history[history.len() - recent(
            history,
        ).len() + k],
{
}

/// The views of a history are those of its entries, in order.
pub proof fn entries_go_one_by_one(history: Seq<HistoryEntry>, v: Seq<usize>, k: int)
    ensures
        entries(history).len() == history.len(),
        0 <= k < history.len() ==> entries(history)[k].expr == history[k].expr@,
        0 <= k < history.len() ==> entries(history)[k].values == history[k].values@,
        0 <= k < history.len() ==> entries(history)[k].total == history[k].total,
        ints(v).len() == v.len(),
        0 <= k < v.len() ==> ints(v)[k] == v[k],
{
}

/// Of the sounds that wait, the crits, the fumbles and the verdicts tell how a roll came
/// out, and are told in order.
pub proof fn climaxes_are_picked_in_order(a: Seq<SoundEvent>, b: Seq<SoundEvent>, ev: SoundEvent)
    ensures
        climaxes(Seq::empty()) == Seq::<SoundEvent>::empty(),
        climaxes(a + b) == climaxes(a) + climaxes(b),
        ev is Crit || ev is Fumble || ev is Success || ev is Failure ==> climaxes(seq![ev]) == seq![
            ev,
        ],
        ev is Impact || ev is Knock || ev is Settle || ev is Rattle || ev is Throw ==> climaxes(
            seq![ev],
        ) == Seq::<SoundEvent>::empty(),
    decreases b.len(),
{
    assert(seq![ev].drop_last() =~= Seq::<SoundEvent>::empty());
    reveal_with_fuel(climaxes, 2);
    assert(is_climax(ev) ==> climaxes(seq![ev]) =~= seq![ev]);
    if b.len() == 0 {
        assert(a + b =~= a);
        assert(climaxes(a) + climaxes(b) =~= climaxes(a));
    } else {
        climaxes_are_picked_in_order(a, b.drop_last(), ev);
        assert((a + b).drop_last() =~= a + b.drop_last());
        assert(climaxes(a + b) =~= climaxes(a) + climaxes(b));
    }
}

/// The last sounds of a queue that are still within its limit.
spec fn last_heard(sounds: Seq<SoundEvent>) -> Seq<SoundEvent> {
    if sounds.len() > 64 {
        sounds.skip(sounds.len() - 64)
    } else {
        sounds
    }
}

proof fn lemma_forced_on(sounds: Seq<SoundEvent>, told: Seq<SoundEvent>, ev: SoundEvent)
    ensures
        forced(last_heard(sounds + told), ev) == last_heard(sounds + (told + seq![ev])),
{
    let all = sounds + (told + seq![ev]);
    assert(all =~= (sounds + told).push(ev));
    assert(forced(last_heard(sounds + told), ev) =~= last_heard(all));
}

/// A roll that has come to rest is told at the end of the queue: a crit, then a fumble,
/// then the verdict, each only where there is one. None of them is ever lost; where the
/// queue is full, the oldest sounds make way.
#[verifier::spinoff_prover]
#[verifier::rlimit(40)]
pub proof fn endings_are_always_told(
    sounds: Seq<SoundEvent>,
    crit: bool,
    fumble: bool,
    verdict: Option<bool>,
)
    requires
        sounds.len() <= 64,
    ensures
        ({
            let told = (if crit {
                seq![SoundEvent::Crit]
            } else {
                Seq::empty()
            }) + (if fumble {
                seq![SoundEvent::Fumble]
            } else {
                Seq::empty()
            }) + (match verdict {
                Some(true) => seq![SoundEvent::Success],
                Some(false) => seq![SoundEvent::Failure],
                None => Seq::empty(),
            });
            let all = concluding(sounds, crit, fumble, verdict);
            &&& told.is_suffix_of(all)
            &&& all.len() <= 64
            &&& sounds.len() + told.len() <= 64 ==> all == sounds + told
            &&& all.is_suffix_of(sounds + told)
        }),
{
    let none = Seq::<SoundEvent>::empty();
    let first = if crit {
        seq![SoundEvent::Crit]
    } else {
        none
    };
    let second = if fumble {
        seq![SoundEvent::Fumble]
    } else {
        none
    };
    let third = match verdict {
        Some(true) => seq![SoundEvent::Success],
        Some(false) => seq![SoundEvent::Failure],
        None => none,
    };
    assert(sounds + none =~= sounds);
    lemma_forced_on(sounds, none, SoundEvent::Crit);
    assert(none + seq![SoundEvent::Crit] =~= seq![SoundEvent::Crit]);
    lemma_forced_on(sounds, first, SoundEvent::Fumble);
    assert(first + none =~= first);
    lemma_forced_on(sounds, first + second, SoundEvent::Success);
    lemma_forced_on(sounds, first + second, SoundEvent::Failure);
    assert(first + second + none =~= first + second);
    let told = first + second + third;
    let all = concluding(sounds, crit, fumble, verdict);
    assert(all == last_heard(sounds + told));
    assert(told.len() <= 3);
    lemma_last_heard(sounds, told);
}

proof fn lemma_last_heard(sounds: Seq<SoundEvent>, told: Seq<SoundEvent>)
    requires
        told.len() <= 64,
    ensures
        told.is_suffix_of(last_heard(sounds + told)),
        last_heard(sounds + told).is_suffix_of(sounds + told),
        last_heard(sounds + told).len() <= 64,
{
    let all = sounds + told;
    let heard = last_heard(all);
    assert(heard.subrange(heard.len() - told.len(), heard.len() as int) =~= told);
    assert(all.subrange(all.len() - heard.len(), all.len() as int) =~= heard);
}

/// The total of the arena is the modifier and what its dice are worth.
pub proof fn totals_hold_dice_and_modifier(app: App)
    ensures
        app.total_spec() - worths(app.dice@) == app.modifier,
        app.can_tell() <==> (app.settled_spec() ==> i32::MIN <= app.total_spec() <= i32::MAX),
{
}

/// A roll has come to rest once it has been launched, has dice, all of them at rest, and
/// none waits to be thrown.
pub proof fn rolls_rest_when_all_dice_do(app: App)
    ensures
        app.settled_spec() <==> app.spawned && app.pending@.len() == 0 && app.dice@.len() > 0 && (
        forall|i: int| 0 <= i < app.dice@.len() ==> (#[trigger] app.dice@[i]).settled),
{
}

/// A verdict is given on a staked roll that has come to rest, and on no other: an over
/// stake is made by a total that meets or beats the target, an under stake by one that
/// stays at or below it, and the margin is the distance.
pub proof fn verdicts_wait_for_the_dice(app: App)
    ensures
        app.verdict_spec() is Some <==> app.stake is Some && app.settled_spec(),
        app.verdict_spec() matches Some((success, margin)) ==> {
            let target = app.stake->0.target;
            &&& app.stake->0.goal is Over ==> {
                &&& success <==> app.total_spec() >= target
                &&& in_i32(app.total_spec() - target) ==> margin == app.total_spec() - target
            }
            &&& app.stake->0.goal is Under ==> {
                &&& success <==> app.total_spec() <= target
                &&& in_i32(target - app.total_spec()) ==> margin == target - app.total_spec()
            }
        },
{
}

/// What is typed goes in before the caret, which then stands behind it; nothing else of
/// the session changes.
pub proof fn typing_goes_in_at_the_caret(app: App, c: char, next: App, k: int)
    requires
        app.types(c, next),
        0 <= k < app.input@.len(),
    ensures
        next.input@.len() == app.input@.len() + 1,
        next.input@[app.caret()] == c,
        k < app.caret() ==> next.input@[k] == app.input@[k],
        k >= app.caret() ==> next.input@[k + 1] == app.input@[k],
        next.caret() == app.caret() + 1,
        next == (App { input: next.input, cursor: next.cursor, ..app }),
{
    caret_is_in_the_text(app.input@, app.cursor as int);
    typing_is_undone_by_erasing(app.input@, app.caret(), c);
}

/// What is erased is the character before the caret, which moves back; at the start of the
/// line nothing happens.
pub proof fn erasing_takes_what_stands_before(app: App, next: App, k: int)
    requires
        app.erases(next),
        0 <= k < next.input@.len(),
    ensures
        app.caret() == 0 ==> next == app,
        app.caret() > 0 ==> {
            &&& next.input@.len() == app.input@.len() - 1
            &&& next.caret() == app.caret() - 1
            &&& k < app.caret() - 1 ==> next.input@[k] == app.input@[k]
            &&& k >= app.caret() - 1 ==> next.input@[k] == app.input@[k + 1]
        },
        next == (App { input: next.input, cursor: next.cursor, ..app }),
{
    caret_is_in_the_text(app.input@, app.cursor as int);
    if app.caret() > 0 {
        let at = app.caret() - 1;
        assert(next.input@.take(at) =~= app.input@.take(at));
        crate::edit::caret_stays_where_put(next.input@, at);
    }
}

/// The caret and the room on the line are those of the text.
pub proof fn the_caret_is_that_of_the_line(app: App)
    ensures
        app.caret() == caret(app.input@, app.cursor as int),
        app.has_room() <==> bytes(app.input@) + 4 <= usize::MAX,
{
}

/// A line that does not read is complained of and nothing else changes: the dice of the
/// last roll lie as they did. A line that reads puts its own dice into the arena, thrown
/// with what is in store, with its modifier and its stake, to be launched as is said; the
/// line, the history, the pane, the mode and the sounds stay as they are.
pub proof fn rolling_changes_the_arena_alone(app: App, launch: Launch, next: App)
    requires
        app.rolled(launch, next),
    ensures
        parsed(app.input@) is Err ==> {
            &&& next.error matches Some(said) && said@ == parsed(app.input@)->Err_0
            &&& next.dice == app.dice && next.rng == app.rng && next.launch == app.launch
            &&& next.modifier == app.modifier && next.stake == app.stake
            &&& next.spawned == app.spawned && next.recorded == app.recorded
        },
        parsed(app.input@) matches Ok(r) ==> {
            &&& next.error is None
            &&& next.launch == Some(launch)
            &&& next.modifier == r.modifier
            &&& next.stake == r.stake
            &&& next.roll@ == r
            &&& next.dice@ == thrown(r.terms, upcoming(app.rng)).0
            &&& !next.spawned
            &&& !next.recorded
            &&& next.pending@.len() == 0
            &&& continues(
                upcoming(next.rng),
                upcoming(app.rng),
                thrown(r.terms, upcoming(app.rng)).1,
            )
        },
        next.input == app.input && next.cursor == app.cursor && next.history == app.history
            && next.pane == app.pane && next.pane_scroll == app.pane_scroll && next.mode == app.mode
            && next.sounds == app.sounds && next.muted == app.muted && next.shake == app.shake
            && next.stats_cache == app.stats_cache,
{
}

/// A session opens with its line typed and the caret behind it, nothing rolled before,
/// nothing heard, and no pane over the arena. A line that reads is rolled at once, one that
/// does not is complained of, and an empty one is left alone.
pub proof fn sessions_open_on_their_line(app: App, text: Seq<char>, faces: Map<Seq<u32>, u32>)
    requires
        app.opens_with(text, faces),
    ensures
        app.input@ == text,
        app.cursor == bytes(text),
        app.history@.len() == 0,
        app.sounds@.len() == 0,
        app.pane is Closed,
        app.pane_scroll == 0,
        app.mode is Shake,
        app.shake is None,
        app.stats_cache is None,
        !app.muted && !app.spawned && !app.recorded,
        app.pending@.len() == 0,
        text.len() == 0 ==> app.error is None && app.dice@.len() == 0 && app.launch is None
            && app.modifier == 0 && app.stake is None && upcoming(app.rng) == faces,
        text.len() > 0 && parsed(text) is Err ==> {
            &&& app.error matches Some(said) && said@ == parsed(text)->Err_0
            &&& app.dice@.len() == 0
            &&& app.modifier == 0
            &&& app.stake is None
            &&& app.launch is None
            &&& upcoming(app.rng) == faces
        },
        text.len() > 0 && parsed(text) is Ok ==> {
            &&& app.error is None
            &&& app.launch == Some(Launch::Rain)
            &&& app.modifier == parsed(text)->Ok_0.modifier
            &&& app.stake == parsed(text)->Ok_0.stake
            &&& app.dice@ == thrown(parsed(text)->Ok_0.terms, faces).0
            &&& app.roll@ == parsed(text)->Ok_0
            &&& continues(upcoming(app.rng), faces, thrown(parsed(text)->Ok_0.terms, faces).1)
        },
{
}

/// Dice that are looked at come to rest or tumble on, each as its own pose says; the line,
/// the history and the store of dice stay as they are.
pub proof fn looking_changes_the_arena_alone(app: App, poses: Seq<Pose>, next: App, i: int)
    requires
        app.looked(poses, next),
        poses.len() == app.dice@.len(),
        0 <= i < app.dice@.len(),
    ensures
        next.dice@.len() == app.dice@.len(),
        ({
            let d = app.dice@[i];
            &&& d.settled ==> next.dice@[i] == d
            &&& !d.settled && poses[i].rests ==> next.dice@[i] == (Die {
                shown: d.final_value,
                settled: true,
                exploded: true,
                ..d
            })
            &&& !d.settled && !poses[i].rests ==> !next.dice@[i].settled && next.dice@[i]
                == (Die { shown: next.dice@[i].shown, ..d })
        }),
        next.rng == app.rng && next.input == app.input && next.history == app.history
            && next.modifier == app.modifier && next.stake == app.stake && next.roll == app.roll
            && next.spawned == app.spawned && next.recorded == app.recorded,
{
    each_die_follows_its_pose(app.arena(), poses, poses.len() as int, i);
    assert(next.arena().dice == next.dice@);
}

/// The first die that waits is the next to be thrown. It joins the dice at their end with
/// the face that is next in store; it belongs to the term that called for it, counts, and
/// may explode in its turn.
pub proof fn spawned_dice_join_at_the_end(app: App, next: App)
    requires
        app.spawns(next),
    ensures
        ({
            let s = app.pending@[0];
            let d = next.dice@.last();
            &&& app.pending@.len() > 0
            &&& next.dice@.len() == app.dice@.len() + 1
            &&& next.dice@.drop_last() == app.dice@
            &&& next.pending@ == app.pending@.drop_first()
            &&& d.final_value == upcoming(app.rng)[seq![s.sides]]
            &&& d.sides == s.sides
            &&& d.term_idx == s.term_idx
            &&& d.mult == s.mult
            &&& d.explode == Some(s.cond)
            &&& d.kept && !d.settled && !d.exploded
        }),
        next == (App { dice: next.dice, pending: next.pending, rng: next.rng, ..app }),
{
    assert(next.dice@.drop_last() =~= app.dice@);
}

/// The arena of a session holds its dice, and what they have called for and made heard.
pub proof fn the_arena_is_that_of_the_session(app: App, k: int)
    ensures
        app.arena().dice == app.dice@,
        app.arena().explosions == app.explosions@,
        app.arena().pending == app.pending@,
        app.arena().sounds == app.sounds@,
        arena_terms(app).len() == app.roll@.terms.len(),
        0 <= k < app.roll@.terms.len() ==> arena_terms(app)[k] == scored(
            app.roll@.terms[k],
            faces_of(of_term(app.dice@, k)),
        ),
{
}

} // verus!
