//! The odds of an expression, estimated, and how its rolls have gone.

use crate::app::{entries, App, EntryView, HistoryEntry};
use crate::cli::Mishap;
use crate::notation::{parsed_rolls_are_capped, term_allowed};
use crate::parse::{parse, parsed, Goal, Roll, RollView, Stake, TermView};
use crate::rng::{
    continues, is_run, lemma_nothing_drawn, same_store, seeded, seeded_faces, upcoming,
};
use crate::roll::{
    all_sided, calls_for_more, check, explodes_on, face_at, grown, lead, like, outcome_fits,
    playable, playable_rolls_fit, pool, pools, resolved, rolls_follow_each_other, subtotals,
    sum_least, sum_most, try_evaluate, MAX_EXPLOSIONS, OutcomeTermView,
};
use crate::text::{trim, trimmed};
use rand::rngs::StdRng;
use vstd::prelude::*;

verus! {

/// How often an expression is thrown to estimate its odds.
pub const STAT_SAMPLES: usize = 20_000;

/// The most buckets that totals are sorted into.
pub const MAX_BUCKETS: usize = 11;

/// The rolls of one expression in this session.
#[derive(Debug, Clone, Copy, PartialEq, Eq, Structural)]
pub struct SessionStats {
    pub count: usize,
    pub min: i32,
    pub max: i32,
    pub sum: i64,
}

/// The odds of an expression, and its rolls in this session.
#[derive(Debug, PartialEq, Eq)]
pub struct Stats {
    pub expr: String,
    pub samples: usize,
    pub min: i32,
    pub max: i32,
    /// The sum of all samples.
    pub sum: i64,
    pub stake: Option<Stake>,
    /// How many samples make the stake.
    pub successes: Option<usize>,
    /// How many samples fall into each bucket from `min` to `max`.
    pub dist: Vec<usize>,
    pub session: SessionStats,
    /// How many rolls are in the history.
    pub total_rolls: usize,
}

pub struct StatsView {
    pub expr: Seq<char>,
    pub samples: int,
    pub min: int,
    pub max: int,
    pub sum: int,
    pub stake: Option<Stake>,
    pub successes: Option<nat>,
    pub dist: Seq<int>,
    pub session: SessionStats,
    pub total_rolls: int,
}

pub open spec fn counts_of(v: Seq<usize>) -> Seq<int> {
    Seq::new(v.len(), |k: int| v[k] as int)
}

impl View for Stats {
    type V = StatsView;

    open spec fn view(&self) -> StatsView {
        StatsView {
            expr: self.expr@,
            samples: self.samples as int,
            min: self.min as int,
            max: self.max as int,
            sum: self.sum as int,
            stake: self.stake,
            successes: match self.successes {
                Some(n) => Some(n as nat),
                None => None,
            },
            dist: counts_of(self.dist@),
            session: self.session,
            total_rolls: self.total_rolls as int,
        }
    }
}

/// The last odds that were worked out, and what for.
#[derive(Debug)]
pub struct StatsCache {
    pub expr: String,
    pub rolls: usize,
    pub stats: Stats,
}

/// The lowest of the totals.
pub open spec fn lowest(totals: Seq<i32>) -> int
    decreases totals.len(),
{
    if totals.len() == 0 {
        i32::MAX as int
    } else if totals.last() < lowest(totals.drop_last()) {
        totals.last() as int
    } else {
        lowest(totals.drop_last())
    }
}

/// The highest of the totals.
pub open spec fn highest(totals: Seq<i32>) -> int
    decreases totals.len(),
{
    if totals.len() == 0 {
        i32::MIN as int
    } else if totals.last() > highest(totals.drop_last()) {
        totals.last() as int
    } else {
        highest(totals.drop_last())
    }
}

pub open spec fn sum_of(totals: Seq<i32>) -> int
    decreases totals.len(),
{
    if totals.len() == 0 {
        0
    } else {
        sum_of(totals.drop_last()) + totals.last()
    }
}

/// How many of the totals make the stake.
pub open spec fn made(totals: Seq<i32>, stake: Stake) -> nat
    decreases totals.len(),
{
    if totals.len() == 0 {
        0
    } else {
        made(totals.drop_last(), stake) + if lead(totals.last() as int, stake) >= 0 {
            1nat
        } else {
            0
        }
    }
}

/// The number of buckets that `span` neighbouring totals are sorted into.
pub open spec fn bucket_count(span: int) -> int {
    if span < MAX_BUCKETS {
        span
    } else {
        MAX_BUCKETS as int
    }
}

/// The bucket of the total `t`, the lowest being `lo`: buckets of even width.
pub open spec fn bucket(t: int, lo: int, span: int) -> int {
    (t - lo) * bucket_count(span) / span
}

/// How many of the totals fall into the bucket number `b`.
pub open spec fn in_bucket(totals: Seq<i32>, lo: int, span: int, b: int) -> nat
    decreases totals.len(),
{
    if totals.len() == 0 {
        0
    } else {
        in_bucket(totals.drop_last(), lo, span, b) + if bucket(totals.last() as int, lo, span) == b {
            1nat
        } else {
            0
        }
    }
}

/// How many of the totals fall into each bucket from `lo` to `hi`.
pub open spec fn distribution(totals: Seq<i32>, lo: int, hi: int) -> Seq<int> {
    let span = hi - lo + 1;
    if totals.len() == 0 {
        Seq::empty()
    } else {
        Seq::new(
            bucket_count(span) as nat,
            |b: int| in_bucket(totals, lo, span, b) as int,
        )
    }
}

/// The lowest total is one of them, and none is lower; so for the highest.
pub proof fn extremes_bound_the_totals(totals: Seq<i32>)
    ensures
        forall|k: int|
            0 <= k < totals.len() ==> lowest(totals) <= #[trigger] totals[k] <= highest(totals),
        totals.len() > 0 ==> i32::MIN <= lowest(totals) <= highest(totals) <= i32::MAX,
        totals.len() > 0 ==> totals.contains(lowest(totals) as i32) && totals.contains(
            highest(totals) as i32,
        ),
    decreases totals.len(),
{
    if totals.len() > 0 {
        let before = totals.drop_last();
        extremes_bound_the_totals(before);
        let n = totals.len() - 1;
        assert forall|k: int| 0 <= k < totals.len() implies lowest(totals) <= #[trigger] totals[k]
            <= highest(totals) by {
            if k < n {
                assert(before[k] == totals[k]);
            }
        }
        assert(totals[n] == totals.last());
        if before.len() > 0 {
            let a = choose|k: int| 0 <= k < before.len() && before[k] == lowest(before) as i32;
            let b = choose|k: int| 0 <= k < before.len() && before[k] == highest(before) as i32;
            assert(totals[a] == before[a]);
            assert(totals[b] == before[b]);
        }
    }
}

proof fn lemma_bucket_range(t: int, lo: int, hi: int)
    requires
        lo <= t <= hi,
    ensures
        0 <= bucket(t, lo, hi - lo + 1) < bucket_count(hi - lo + 1),
{
    let span = hi - lo + 1;
    let n = bucket_count(span);
    assert(0 <= (t - lo) * n < n * span) by (nonlinear_arith)
        requires
            0 <= t - lo < span,
            n >= 1,
    ;
    assert(0 <= (t - lo) * n / span < n) by (nonlinear_arith)
        requires
            0 <= (t - lo) * n < n * span,
            span >= 1,
    ;
}

/// Sorts totals from `lo` to `hi` into buckets of even width, and counts each.
pub fn histogram(totals: &Vec<i32>, lo: i32, hi: i32) -> (counts: Vec<usize>)
    requires
        forall|k: int| 0 <= k < totals@.len() ==> lo <= #[trigger] totals@[k] <= hi,
    ensures
        counts_of(counts@) == distribution(totals@, lo as int, hi as int),
{
    let mut counts: Vec<usize> = Vec::new();
    if totals.is_empty() {
        assert(counts_of(counts@) == Seq::<int>::empty());
        return counts;
    }
    assert(lo <= totals@[0] <= hi);
    let span: i64 = hi as i64 - lo as i64 + 1;
    let bins: usize = if span < 11 {
        span as usize
    } else {
        11
    };
    let mut b: usize = 0;
    while b < bins
        invariant
            b <= bins,
            counts@ == Seq::new(b as nat, |j: int| 0usize),
        decreases bins - b,
    {
        counts.push(0);
        b += 1;
        assert(counts@ == Seq::new(b as nat, |j: int| 0usize));
    }
    let mut k: usize = 0;
    assert(totals@.take(0) == Seq::<i32>::empty());
    while k < totals.len()
        invariant
            k <= totals@.len(),
            span == hi - lo + 1,
            1 <= span <= 0x1_0000_0000,
            bins == bucket_count(span as int),
            counts@.len() == bins,
            forall|j: int| 0 <= j < totals@.len() ==> lo <= #[trigger] totals@[j] <= hi,
            forall|j: int|
                0 <= j < bins ==> #[trigger] counts@[j] == in_bucket(
                    totals@.take(k as int),
                    lo as int,
                    span as int,
                    j,
                ),
            forall|j: int| 0 <= j < bins ==> #[trigger] counts@[j] <= k,
        decreases totals@.len() - k,
    {
        let t: i32 = totals[k];
        proof {
            lemma_bucket_range(t as int, lo as int, hi as int);
            assert(totals@.take(k + 1).drop_last() == totals@.take(k as int));
        }
        let from: i64 = t as i64 - lo as i64;
        assert(0 <= from * bins <= 0x1_0000_0000 * 11) by (nonlinear_arith)
            requires
                0 <= from <= 0x1_0000_0000,
                0 <= bins <= 11,
        ;
        let at: usize = (from * bins as i64 / span) as usize;
        assert(at == bucket(t as int, lo as int, span as int));
        let ghost before = counts@;
        let n: usize = counts[at];
        counts.set(at, n + 1);
        k += 1;
    }
    assert(totals@.take(k as int) == totals@);
    assert(counts_of(counts@) == distribution(totals@, lo as int, hi as int));
    counts
}

/// The totals of the rolls of `expr`, oldest first.
pub open spec fn totals_of(history: Seq<EntryView>, expr: Seq<char>) -> Seq<i32>
    decreases history.len(),
{
    if history.len() == 0 {
        Seq::empty()
    } else if history.last().expr == expr {
        totals_of(history.drop_last(), expr).push(history.last().total)
    } else {
        totals_of(history.drop_last(), expr)
    }
}

/// What the totals of one expression amount to: nothing but zeros where there are
/// none.
pub open spec fn session_of(totals: Seq<i32>) -> SessionStats {
    if totals.len() == 0 {
        SessionStats { count: 0, min: 0, max: 0, sum: 0 }
    } else {
        SessionStats {
            count: totals.len() as usize,
            min: lowest(totals) as i32,
            max: highest(totals) as i32,
            sum: sum_of(totals) as i64,
        }
    }
}

proof fn lemma_sum_bounds(totals: Seq<i32>)
    ensures
        -0x8000_0000 * totals.len() <= sum_of(totals) <= 0x8000_0000 * totals.len(),
    decreases totals.len(),
{
    if totals.len() > 0 {
        lemma_sum_bounds(totals.drop_last());
    }
}

/// The lowest, the highest and the sum of the totals.
fn extremes(totals: &Vec<i32>) -> (r: (i32, i32, i64))
    requires
        totals@.len() <= 0xffff_ffff,
    ensures
        r.0 == lowest(totals@),
        r.1 == highest(totals@),
        r.2 == sum_of(totals@),
{
    let mut lo: i32 = i32::MAX;
    let mut hi: i32 = i32::MIN;
    let mut sum: i64 = 0;
    let mut k: usize = 0;
    assert(totals@.take(0) == Seq::<i32>::empty());
    while k < totals.len()
        invariant
            k <= totals@.len() <= 0xffff_ffff,
            lo == lowest(totals@.take(k as int)),
            hi == highest(totals@.take(k as int)),
            sum == sum_of(totals@.take(k as int)),
        decreases totals@.len() - k,
    {
        let t: i32 = totals[k];
        proof {
            assert(totals@.take(k + 1).drop_last() == totals@.take(k as int));
            lemma_sum_bounds(totals@.take(k as int));
        }
        if t < lo {
            lo = t;
        }
        if t > hi {
            hi = t;
        }
        sum = sum + t as i64;
        k += 1;
    }
    assert(totals@.take(k as int) == totals@);
    (lo, hi, sum)
}

impl SessionStats {
    /// What the rolls of `expr` in the history amount to.
    pub fn from_history(history: &Vec<HistoryEntry>, expr: &String) -> (s: SessionStats)
        requires
            history@.len() <= 0xffff_ffff,
        ensures
            s == session_of(totals_of(entries(history@), expr@)),
    {
        let ghost all = entries(history@);
        let mut totals: Vec<i32> = Vec::new();
        let mut k: usize = 0;
        assert(all.take(0) == Seq::<EntryView>::empty());
        while k < history.len()
            invariant
                k <= history@.len(),
                all == entries(history@),
                totals@ == totals_of(all.take(k as int), expr@),
                totals@.len() <= k,
            decreases history@.len() - k,
        {
            assert(all.take(k + 1).drop_last() == all.take(k as int));
            let e = &history[k];
            if e.expr == *expr {
                totals.push(e.total);
            }
            k += 1;
        }
        assert(all.take(k as int) == all);
        if totals.is_empty() {
            return SessionStats { count: 0, min: 0, max: 0, sum: 0 };
        }
        let (min, max, sum) = extremes(&totals);
        SessionStats { count: totals.len(), min, max, sum }
    }
}

/// What is in store once `drawn` has been drawn.
pub open spec fn rest_of(faces: Map<Seq<u32>, u32>, drawn: Seq<u32>) -> Map<Seq<u32>, u32> {
    Map::new(|run: Seq<u32>| is_run(run), |run: Seq<u32>| faces[drawn + run])
}

/// The totals of `n` rolls in a row with dice drawn from `faces`, and the dice drawn
/// for them.
pub open spec fn sampled(r: RollView, faces: Map<Seq<u32>, u32>, n: nat) -> (Seq<i32>, Seq<u32>)
    decreases n,
{
    if n == 0 {
        (Seq::empty(), Seq::empty())
    } else {
        let (before, drawn) = sampled(r, faces, (n - 1) as nat);
        let (terms, more) = resolved(r.terms, rest_of(faces, drawn));
        (before.push((r.modifier + subtotals(terms)) as i32), drawn + more)
    }
}

/// Whether an `i32` holds what each of `n` rolls in a row comes to with dice drawn from
/// `faces`.
pub open spec fn samples_fit(r: RollView, faces: Map<Seq<u32>, u32>, n: nat) -> bool
    decreases n,
{
    n > 0 ==> {
        let fewer = (n - 1) as nat;
        &&& samples_fit(r, faces, fewer)
        &&& outcome_fits(r, resolved(r.terms, rest_of(faces, sampled(r, faces, fewer).1)).0)
    }
}

proof fn lemma_samples_fit_before(r: RollView, faces: Map<Seq<u32>, u32>, k: nat, n: nat)
    requires
        samples_fit(r, faces, n),
        k <= n,
    ensures
        samples_fit(r, faces, k),
    decreases n - k,
{
    if k < n {
        lemma_samples_fit_before(r, faces, k, (n - 1) as nat);
    }
}

spec fn sided(drawn: Seq<u32>) -> bool {
    forall|k: int| 0 <= k < drawn.len() ==> #[trigger] drawn[k] >= 1
}

proof fn lemma_face_alike(
    a: Map<Seq<u32>, u32>,
    b: Map<Seq<u32>, u32>,
    drawn: Seq<u32>,
    sides: u32,
    k: nat,
)
    requires
        same_store(a, b),
        sided(drawn),
        sides >= 1,
    ensures
        face_at(a, drawn, sides, k) == face_at(b, drawn, sides, k),
{
    let run = drawn + like(sides, k + 1);
    assert forall|j: int| 0 <= j < run.len() implies #[trigger] run[j] >= 1 by {
        if j < drawn.len() {
            assert(run[j] == drawn[j]);
        }
    }
    assert(is_run(run));
    assert(a[run] == b[run]);
}

proof fn lemma_grown_alike(
    a: Map<Seq<u32>, u32>,
    b: Map<Seq<u32>, u32>,
    drawn: Seq<u32>,
    sides: u32,
    cond: crate::parse::Compare,
    i: nat,
    len: nat,
    spawned: nat,
)
    requires
        same_store(a, b),
        sided(drawn),
        sides >= 1,
        i <= len,
        spawned <= MAX_EXPLOSIONS,
    ensures
        grown(a, drawn, sides, cond, i, len, spawned) == grown(
            b,
            drawn,
            sides,
            cond,
            i,
            len,
            spawned,
        ),
    decreases (MAX_EXPLOSIONS - spawned) + (len - i),
{
    if i < len {
        lemma_face_alike(a, b, drawn, sides, i);
        if calls_for_more(cond, face_at(b, drawn, sides, i), spawned as int) {
            lemma_grown_alike(a, b, drawn, sides, cond, i + 1, len + 1, spawned + 1);
        } else {
            lemma_grown_alike(a, b, drawn, sides, cond, i + 1, len, spawned);
        }
    }
}

proof fn lemma_resolved_alike(a: Map<Seq<u32>, u32>, b: Map<Seq<u32>, u32>, terms: Seq<TermView>)
    requires
        same_store(a, b),
        forall|k: int| 0 <= k < terms.len() ==> (#[trigger] terms[k]).sides >= 1,
    ensures
        resolved(terms, a) == resolved(terms, b),
        sided(resolved(terms, a).1),
    decreases terms.len(),
{
    if terms.len() > 0 {
        let before = terms.drop_last();
        assert forall|k: int| 0 <= k < before.len() implies (#[trigger] before[k]).sides >= 1 by {
            assert(before[k] == terms[k]);
        }
        lemma_resolved_alike(a, b, before);
        let drawn = resolved(before, a).1;
        let t = terms.last();
        assert(t.sides >= 1);
        if let Some(cond) = explodes_on(t.mods, t.sides) {
            lemma_grown_alike(a, b, drawn, t.sides, cond, 0, t.count as nat, 0);
        }
        assert forall|k: int| 0 <= k < pool(a, drawn, t).len() implies pool(a, drawn, t)[k] == pool(
            b,
            drawn,
            t,
        )[k] by {
            lemma_face_alike(a, b, drawn, t.sides, k as nat);
        }
        assert(pool(a, drawn, t) =~= pool(b, drawn, t));
        let all = resolved(terms, a).1;
        assert(all == drawn + like(t.sides, pool(a, drawn, t).len()));
        assert forall|k: int| 0 <= k < all.len() implies #[trigger] all[k] >= 1 by {
            if k < drawn.len() {
                assert(all[k] == drawn[k]);
            }
        }
    }
}

proof fn lemma_continues_on(
    now: Map<Seq<u32>, u32>,
    then: Map<Seq<u32>, u32>,
    before: Map<Seq<u32>, u32>,
    drawn: Seq<u32>,
    more: Seq<u32>,
)
    requires
        continues(then, before, drawn),
        continues(now, then, more),
        sided(more),
    ensures
        continues(now, before, drawn + more),
{
    assert forall|run: Seq<u32>| is_run(run) implies #[trigger] now[run] == before[drawn + more
        + run] by {
        let longer = more + run;
        assert forall|k: int| 0 <= k < longer.len() implies #[trigger] longer[k] >= 1 by {
            if k < more.len() {
                assert(longer[k] == more[k]);
            } else {
                assert(longer[k] == run[k - more.len()]);
            }
        }
        assert(is_run(longer));
        assert(then[longer] == before[drawn + longer]);
        assert(drawn + longer == drawn + more + run);
    }
}

/// Whether all totals lie between `lo` and `hi`.
pub open spec fn all_between(totals: Seq<i32>, lo: int, hi: int) -> bool {
    forall|k: int| 0 <= k < totals.len() ==> lo <= #[trigger] totals[k] <= hi
}

/// Throws the roll `n` times in a row and returns the totals, where an `i32` holds each.
pub fn sample_totals(roll: &Roll, rng: &mut StdRng, n: usize) -> (totals: Option<Vec<i32>>)
    requires
        all_sided(roll@.terms),
    ensures
        totals is Some <==> samples_fit(roll@, upcoming(*old(rng)), n as nat),
        playable(roll@) ==> totals is Some,
        totals matches Some(totals) ==> {
            &&& totals@ == sampled(roll@, upcoming(*old(rng)), n as nat).0
            &&& totals@.len() == n
            &&& playable(roll@) ==> all_between(
                totals@,
                roll.modifier + sum_least(roll@.terms),
                roll.modifier + sum_most(roll@.terms),
            )
        },
{
    let ghost faces = upcoming(*rng);
    let ghost lo = roll.modifier + sum_least(roll@.terms);
    let ghost hi = roll.modifier + sum_most(roll@.terms);
    let mut totals: Vec<i32> = Vec::new();
    let mut k: usize = 0;
    proof {
        lemma_nothing_drawn(faces);
    }
    while k < n
        invariant
            k <= n,
            all_sided(roll@.terms),
            faces == upcoming(*old(rng)),
            samples_fit(roll@, faces, k as nat),
            totals@.len() == k,
            totals@ == sampled(roll@, faces, k as nat).0,
            lo == roll.modifier + sum_least(roll@.terms),
            hi == roll.modifier + sum_most(roll@.terms),
            playable(roll@) ==> all_between(totals@, lo, hi),
            continues(upcoming(*rng), faces, sampled(roll@, faces, k as nat).1),
        decreases n - k,
    {
        let ghost then = upcoming(*rng);
        let ghost drawn = sampled(roll@, faces, k as nat).1;
        let outcome = try_evaluate("", roll, rng);
        proof {
            let rest = rest_of(faces, drawn);
            assert(same_store(then, rest));
            lemma_resolved_alike(then, rest, roll@.terms);
            lemma_continues_on(
                upcoming(*rng),
                then,
                faces,
                drawn,
                resolved(roll@.terms, then).1,
            );
            if playable(roll@) {
                playable_rolls_fit(roll@, pools(roll@.terms, then).0);
            }
        }
        match outcome {
            None => {
                proof {
                    assert(!samples_fit(roll@, faces, (k + 1) as nat));
                    if samples_fit(roll@, faces, n as nat) {
                        lemma_samples_fit_before(roll@, faces, (k + 1) as nat, n as nat);
                    }
                }
                return None;
            },
            Some(outcome) => {
                totals.push(outcome.total);
            },
        }
        k += 1;
        assert(totals@ == sampled(roll@, faces, k as nat).0);
    }
    Some(totals)
}

/// The odds that `totals` show of an expression, beside its rolls in the session.
pub open spec fn tallied(
    expr: Seq<char>,
    stake: Option<Stake>,
    totals: Seq<i32>,
    history: Seq<EntryView>,
) -> StatsView {
    StatsView {
        expr,
        samples: totals.len() as int,
        min: lowest(totals),
        max: highest(totals),
        sum: sum_of(totals),
        stake,
        successes: match stake {
            Some(stake) => Some(made(totals, stake)),
            None => None,
        },
        dist: distribution(totals, lowest(totals), highest(totals)),
        session: session_of(totals_of(history, expr)),
        total_rolls: history.len() as int,
    }
}

/// Works out the odds that `totals` show.
pub fn tally(
    expr: String,
    stake: Option<Stake>,
    totals: &Vec<i32>,
    history: &Vec<HistoryEntry>,
) -> (s: Stats)
    requires
        totals@.len() <= 0xffff_ffff,
        history@.len() <= 0xffff_ffff,
    ensures
        s@ == tallied(expr@, stake, totals@, entries(history@)),
{
    let (min, max, sum) = extremes(totals);
    let successes = match stake {
        None => None,
        Some(stake) => {
            let mut n: usize = 0;
            let mut k: usize = 0;
            assert(totals@.take(0) == Seq::<i32>::empty());
            while k < totals.len()
                invariant
                    k <= totals@.len(),
                    n <= k,
                    n == made(totals@.take(k as int), stake),
                decreases totals@.len() - k,
            {
                assert(totals@.take(k + 1).drop_last() == totals@.take(k as int));
                if check(totals[k], stake).0 {
                    n += 1;
                }
                k += 1;
            }
            assert(totals@.take(k as int) == totals@);
            Some(n)
        },
    };
    proof {
        extremes_bound_the_totals(totals@);
    }
    let dist = histogram(totals, min, max);
    let session = SessionStats::from_history(history, &expr);
    Stats {
        expr,
        samples: totals.len(),
        min,
        max,
        sum,
        stake,
        successes,
        dist,
        session,
        total_rolls: history.len(),
    }
}

impl Stats {
    /// The same odds once more.
    pub fn copy(&self) -> (s: Stats)
        ensures
            s@ == self@,
    {
        let mut dist: Vec<usize> = Vec::new();
        let mut k: usize = 0;
        while k < self.dist.len()
            invariant
                k <= self.dist@.len(),
                dist@ == self.dist@.take(k as int),
            decreases self.dist@.len() - k,
        {
            dist.push(self.dist[k]);
            k += 1;
            assert(dist@ == self.dist@.take(k as int));
        }
        assert(self.dist@.take(k as int) == self.dist@);
        Stats {
            expr: self.expr.clone(),
            samples: self.samples,
            min: self.min,
            max: self.max,
            sum: self.sum,
            stake: self.stake,
            successes: self.successes,
            dist,
            session: self.session,
            total_rolls: self.total_rolls,
        }
    }
}

/// The seed of the samples that are drawn after `rolls` rolls.
pub open spec fn sample_seed(rolls: usize) -> u64 {
    rolls as u64 ^ 0x5715_d1ce
}

/// Whether an `i32` holds each sample of the roll `r` that is drawn after `rolls` rolls.
pub open spec fn odds_fit(r: RollView, rolls: nat) -> bool {
    samples_fit(r, seeded_faces(sample_seed(rolls as usize)), STAT_SAMPLES as nat)
}

/// The odds of the roll `r`, typed as `expr`, after the rolls in `history`.
pub open spec fn odds_of(expr: Seq<char>, r: RollView, history: Seq<EntryView>) -> StatsView {
    tallied(
        expr,
        r.stake,
        sampled(r, seeded_faces(sample_seed(history.len() as usize)), STAT_SAMPLES as nat).0,
        history,
    )
}

/// Whether the lowest and the highest sample are totals that the roll `r` can come to.
pub open spec fn odds_in_range(s: StatsView, r: RollView) -> bool {
    r.modifier + sum_least(r.terms) <= s.min <= s.max <= r.modifier + sum_most(r.terms)
}

proof fn lemma_extremes_between(totals: Seq<i32>, lo: int, hi: int)
    requires
        lo <= i32::MAX,
        i32::MIN <= hi,
        all_between(totals, lo, hi),
    ensures
        lo <= lowest(totals),
        highest(totals) <= hi,
    decreases totals.len(),
{
    if totals.len() > 0 {
        let rest = totals.drop_last();
        assert forall|k: int| 0 <= k < rest.len() implies lo <= #[trigger] rest[k] <= hi by {
            assert(rest[k] == totals[k]);
        }
        lemma_extremes_between(rest, lo, hi);
        assert(lo <= totals[totals.len() - 1] <= hi);
    }
}

impl App {
    /// Whether the last odds were worked out for the line as it is and as many rolls.
    pub open spec fn stats_known(&self) -> bool {
        &&& self.stats_cache is Some
        &&& self.stats_cache->0.expr@ == trimmed(self.input@)
        &&& self.stats_cache->0.rolls == self.history@.len()
    }

    /// Whether the last odds, where they were worked out after as many rolls as there
    /// are now, are those that would be worked out anew.
    pub open spec fn memo_exact(&self) -> bool {
        match self.stats_cache {
            None => true,
            Some(known) => known.rolls == self.history@.len() ==> (parsed(known.expr@) matches Ok(r)
                && odds_fit(r, self.history@.len()) && known.stats@ == odds_of(
                known.expr@,
                r,
                entries(self.history@),
            ) && (playable(r) ==> odds_in_range(known.stats@, r))),
        }
    }

    /// The odds of the line as it is, unless a sample comes to more than an `i32` holds.
    /// They are worked out anew only where the line or the history has changed.
    pub fn stats(&mut self) -> (res: Result<Stats, Mishap>)
        requires
            old(self).wf(),
        ensures
            final(self).wf(),
            match parsed(trimmed(old(self).input@)) {
                Err(e) => {
                    &&& res matches Err(Mishap::Complaint(said)) && said@ == e
                    &&& *final(self) == *old(self)
                },
                Ok(r) => match res {
                    Ok(s) => {
                        &&& odds_fit(r, old(self).history@.len())
                        &&& s@ == odds_of(
                            trimmed(old(self).input@),
                            r,
                            entries(old(self).history@),
                        )
                        &&& playable(r) ==> odds_in_range(s@, r)
                        &&& final(self).stats_known()
                        &&& *final(self) == (App {
                            stats_cache: final(self).stats_cache,
                            ..*old(self)
                        })
                    },
                    Err(Mishap::Overflow) => {
                        &&& !odds_fit(r, old(self).history@.len())
                        &&& !playable(r)
                        &&& *final(self) == *old(self)
                    },
                    Err(_) => false,
                },
            },
            old(self).stats_known() ==> *final(self) == *old(self),
    {
        let expr = trim(self.input.as_str());
        let rolls: usize = self.history.len();
        if let Some(known) = &self.stats_cache {
            if known.expr == expr && known.rolls == rolls {
                return Ok(known.stats.copy());
            }
        }
        let roll = match parse(expr.as_str()) {
            Err(e) => {
                return Err(Mishap::Complaint(e));
            },
            Ok(roll) => roll,
        };
        proof {
            parsed_rolls_are_capped(expr@);
            assert forall|k: int| 0 <= k < roll@.terms.len() implies (
            #[trigger] roll@.terms[k]).sides >= 1 by {
                assert(term_allowed(roll@.terms[k]));
            }
        }
        let mut rng = seeded(rolls as u64 ^ 0x5715_d1ce);
        let totals = match sample_totals(&roll, &mut rng, STAT_SAMPLES) {
            Some(totals) => totals,
            None => {
                return Err(Mishap::Overflow);
            },
        };
        proof {
            if playable(roll@) {
                let lo = roll.modifier + sum_least(roll@.terms);
                let hi = roll.modifier + sum_most(roll@.terms);
                assert(lo <= totals@[0] <= hi);
                lemma_extremes_between(totals@, lo, hi);
                extremes_bound_the_totals(totals@);
            }
        }
        let key = expr.clone();
        let stats = tally(expr, roll.stake, &totals, &self.history);
        let copy = stats.copy();
        self.stats_cache = Some(StatsCache { expr: key, rolls, stats: copy });
        Ok(stats)
    }
}

/// The sum of the first `n` numbers.
pub open spec fn sum_upto(counts: Seq<int>, n: int) -> int
    decreases n,
{
    if n <= 0 {
        0
    } else {
        sum_upto(counts, n - 1) + counts[n - 1]
    }
}

/// The buckets that hold one total: one at its place, none elsewhere.
spec fn one_at(b: int, n: nat) -> Seq<int> {
    Seq::new(
        n,
        |k: int|
            if k == b {
                1int
            } else {
                0
            },
    )
}

proof fn lemma_sum_one(b: int, n: nat, m: int)
    requires
        0 <= m <= n,
        0 <= b,
    ensures
        sum_upto(one_at(b, n), m) == if b < m {
            1int
        } else {
            0
        },
    decreases m,
{
    if m > 0 {
        lemma_sum_one(b, n, m - 1);
    }
}

proof fn lemma_sum_pair(a: Seq<int>, b: Seq<int>, c: Seq<int>, m: int)
    requires
        m <= a.len(),
        m <= b.len(),
        m <= c.len(),
        forall|k: int| 0 <= k < m ==> #[trigger] c[k] == a[k] + b[k],
    ensures
        sum_upto(c, m) == sum_upto(a, m) + sum_upto(b, m),
    decreases m,
{
    if m > 0 {
        lemma_sum_pair(a, b, c, m - 1);
    }
}

proof fn lemma_sum_zero(a: Seq<int>, m: int)
    requires
        m <= a.len(),
        forall|k: int| 0 <= k < m ==> #[trigger] a[k] == 0,
    ensures
        sum_upto(a, m) == 0,
    decreases m,
{
    if m > 0 {
        lemma_sum_zero(a, m - 1);
    }
}

/// Every total falls into one bucket, so that the buckets hold as many as there are.
pub proof fn buckets_hold_every_total(totals: Seq<i32>, lo: int, hi: int)
    requires
        forall|k: int| 0 <= k < totals.len() ==> lo <= #[trigger] totals[k] <= hi,
    ensures
        sum_upto(distribution(totals, lo, hi), distribution(totals, lo, hi).len() as int)
            == totals.len(),
    decreases totals.len(),
{
    if totals.len() > 0 {
        let span = hi - lo + 1;
        let n = bucket_count(span) as nat;
        let before = totals.drop_last();
        assert(lo <= totals[totals.len() - 1] <= hi);
        assert forall|k: int| 0 <= k < before.len() implies lo <= #[trigger] before[k] <= hi by {
            assert(before[k] == totals[k]);
        }
        buckets_hold_every_total(before, lo, hi);
        let last = bucket(totals.last() as int, lo, span);
        lemma_bucket_range(totals.last() as int, lo, hi);
        lemma_sum_one(last, n, n as int);
        let counts = distribution(totals, lo, hi);
        let fewer = Seq::new(n, |b: int| in_bucket(before, lo, span, b) as int);
        if before.len() == 0 {
            lemma_sum_zero(fewer, n as int);
        } else {
            assert(fewer == distribution(before, lo, hi));
        }
        lemma_sum_pair(fewer, one_at(last, n), counts, n as int);
    }
}

/// The samples that make a stake are counted one by one: for an over stake those that meet
/// or beat the target, for an under stake those that stay at or below it.
pub proof fn successes_are_counted(a: Seq<i32>, b: Seq<i32>, t: i32, stake: Stake)
    ensures
        made(Seq::empty(), stake) == 0,
        made(a + b, stake) == made(a, stake) + made(b, stake),
        stake.goal is Over ==> made(seq![t], stake) == if t >= stake.target { 1nat } else { 0 },
        stake.goal is Under ==> made(seq![t], stake) == if t <= stake.target { 1nat } else { 0 },
    decreases b.len(),
{
    assert(seq![t].drop_last() == Seq::<i32>::empty());
    reveal_with_fuel(made, 2);
    if b.len() == 0 {
        assert(a + b == a);
    } else {
        successes_are_counted(a, b.drop_last(), t, stake);
        assert((a + b).drop_last() == a + b.drop_last());
    }
}

/// How many of the totals are the target itself.
pub open spec fn exact_hits(totals: Seq<i32>, target: i32) -> nat
    decreases totals.len(),
{
    if totals.len() == 0 {
        0
    } else {
        exact_hits(totals.drop_last(), target) + if totals.last() == target {
            1nat
        } else {
            0
        }
    }
}

/// The samples that make a target over and those that make it under are all the samples,
/// where those that hit it are counted twice.
pub proof fn over_and_under_share_the_samples(totals: Seq<i32>, target: i32)
    ensures
        made(totals, (Stake { target, goal: Goal::Over })) + made(
            totals,
            (Stake { target, goal: Goal::Under }),
        ) == totals.len() + exact_hits(totals, target),
        made(totals, (Stake { target, goal: Goal::Over })) <= totals.len(),
        made(totals, (Stake { target, goal: Goal::Under })) <= totals.len(),
    decreases totals.len(),
{
    if totals.len() > 0 {
        over_and_under_share_the_samples(totals.drop_last(), target);
    }
}

/// A lower target is never harder to beat, and never easier to stay below.
pub proof fn odds_follow_the_target(totals: Seq<i32>, low: i32, high: i32)
    requires
        low <= high,
    ensures
        made(totals, (Stake { target: high, goal: Goal::Over })) <= made(
            totals,
            (Stake { target: low, goal: Goal::Over }),
        ),
        made(totals, (Stake { target: low, goal: Goal::Under })) <= made(
            totals,
            (Stake { target: high, goal: Goal::Under }),
        ),
    decreases totals.len(),
{
    if totals.len() > 0 {
        odds_follow_the_target(totals.drop_last(), low, high);
    }
}

/// The sum of the samples counts each of them once.
pub proof fn samples_add_up(a: Seq<i32>, b: Seq<i32>, t: i32)
    ensures
        sum_of(Seq::empty()) == 0,
        sum_of(seq![t]) == t,
        sum_of(a + b) == sum_of(a) + sum_of(b),
    decreases b.len(),
{
    assert(seq![t].drop_last() == Seq::<i32>::empty());
    reveal_with_fuel(sum_of, 2);
    if b.len() == 0 {
        assert(a + b == a);
    } else {
        samples_add_up(a, b.drop_last(), t);
        assert((a + b).drop_last() == a + b.drop_last());
    }
}

/// Each bucket covers an even share of the range: as many buckets as there are totals in
/// it, up to eleven, and the bucket number `b` takes the totals from `b` shares on to
/// before `b + 1` shares.
pub proof fn buckets_share_the_range(t: int, lo: int, span: int)
    requires
        lo <= t < lo + span,
    ensures
        span <= 11 ==> bucket_count(span) == span,
        span >= 11 ==> bucket_count(span) == 11,
        bucket(t, lo, span) * span <= (t - lo) * bucket_count(span) < (bucket(t, lo, span) + 1)
            * span,
        0 <= bucket(t, lo, span) < bucket_count(span),
        span <= 11 ==> bucket(t, lo, span) == t - lo,
{
    lemma_bucket_range(t, lo, lo + span - 1);
    let n = (t - lo) * bucket_count(span);
    let b = bucket(t, lo, span);
    vstd::arithmetic::div_mod::lemma_fundamental_div_mod(n, span);
    assert(b * span == span * b) by (nonlinear_arith);
    assert((b + 1) * span == span * b + span) by (nonlinear_arith);
    if span <= 11 {
        vstd::arithmetic::div_mod::lemma_div_multiples_vanish(t - lo, span);
        assert((t - lo) * span == span * (t - lo)) by (nonlinear_arith);
    }
}

/// The buckets count each total once, where it falls.
pub proof fn buckets_count_what_falls_in(
    totals: Seq<i32>,
    t: i32,
    lo: int,
    hi: int,
    b: int,
)
    requires
        0 <= b < bucket_count(hi - lo + 1),
    ensures
        distribution(totals.push(t), lo, hi).len() == bucket_count(hi - lo + 1),
        distribution(Seq::empty(), lo, hi).len() == 0,
        distribution(totals.push(t), lo, hi)[b] == (if totals.len() == 0 {
            0
        } else {
            distribution(totals, lo, hi)[b]
        }) + if bucket(t as int, lo, hi - lo + 1) == b {
            1int
        } else {
            0
        },
{
    assert(totals.push(t).drop_last() == totals);
    assert(totals.len() == 0 ==> in_bucket(totals, lo, hi - lo + 1, b) == 0);
}

/// The rolls of an expression are those of the history that were typed as it is, in order.
pub proof fn sessions_pick_their_expression(
    a: Seq<EntryView>,
    b: Seq<EntryView>,
    e: EntryView,
    expr: Seq<char>,
)
    ensures
        totals_of(Seq::empty(), expr) == Seq::<i32>::empty(),
        totals_of(a + b, expr) == totals_of(a, expr) + totals_of(b, expr),
        e.expr == expr ==> totals_of(seq![e], expr) == seq![e.total],
        e.expr != expr ==> totals_of(seq![e], expr) == Seq::<i32>::empty(),
    decreases b.len(),
{
    assert(seq![e].drop_last() == Seq::<EntryView>::empty());
    reveal_with_fuel(totals_of, 2);
    assert(e.expr == expr ==> totals_of(seq![e], expr) =~= seq![e.total]);
    if b.len() == 0 {
        assert(a + b == a);
        assert(totals_of(a, expr) + totals_of(b, expr) =~= totals_of(a, expr));
    } else {
        sessions_pick_their_expression(a, b.drop_last(), e, expr);
        assert((a + b).drop_last() == a + b.drop_last());
        assert(totals_of(a + b, expr) =~= totals_of(a, expr) + totals_of(b, expr));
    }
}

/// A session's figures for an expression are how often it was rolled, its lowest and its
/// highest total, each of which was rolled, and their sum; all zero where it was not.
pub proof fn sessions_sum_up_their_rolls(totals: Seq<i32>)
    requires
        totals.len() <= 0xffff_ffff,
    ensures
        totals.len() == 0 ==> session_of(totals) == (SessionStats {
            count: 0,
            min: 0,
            max: 0,
            sum: 0,
        }),
        session_of(totals).count == totals.len(),
        session_of(totals).sum == sum_of(totals),
        totals.len() > 0 ==> totals.contains(session_of(totals).min) && totals.contains(
            session_of(totals).max,
        ),
        forall|k: int|
            0 <= k < totals.len() ==> session_of(totals).min <= #[trigger] totals[k]
                <= session_of(totals).max,
{
    extremes_bound_the_totals(totals);
    lemma_sum_bounds(totals);
}

/// The odds tell how many samples there were, their extremes and sum, how many make the
/// stake where there is one, how they spread over their own range, and how the expression
/// has fared in the history.
pub proof fn odds_tell_of_all_samples(
    expr: Seq<char>,
    stake: Option<Stake>,
    totals: Seq<i32>,
    history: Seq<EntryView>,
)
    ensures
        ({
            let s = tallied(expr, stake, totals, history);
            &&& s.expr == expr
            &&& s.stake == stake
            &&& s.samples == totals.len()
            &&& s.total_rolls == history.len()
            &&& s.sum == sum_of(totals)
            &&& totals.len() > 0 ==> totals.contains(s.min as i32) && totals.contains(s.max as i32)
            &&& forall|k: int| 0 <= k < totals.len() ==> s.min <= #[trigger] totals[k] <= s.max
            &&& stake is None ==> s.successes is None
            &&& stake matches Some(stake) ==> s.successes == Some(made(totals, stake))
            &&& s.dist == distribution(totals, s.min, s.max)
            &&& s.session == session_of(totals_of(history, expr))
        }),
{
    extremes_bound_the_totals(totals);
}

/// One sample more leaves those before it as they were, and is drawn after them.
pub proof fn samples_follow_each_other(r: RollView, faces: Map<Seq<u32>, u32>, n: nat, k: int)
    requires
        0 <= k < n,
    ensures
        sampled(r, faces, n).0.len() == n,
        sampled(r, faces, n + 1).0[k] == sampled(r, faces, n).0[k],
        sampled(r, faces, n).1.is_prefix_of(sampled(r, faces, n + 1).1),
        exists|terms: Seq<OutcomeTermView>|
            sampled(r, faces, n).0[k] == (r.modifier + #[trigger] subtotals(terms)) as i32
                && terms.len() == r.terms.len(),
    decreases n,
{
    lemma_sampled_len(r, faces, n);
    if k == n - 1 {
        let drawn = sampled(r, faces, (n - 1) as nat).1;
        let terms = resolved(r.terms, rest_of(faces, drawn)).0;
        rolls_follow_each_other(r.terms, rest_of(faces, drawn));
        lemma_sampled_len(r, faces, (n - 1) as nat);
        assert(sampled(r, faces, n).0[k] == (r.modifier + subtotals(terms)) as i32);
    } else {
        samples_follow_each_other(r, faces, (n - 1) as nat, k);
    }
}

proof fn lemma_sampled_len(r: RollView, faces: Map<Seq<u32>, u32>, n: nat)
    ensures
        sampled(r, faces, n).0.len() == n,
    decreases n,
{
    if n > 0 {
        lemma_sampled_len(r, faces, (n - 1) as nat);
    }
}

/// The counts that are kept as machine numbers are the same as numbers.
pub proof fn counts_go_one_by_one(v: Seq<usize>, k: int)
    requires
        0 <= k < v.len(),
    ensures
        counts_of(v).len() == v.len(),
        counts_of(v)[k] == v[k],
{
}

/// One sample more is thrown with what is in store after those before it, and comes to the
/// modifier and the subtotals of its terms.
pub proof fn samples_are_thrown_in_a_row(
    r: RollView,
    faces: Map<Seq<u32>, u32>,
    n: nat,
    run: Seq<u32>,
)
    ensures
        ({
            let (before, drawn) = sampled(r, faces, n);
            let (after, all) = sampled(r, faces, n + 1);
            let (terms, more) = resolved(r.terms, rest_of(faces, drawn));
            &&& after == before.push((r.modifier + subtotals(terms)) as i32)
            &&& all == drawn + more
            &&& samples_fit(r, faces, n + 1) <==> samples_fit(r, faces, n) && outcome_fits(r, terms)
        }),
        sampled(r, faces, 0).0 == Seq::<i32>::empty(),
        sampled(r, faces, 0).1 == Seq::<u32>::empty(),
        samples_fit(r, faces, 0),
        is_run(run) ==> rest_of(faces, run)[run] == faces[run + run],
        is_run(run) ==> rest_of(faces, Seq::empty())[run] == faces[run],
{
    assert(Seq::<u32>::empty() + run =~= run);
}

/// The odds of a roll come of twenty thousand samples, whatever was rolled before; the
/// samples differ with the number of rolls in the history.
pub proof fn odds_come_of_many_samples(expr: Seq<char>, r: RollView, history: Seq<EntryView>)
    ensures
        odds_of(expr, r, history).samples == 20000,
        odds_of(expr, r, history).stake == r.stake,
        odds_of(expr, r, history).expr == expr,
        odds_of(expr, r, history).total_rolls == history.len(),
        forall|a: usize, b: usize| #[trigger] sample_seed(a) == #[trigger] sample_seed(b) ==> a == b,
{
    lemma_sampled_len(r, seeded_faces(sample_seed(history.len() as usize)), STAT_SAMPLES as nat);
    assert forall|a: usize, b: usize| #[trigger] sample_seed(a) == #[trigger] sample_seed(b) implies a
        == b by {
        let x = a as u64;
        let y = b as u64;
        assert(x ^ 0x5715_d1ce == y ^ 0x5715_d1ce ==> x == y) by (bit_vector);
    }
}

/// The odds are known where they were worked out for the line as it is, blanks at its ends
/// aside, after as many rolls as there are now, and only there.
pub proof fn odds_are_known_for_line_and_rolls(app: App)
    ensures
        app.stats_known() <==> (app.stats_cache matches Some(known) && known.expr@ == trimmed(
            app.input@,
        ) && known.rolls == app.history@.len()),
{
}

/// The numbers of the samples that make a stake.
pub open spec fn makers(totals: Seq<i32>, stake: Stake) -> Set<int> {
    Set::new(|k: int| 0 <= k < totals.len() && lead(totals[k] as int, stake) >= 0)
}

/// The successes are as many as there are samples that make the stake.
pub proof fn successes_are_the_samples_that_make_it(totals: Seq<i32>, stake: Stake)
    ensures
        makers(totals, stake).finite(),
        makers(totals, stake).len() == made(totals, stake),
    decreases totals.len(),
{
    let all = makers(totals, stake);
    if totals.len() == 0 {
        assert(all =~= Set::<int>::empty());
    } else {
        let before = makers(totals.drop_last(), stake);
        let n = totals.len() - 1;
        successes_are_the_samples_that_make_it(totals.drop_last(), stake);
        if lead(totals[n] as int, stake) >= 0 {
            assert(all =~= before.insert(n));
            assert(!before.contains(n));
        } else {
            assert(all =~= before);
        }
    }
}

/// Odds that are known are those that would be worked out anew for the line and the
/// history as they are.
pub proof fn known_odds_are_exact(app: App)
    requires
        app.wf(),
        app.stats_known(),
    ensures
        parsed(trimmed(app.input@)) matches Ok(r) && app.stats_cache->0.stats@ == odds_of(
            trimmed(app.input@),
            r,
            entries(app.history@),
        ),
{
}

/// Odds fit where each of their samples does, and lie in the range of the roll where both
/// of their extremes do.
pub proof fn odds_fit_sample_by_sample(
    s: StatsView,
    r: RollView,
    rolls: usize,
    totals: Seq<i32>,
    t: i32,
    lo: int,
    hi: int,
)
    ensures
        odds_fit(r, rolls as nat) <==> samples_fit(r, seeded_faces(sample_seed(rolls)), 20000),
        odds_in_range(s, r) ==> r.modifier + sum_least(r.terms) <= s.min,
        odds_in_range(s, r) ==> s.max <= r.modifier + sum_most(r.terms),
        odds_in_range(s, r) ==> s.min <= s.max,
        all_between(Seq::empty(), lo, hi),
        all_between(totals.push(t), lo, hi) <==> all_between(totals, lo, hi) && lo <= t <= hi,
{
    let all = totals.push(t);
    if all_between(all, lo, hi) {
        assert(lo <= all[totals.len() as int] <= hi);
        assert forall|k: int| 0 <= k < totals.len() implies lo <= #[trigger] totals[k] <= hi by {
            assert(lo <= all[k] <= hi);
        }
    }
}

/// What is known of the odds is what they hold.
pub proof fn odds_show_what_they_hold(s: Stats)
    ensures
        s@.expr == s.expr@,
        s@.samples == s.samples,
        s@.min == s.min,
        s@.max == s.max,
        s@.sum == s.sum,
        s@.stake == s.stake,
        s@.successes is Some <==> s.successes is Some,
        s.successes is Some ==> s@.successes->0 == s.successes->0,
        s@.dist == counts_of(s.dist@),
        s@.session == s.session,
        s@.total_rolls == s.total_rolls,
{
}

} // verus!
