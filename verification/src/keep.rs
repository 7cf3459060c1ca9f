//! Keeping the best or the worst of a pool.

use vstd::prelude::*;

verus! {

/// Whether die `j` is kept before die `i`: it shows more (or less, where the low
/// ones are kept). Of two that show the same, the later one goes first where the
/// high ones are kept, the earlier one where the low ones are.
pub open spec fn goes_first(values: Seq<u32>, j: int, i: int, high: bool) -> bool {
    if high {
        values[j] > values[i] || (values[j] == values[i] && j > i)
    } else {
        values[j] < values[i] || (values[j] == values[i] && j < i)
    }
}

/// How many of the first `m` dice are in play and go before die `i`.
pub open spec fn ahead(values: Seq<u32>, kept: Seq<bool>, i: int, high: bool, m: int) -> nat
    decreases m,
{
    if m <= 0 {
        0
    } else {
        ahead(values, kept, i, high, m - 1) + if kept[m - 1] && goes_first(values, m - 1, i, high) {
            1nat
        } else {
            0
        }
    }
}

/// Which dice stay in play when `n` of those in play are kept.
pub open spec fn narrowed(values: Seq<u32>, kept: Seq<bool>, n: nat, high: bool) -> Seq<bool> {
    Seq::new(
        values.len(),
        |i: int| kept[i] && ahead(values, kept, i, high, values.len() as int) < n,
    )
}

/// How many of the first `m` dice are in play.
pub open spec fn in_play(kept: Seq<bool>, m: int) -> nat
    decreases m,
{
    if m <= 0 {
        0
    } else {
        in_play(kept, m - 1) + if kept[m - 1] {
            1nat
        } else {
            0
        }
    }
}

/// How many of the first `m` dice are in play with fewer than `n` of those ahead
/// of them.
spec fn best(values: Seq<u32>, kept: Seq<bool>, n: int, high: bool, m: int, upto: int) -> nat
    decreases upto,
{
    if upto <= 0 {
        0
    } else {
        best(values, kept, n, high, m, upto - 1) + if kept[upto - 1] && ahead(
            values,
            kept,
            upto - 1,
            high,
            m,
        ) < n {
            1nat
        } else {
            0
        }
    }
}

proof fn lemma_ahead_of_itself(values: Seq<u32>, kept: Seq<bool>, i: int, j: int, high: bool, m: int)
    requires
        0 <= m,
        goes_first(values, j, i, high),
    ensures
        ahead(values, kept, j, high, m) <= ahead(values, kept, i, high, m),
        0 <= j < m && kept[j] ==> ahead(values, kept, j, high, m) < ahead(values, kept, i, high, m),
    decreases m,
{
    if m > 0 {
        lemma_ahead_of_itself(values, kept, i, j, high, m - 1);
    }
}

proof fn lemma_ahead_bounded(values: Seq<u32>, kept: Seq<bool>, i: int, high: bool, m: int)
    requires
        0 <= m,
    ensures
        ahead(values, kept, i, high, m) <= in_play(kept, m),
    decreases m,
{
    if m > 0 {
        lemma_ahead_bounded(values, kept, i, high, m - 1);
    }
}

/// What the die `m` does to the ranks of the dice before it.
proof fn lemma_best_step(values: Seq<u32>, kept: Seq<bool>, n: int, high: bool, m: int, upto: int)
    requires
        0 <= upto <= m < values.len(),
        values.len() == kept.len(),
        kept[m],
    ensures
        ({
            let r = ahead(values, kept, m, high, m);
            best(values, kept, n, high, m + 1, upto) == if r < n {
                best(values, kept, n - 1, high, m, upto)
            } else {
                best(values, kept, n, high, m, upto)
            }
        }),
    decreases upto,
{
    if upto > 0 {
        lemma_best_step(values, kept, n, high, m, upto - 1);
        let i = upto - 1;
        if kept[i] {
            if goes_first(values, i, m, high) {
                lemma_ahead_of_itself(values, kept, m, i, high, m);
            } else {
                assert(goes_first(values, m, i, high));
                lemma_ahead_of_itself(values, kept, i, m, high, m);
            }
        }
    }
}

proof fn lemma_best_skip(values: Seq<u32>, kept: Seq<bool>, n: int, high: bool, m: int, upto: int)
    requires
        0 <= upto <= m < values.len(),
        values.len() == kept.len(),
        !kept[m],
    ensures
        best(values, kept, n, high, m + 1, upto) == best(values, kept, n, high, m, upto),
    decreases upto,
{
    if upto > 0 {
        lemma_best_skip(values, kept, n, high, m, upto - 1);
    }
}

proof fn lemma_best_count(values: Seq<u32>, kept: Seq<bool>, n: int, high: bool, m: int)
    requires
        0 <= m <= values.len(),
        values.len() == kept.len(),
    ensures
        best(values, kept, n, high, m, m) == if n <= 0 {
            0
        } else if n < in_play(kept, m) {
            n
        } else {
            in_play(kept, m) as int
        },
    decreases m,
{
    if m > 0 {
        let p = m - 1;
        lemma_best_count(values, kept, n, high, p);
        lemma_best_count(values, kept, n - 1, high, p);
        lemma_ahead_bounded(values, kept, p, high, p);
        assert(!goes_first(values, p, p, high));
        if kept[p] {
            lemma_best_step(values, kept, n, high, p, p);
        } else {
            lemma_best_skip(values, kept, n, high, p, p);
        }
    }
}

proof fn lemma_best_is_narrowed(values: Seq<u32>, kept: Seq<bool>, n: nat, high: bool, upto: int)
    requires
        0 <= upto <= values.len(),
        values.len() == kept.len(),
    ensures
        in_play(narrowed(values, kept, n, high), upto) == best(
            values,
            kept,
            n as int,
            high,
            values.len() as int,
            upto,
        ),
    decreases upto,
{
    if upto > 0 {
        lemma_best_is_narrowed(values, kept, n, high, upto - 1);
    }
}

/// Keeping `n` dice leaves exactly `n` in play, or all of them where there are fewer.
pub proof fn narrowing_keeps_exactly(values: Seq<u32>, kept: Seq<bool>, n: nat, high: bool)
    requires
        values.len() == kept.len(),
    ensures
        in_play(narrowed(values, kept, n, high), values.len() as int) == if n < in_play(
            kept,
            values.len() as int,
        ) {
            n
        } else {
            in_play(kept, values.len() as int)
        },
{
    lemma_best_is_narrowed(values, kept, n, high, values.len() as int);
    lemma_best_count(values, kept, n as int, high, values.len() as int);
}

/// A die that stays in play shows no less than one that is dropped beside it, or
/// no more where the low ones are kept; and a dropped die never comes back.
pub proof fn narrowing_keeps_the_best(
    values: Seq<u32>,
    kept: Seq<bool>,
    n: nat,
    high: bool,
    i: int,
    j: int,
)
    requires
        values.len() == kept.len(),
        0 <= i < values.len(),
        0 <= j < values.len(),
        narrowed(values, kept, n, high)[i],
        !narrowed(values, kept, n, high)[j],
    ensures
        kept[i],
        kept[j] ==> if high {
            values[i] >= values[j]
        } else {
            values[i] <= values[j]
        },
{
    if kept[j] && goes_first(values, j, i, high) {
        lemma_ahead_of_itself(values, kept, i, j, high, values.len() as int);
    }
}

/// Keeps the `n` highest dice in play, or the `n` lowest.
pub fn keep_n_values(values: &Vec<u32>, kept: &mut Vec<bool>, n: usize, high: bool)
    requires
        old(kept)@.len() <= values@.len(),
    ensures
        final(kept)@ == narrowed(values@.take(old(kept)@.len() as int), old(kept)@, n as nat, high),
{
    let base: usize = kept.len();
    let ghost pool = values@.take(base as int);
    let mut next: Vec<bool> = Vec::new();
    let mut i: usize = 0;
    while i < base
        invariant
            i <= base,
            base == kept@.len(),
            base <= values@.len(),
            kept@ == old(kept)@,
            pool == values@.take(base as int),
            next@ == narrowed(pool, kept@, n as nat, high).take(i as int),
        decreases base - i,
    {
        let mut stays = kept[i];
        if stays {
            let mut before: usize = 0;
            let mut j: usize = 0;
            while j < base
                invariant
                    j <= base,
                    i < base,
                    base == kept@.len(),
                    base <= values@.len(),
                    pool == values@.take(base as int),
                    before == ahead(pool, kept@, i as int, high, j as int),
                    before <= j,
                decreases base - j,
            {
                let first = if high {
                    values[j] > values[i] || (values[j] == values[i] && j > i)
                } else {
                    values[j] < values[i] || (values[j] == values[i] && j < i)
                };
                if kept[j] && first {
                    before += 1;
                }
                j += 1;
            }
            stays = before < n;
        }
        next.push(stays);
        i += 1;
        assert(next@ == narrowed(pool, kept@, n as nat, high).take(i as int));
    }
    assert(next@ == narrowed(pool, kept@, n as nat, high));
    *kept = next;
}

/// Of two dice that show the same, the later one stays in play where the high ones are
/// kept, and the earlier one where the low ones are.
pub proof fn narrowing_breaks_ties(
    values: Seq<u32>,
    kept: Seq<bool>,
    n: nat,
    high: bool,
    i: int,
    j: int,
)
    requires
        values.len() == kept.len(),
        0 <= i < values.len(),
        0 <= j < values.len(),
        narrowed(values, kept, n, high)[i],
        kept[j],
        !narrowed(values, kept, n, high)[j],
        values[i] == values[j],
    ensures
        if high {
            i > j
        } else {
            i < j
        },
{
    if goes_first(values, j, i, high) {
        lemma_ahead_of_itself(values, kept, i, j, high, values.len() as int);
    }
}

/// The dice in play are counted one by one.
pub proof fn dice_in_play_are_counted(kept: Seq<bool>, b: bool, m: int)
    requires
        0 <= m <= kept.len(),
    ensures
        in_play(kept, 0) == 0,
        in_play(kept.push(b), m) == in_play(kept, m),
        in_play(kept.push(b), (kept.len() + 1) as int) == in_play(kept, kept.len() as int) + if b {
            1int
        } else {
            0
        },
    decreases m,
{
    lemma_in_play_push(kept, b, m);
    lemma_in_play_push(kept, b, kept.len() as int);
}

proof fn lemma_in_play_push(kept: Seq<bool>, b: bool, m: int)
    requires
        0 <= m <= kept.len(),
    ensures
        in_play(kept.push(b), m) == in_play(kept, m),
    decreases m,
{
    if m > 0 {
        lemma_in_play_push(kept, b, m - 1);
    }
}

} // verus!
