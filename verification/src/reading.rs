//! What expressions ask for that are put together out of shorter ones.

use crate::notation::{
    at_first, dice_thrown, lemma_mods_read_back, lemma_number_between, lemma_pass_separators,
    parsed_rolls_are_capped, term_allowed,
};
use crate::parse::{
    compare_at, count_at, dice_at, factor_at, finished, flat_sum, keep_drop_at, kept_at,
    lemma_dice_advances, lemma_mod_advances, mod_at, mods_at, parsed, past_sign, quoted, roll_from,
    sides_at, signed_at, stake_word, target_at, Compare, Goal, Progress, RollView, Stake, TermMod,
    TermView, MAX_DICE,
};
use crate::roll::{mods_text, notation};
use crate::text::{
    dec, dec_int, digits_end, is_digit, is_space, lemma_dec_reads_back, lemma_digits_end,
    lemma_digits_end_is, number, skip_space,
};
use vstd::prelude::*;

verus! {

/// Whether `c` parts what stands before it from what follows: a blank, a comma or a sign.
pub open spec fn parting(c: char) -> bool {
    is_space(c) || c == ',' || c == '+' || c == '-'
}

/// Whether `c` can follow the expression `e` without being taken for a part of it: what
/// parts expressions can, and so can a word that opens a stake, but for a comparison right
/// after an explosion, which is a part of that.
pub open spec fn may_follow(e: Seq<char>, c: char) -> bool {
    ||| parting(c)
    ||| c == 'v'
    ||| c == 'V'
    ||| (c == '>' || c == '<') && (e.len() > 0 ==> e.last() != '!')
}

proof fn lemma_digits_on(e: Seq<char>, post: Seq<char>, i: int)
    requires
        post.len() > 0,
        may_follow(e, post[0]),
        0 <= i <= e.len(),
    ensures
        digits_end(e + post, i) == digits_end(e, i),
        i <= digits_end(e, i) <= e.len(),
        (e + post).subrange(i, digits_end(e, i)) == e.subrange(i, digits_end(e, i)),
        count_at(e + post, i) == count_at(e, i),
    decreases e.len() - i,
{
    let s = e + post;
    lemma_digits_end(e, i);
    if i < e.len() {
        assert(s[i] == e[i]);
        if is_digit(e[i]) {
            lemma_digits_on(e, post, i + 1);
        }
    } else {
        assert(s[i] == post[0]);
    }
    assert(s.subrange(i, digits_end(e, i)) =~= e.subrange(i, digits_end(e, i)));
}

#[verifier::spinoff_prover]
#[verifier::rlimit(40)]
proof fn lemma_mod_on(e: Seq<char>, post: Seq<char>, i: int, count: u32, sides: u32)
    requires
        post.len() > 0,
        may_follow(e, post[0]),
        0 <= i <= e.len(),
        !(mod_at(e, i, count, sides) matches Some(Err(c))),
    ensures
        mod_at(e + post, i, count, sides) == mod_at(e, i, count, sides),
{
    let s = e + post;
    assert forall|k: int| 0 <= k < e.len() implies #[trigger] s[k] == e[k] by {}
    assert(s[e.len() as int] == post[0]);
    lemma_digits_on(e, post, i);
    if i + 1 <= e.len() {
        lemma_digits_on(e, post, i + 1);
    }
    if i + 2 <= e.len() {
        lemma_digits_on(e, post, i + 2);
    }
}

proof fn lemma_mods_on(e: Seq<char>, post: Seq<char>, i: int, count: u32, sides: u32)
    requires
        post.len() > 0,
        may_follow(e, post[0]),
        0 <= i <= e.len(),
        mods_at(e, i, count, sides) is Ok,
    ensures
        mods_at(e + post, i, count, sides) == mods_at(e, i, count, sides),
    decreases e.len() - i,
{
    lemma_mod_on(e, post, i, count, sides);
    lemma_mod_advances(e, i, count, sides);
    lemma_mod_advances(e + post, i, count, sides);
    if let Some(Ok((m, end))) = mod_at(e, i, count, sides) {
        lemma_mods_on(e, post, end, count, sides);
    }
}

proof fn lemma_dice_on(e: Seq<char>, post: Seq<char>, i: int, d: int, thrown: nat)
    requires
        post.len() > 0,
        may_follow(e, post[0]),
        0 <= i <= d < e.len(),
        dice_at(e, i, d, thrown) is Ok,
    ensures
        dice_at(e + post, i, d, thrown) == dice_at(e, i, d, thrown),
{
    let s = e + post;
    assert forall|k: int| 0 <= k < e.len() implies #[trigger] s[k] == e[k] by {}
    assert(s[e.len() as int] == post[0]);
    assert(s.subrange(i, d) =~= e.subrange(i, d));
    lemma_digits_on(e, post, d + 1);
    lemma_dice_advances(e, i, d, thrown);
    assert(sides_at(s, d + 1) == sides_at(e, d + 1));
    let (written, end) = sides_at(e, d + 1);
    let count = if i == d {
        1
    } else {
        number(e.subrange(i, d))
    };
    lemma_mods_on(e, post, end, count as u32, number(written) as u32);
}

/// An expression without a stake reads up to its end as it does alone, whatever follows a
/// blank, a comma or a sign after it. The result says how far the reading has come there.
proof fn lemma_reads_on(e: Seq<char>, post: Seq<char>, i: int, p: Progress) -> (q: Progress)
    requires
        post.len() > 0,
        may_follow(e, post[0]),
        0 <= i <= e.len(),
        roll_from(e, i, p) is Ok,
        roll_from(e, i, p)->Ok_0.stake is None,
        i32::MIN <= p.modifier <= i32::MAX,
        p.thrown == dice_thrown(p.terms),
        i > 0 && is_digit(e[i - 1]) ==> !p.minus,
    ensures
        roll_from(e + post, i, p) == roll_from(e + post, e.len() as int, q),
        e.len() > 0 && is_digit(e.last()) ==> !q.minus,
        q.begun,
        q.terms == roll_from(e, i, p)->Ok_0.terms,
        q.modifier == roll_from(e, i, p)->Ok_0.modifier,
        q.thrown == dice_thrown(q.terms),
    decreases e.len() - i,
{
    if i >= e.len() {
        p
    } else {
        let (j, next) = lemma_step_on(e, post, i, p);
        lemma_reads_on(e, post, j, next)
    }
}

/// One step of the reading of an expression, with more behind it and without.
#[verifier::spinoff_prover]
#[verifier::rlimit(40)]
proof fn lemma_step_on(e: Seq<char>, post: Seq<char>, i: int, p: Progress) -> (r: (int, Progress))
    requires
        post.len() > 0,
        may_follow(e, post[0]),
        0 <= i < e.len(),
        roll_from(e, i, p) is Ok,
        roll_from(e, i, p)->Ok_0.stake is None,
        i32::MIN <= p.modifier <= i32::MAX,
        p.thrown == dice_thrown(p.terms),
    ensures
        i < r.0 <= e.len(),
        roll_from(e, i, p) == roll_from(e, r.0, r.1),
        roll_from(e + post, i, p) == roll_from(e + post, r.0, r.1),
        i32::MIN <= r.1.modifier <= i32::MAX,
        r.1.thrown == dice_thrown(r.1.terms),
        is_digit(e[r.0 - 1]) ==> !r.1.minus,
{
    let s = e + post;
    let d = digits_end(e, i);
    assert(s[i] == e[i]);
    if is_space(e[i]) || e[i] == ',' {
        (i + 1, p)
    } else if e[i] == '+' {
        (i + 1, Progress { minus: false, ..p })
    } else if e[i] == '-' {
        (i + 1, Progress { minus: true, ..p })
    } else {
        lemma_digits_on(e, post, i);
        lemma_marks_on(e, post, i);
        if d < e.len() && (e[d] == 'd' || e[d] == 'D') {
            lemma_dice_advances(e, i, d, p.thrown);
            lemma_dice_advances(s, i, d, p.thrown);
            lemma_dice_on(e, post, i, d, p.thrown);
            let (t, end) = dice_at(e, i, d, p.thrown)->Ok_0;
            assert(p.terms.push(t).drop_last() =~= p.terms);
            (
                end,
                Progress {
                    terms: p.terms.push(t),
                    thrown: p.thrown + t.count as nat,
                    minus: false,
                    begun: true,
                    ..p
                },
            )
        } else {
            let sum = flat_sum(p, e.subrange(i, d));
            assert(d > i);
            (d, Progress { modifier: sum, minus: false, begun: true, ..p })
        }
    }
}

/// What a character opens is the same with more behind the expression.
proof fn lemma_marks_on(e: Seq<char>, post: Seq<char>, i: int)
    requires
        post.len() > 0,
        may_follow(e, post[0]),
        0 <= i < e.len(),
    ensures
        stake_word(e + post, i) == stake_word(e, i),
        ({
            let s = e + post;
            let d = digits_end(e, i);
            (d < s.len() && (s[d] == 'd' || s[d] == 'D')) == (d < e.len() && (e[d] == 'd' || e[d]
                == 'D'))
        }),
{
    let s = e + post;
    let d = digits_end(e, i);
    lemma_digits_end(e, i);
    assert(s[i] == e[i]);
    if i + 1 < e.len() {
        assert(s[i + 1] == e[i + 1]);
    } else {
        assert(s[i + 1] == post[0]);
    }
    if d < e.len() {
        assert(s[d] == e[d]);
    } else {
        assert(s[d] == post[0]);
    }
}

/// Digits to the end of an expression are a flat number.
proof fn lemma_number_ends(pre: Seq<char>, n: nat, p: Progress)
    requires
        p.begun,
        p.terms.len() > 0,
    ensures
        ({
            let s = pre + dec(n);
            let sum = if p.minus {
                p.modifier - n
            } else {
                p.modifier + n
            };
            roll_from(s, pre.len() as int, p) == (if n > i32::MAX || sum < i32::MIN || sum
                > i32::MAX {
                Err(quoted(dec(n), "' is not a valid number"@))
            } else {
                Ok((RollView { terms: p.terms, modifier: sum as i32, stake: None }))
            })
        }),
{
    let none = Seq::<char>::empty();
    let s = pre + dec(n);
    let i = pre.len() as int;
    lemma_number_between(pre, n, none);
    assert(pre + dec(n) + none =~= s);
    assert(s.subrange(i, s.len() as int) =~= dec(n));
    assert(digits_end(s, i) == s.len());
    assert(stake_word(s, i) == 0);
    let sum = flat_sum(p, dec(n));
    let q = Progress { modifier: sum, minus: false, begun: true, ..p };
    assert(roll_from(s, s.len() as int, q) == finished(q, None));
}

/// Flat modifiers add up with their signs: an expression without a stake, followed by a
/// sign and a number, asks for the same dice with the number added to its modifier or
/// taken from it, whatever that was. It is refused where an `i32` does not hold the
/// number or what comes of it, and only there.
#[verifier::spinoff_prover]
#[verifier::rlimit(40)]
pub proof fn flat_modifiers_add_up(e: Seq<char>, n: nat)
    requires
        parsed(e) is Ok,
        parsed(e)->Ok_0.stake is None,
    ensures
        ({
            let r = parsed(e)->Ok_0;
            &&& n <= i32::MAX && r.modifier - n >= i32::MIN ==> parsed(e + "-"@ + dec(n)) == Ok::<
                _,
                Seq<char>,
            >((RollView { terms: r.terms, modifier: (r.modifier - n) as i32, stake: None }))
            &&& n > i32::MAX || r.modifier - n < i32::MIN ==> parsed(e + "-"@ + dec(n)) == Err::<
                RollView,
                _,
            >("'"@ + dec(n) + "' is not a valid number"@)
            &&& n <= i32::MAX && r.modifier + n <= i32::MAX ==> parsed(e + "+"@ + dec(n)) == Ok::<
                _,
                Seq<char>,
            >((RollView { terms: r.terms, modifier: (r.modifier + n) as i32, stake: None }))
            &&& n > i32::MAX || r.modifier + n > i32::MAX ==> parsed(e + "+"@ + dec(n)) == Err::<
                RollView,
                _,
            >("'"@ + dec(n) + "' is not a valid number"@)
        }),
{
    reveal_strlit("-");
    reveal_strlit("+");
    let minus = "-"@ + dec(n);
    let plus = "+"@ + dec(n);
    assert(dice_thrown(at_first().terms) == 0);
    parsed_rolls_are_capped(e);
    let q = lemma_reads_on(e, minus, 0, at_first());
    let s = e + minus;
    assert(s =~= e + "-"@ + dec(n));
    assert(s[e.len() as int] == '-');
    lemma_number_ends(e + "-"@, n, (Progress { minus: true, ..q }));
    assert(roll_from(s, e.len() as int, q) == roll_from(
        s,
        (e.len() + 1) as int,
        (Progress { minus: true, ..q }),
    ));
    let q = lemma_reads_on(e, plus, 0, at_first());
    let s = e + plus;
    assert(s =~= e + "+"@ + dec(n));
    assert(s[e.len() as int] == '+');
    lemma_number_ends(e + "+"@, n, (Progress { minus: false, ..q }));
    assert(roll_from(s, e.len() as int, q) == roll_from(
        s,
        (e.len() + 1) as int,
        (Progress { minus: false, ..q }),
    ));
}

/// Blanks and commas between a sign and its number do not matter, and a number without a
/// sign is added where a digit stands before it.
#[verifier::spinoff_prover]
#[verifier::rlimit(40)]
pub proof fn numbers_may_stand_apart(e: Seq<char>, blanks: Seq<char>, n: nat)
    requires
        parsed(e) is Ok,
        parsed(e)->Ok_0.stake is None,
        forall|k: int| 0 <= k < blanks.len() ==> is_space(#[trigger] blanks[k]) || blanks[k] == ',',
    ensures
        parsed(e + "-"@ + blanks + dec(n)) == parsed(e + "-"@ + dec(n)),
        parsed(e + "+"@ + blanks + dec(n)) == parsed(e + "+"@ + dec(n)),
        blanks.len() > 0 && is_digit(e.last()) ==> parsed(e + blanks + dec(n)) == parsed(
            e + "+"@ + dec(n),
        ),
{
    reveal_strlit("-");
    reveal_strlit("+");
    let none = Seq::<char>::empty();
    assert("-"@ =~= seq!['-']);
    assert("+"@ =~= seq!['+']);
    lemma_number_apart(e, "-"@, blanks, n);
    lemma_number_apart(e, "-"@, none, n);
    assert(e + "-"@ + none =~= e + "-"@);
    lemma_number_apart(e, "+"@, blanks, n);
    lemma_number_apart(e, "+"@, none, n);
    assert(e + "+"@ + none =~= e + "+"@);
    if blanks.len() > 0 && is_digit(e.last()) {
        assert(none.len() != seq!['-'].len());
        assert("+"@[0] != seq!['-'][0]);
        lemma_number_apart(e, none, blanks, n);
        assert(e + none =~= e);
    }
}

/// A number after a sign, if any, and blanks.
#[verifier::spinoff_prover]
#[verifier::rlimit(40)]
proof fn lemma_number_apart(e: Seq<char>, sign: Seq<char>, blanks: Seq<char>, n: nat)
    requires
        parsed(e) is Ok,
        parsed(e)->Ok_0.stake is None,
        forall|k: int| 0 <= k < blanks.len() ==> is_space(#[trigger] blanks[k]) || blanks[k] == ',',
        sign == seq!['-'] || sign == seq!['+'] || sign.len() == 0 && blanks.len() > 0 && is_digit(
            e.last(),
        ),
    ensures
        ({
            let r = parsed(e)->Ok_0;
            let sum = if sign == seq!['-'] {
                r.modifier - n
            } else {
                r.modifier + n
            };
            parsed(e + sign + blanks + dec(n)) == (if n > i32::MAX || sum < i32::MIN || sum
                > i32::MAX {
                Err(quoted(dec(n), "' is not a valid number"@))
            } else {
                Ok((RollView { terms: r.terms, modifier: sum as i32, stake: None }))
            })
        }),
{
    let post = sign + blanks + dec(n);
    let s = e + post;
    let i = e.len() as int;
    let j = i + sign.len();
    let k = j + blanks.len();
    if sign.len() > 0 {
        assert(post[0] == sign[0]);
    } else {
        assert(post[0] == blanks[0]);
        assert(sign != seq!['-']);
    }
    assert(dice_thrown(at_first().terms) == 0);
    parsed_rolls_are_capped(e);
    let q = lemma_reads_on(e, post, 0, at_first());
    assert(s == e + sign + blanks + dec(n)) by {
        assert(s =~= e + sign + blanks + dec(n));
    }
    let p = if sign == seq!['-'] {
        Progress { minus: true, ..q }
    } else {
        Progress { minus: false, ..q }
    };
    if sign.len() > 0 {
        assert(s[i] == sign[0]);
        assert(roll_from(s, i, q) == roll_from(s, j, p));
    } else {
        assert(p == q);
    }
    assert forall|m: int| j <= m < k implies is_space(#[trigger] s[m]) || s[m] == ',' by {
        assert(s[m] == blanks[m - j]);
    }
    lemma_blanks_pass(s, j, k, p);
    lemma_number_ends(e + sign + blanks, n, p);
}

/// Signs, blanks and commas after an expression without a stake do not matter.
pub proof fn trailing_signs_do_not_matter(e: Seq<char>, sep: Seq<char>)
    requires
        parsed(e) is Ok,
        parsed(e)->Ok_0.stake is None,
        forall|k: int| 0 <= k < sep.len() ==> parting(#[trigger] sep[k]),
    ensures
        parsed(e + sep) == parsed(e),
{
    if sep.len() == 0 {
        assert(e + sep =~= e);
    } else {
        let s = e + sep;
        assert(parting(sep[0]));
        assert(dice_thrown(at_first().terms) == 0);
        parsed_rolls_are_capped(e);
        let q = lemma_reads_on(e, sep, 0, at_first());
        assert forall|k: int| e.len() <= k < s.len() implies is_space(#[trigger] s[k]) || s[k] == ','
            || s[k] == '+' || s[k] == '-' by {
            assert(s[k] == sep[k - e.len()]);
            assert(parting(sep[k - e.len()]));
        }
        let minus = lemma_pass_separators(s, e.len() as int, s.len() as int, q);
        let last = Progress { minus, ..q };
        assert(roll_from(s, s.len() as int, last) == finished(last, None));
    }
}

/// A reading whose end lies `by` further on.
spec fn moved<T>(read: Result<(T, int), Seq<char>>, by: int) -> Result<(T, int), Seq<char>> {
    match read {
        Ok((x, end)) => Ok((x, end + by)),
        Err(c) => Err(c),
    }
}

proof fn lemma_digits_later(pre: Seq<char>, e: Seq<char>, i: int)
    requires
        0 <= i <= e.len(),
    ensures
        digits_end(pre + e, pre.len() + i) == pre.len() + digits_end(e, i),
        i <= digits_end(e, i) <= e.len(),
        (pre + e).subrange(pre.len() + i, pre.len() + digits_end(e, i)) == e.subrange(
            i,
            digits_end(e, i),
        ),
        count_at(pre + e, pre.len() + i) == count_at(e, i),
    decreases e.len() - i,
{
    lemma_digits_end(e, i);
    if i < e.len() {
        assert((pre + e)[pre.len() + i] == e[i]);
        if is_digit(e[i]) {
            lemma_digits_later(pre, e, i + 1);
        }
    }
    assert((pre + e).subrange(pre.len() + i, pre.len() + digits_end(e, i)) =~= e.subrange(
        i,
        digits_end(e, i),
    ));
}

proof fn lemma_spaces_later(pre: Seq<char>, e: Seq<char>, i: int)
    requires
        0 <= i <= e.len(),
    ensures
        skip_space(pre + e, pre.len() + i) == pre.len() + skip_space(e, i),
        i <= skip_space(e, i) <= e.len(),
    decreases e.len() - i,
{
    if i < e.len() {
        assert((pre + e)[pre.len() + i] == e[i]);
        if is_space(e[i]) {
            lemma_spaces_later(pre, e, i + 1);
        }
    }
}

#[verifier::spinoff_prover]
#[verifier::rlimit(40)]
proof fn lemma_mod_later(pre: Seq<char>, e: Seq<char>, i: int, count: u32, sides: u32)
    requires
        0 <= i <= e.len(),
    ensures
        match mod_at(e, i, count, sides) {
            None => mod_at(pre + e, pre.len() + i, count, sides) is None,
            Some(read) => mod_at(pre + e, pre.len() + i, count, sides) == Some(
                moved(read, pre.len() as int),
            ),
        },
{
    let s = pre + e;
    let o = pre.len() as int;
    assert forall|k: int| 0 <= k < e.len() implies #[trigger] s[o + k] == e[k] by {}
    if i < e.len() {
        assert(s[o + i] == e[i]);
        lemma_digits_later(pre, e, i + 1);
        if i + 1 < e.len() {
            assert(s[o + (i + 1)] == e[i + 1]);
            lemma_digits_later(pre, e, i + 2);
            if i + 2 < e.len() {
                assert(s[o + (i + 2)] == e[i + 2]);
                lemma_digits_later(pre, e, i + 3);
            }
        }
        assert(compare_at(s, o + i + 1) == moved(compare_at(e, i + 1), o));
        assert(factor_at(s, o + i + 1) == moved(factor_at(e, i + 1), o));
    }
}

proof fn lemma_mods_later(pre: Seq<char>, e: Seq<char>, i: int, count: u32, sides: u32)
    requires
        0 <= i <= e.len(),
    ensures
        mods_at(pre + e, pre.len() + i, count, sides) == moved(
            mods_at(e, i, count, sides),
            pre.len() as int,
        ),
    decreases e.len() - i,
{
    lemma_mod_later(pre, e, i, count, sides);
    lemma_mod_advances(e, i, count, sides);
    lemma_mod_advances(pre + e, pre.len() + i, count, sides);
    if let Some(Ok((m, end))) = mod_at(e, i, count, sides) {
        lemma_mods_later(pre, e, end, count, sides);
    }
}

proof fn lemma_dice_later(pre: Seq<char>, e: Seq<char>, i: int, d: int, thrown: nat)
    requires
        0 <= i <= d < e.len(),
    ensures
        dice_at(pre + e, pre.len() + i, pre.len() + d, thrown) == moved(
            dice_at(e, i, d, thrown),
            pre.len() as int,
        ),
{
    let s = pre + e;
    let o = pre.len() as int;
    assert(s.subrange(o + i, o + d) =~= e.subrange(i, d));
    lemma_digits_later(pre, e, d + 1);
    lemma_dice_advances(e, i, d, thrown);
    if d + 1 < e.len() {
        assert(s[o + (d + 1)] == e[d + 1]);
    }
    let (written, end) = sides_at(e, d + 1);
    assert(sides_at(s, o + d + 1) == (written, o + end));
    let count = if i == d {
        1
    } else {
        number(e.subrange(i, d))
    };
    lemma_mods_later(pre, e, end, count as u32, number(written) as u32);
}

proof fn lemma_target_later(pre: Seq<char>, e: Seq<char>, i: int)
    requires
        0 <= i <= e.len(),
    ensures
        target_at(pre + e, pre.len() + i) == target_at(e, i),
{
    let s = pre + e;
    let o = pre.len() as int;
    lemma_spaces_later(pre, e, i);
    let at = skip_space(e, i);
    if at < e.len() {
        assert(s[o + at] == e[at]);
    }
    let from = past_sign(e, at);
    lemma_digits_later(pre, e, from);
    let end = digits_end(e, from);
    lemma_spaces_later(pre, e, end);
    assert(s.subrange(o + at, o + end) =~= e.subrange(at, end));
}

/// What stands from a place on reads as it would by itself.
#[verifier::spinoff_prover]
#[verifier::rlimit(40)]
proof fn lemma_roll_later(pre: Seq<char>, e: Seq<char>, i: int, p: Progress)
    requires
        0 <= i <= e.len(),
    ensures
        roll_from(pre + e, pre.len() + i, p) == roll_from(e, i, p),
    decreases e.len() - i,
{
    let s = pre + e;
    let o = pre.len() as int;
    let d = digits_end(e, i);
    lemma_digits_later(pre, e, i);
    if i < e.len() {
        assert(s[o + i] == e[i]);
        if i + 1 < e.len() {
            assert(s[o + (i + 1)] == e[i + 1]);
        }
        if d < e.len() {
            assert(s[o + d] == e[d]);
        }
        assert(stake_word(s, o + i) == stake_word(e, i));
        if is_space(e[i]) || e[i] == ',' {
            lemma_roll_later(pre, e, i + 1, p);
        } else if e[i] == '+' {
            lemma_roll_later(pre, e, i + 1, (Progress { minus: false, ..p }));
        } else if e[i] == '-' {
            lemma_roll_later(pre, e, i + 1, (Progress { minus: true, ..p }));
        } else if stake_word(e, i) > 0 {
            lemma_target_later(pre, e, i + stake_word(e, i));
        } else if d < e.len() && (e[d] == 'd' || e[d] == 'D') {
            lemma_dice_advances(e, i, d, p.thrown);
            lemma_dice_advances(s, o + i, o + d, p.thrown);
            lemma_dice_later(pre, e, i, d, p.thrown);
            if let Ok((t, end)) = dice_at(e, i, d, p.thrown) {
                lemma_roll_later(
                    pre,
                    e,
                    end,
                    (Progress {
                        terms: p.terms.push(t),
                        thrown: p.thrown + t.count as nat,
                        minus: false,
                        begun: true,
                        ..p
                    }),
                );
            }
        } else if d > i {
            let sum = flat_sum(p, e.subrange(i, d));
            lemma_roll_later(
                pre,
                e,
                d,
                (Progress { modifier: sum, minus: false, begun: true, ..p }),
            );
        }
    }
}

proof fn lemma_blanks_pass(s: Seq<char>, i: int, j: int, p: Progress)
    requires
        0 <= i <= j <= s.len(),
        forall|k: int| i <= k < j ==> is_space(#[trigger] s[k]) || s[k] == ',',
    ensures
        roll_from(s, i, p) == roll_from(s, j, p),
    decreases j - i,
{
    if i < j {
        lemma_blanks_pass(s, i + 1, j, p);
    }
}

/// Blanks and commas before an expression do not matter, and a plus does not either; nor
/// do blanks and commas after one that reads and has no stake.
#[verifier::spinoff_prover]
#[verifier::rlimit(40)]
pub proof fn blanks_around_do_not_matter(blanks: Seq<char>, e: Seq<char>)
    requires
        forall|k: int| 0 <= k < blanks.len() ==> is_space(#[trigger] blanks[k]) || blanks[k] == ',',
    ensures
        parsed(blanks + e) == parsed(e),
        parsed("+"@ + e) == parsed(e),
        parsed(e) is Ok && parsed(e)->Ok_0.stake is None ==> parsed(e + blanks) == parsed(e),
{
    let p = at_first();
    let s = blanks + e;
    assert forall|k: int| 0 <= k < blanks.len() implies is_space(#[trigger] s[k]) || s[k] == ',' by {
        assert(s[k] == blanks[k]);
    }
    lemma_blanks_pass(s, 0, blanks.len() as int, p);
    lemma_roll_later(blanks, e, 0, p);
    reveal_strlit("+");
    let s = "+"@ + e;
    assert(s[0] == '+');
    lemma_roll_later("+"@, e, 0, p);
    assert(p == (Progress { minus: false, ..p }));
    if parsed(e) is Ok && parsed(e)->Ok_0.stake is None {
        if blanks.len() == 0 {
            assert(e + blanks =~= e);
        } else {
            assert(dice_thrown(p.terms) == 0);
            assert(is_space(blanks[0]) || blanks[0] == ',');
            let q = lemma_reads_on(e, blanks, 0, p);
            let s = e + blanks;
            assert forall|k: int| e.len() <= k < s.len() implies is_space(#[trigger] s[k]) || s[k]
                == ',' by {
                assert(s[k] == blanks[k - e.len()]);
            }
            lemma_blanks_pass(s, e.len() as int, s.len() as int, q);
            parsed_rolls_are_capped(e);
            assert(roll_from(s, s.len() as int, q) == finished(q, None));
        }
    }
}

/// How an expression reads after dice have been read: as it does alone, with those dice
/// before its own.
#[verifier::spinoff_prover]
#[verifier::rlimit(40)]
proof fn lemma_after_dice(f: Seq<char>, i: int, p: Progress, before: Progress)
    requires
        0 <= i <= f.len(),
        before.begun,
        before.thrown == dice_thrown(before.terms),
        p.thrown == dice_thrown(p.terms),
        roll_from(f, i, p) is Ok,
    ensures
        ({
            let q = Progress {
                terms: before.terms + p.terms,
                thrown: before.thrown + p.thrown,
                begun: true,
                ..p
            };
            let alone = roll_from(f, i, p)->Ok_0;
            &&& before.thrown + dice_thrown(alone.terms) <= MAX_DICE || alone.terms == p.terms
                ==> roll_from(f, i, q) == Ok::<_, Seq<char>>(
                (RollView { terms: before.terms + alone.terms, ..alone }),
            )
            &&& before.thrown + dice_thrown(alone.terms) > MAX_DICE && before.thrown + p.thrown
                <= MAX_DICE ==> roll_from(f, i, q) is Err
            &&& dice_thrown(alone.terms) >= p.thrown
            &&& alone.terms.len() >= p.terms.len()
        }),
    decreases f.len() - i,
{
    let q = Progress {
        terms: before.terms + p.terms,
        thrown: before.thrown + p.thrown,
        begun: true,
        ..p
    };
    let d = digits_end(f, i);
    lemma_digits_end(f, i);
    if i >= f.len() {
    } else if is_space(f[i]) || f[i] == ',' {
        lemma_after_dice(f, i + 1, p, before);
    } else if f[i] == '+' {
        lemma_after_dice(f, i + 1, (Progress { minus: false, ..p }), before);
    } else if f[i] == '-' {
        lemma_after_dice(f, i + 1, (Progress { minus: true, ..p }), before);
    } else if stake_word(f, i) > 0 {
    } else if d < f.len() && (f[d] == 'd' || f[d] == 'D') {
        lemma_dice_advances(f, i, d, p.thrown);
        let (t, end) = dice_at(f, i, d, p.thrown)->Ok_0;
        let p1 = Progress {
            terms: p.terms.push(t),
            thrown: p.thrown + t.count as nat,
            minus: false,
            begun: true,
            ..p
        };
        assert(p1.terms.drop_last() =~= p.terms);
        assert(before.terms + p1.terms =~= (before.terms + p.terms).push(t));
        lemma_after_dice(f, end, p1, before);
        if before.thrown + p1.thrown <= MAX_DICE {
            assert(dice_at(f, i, d, q.thrown) == dice_at(f, i, d, p.thrown));
        }
    } else if d > i {
        let sum = flat_sum(p, f.subrange(i, d));
        lemma_after_dice(
            f,
            d,
            (Progress { modifier: sum, minus: false, begun: true, ..p }),
            before,
        );
    }
}

/// The dice of two expressions are thrown together where a plus joins them: first those of
/// the one, which has neither a flat modifier nor a stake, then those of the other, whose
/// modifier and stake hold. Together they are refused where they are too many dice, and
/// only there.
#[verifier::spinoff_prover]
#[verifier::rlimit(40)]
pub proof fn expressions_add_up(e: Seq<char>, f: Seq<char>)
    requires
        parsed(e) is Ok,
        parsed(e)->Ok_0.modifier == 0,
        parsed(e)->Ok_0.stake is None,
        parsed(f) is Ok,
    ensures
        ({
            let a = parsed(e)->Ok_0;
            let b = parsed(f)->Ok_0;
            &&& dice_thrown(a.terms) + dice_thrown(b.terms) <= 60 ==> parsed(e + "+"@ + f) == Ok::<
                _,
                Seq<char>,
            >((RollView { terms: a.terms + b.terms, modifier: b.modifier, stake: b.stake }))
            &&& dice_thrown(a.terms) + dice_thrown(b.terms) > 60 ==> parsed(e + "+"@ + f) is Err
        }),
{
    reveal_strlit("+");
    let p = at_first();
    let post = "+"@ + f;
    assert(dice_thrown(p.terms) == 0);
    parsed_rolls_are_capped(e);
    parsed_rolls_are_capped(f);
    let q = lemma_reads_on(e, post, 0, p);
    let s = e + post;
    assert(s =~= e + "+"@ + f);
    assert(s[e.len() as int] == '+');
    let q1 = Progress { minus: false, ..q };
    assert(roll_from(s, e.len() as int, q) == roll_from(s, (e.len() + 1) as int, q1));
    lemma_roll_later(e + "+"@, f, 0, q1);
    lemma_after_dice(f, 0, p, q);
    assert(q.terms + p.terms =~= q.terms);
    assert(q1 == (Progress {
        terms: q.terms + p.terms,
        thrown: q.thrown + p.thrown,
        begun: true,
        ..p
    }));
}

/// A term that is written after others reads as itself.
#[verifier::spinoff_prover]
#[verifier::rlimit(40)]
proof fn lemma_term_here(pre: Seq<char>, t: TermView, p: Progress)
    requires
        term_allowed(t),
        forall|k: int|
            0 <= k < t.mods.len() && t.count == 0 ==> (#[trigger] t.mods[k]) is Explode
                || t.mods[k] is Mul,
    ensures
        roll_from(pre + notation(t), pre.len() as int, p) == (if p.thrown + t.count > MAX_DICE {
            Err("too many dice — keep the pool under 60"@)
        } else {
            finished((Progress { terms: p.terms.push(t), begun: true, ..p }), None)
        }),
{
    reveal_strlit("d");
    let text = notation(t);
    let s = pre + text;
    let i = pre.len() as int;
    let tail = mods_text(t.mods);
    let head = if t.count == 1 {
        Seq::empty()
    } else {
        dec(t.count as nat)
    };
    let d = i + head.len();
    let a = pre + head + "d"@;
    lemma_mods_read_back(a + dec(t.sides as nat), t.mods, t.count, t.sides);
    lemma_number_between(a, t.sides as nat, tail);
    assert(s =~= a + dec(t.sides as nat) + tail);
    assert(s[d] == 'd');
    if t.count == 1 {
        assert(d == i);
        assert(digits_end(s, i) == i);
    } else {
        let rest = "d"@ + dec(t.sides as nat) + tail;
        lemma_number_between(pre, t.count as nat, rest);
        assert(s =~= pre + dec(t.count as nat) + rest);
        assert(digits_end(s, i) == d);
        assert(s.subrange(i, d) =~= dec(t.count as nat));
        assert(is_digit(s[i]));
    }
    assert(stake_word(s, i) == 0);
    assert(sides_at(s, d + 1) == (dec(t.sides as nat), d + 1 + dec(t.sides as nat).len()));
    if p.thrown + t.count <= MAX_DICE {
        assert(dice_at(s, i, d, p.thrown) == Ok::<_, Seq<char>>((t, s.len() as int)));
        let q = Progress {
            terms: p.terms.push(t),
            thrown: p.thrown + t.count as nat,
            minus: false,
            begun: true,
            ..p
        };
        assert(roll_from(s, s.len() as int, q) == finished(q, None));
    }
}

/// Dice are always added: an expression without a stake, then a comma, blanks or signs,
/// then a term as it is written, asks for the same dice and that term after them, with the
/// same modifier. It is refused where that would be more than 60 dice, and only there.
#[verifier::spinoff_prover]
#[verifier::rlimit(40)]
pub proof fn dice_add_up(e: Seq<char>, sep: Seq<char>, t: TermView)
    requires
        parsed(e) is Ok,
        parsed(e)->Ok_0.stake is None,
        sep.len() > 0,
        forall|k: int| 0 <= k < sep.len() ==> parting(#[trigger] sep[k]),
        term_allowed(t),
        forall|k: int|
            0 <= k < t.mods.len() && t.count == 0 ==> (#[trigger] t.mods[k]) is Explode
                || t.mods[k] is Mul,
    ensures
        ({
            let r = parsed(e)->Ok_0;
            &&& dice_thrown(r.terms) + t.count <= 60 ==> parsed(e + sep + notation(t)) == Ok::<
                _,
                Seq<char>,
            >((RollView { terms: r.terms.push(t), modifier: r.modifier, stake: None }))
            &&& dice_thrown(r.terms) + t.count > 60 ==> parsed(e + sep + notation(t)) == Err::<
                RollView,
                _,
            >("too many dice — keep the pool under 60"@)
        }),
{
    let p = at_first();
    let post = sep + notation(t);
    assert(parting(sep[0]));
    assert(dice_thrown(p.terms) == 0);
    parsed_rolls_are_capped(e);
    let q = lemma_reads_on(e, post, 0, p);
    let s = e + post;
    let j = (e.len() + sep.len()) as int;
    assert(s =~= e + sep + notation(t));
    assert forall|k: int| e.len() <= k < j implies is_space(#[trigger] s[k]) || s[k] == ',' || s[k]
        == '+' || s[k] == '-' by {
        assert(s[k] == sep[k - e.len()]);
        assert(parting(sep[k - e.len()]));
    }
    let minus = lemma_pass_separators(s, e.len() as int, j, q);
    lemma_term_here(e + sep, t, (Progress { minus, ..q }));
}

/// A number of digits, as it is found again in a longer text.
proof fn lemma_number_here(pre: Seq<char>, n: nat, post: Seq<char>)
    requires
        post.len() > 0 ==> !is_digit(post[0]),
    ensures
        ({
            let s = pre + dec(n) + post;
            let i = pre.len() as int;
            let end = i + dec(n).len();
            &&& digits_end(s, i) == end
            &&& s.subrange(i, end) == dec(n)
            &&& number(dec(n)) == n
            &&& end > i
            &&& is_digit(s[i])
            &&& end < s.len() ==> s[end] == post[0]
        }),
{
    let s = pre + dec(n) + post;
    let i = pre.len() as int;
    let end = i + dec(n).len();
    lemma_dec_reads_back(n);
    assert(s.subrange(i, end) =~= dec(n));
    assert forall|k: int| i <= k < end implies is_digit(#[trigger] s[k]) by {
        assert(s[k] == dec(n)[k - i]);
    }
    if end < s.len() {
        assert(s[end] == post[0]);
    }
    lemma_digits_end_is(s, i, end);
    assert(is_digit(s[i]));
}

proof fn lemma_skips(s: Seq<char>, i: int, j: int)
    requires
        0 <= i <= j <= s.len(),
        forall|k: int| i <= k < j ==> is_space(#[trigger] s[k]),
        j < s.len() ==> !is_space(s[j]),
    ensures
        skip_space(s, i) == j,
    decreases j - i,
{
    if i < j {
        lemma_skips(s, i + 1, j);
    }
}

/// A target with blanks before it, and an end of the expression or a blank after it.
#[verifier::spinoff_prover]
#[verifier::rlimit(40)]
proof fn lemma_target_here(pre: Seq<char>, blanks: Seq<char>, n: int, post: Seq<char>)
    requires
        forall|k: int| 0 <= k < blanks.len() ==> is_space(#[trigger] blanks[k]),
        post.len() > 0 ==> is_space(post[0]),
    ensures
        ({
            let s = pre + blanks + dec_int(n) + post;
            let end = (pre.len() + blanks.len() + dec_int(n).len()) as int;
            let read = target_at(s, pre.len() as int);
            &&& skip_space(s, end) >= s.len() && i32::MIN <= n <= i32::MAX ==> read == Ok::<
                i32,
                Seq<char>,
            >(n as i32)
            &&& n < i32::MIN || n > i32::MAX ==> read == Err::<i32, _>(
                "'"@ + dec_int(n) + "' is not a valid target"@,
            )
            &&& skip_space(s, end) < s.len() && i32::MIN <= n <= i32::MAX ==> read == Err::<i32, _>(
                "the target must come last, and there is only one per roll"@,
            )
        }),
{
    let s = pre + blanks + dec_int(n) + post;
    let i = pre.len() as int;
    let at = i + blanks.len();
    reveal_strlit("-");
    assert forall|k: int| i <= k < at implies is_space(#[trigger] s[k]) by {
        assert(s[k] == blanks[k - i]);
    }
    if n < 0 {
        let before = pre + blanks + seq!['-'];
        assert(dec_int(n) =~= seq!['-'] + dec((-n) as nat));
        lemma_number_here(before, (-n) as nat, post);
        assert(before + dec((-n) as nat) + post =~= s);
        assert(s[at] == '-');
        lemma_skips(s, i, at);
        assert(past_sign(s, at) == at + 1);
        assert(signed_at(s, at) == n);
        assert(s.subrange(at, at + dec_int(n).len()) =~= dec_int(n));
    } else {
        lemma_number_here(pre + blanks, n as nat, post);
        assert(is_digit(s[at]));
        lemma_skips(s, i, at);
        assert(past_sign(s, at) == at);
        assert(signed_at(s, at) == n);
        assert(s.subrange(at, at + dec_int(n).len()) =~= dec_int(n));
    }
}

/// What comes after an expression without a stake and a blank is read after that
/// expression.
proof fn lemma_blank_then(e: Seq<char>, rest: Seq<char>) -> (q: Progress)
    requires
        parsed(e) is Ok,
        parsed(e)->Ok_0.stake is None,
    ensures
        parsed(e + (seq![' '] + rest)) == roll_from(
            e + (seq![' '] + rest),
            (e.len() + 1) as int,
            q,
        ),
        q.begun,
        q.terms == parsed(e)->Ok_0.terms,
        q.terms.len() > 0,
        q.modifier == parsed(e)->Ok_0.modifier,
{
    let post = seq![' '] + rest;
    let s = e + post;
    assert(post[0] == ' ');
    assert(dice_thrown(at_first().terms) == 0);
    parsed_rolls_are_capped(e);
    let q = lemma_reads_on(e, post, 0, at_first());
    assert(s[e.len() as int] == ' ');
    q
}

/// A word that opens a stake, after dice.
proof fn lemma_stake_at(s: Seq<char>, i: int, word: Seq<char>, goal: Goal, q: Progress)
    requires
        0 <= i,
        i + word.len() <= s.len(),
        word == seq!['v', 's'] && goal is Over || word == seq!['>'] && goal is Over || word == seq![
            '<',
        ] && goal is Under,
        forall|k: int| 0 <= k < word.len() ==> #[trigger] word[k] == s[i + k],
        q.begun,
        q.terms.len() > 0,
    ensures
        roll_from(s, i, q) == match target_at(s, i + word.len()) {
            Err(c) => Err(c),
            Ok(target) => Ok(
                (RollView {
                    terms: q.terms,
                    modifier: q.modifier as i32,
                    stake: Some(Stake { target, goal }),
                }),
            ),
        },
{
    assert(word[0] == s[i + 0]);
    if word.len() == 2 {
        assert(word[1] == s[i + 1]);
    }
    assert(stake_word(s, i) == word.len());
}

proof fn lemma_stake_text(
    e: Seq<char>,
    word: Seq<char>,
    blanks: Seq<char>,
    num: Seq<char>,
    post: Seq<char>,
)
    ensures
        e + seq![' '] + word + blanks + num + post == e + (seq![' '] + (word + (blanks + num
            + post))),
        forall|k: int|
            0 <= k < word.len() ==> #[trigger] word[k] == (e + (seq![' '] + (word + (blanks + num
                + post))))[e.len() + 1 + k],
{
    assert(e + seq![' '] + word + blanks + num + post =~= e + (seq![' '] + (word + (blanks + num
        + post))));
}

/// What an expression without a stake asks for with a stake behind it.
#[verifier::spinoff_prover]
#[verifier::rlimit(40)]
proof fn lemma_stake_here(
    e: Seq<char>,
    word: Seq<char>,
    goal: Goal,
    blanks: Seq<char>,
    n: int,
    post: Seq<char>,
)
    requires
        parsed(e) is Ok,
        parsed(e)->Ok_0.stake is None,
        word == seq!['v', 's'] && goal is Over || word == seq!['>'] && goal is Over || word == seq![
            '<',
        ] && goal is Under,
        forall|k: int| 0 <= k < blanks.len() ==> is_space(#[trigger] blanks[k]),
        post.len() > 0 ==> is_space(post[0]),
    ensures
        ({
            let r = parsed(e)->Ok_0;
            let s = e + seq![' '] + word + blanks + dec_int(n) + post;
            let end = s.len() - post.len();
            &&& skip_space(s, end) >= s.len() && i32::MIN <= n <= i32::MAX ==> parsed(s) == Ok::<
                _,
                Seq<char>,
            >((RollView { stake: Some(Stake { target: n as i32, goal }), ..r }))
            &&& n < i32::MIN || n > i32::MAX ==> parsed(s) == Err::<RollView, _>(
                "'"@ + dec_int(n) + "' is not a valid target"@,
            )
            &&& skip_space(s, end) < s.len() && i32::MIN <= n <= i32::MAX ==> parsed(s) == Err::<
                RollView,
                _,
            >("the target must come last, and there is only one per roll"@)
        }),
{
    let tail = word + (blanks + dec_int(n) + post);
    let s = e + (seq![' '] + tail);
    let i = (e.len() + 1) as int;
    lemma_stake_text(e, word, blanks, dec_int(n), post);
    let q = lemma_blank_then(e, tail);
    assert(forall|k: int| 0 <= k < word.len() ==> #[trigger] word[k] == s[i + k]);
    lemma_stake_at(s, i, word, goal, q);
    assert((e + seq![' '] + word).len() == i + word.len());
    lemma_target_here(e + seq![' '] + word, blanks, n, post);
}

#[verifier::spinoff_prover]
#[verifier::rlimit(40)]
proof fn lemma_stake_ends(
    e: Seq<char>,
    mark: Seq<char>,
    word: Seq<char>,
    goal: Goal,
    blanks: Seq<char>,
    n: int,
)
    requires
        parsed(e) is Ok,
        parsed(e)->Ok_0.stake is None,
        mark == seq![' '] + word,
        word == seq!['v', 's'] && goal is Over || word == seq!['>'] && goal is Over || word == seq![
            '<',
        ] && goal is Under,
        forall|k: int| 0 <= k < blanks.len() ==> is_space(#[trigger] blanks[k]),
    ensures
        i32::MIN <= n <= i32::MAX ==> parsed(e + mark + blanks + dec_int(n)) == Ok::<_, Seq<char>>(
            (RollView { stake: Some(Stake { target: n as i32, goal }), ..parsed(e)->Ok_0 }),
        ),
        n < i32::MIN || n > i32::MAX ==> parsed(e + mark + blanks + dec_int(n)) == Err::<
            RollView,
            _,
        >("'"@ + dec_int(n) + "' is not a valid target"@),
{
    let none = Seq::<char>::empty();
    lemma_stake_here(e, word, goal, blanks, n, none);
    let s = e + seq![' '] + word + blanks + dec_int(n) + none;
    assert(s == e + mark + blanks + dec_int(n)) by {
        assert(e + mark =~= e + seq![' '] + word);
        assert(s =~= e + seq![' '] + word + blanks + dec_int(n));
    }
    assert(skip_space(s, s.len() as int) == s.len());
}

/// A stake behind an expression that has none: after `vs` or `>` the number is one to meet
/// or beat, after `<` one to stay at or below. The dice and the modifier are the same. A
/// target that an `i32` does not hold is refused.
#[verifier::spinoff_prover]
#[verifier::rlimit(40)]
pub proof fn stakes_set_the_target(e: Seq<char>, blanks: Seq<char>, n: int)
    requires
        parsed(e) is Ok,
        parsed(e)->Ok_0.stake is None,
        forall|k: int| 0 <= k < blanks.len() ==> is_space(#[trigger] blanks[k]),
    ensures
        ({
            let r = parsed(e)->Ok_0;
            let over = Ok::<_, Seq<char>>(
                (RollView { stake: Some(Stake { target: n as i32, goal: Goal::Over }), ..r }),
            );
            let under = Ok::<_, Seq<char>>(
                (RollView { stake: Some(Stake { target: n as i32, goal: Goal::Under }), ..r }),
            );
            let refused = Err::<RollView, _>("'"@ + dec_int(n) + "' is not a valid target"@);
            let held = i32::MIN <= n <= i32::MAX;
            &&& held ==> parsed(e + " vs"@ + blanks + dec_int(n)) == over
            &&& held ==> parsed(e + " >"@ + blanks + dec_int(n)) == over
            &&& held ==> parsed(e + " <"@ + blanks + dec_int(n)) == under
            &&& !held ==> parsed(e + " vs"@ + blanks + dec_int(n)) == refused
            &&& !held ==> parsed(e + " >"@ + blanks + dec_int(n)) == refused
            &&& !held ==> parsed(e + " <"@ + blanks + dec_int(n)) == refused
        }),
{
    reveal_strlit(" vs");
    reveal_strlit(" >");
    reveal_strlit(" <");
    assert(" vs"@ =~= seq![' '] + seq!['v', 's']);
    assert(" >"@ =~= seq![' '] + seq!['>']);
    assert(" <"@ =~= seq![' '] + seq!['<']);
    lemma_stake_ends(e, " vs"@, seq!['v', 's'], Goal::Over, blanks, n);
    lemma_stake_ends(e, " >"@, seq!['>'], Goal::Over, blanks, n);
    lemma_stake_ends(e, " <"@, seq!['<'], Goal::Under, blanks, n);
}

/// What follows a stake after blanks, of which there are `j`.
#[verifier::spinoff_prover]
#[verifier::rlimit(40)]
proof fn lemma_stake_followed(e: Seq<char>, n: int, post: Seq<char>, j: int)
    requires
        parsed(e) is Ok,
        parsed(e)->Ok_0.stake is None,
        0 <= j <= post.len(),
        post.len() > 0 ==> j > 0,
        forall|k: int| 0 <= k < j ==> is_space(#[trigger] post[k]),
        j < post.len() ==> !is_space(post[j]),
        i32::MIN <= n <= i32::MAX,
    ensures
        j < post.len() ==> parsed(e + " vs "@ + dec_int(n) + post) == Err::<RollView, _>(
            "the target must come last, and there is only one per roll"@,
        ),
        j == post.len() ==> parsed(e + " vs "@ + dec_int(n) + post) == Ok::<_, Seq<char>>(
            (RollView {
                stake: Some(Stake { target: n as i32, goal: Goal::Over }),
                ..parsed(e)->Ok_0
            }),
        ),
{
    reveal_strlit(" vs ");
    let word = seq!['v', 's'];
    let gap = seq![' '];
    let front = e + gap + word + gap + dec_int(n);
    let s = front + post;
    let end = front.len() as int;
    assert(s.len() - post.len() == end);
    assert(front == e + " vs "@ + dec_int(n)) by {
        assert(e + gap + word + gap =~= e + " vs "@);
    }
    if post.len() > 0 {
        assert(is_space(post[0]));
    }
    lemma_stake_here(e, word, Goal::Over, gap, n, post);
    assert forall|k: int| end <= k < end + j implies is_space(#[trigger] s[k]) by {
        assert(s[k] == post[k - end]);
    }
    if j < post.len() {
        assert(s[end + j] == post[j]);
    }
    lemma_skips(s, end, end + j);
}

/// Nothing but blanks may follow a stake.
#[verifier::spinoff_prover]
#[verifier::rlimit(40)]
pub proof fn stakes_come_last(e: Seq<char>, n: int, blanks: Seq<char>, c: char, rest: Seq<char>)
    requires
        parsed(e) is Ok,
        parsed(e)->Ok_0.stake is None,
        forall|k: int| 0 <= k < blanks.len() ==> is_space(#[trigger] blanks[k]),
        blanks.len() > 0,
        !is_space(c),
        i32::MIN <= n <= i32::MAX,
    ensures
        parsed(e + " vs "@ + dec_int(n) + blanks + seq![c] + rest) == Err::<RollView, _>(
            "the target must come last, and there is only one per roll"@,
        ),
        parsed(e + " vs "@ + dec_int(n) + blanks) == parsed(e + " vs "@ + dec_int(n)),
        parsed(e + " vs "@ + dec_int(n)) is Ok,
{
    let none = Seq::<char>::empty();
    let front = e + " vs "@ + dec_int(n);
    let j = blanks.len() as int;
    let post = blanks + seq![c] + rest;
    assert forall|k: int| 0 <= k < j implies is_space(#[trigger] post[k]) by {
        assert(post[k] == blanks[k]);
    }
    assert(post[j] == c);
    lemma_stake_followed(e, n, post, j);
    assert(front + post =~= front + blanks + seq![c] + rest);
    lemma_stake_followed(e, n, blanks, j);
    lemma_stake_followed(e, n, none, 0);
    assert(front + none =~= front);
}

/// A character that has no meaning is named in the complaint.
#[verifier::spinoff_prover]
#[verifier::rlimit(40)]
pub proof fn strangers_are_named(e: Seq<char>, c: char, rest: Seq<char>)
    requires
        parsed(e) is Ok,
        parsed(e)->Ok_0.stake is None,
        !parting(c),
        !is_digit(c),
        c != '<' && c != '>' && c != 'd' && c != 'D',
        (c == 'v' || c == 'V') ==> rest.len() == 0 || rest[0] != 's' && rest[0] != 'S',
    ensures
        parsed(e + " "@ + seq![c] + rest) == Err::<RollView, _>(
            "unexpected character '"@ + seq![c] + "'"@,
        ),
{
    reveal_strlit(" ");
    let p = at_first();
    let post = " "@ + seq![c] + rest;
    assert(dice_thrown(p.terms) == 0);
    assert(post[0] == ' ');
    let q = lemma_reads_on(e, post, 0, p);
    let s = e + post;
    let i = (e.len() + 1) as int;
    assert(s =~= e + " "@ + seq![c] + rest);
    assert(s[e.len() as int] == ' ');
    assert(s[i] == c);
    if rest.len() > 0 {
        assert(s[i + 1] == rest[0]);
    }
    assert(roll_from(s, e.len() as int, q) == roll_from(s, i, q));
    assert(digits_end(s, i) == i);
    assert(stake_word(s, i) == 0);
}

/// Where the parts of a term stand in its text.
proof fn lemma_front_places(count: nat, sides: nat, tail: Seq<char>)
    requires
        tail.len() > 0 ==> !is_digit(tail[0]),
    ensures
        ({
            let s = dec(count) + "d"@ + dec(sides) + tail;
            let d = dec(count).len() as int;
            &&& 0 < d < s.len()
            &&& is_digit(s[0])
            &&& digits_end(s, 0) == d
            &&& s[d] == 'd'
            &&& s.subrange(0, d) == dec(count)
            &&& number(dec(count)) == count
            &&& number(dec(sides)) == sides
            &&& dec(sides).len() > 0
            &&& sides_at(s, d + 1) == (dec(sides), s.len() - tail.len())
            &&& stake_word(s, 0) == 0
        }),
{
    reveal_strlit("d");
    let none = Seq::<char>::empty();
    let s = dec(count) + "d"@ + dec(sides) + tail;
    let d = dec(count).len() as int;
    let rest = "d"@ + dec(sides) + tail;
    lemma_number_here(none, count, rest);
    assert(none + dec(count) + rest =~= s);
    lemma_number_here(dec(count) + "d"@, sides, tail);
    assert(s[d] == 'd');
    assert(is_digit(s[d + 1]));
    assert(s.subrange(0, d) =~= dec(count));
}

/// What a count, a `d` and sides ask for, with modifiers behind them.
#[verifier::spinoff_prover]
#[verifier::rlimit(40)]
proof fn lemma_term_front(count: nat, sides: nat, tail: Seq<char>)
    requires
        tail.len() > 0 ==> !is_digit(tail[0]),
    ensures
        ({
            let s = dec(count) + "d"@ + dec(sides) + tail;
            let end = s.len() - tail.len();
            &&& count > 60 || sides == 0 || sides > 1000 ==> parsed(s) == Err::<RollView, _>(
                if count > 0xffff_ffff {
                    "'"@ + dec(count) + "' is not a valid dice count"@
                } else if sides > 0xffff_ffff {
                    "'"@ + dec(sides) + "' is not a valid number of sides"@
                } else if sides == 0 {
                    "a die needs at least 1 side"@
                } else if sides > 1000 {
                    "that's a lot of sides — keep it under 1000"@
                } else {
                    "too many dice — keep the pool under 60"@
                },
            )
            &&& count <= 60 && 1 <= sides <= 1000 ==> match mods_at(
                s,
                end,
                count as u32,
                sides as u32,
            ) {
                Err(c) => parsed(s) == Err::<RollView, _>(c),
                Ok((mods, past)) => parsed(s) == roll_from(
                    s,
                    past,
                    (Progress {
                        terms: seq![
                            TermView { count: count as u32, sides: sides as u32, mods },
                        ],
                        thrown: count,
                        modifier: 0,
                        minus: false,
                        begun: true,
                    }),
                ),
            }
        }),
{
    let s = dec(count) + "d"@ + dec(sides) + tail;
    let d = dec(count).len() as int;
    let p = at_first();
    lemma_front_places(count, sides, tail);
    lemma_dice_advances(s, 0, d, 0);
    assert(parsed(s) == roll_from(s, 0, p));
    assert(parsed(s) == match dice_at(s, 0, d, 0) {
        Err(c) => Err(c),
        Ok((t, past)) => roll_from(
            s,
            past,
            (Progress {
                terms: p.terms.push(t),
                thrown: t.count as nat,
                minus: false,
                begun: true,
                ..p
            }),
        ),
    });
    if let Ok((t, past)) = dice_at(s, 0, d, 0) {
        assert(p.terms.push(t) =~= seq![t]);
    }
}

/// A count and sides make a term of their own, where there are at most 60 dice of 1 to
/// 1000 sides each; any other is refused.
pub proof fn terms_keep_within_limits(count: nat, sides: nat)
    ensures
        count <= 60 && 1 <= sides <= 1000 ==> parsed(dec(count) + "d"@ + dec(sides)) == Ok::<
            _,
            Seq<char>,
        >(
            (RollView {
                terms: seq![
                    TermView { count: count as u32, sides: sides as u32, mods: Seq::empty() },
                ],
                modifier: 0,
                stake: None,
            }),
        ),
        count > 60 || sides == 0 || sides > 1000 ==> parsed(dec(count) + "d"@ + dec(sides)) == Err::<
            RollView,
            _,
        >(
            if count > 0xffff_ffff {
                "'"@ + dec(count) + "' is not a valid dice count"@
            } else if sides > 0xffff_ffff {
                "'"@ + dec(sides) + "' is not a valid number of sides"@
            } else if sides == 0 {
                "a die needs at least 1 side"@
            } else if sides > 1000 {
                "that's a lot of sides — keep it under 1000"@
            } else {
                "too many dice — keep the pool under 60"@
            },
        ),
{
    let none = Seq::<char>::empty();
    let s = dec(count) + "d"@ + dec(sides);
    lemma_term_front(count, sides, none);
    assert(s + none =~= s);
    assert(mod_at(s, s.len() as int, count as u32, sides as u32) is None);
}

/// A term with one modifier that reads to the end.
#[verifier::spinoff_prover]
#[verifier::rlimit(40)]
proof fn lemma_one_mod(count: nat, sides: nat, tail: Seq<char>, read: Result<TermMod, Seq<char>>)
    requires
        tail.len() > 0,
        !is_digit(tail[0]),
        count <= 60,
        1 <= sides <= 1000,
        ({
            let s = dec(count) + "d"@ + dec(sides) + tail;
            match read {
                Ok(m) => mod_at(s, s.len() - tail.len(), count as u32, sides as u32) == Some(
                    Ok::<_, Seq<char>>((m, s.len() as int)),
                ),
                Err(c) => mod_at(s, s.len() - tail.len(), count as u32, sides as u32) == Some(
                    Err::<(TermMod, int), _>(c),
                ),
            }
        }),
    ensures
        match read {
            Ok(m) => parsed(dec(count) + "d"@ + dec(sides) + tail) == Ok::<_, Seq<char>>(
                (RollView {
                    terms: seq![
                        TermView { count: count as u32, sides: sides as u32, mods: seq![m] },
                    ],
                    modifier: 0,
                    stake: None,
                }),
            ),
            Err(c) => parsed(dec(count) + "d"@ + dec(sides) + tail) == Err::<RollView, _>(c),
        },
{
    let s = dec(count) + "d"@ + dec(sides) + tail;
    let i = s.len() - tail.len();
    lemma_term_front(count, sides, tail);
    lemma_mod_advances(s, i, count as u32, sides as u32);
    if let Ok(m) = read {
        let none = Seq::<TermMod>::empty();
        assert(mod_at(s, s.len() as int, count as u32, sides as u32) is None);
        assert(mods_at(s, s.len() as int, count as u32, sides as u32) == Ok::<_, Seq<char>>(
            (none, s.len() as int),
        ));
        assert(seq![m] + none =~= seq![m]);
    }
}

/// A keyword alone, or with a number, after a term.
#[verifier::spinoff_prover]
#[verifier::rlimit(40)]
proof fn lemma_keyword(count: nat, sides: nat, word: Seq<char>, n: nat)
    requires
        count <= 60,
        1 <= sides <= 1000,
        word.len() == 2,
        !is_digit(word[0]),
        !is_digit(word[1]),
        keep_drop_at(word, 0, 1) is Some,
    ensures
        ({
            let term = dec(count) + "d"@ + dec(sides);
            let with = |k: nat|
                Ok::<_, Seq<char>>(
                    (RollView {
                        terms: seq![
                            TermView {
                                count: count as u32,
                                sides: sides as u32,
                                mods: seq![keep_drop_at(word, 0, k as u32)->0],
                            },
                        ],
                        modifier: 0,
                        stake: None,
                    }),
                );
            &&& 1 <= n <= count ==> parsed(term + word + dec(n)) == with(n)
            &&& n > count && n > 0 ==> parsed(term + word + dec(n)) == with(count)
            &&& n == 0 ==> parsed(term + word + dec(n)) == Err::<RollView, _>(
                "keep/drop count must be at least 1"@,
            )
            &&& count >= 1 ==> parsed(term + word) == with(1)
            &&& count == 0 ==> parsed(term + word) == with(0)
        }),
{
    let none = Seq::<char>::empty();
    let term = dec(count) + "d"@ + dec(sides);
    let i = term.len() as int;
    let c = count as u32;
    let sd = sides as u32;
    let tail = word + dec(n);
    let s = term + tail;
    lemma_number_here(term + word, n, none);
    assert(term + word + dec(n) + none =~= s);
    assert(term + word + dec(n) =~= s);
    assert(s[i] == word[0] && s[i + 1] == word[1]);
    assert(tail[0] == word[0]);
    assert(forall|k: u32| #[trigger] keep_drop_at(s, i, k) == keep_drop_at(word, 0, k));
    assert(count_at(s, i + 2) == Some(0u32) <==> n == 0);
    if n == 0 {
        lemma_one_mod(count, sides, tail, Err("keep/drop count must be at least 1"@));
    } else {
        let kept = if n <= count {
            n as u32
        } else {
            c
        };
        assert(kept_at(s, i + 2, c) == kept);
        lemma_one_mod(count, sides, tail, Ok(keep_drop_at(word, 0, kept)->0));
    }
    let s = term + word;
    assert(s[i] == word[0] && s[i + 1] == word[1]);
    assert(forall|k: u32| #[trigger] keep_drop_at(s, i, k) == keep_drop_at(word, 0, k));
    assert(digits_end(s, i + 2) == i + 2);
    let kept: u32 = if count >= 1 {
        1
    } else {
        0
    };
    assert(kept_at(s, i + 2, c) == kept);
    lemma_one_mod(count, sides, word, Ok(keep_drop_at(word, 0, kept)->0));
}

/// What a keyword asks to keep or to drop: as many dice as stand behind it, one where no
/// number does, and never more than there are. None at all cannot be asked for.
#[verifier::spinoff_prover]
#[verifier::rlimit(40)]
pub proof fn keywords_say_what_is_kept(count: nat, sides: nat, n: nat)
    requires
        count <= 60,
        1 <= sides <= 1000,
    ensures
        ({
            let term = dec(count) + "d"@ + dec(sides);
            let least = |k: nat|
                if k <= count {
                    k as u32
                } else {
                    count as u32
                };
            let with = |m: TermMod|
                Ok::<_, Seq<char>>(
                    (RollView {
                        terms: seq![
                            TermView { count: count as u32, sides: sides as u32, mods: seq![m] },
                        ],
                        modifier: 0,
                        stake: None,
                    }),
                );
            let none = Err::<RollView, _>("keep/drop count must be at least 1"@);
            &&& n > 0 ==> parsed(term + "kh"@ + dec(n)) == with(TermMod::KeepHigh(least(n)))
            &&& n > 0 ==> parsed(term + "kl"@ + dec(n)) == with(TermMod::KeepLow(least(n)))
            &&& n > 0 ==> parsed(term + "dh"@ + dec(n)) == with(TermMod::DropHigh(least(n)))
            &&& n > 0 ==> parsed(term + "dl"@ + dec(n)) == with(TermMod::DropLow(least(n)))
            &&& n == 0 ==> parsed(term + "kh"@ + dec(n)) == none
            &&& n == 0 ==> parsed(term + "kl"@ + dec(n)) == none
            &&& n == 0 ==> parsed(term + "dh"@ + dec(n)) == none
            &&& n == 0 ==> parsed(term + "dl"@ + dec(n)) == none
            &&& parsed(term + "kh"@) == with(TermMod::KeepHigh(least(1)))
            &&& parsed(term + "kl"@) == with(TermMod::KeepLow(least(1)))
            &&& parsed(term + "dh"@) == with(TermMod::DropHigh(least(1)))
            &&& parsed(term + "dl"@) == with(TermMod::DropLow(least(1)))
        }),
{
    reveal_strlit("kh");
    reveal_strlit("kl");
    reveal_strlit("dh");
    reveal_strlit("dl");
    lemma_keyword(count, sides, "kh"@, n);
    lemma_keyword(count, sides, "kl"@, n);
    lemma_keyword(count, sides, "dh"@, n);
    lemma_keyword(count, sides, "dl"@, n);
}

/// An explosion needs a face that not every die shows, a comparison needs its number, and
/// so does a multiplier; a number that is too large for either is none.
#[verifier::spinoff_prover]
#[verifier::rlimit(40)]
pub proof fn modifiers_need_their_number(count: nat, sides: nat, n: nat, k: int)
    requires
        count <= 60,
        1 <= sides <= 1000,
        n > 0xffff_ffff,
        k < i32::MIN || k > i32::MAX,
    ensures
        ({
            let term = dec(count) + "d"@ + dec(sides);
            let bad_face = Err::<RollView, _>(
                "expected a number after the explode comparison (e.g. !>8)"@,
            );
            let bad_factor = Err::<RollView, _>("expected a number after '*' (e.g. 4d6*2)"@);
            &&& parsed(dec(count) + "d"@ + dec(1) + "!"@) == Err::<RollView, _>(
                "a d1 always rolls its max — it can't explode"@,
            )
            &&& parsed(term + "!>"@) == bad_face
            &&& parsed(term + "!<"@) == bad_face
            &&& parsed(term + "!="@) == bad_face
            &&& parsed(term + "!>"@ + dec(n)) == bad_face
            &&& parsed(term + "!<"@ + dec(n)) == bad_face
            &&& parsed(term + "!="@ + dec(n)) == bad_face
            &&& parsed(term + "*"@) == bad_factor
            &&& parsed(term + "*"@ + dec_int(k)) == bad_factor
        }),
{
    reveal_strlit("!");
    reveal_strlit("!>");
    reveal_strlit("!<");
    reveal_strlit("!=");
    reveal_strlit("*");
    assert("!"@ =~= seq!['!']);
    assert("!>"@ =~= seq!['!', '>']);
    assert("!<"@ =~= seq!['!', '<']);
    assert("!="@ =~= seq!['!', '=']);
    assert("*"@ =~= seq!['*']);
    lemma_no_burst(count, "!"@);
    lemma_bad_face(count, sides, "!>"@, '>', n);
    lemma_bad_face(count, sides, "!<"@, '<', n);
    lemma_bad_face(count, sides, "!="@, '=', n);
    lemma_bad_factor(count, sides, "*"@, k);
}

proof fn lemma_no_burst(count: nat, tail: Seq<char>)
    requires
        count <= 60,
        tail == seq!['!'],
    ensures
        parsed(dec(count) + "d"@ + dec(1) + tail) == Err::<RollView, _>(
            "a d1 always rolls its max — it can't explode"@,
        ),
{
    let s = dec(count) + "d"@ + dec(1) + tail;
    let i = s.len() - 1;
    assert(s[i] == '!');
    lemma_one_mod(count, 1, tail, Err("a d1 always rolls its max — it can't explode"@));
}

/// A number that a `u32` does not hold, to the end of a text.
proof fn lemma_big_number(pre: Seq<char>, n: nat)
    requires
        n > 0xffff_ffff,
    ensures
        count_at(pre + dec(n), pre.len() as int) is None,
{
    let none = Seq::<char>::empty();
    lemma_number_here(pre, n, none);
    assert(pre + dec(n) + none =~= pre + dec(n));
}

/// A comparison without a number that a `u32` holds.
#[verifier::spinoff_prover]
#[verifier::rlimit(40)]
proof fn lemma_face_missing(count: nat, sides: nat, tail: Seq<char>)
    requires
        count <= 60,
        1 <= sides <= 1000,
        tail.len() >= 2,
        tail[0] == '!',
        tail[1] == '>' || tail[1] == '<' || tail[1] == '=',
        count_at(
            dec(count) + "d"@ + dec(sides) + tail,
            ((dec(count) + "d"@ + dec(sides)).len() + 2) as int,
        ) is None,
    ensures
        parsed(dec(count) + "d"@ + dec(sides) + tail) == Err::<RollView, _>(
            "expected a number after the explode comparison (e.g. !>8)"@,
        ),
{
    let term = dec(count) + "d"@ + dec(sides);
    let s = term + tail;
    let i = term.len() as int;
    let said = "expected a number after the explode comparison (e.g. !>8)"@;
    assert(s[i] == tail[0] && s[i + 1] == tail[1]);
    assert(compare_at(s, i + 1) == Err::<(Option<Compare>, int), _>(said));
    assert(mod_at(s, i, count as u32, sides as u32) == Some(Err::<(TermMod, int), _>(said)));
    lemma_one_mod(count, sides, tail, Err(said));
}

proof fn lemma_bad_face(count: nat, sides: nat, mark: Seq<char>, sign: char, n: nat)
    requires
        count <= 60,
        1 <= sides <= 1000,
        n > 0xffff_ffff,
        sign == '>' || sign == '<' || sign == '=',
        mark == seq!['!', sign],
    ensures
        ({
            let term = dec(count) + "d"@ + dec(sides);
            let bad = Err::<RollView, _>(
                "expected a number after the explode comparison (e.g. !>8)"@,
            );
            &&& parsed(term + mark) == bad
            &&& parsed(term + mark + dec(n)) == bad
        }),
{
    let term = dec(count) + "d"@ + dec(sides);
    let end = (term + mark).len() as int;
    assert(digits_end(term + mark, end) == end);
    lemma_face_missing(count, sides, mark);
    let tail = mark + dec(n);
    assert(term + mark + dec(n) == term + tail) by {
        assert(term + mark + dec(n) =~= term + tail);
    }
    lemma_big_number(term + mark, n);
    assert(tail[0] == '!' && tail[1] == sign);
    lemma_face_missing(count, sides, tail);
}

#[verifier::spinoff_prover]
#[verifier::rlimit(40)]
proof fn lemma_bad_factor(count: nat, sides: nat, star: Seq<char>, k: int)
    requires
        count <= 60,
        1 <= sides <= 1000,
        k < i32::MIN || k > i32::MAX,
        star == seq!['*'],
    ensures
        ({
            let term = dec(count) + "d"@ + dec(sides);
            let bad = Err::<RollView, _>("expected a number after '*' (e.g. 4d6*2)"@);
            &&& parsed(term + star) == bad
            &&& parsed(term + star + dec_int(k)) == bad
        }),
{
    let term = dec(count) + "d"@ + dec(sides);
    let i = term.len() as int;
    let said = "expected a number after '*' (e.g. 4d6*2)"@;
    let s = term + star;
    assert(s[i] == '*');
    assert(digits_end(s, i + 1) == i + 1);
    lemma_one_mod(count, sides, star, Err(said));
    let tail = star + dec_int(k);
    let s = term + tail;
    assert(term + star + dec_int(k) == s) by {
        assert(term + star + dec_int(k) =~= s);
    }
    lemma_signed_here(term + star, k);
    assert(s[i] == '*');
    assert(tail[0] == '*');
    lemma_one_mod(count, sides, tail, Err(said));
}

/// A number with its sign, to the end of a text.
proof fn lemma_signed_here(pre: Seq<char>, k: int)
    ensures
        ({
            let s = pre + dec_int(k);
            let i = pre.len() as int;
            let from = past_sign(s, i);
            &&& signed_at(s, i) == k
            &&& digits_end(s, from) == s.len()
            &&& from < s.len()
        }),
{
    reveal_strlit("-");
    let none = Seq::<char>::empty();
    let s = pre + dec_int(k);
    let i = pre.len() as int;
    if k < 0 {
        let before = pre + seq!['-'];
        lemma_number_here(before, (-k) as nat, none);
        assert(dec_int(k) =~= seq!['-'] + dec((-k) as nat));
        assert(before + dec((-k) as nat) + none =~= s);
        assert(s[i] == '-');
    } else {
        lemma_number_here(pre, k as nat, none);
        assert(pre + dec(k as nat) + none =~= s);
        assert(is_digit(s[i]));
    }
}

/// A plus before a factor does not matter.
#[verifier::spinoff_prover]
#[verifier::rlimit(40)]
pub proof fn factors_may_have_a_plus(count: nat, sides: nat, n: nat)
    requires
        count <= 60,
        1 <= sides <= 1000,
        n <= i32::MAX,
    ensures
        parsed(dec(count) + "d"@ + dec(sides) + "*+"@ + dec(n)) == parsed(
            dec(count) + "d"@ + dec(sides) + "*"@ + dec(n),
        ),
        parsed(dec(count) + "d"@ + dec(sides) + "*"@ + dec(n)) == Ok::<_, Seq<char>>(
            (RollView {
                terms: seq![
                    TermView {
                        count: count as u32,
                        sides: sides as u32,
                        mods: seq![TermMod::Mul(n as i32)],
                    },
                ],
                modifier: 0,
                stake: None,
            }),
        ),
{
    reveal_strlit("*+");
    reveal_strlit("*");
    let none = Seq::<char>::empty();
    let term = dec(count) + "d"@ + dec(sides);
    let i = term.len() as int;
    let tail = "*"@ + dec(n);
    let s = term + tail;
    lemma_number_here(term + "*"@, n, none);
    assert(term + "*"@ + dec(n) + none =~= s);
    assert(term + "*"@ + dec(n) =~= s);
    assert(s[i] == '*' && tail[0] == '*');
    assert(is_digit(s[i + 1]));
    assert(signed_at(s, i + 1) == n);
    lemma_one_mod(count, sides, tail, Ok(TermMod::Mul(n as i32)));
    let tail = "*+"@ + dec(n);
    let s = term + tail;
    lemma_number_here(term + "*+"@, n, none);
    assert(term + "*+"@ + dec(n) + none =~= s);
    assert(term + "*+"@ + dec(n) =~= s);
    assert(s[i] == '*' && s[i + 1] == '+' && tail[0] == '*');
    assert(past_sign(s, i + 1) == i + 2);
    assert(signed_at(s, i + 1) == n);
    lemma_one_mod(count, sides, tail, Ok(TermMod::Mul(n as i32)));
}

/// `d%` is a die of a hundred sides, and a die without a count is one die.
#[verifier::spinoff_prover]
#[verifier::rlimit(40)]
pub proof fn short_forms_stand_for_long_ones(count: nat, sides: nat)
    ensures
        parsed(dec(count) + "d%"@) == parsed(dec(count) + "d100"@),
        parsed("d%"@) == parsed("1d100"@),
        parsed("d"@ + dec(sides)) == parsed("1d"@ + dec(sides)),
{
    reveal_strlit("d");
    reveal_strlit("d%");
    reveal_strlit("d100");
    reveal_strlit("1d100");
    reveal_strlit("1d");
    reveal_strlit("100");
    let none = Seq::<char>::empty();
    let hundred = dec(100);
    assert(hundred =~= "100"@) by {
        reveal_with_fuel(dec, 4);
    }
    assert(dec(1) =~= seq!['1']) by {
        reveal_with_fuel(dec, 2);
    }
    assert(dec(count) + "d"@ + hundred + none =~= dec(count) + "d100"@);
    lemma_term_front(count, 100, none);
    lemma_percent(dec(count), count);
    assert(dec(1) + "d"@ + hundred + none =~= "1d100"@);
    assert(none + "d%"@ =~= "d%"@);
    assert(dec(1) + "d%"@ =~= seq!['1'] + "d%"@);
    lemma_percent(none, 1);
    terms_keep_within_limits(count, 100);
    assert(dec(count) + "d"@ + hundred =~= dec(count) + "d100"@);
    terms_keep_within_limits(1, 100);
    assert(dec(1) + "d"@ + hundred =~= "1d100"@);
    lemma_no_count(sides);
}

#[verifier::spinoff_prover]
#[verifier::rlimit(40)]
proof fn lemma_percent(head: Seq<char>, count: nat)
    requires
        head == dec(count) || head.len() == 0 && count == 1,
    ensures
        count <= 60 ==> parsed(head + "d%"@) == Ok::<_, Seq<char>>(
            (RollView {
                terms: seq![TermView { count: count as u32, sides: 100, mods: Seq::empty() }],
                modifier: 0,
                stake: None,
            }),
        ),
        count > 60 ==> parsed(head + "d%"@) == parsed(dec(count) + "d"@ + dec(100)),
{
    reveal_strlit("d%");
    reveal_strlit("100");
    reveal_strlit("d");
    let none = Seq::<char>::empty();
    let s = head + "d%"@;
    let d = head.len() as int;
    assert(s[d] == 'd' && s[d + 1] == '%');
    assert(number("100"@) == 100) by {
        assert("100"@ =~= dec(100)) by {
            reveal_with_fuel(dec, 4);
        }
        lemma_dec_reads_back(100);
    }
    if head.len() == 0 {
        lemma_dec_reads_back(count);
        assert(digits_end(s, 0) == 0);
    } else {
        lemma_number_here(none, count, "d%"@);
        assert(none + dec(count) + "d%"@ =~= s);
        assert(s.subrange(0, d) =~= dec(count));
    }
    assert(digits_end(s, 0) == d);
    assert(stake_word(s, 0) == 0);
    assert(sides_at(s, d + 1) == ("100"@, d + 2));
    let end = s.len() as int;
    assert(mod_at(s, end, count as u32, 100) is None);
    if count <= 60 {
        let t = TermView { count: count as u32, sides: 100, mods: Seq::empty() };
        assert(dice_at(s, 0, d, 0) == Ok::<_, Seq<char>>((t, end)));
        assert(at_first().terms.push(t) =~= seq![t]);
        let q = Progress {
            terms: seq![t],
            thrown: count,
            modifier: 0,
            minus: false,
            begun: true,
        };
        assert(roll_from(s, end, q) == finished(q, None));
    } else {
        let other = dec(count) + "d"@ + dec(100);
        lemma_number_here(none, count, "d"@ + dec(100));
        assert(none + dec(count) + ("d"@ + dec(100)) =~= other);
        lemma_number_here(dec(count) + "d"@, 100, none);
        assert(dec(count) + "d"@ + dec(100) + none =~= other);
        let at = dec(count).len() as int;
        assert(other[at] == 'd');
        assert(is_digit(other[at + 1]));
        assert(other.subrange(0, at) =~= dec(count));
        assert(sides_at(other, at + 1).0 == dec(100));
        lemma_dec_reads_back(100);
        assert(stake_word(other, 0) == 0);
    }
}

#[verifier::spinoff_prover]
#[verifier::rlimit(40)]
proof fn lemma_no_count(sides: nat)
    ensures
        parsed("d"@ + dec(sides)) == parsed("1d"@ + dec(sides)),
{
    reveal_strlit("d");
    reveal_strlit("1d");
    let none = Seq::<char>::empty();
    let a = "d"@ + dec(sides);
    let b = "1d"@ + dec(sides);
    let one = seq!['1'];
    lemma_number_here("d"@, sides, none);
    assert("d"@ + dec(sides) + none =~= a);
    assert(digits_end(a, 0) == 0);
    assert(b =~= one + a);
    lemma_dice_later(one, a, 0, 0, 0);
    lemma_number_here("1d"@, sides, none);
    assert("1d"@ + dec(sides) + none =~= b);
    assert(b[0] == '1' && b[1] == 'd');
    assert(digits_end(b, 0) == 1) by {
        reveal_with_fuel(digits_end, 3);
    }
    assert(b.subrange(0, 1) =~= one);
    assert(number(one) == 1) by {
        assert(one =~= dec(1)) by {
            reveal_with_fuel(dec, 2);
        }
        lemma_dec_reads_back(1);
    }
    assert(stake_word(a, 0) == 0);
    assert(stake_word(b, 0) == 0);
    lemma_dice_advances(a, 0, 0, 0);
    if let Ok((t, end)) = dice_at(a, 0, 0, 0) {
        let q = Progress {
            terms: at_first().terms.push(t),
            thrown: t.count as nat,
            modifier: 0,
            minus: false,
            begun: true,
        };
        lemma_roll_later(one, a, end, q);
    }
}

/// A stake needs no blank before it, unless the expression ends with a bare explosion, to
/// which a comparison would belong.
#[verifier::spinoff_prover]
#[verifier::rlimit(40)]
pub proof fn stakes_need_no_blank(e: Seq<char>, blanks: Seq<char>, n: int)
    requires
        parsed(e) is Ok,
        parsed(e)->Ok_0.stake is None,
        forall|k: int| 0 <= k < blanks.len() ==> is_space(#[trigger] blanks[k]),
        i32::MIN <= n <= i32::MAX,
    ensures
        parsed(e + "vs"@ + blanks + dec_int(n)) == parsed(e + " vs"@ + blanks + dec_int(n)),
        e.last() != '!' ==> parsed(e + ">"@ + blanks + dec_int(n)) == parsed(
            e + " >"@ + blanks + dec_int(n),
        ),
        e.last() != '!' ==> parsed(e + "<"@ + blanks + dec_int(n)) == parsed(
            e + " <"@ + blanks + dec_int(n),
        ),
{
    reveal_strlit("vs");
    reveal_strlit(">");
    reveal_strlit("<");
    assert("vs"@ =~= seq!['v', 's']);
    assert(">"@ =~= seq!['>']);
    assert("<"@ =~= seq!['<']);
    stakes_set_the_target(e, blanks, n);
    lemma_stake_tight(e, "vs"@, Goal::Over, blanks, n);
    if e.last() != '!' {
        lemma_stake_tight(e, ">"@, Goal::Over, blanks, n);
        lemma_stake_tight(e, "<"@, Goal::Under, blanks, n);
    }
}

#[verifier::spinoff_prover]
#[verifier::rlimit(40)]
proof fn lemma_stake_tight(e: Seq<char>, word: Seq<char>, goal: Goal, blanks: Seq<char>, n: int)
    requires
        parsed(e) is Ok,
        parsed(e)->Ok_0.stake is None,
        word == seq!['v', 's'] && goal is Over || word == seq!['>'] && goal is Over && e.last() != '!'
            || word == seq!['<'] && goal is Under && e.last() != '!',
        forall|k: int| 0 <= k < blanks.len() ==> is_space(#[trigger] blanks[k]),
        i32::MIN <= n <= i32::MAX,
    ensures
        parsed(e + word + blanks + dec_int(n)) == Ok::<_, Seq<char>>(
            (RollView { stake: Some(Stake { target: n as i32, goal }), ..parsed(e)->Ok_0 }),
        ),
{
    let none = Seq::<char>::empty();
    let post = word + (blanks + dec_int(n));
    let s = e + post;
    let i = e.len() as int;
    assert(post[0] == word[0]);
    assert(dice_thrown(at_first().terms) == 0);
    parsed_rolls_are_capped(e);
    let q = lemma_reads_on(e, post, 0, at_first());
    assert forall|k: int| 0 <= k < word.len() implies #[trigger] word[k] == s[i + k] by {
        assert(post[k] == word[k]);
    }
    lemma_stake_at(s, i, word, goal, q);
    lemma_target_here(e + word, blanks, n, none);
    assert(s == e + word + blanks + dec_int(n) && s == e + word + blanks + dec_int(n) + none) by {
        assert(s =~= e + word + blanks + dec_int(n));
        assert(s =~= e + word + blanks + dec_int(n) + none);
    }
    assert(skip_space(s, s.len() as int) == s.len());
    assert((e + word).len() == i + word.len());
}

/// A stake needs its target.
#[verifier::spinoff_prover]
#[verifier::rlimit(40)]
pub proof fn stakes_need_a_target(e: Seq<char>, blanks: Seq<char>)
    requires
        parsed(e) is Ok,
        parsed(e)->Ok_0.stake is None,
        forall|k: int| 0 <= k < blanks.len() ==> is_space(#[trigger] blanks[k]),
    ensures
        parsed(e + " vs"@ + blanks) == Err::<RollView, _>(
            "expected a target number (e.g. d20 vs 15)"@,
        ),
        parsed(e + " >"@ + blanks) == Err::<RollView, _>(
            "expected a target number (e.g. d20 vs 15)"@,
        ),
        parsed(e + " <"@ + blanks) == Err::<RollView, _>(
            "expected a target number (e.g. d20 vs 15)"@,
        ),
{
    reveal_strlit(" vs");
    reveal_strlit(" >");
    reveal_strlit(" <");
    assert(" vs"@ =~= seq![' '] + seq!['v', 's']);
    assert(" >"@ =~= seq![' '] + seq!['>']);
    assert(" <"@ =~= seq![' '] + seq!['<']);
    lemma_no_target(e, " vs"@, seq!['v', 's'], Goal::Over, blanks);
    lemma_no_target(e, " >"@, seq!['>'], Goal::Over, blanks);
    lemma_no_target(e, " <"@, seq!['<'], Goal::Under, blanks);
}

#[verifier::spinoff_prover]
#[verifier::rlimit(40)]
proof fn lemma_no_target(
    e: Seq<char>,
    mark: Seq<char>,
    word: Seq<char>,
    goal: Goal,
    blanks: Seq<char>,
)
    requires
        parsed(e) is Ok,
        parsed(e)->Ok_0.stake is None,
        mark == seq![' '] + word,
        word == seq!['v', 's'] && goal is Over || word == seq!['>'] && goal is Over || word == seq![
            '<',
        ] && goal is Under,
        forall|k: int| 0 <= k < blanks.len() ==> is_space(#[trigger] blanks[k]),
    ensures
        parsed(e + mark + blanks) == Err::<RollView, _>(
            "expected a target number (e.g. d20 vs 15)"@,
        ),
{
    let tail = word + blanks;
    let s = e + (seq![' '] + tail);
    let i = (e.len() + 1) as int;
    let end = i + word.len();
    let q = lemma_blank_then(e, tail);
    assert(s == e + mark + blanks) by {
        assert(s =~= e + mark + blanks);
    }
    assert forall|k: int| 0 <= k < word.len() implies #[trigger] word[k] == s[i + k] by {}
    lemma_stake_at(s, i, word, goal, q);
    assert forall|k: int| end <= k < s.len() implies is_space(#[trigger] s[k]) by {
        assert(s[k] == blanks[k - end]);
    }
    lemma_skips(s, end, s.len() as int);
    assert(digits_end(s, s.len() as int) == s.len());
}

/// An expression needs dice: one of nothing but blanks, commas and signs is asked for some,
/// and so is one of nothing but a number; a `d` needs its sides.
#[verifier::spinoff_prover]
#[verifier::rlimit(40)]
pub proof fn expressions_need_dice(sep: Seq<char>, n: nat)
    requires
        forall|k: int| 0 <= k < sep.len() ==> parting(#[trigger] sep[k]),
    ensures
        parsed(sep) == Err::<RollView, _>("type some dice, e.g. 3d6 or d20+d4"@),
        n <= i32::MAX ==> parsed(dec(n)) == Err::<RollView, _>(
            "no dice — a roll needs at least one 'd' term"@,
        ),
        parsed(dec(n) + "d"@) == Err::<RollView, _>(
            "expected a number of sides after 'd' (e.g. d6)"@,
        ),
        parsed("d"@) == Err::<RollView, _>("expected a number of sides after 'd' (e.g. d6)"@),
{
    reveal_strlit("d");
    let p = at_first();
    let none = Seq::<char>::empty();
    let end = sep.len() as int;
    assert forall|k: int| 0 <= k < end implies is_space(#[trigger] sep[k]) || sep[k] == ',' || sep[k]
        == '+' || sep[k] == '-' by {
        assert(parting(sep[k]));
    }
    let minus = lemma_pass_separators(sep, 0, end, p);
    assert(roll_from(sep, end, (Progress { minus, ..p })) == finished(
        (Progress { minus, ..p }),
        None,
    ));
    let s = dec(n);
    lemma_number_here(none, n, none);
    assert(none + dec(n) + none =~= s);
    assert(s.subrange(0, s.len() as int) =~= dec(n));
    assert(stake_word(s, 0) == 0);
    let q = Progress { modifier: n as int, minus: false, begun: true, ..p };
    assert(roll_from(s, s.len() as int, q) == finished(q, None));
    let s = dec(n) + "d"@;
    let d = dec(n).len() as int;
    lemma_number_here(none, n, "d"@);
    assert(none + dec(n) + "d"@ =~= s);
    assert(s[d] == 'd');
    assert(stake_word(s, 0) == 0);
    assert(digits_end(s, d + 1) == d + 1);
    assert(s.subrange(d + 1, d + 1).len() == 0);
    let s = "d"@;
    assert(s[0] == 'd');
    assert(digits_end(s, 0) == 0);
    assert(digits_end(s, 1) == 1);
    assert(stake_word(s, 0) == 0);
    assert(s.subrange(1, 1).len() == 0);
}

/// How an expression reads after another: where it does, as it does alone, with the dice of
/// the other before its own and both modifiers added.
#[verifier::spinoff_prover]
#[verifier::rlimit(40)]
proof fn lemma_after(f: Seq<char>, i: int, p: Progress, before: Progress)
    requires
        0 <= i <= f.len(),
        before.begun,
        roll_from(f, i, p) is Ok,
        i32::MIN <= p.modifier <= i32::MAX,
        i32::MIN <= before.modifier + p.modifier <= i32::MAX,
    ensures
        ({
            let q = Progress {
                terms: before.terms + p.terms,
                thrown: before.thrown + p.thrown,
                modifier: before.modifier + p.modifier,
                begun: true,
                ..p
            };
            let alone = roll_from(f, i, p)->Ok_0;
            roll_from(f, i, q) matches Ok(r) ==> {
                &&& r.terms == before.terms + alone.terms
                &&& r.modifier == before.modifier + alone.modifier
                &&& r.stake == alone.stake
            }
        }),
    decreases f.len() - i,
{
    let q = Progress {
        terms: before.terms + p.terms,
        thrown: before.thrown + p.thrown,
        modifier: before.modifier + p.modifier,
        begun: true,
        ..p
    };
    let d = digits_end(f, i);
    lemma_digits_end(f, i);
    if i >= f.len() {
    } else if is_space(f[i]) || f[i] == ',' {
        lemma_after(f, i + 1, p, before);
    } else if f[i] == '+' {
        lemma_after(f, i + 1, (Progress { minus: false, ..p }), before);
    } else if f[i] == '-' {
        lemma_after(f, i + 1, (Progress { minus: true, ..p }), before);
    } else if stake_word(f, i) > 0 {
    } else if d < f.len() && (f[d] == 'd' || f[d] == 'D') {
        lemma_dice_advances(f, i, d, p.thrown);
        let (t, end) = dice_at(f, i, d, p.thrown)->Ok_0;
        let p1 = Progress {
            terms: p.terms.push(t),
            thrown: p.thrown + t.count as nat,
            minus: false,
            begun: true,
            ..p
        };
        assert(before.terms + p1.terms =~= (before.terms + p.terms).push(t));
        lemma_after(f, end, p1, before);
        if dice_at(f, i, d, q.thrown) is Ok {
            assert(dice_at(f, i, d, q.thrown) == dice_at(f, i, d, p.thrown));
        }
    } else if d > i {
        let sum = flat_sum(p, f.subrange(i, d));
        let all = flat_sum(q, f.subrange(i, d));
        assert(all == before.modifier + sum);
        if i32::MIN <= all <= i32::MAX {
            lemma_after(
                f,
                d,
                (Progress { modifier: sum, minus: false, begun: true, ..p }),
                before,
            );
        }
    }
}

/// Two expressions that a plus joins ask, where they are granted, for the dice of the one
/// and then those of the other, with both modifiers added and the stake of the second;
/// whatever the modifiers are.
#[verifier::spinoff_prover]
#[verifier::rlimit(40)]
pub proof fn modifiers_of_two_add_up(e: Seq<char>, f: Seq<char>)
    requires
        parsed(e) is Ok,
        parsed(e)->Ok_0.stake is None,
        parsed(f) is Ok,
        parsed(e + "+"@ + f) is Ok,
    ensures
        parsed(e + "+"@ + f)->Ok_0.terms == parsed(e)->Ok_0.terms + parsed(f)->Ok_0.terms,
        parsed(e + "+"@ + f)->Ok_0.modifier == parsed(e)->Ok_0.modifier + parsed(f)->Ok_0.modifier,
        parsed(e + "+"@ + f)->Ok_0.stake == parsed(f)->Ok_0.stake,
{
    reveal_strlit("+");
    let p = at_first();
    let post = "+"@ + f;
    assert(dice_thrown(p.terms) == 0);
    let q = lemma_reads_on(e, post, 0, p);
    let s = e + post;
    assert(s == e + "+"@ + f) by {
        assert(s =~= e + "+"@ + f);
    }
    assert(s[e.len() as int] == '+');
    let q1 = Progress { minus: false, ..q };
    assert(roll_from(s, e.len() as int, q) == roll_from(s, (e.len() + 1) as int, q1));
    lemma_roll_later(e + "+"@, f, 0, q1);
    lemma_after(f, 0, p, q);
    assert(q.terms + p.terms =~= q.terms);
    assert(q1 == (Progress {
        terms: q.terms + p.terms,
        thrown: q.thrown + p.thrown,
        modifier: q.modifier + p.modifier,
        begun: true,
        ..p
    }));
}

/// Whether a text is a number, with or without zeros in front.
pub open spec fn all_digits(w: Seq<char>) -> bool {
    &&& w.len() > 0
    &&& forall|k: int| 0 <= k < w.len() ==> is_digit(#[trigger] w[k])
}

proof fn lemma_digits_here(pre: Seq<char>, w: Seq<char>, post: Seq<char>)
    requires
        all_digits(w),
        post.len() > 0 ==> !is_digit(post[0]),
    ensures
        ({
            let s = pre + w + post;
            let i = pre.len() as int;
            let end = i + w.len();
            &&& digits_end(s, i) == end
            &&& s.subrange(i, end) == w
            &&& is_digit(s[i])
            &&& end < s.len() ==> s[end] == post[0]
        }),
{
    let s = pre + w + post;
    let i = pre.len() as int;
    let end = i + w.len();
    assert(s.subrange(i, end) =~= w);
    assert forall|k: int| i <= k < end implies is_digit(#[trigger] s[k]) by {
        assert(s[k] == w[k - i]);
    }
    if end < s.len() {
        assert(s[end] == post[0]);
    }
    lemma_digits_end_is(s, i, end);
    assert(is_digit(s[i]));
}

/// Numbers count by what they stand for: with zeros in front, a count, sides and a flat
/// modifier are the same.
#[verifier::spinoff_prover]
#[verifier::rlimit(40)]
pub proof fn zeros_in_front_do_not_matter(e: Seq<char>, a: Seq<char>, b: Seq<char>)
    requires
        parsed(e) is Ok,
        parsed(e)->Ok_0.stake is None,
        all_digits(a),
        all_digits(b),
    ensures
        number(a) <= 60 && 1 <= number(b) <= 1000 ==> parsed(a + "d"@ + b) == parsed(
            dec(number(a)) + "d"@ + dec(number(b)),
        ),
        number(a) > 60 || number(b) == 0 || number(b) > 1000 ==> parsed(a + "d"@ + b) is Err,
        parsed(e + "-"@ + dec(number(a))) is Ok ==> parsed(e + "-"@ + a) == parsed(
            e + "-"@ + dec(number(a)),
        ),
        parsed(e + "+"@ + dec(number(a))) is Ok ==> parsed(e + "+"@ + a) == parsed(
            e + "+"@ + dec(number(a)),
        ),
{
    reveal_strlit("-");
    reveal_strlit("+");
    assert("-"@ =~= seq!['-']);
    assert("+"@ =~= seq!['+']);
    terms_keep_within_limits(number(a), number(b));
    lemma_digits_term(a, b);
    lemma_dec_reads_back(number(a));
    lemma_digits_flat(e, "-"@, a);
    lemma_digits_flat(e, "+"@, a);
    flat_modifiers_add_up(e, number(a));
}

#[verifier::spinoff_prover]
#[verifier::rlimit(40)]
proof fn lemma_digits_term(a: Seq<char>, b: Seq<char>)
    requires
        all_digits(a),
        all_digits(b),
    ensures
        number(a) <= 60 && 1 <= number(b) <= 1000 ==> parsed(a + "d"@ + b) == Ok::<_, Seq<char>>(
            (RollView {
                terms: seq![
                    TermView {
                        count: number(a) as u32,
                        sides: number(b) as u32,
                        mods: Seq::empty(),
                    },
                ],
                modifier: 0,
                stake: None,
            }),
        ),
        number(a) > 60 || number(b) == 0 || number(b) > 1000 ==> parsed(a + "d"@ + b) is Err,
{
    reveal_strlit("d");
    let none = Seq::<char>::empty();
    let p = at_first();
    let s = a + "d"@ + b;
    let d = a.len() as int;
    let end = s.len() as int;
    lemma_digits_here(none, a, "d"@ + b);
    assert(none + a + ("d"@ + b) =~= s);
    lemma_digits_here(a + "d"@, b, none);
    assert(a + "d"@ + b + none =~= s);
    assert(s[d] == 'd');
    assert(is_digit(s[d + 1]));
    assert(stake_word(s, 0) == 0);
    assert(sides_at(s, d + 1) == (b, end));
    if number(a) <= 60 && 1 <= number(b) <= 1000 {
        let t = TermView { count: number(a) as u32, sides: number(b) as u32, mods: Seq::empty() };
        assert(mod_at(s, end, t.count, t.sides) is None);
        assert(dice_at(s, 0, d, 0) == Ok::<_, Seq<char>>((t, end)));
        let q = Progress {
            terms: p.terms.push(t),
            thrown: t.count as nat,
            minus: false,
            begun: true,
            ..p
        };
        assert(q.terms =~= seq![t]);
        assert(roll_from(s, end, q) == finished(q, None));
        assert(roll_from(s, 0, p) == roll_from(s, end, q));
    }
}

#[verifier::spinoff_prover]
#[verifier::rlimit(40)]
proof fn lemma_digits_flat(e: Seq<char>, sign: Seq<char>, w: Seq<char>)
    requires
        parsed(e) is Ok,
        parsed(e)->Ok_0.stake is None,
        all_digits(w),
        sign == seq!['-'] || sign == seq!['+'],
    ensures
        ({
            let r = parsed(e)->Ok_0;
            let sum = if sign == seq!['-'] {
                r.modifier - number(w)
            } else {
                r.modifier + number(w)
            };
            number(w) <= i32::MAX && i32::MIN <= sum <= i32::MAX ==> parsed(e + sign + w) == Ok::<
                _,
                Seq<char>,
            >((RollView { terms: r.terms, modifier: sum as i32, stake: None }))
        }),
{
    let none = Seq::<char>::empty();
    let post = sign + w;
    let s = e + post;
    let i = e.len() as int;
    assert(post[0] == sign[0]);
    assert(dice_thrown(at_first().terms) == 0);
    parsed_rolls_are_capped(e);
    let q = lemma_reads_on(e, post, 0, at_first());
    assert(s == e + sign + w) by {
        assert(s =~= e + sign + w);
    }
    let p = Progress { minus: sign == seq!['-'], ..q };
    assert(s[i] == sign[0]);
    assert(roll_from(s, i, q) == roll_from(s, i + 1, p));
    lemma_digits_here(e + sign, w, none);
    assert(e + sign + w + none =~= s);
    assert(stake_word(s, i + 1) == 0);
    let sum = flat_sum(p, w);
    let last = Progress { modifier: sum, minus: false, begun: true, ..p };
    assert(roll_from(s, s.len() as int, last) == finished(last, None));
}

/// A plus before a target does not matter.
#[verifier::spinoff_prover]
#[verifier::rlimit(40)]
pub proof fn targets_may_have_a_plus(e: Seq<char>, n: nat)
    requires
        parsed(e) is Ok,
        parsed(e)->Ok_0.stake is None,
        n <= i32::MAX,
    ensures
        parsed(e + " vs +"@ + dec(n)) == parsed(e + " vs "@ + dec(n)),
{
    reveal_strlit(" vs +");
    reveal_strlit(" vs ");
    let none = Seq::<char>::empty();
    let word = seq!['v', 's'];
    let num = seq![' ', '+'] + dec(n);
    let s = e + (seq![' '] + (word + num));
    let i = (e.len() + 1) as int;
    let q = lemma_blank_then(e, word + num);
    assert(s == e + " vs +"@ + dec(n)) by {
        assert(s =~= e + " vs +"@ + dec(n));
    }
    assert forall|k: int| 0 <= k < word.len() implies #[trigger] word[k] == s[i + k] by {}
    lemma_stake_at(s, i, word, Goal::Over, q);
    let before = e + seq![' '] + word;
    lemma_plus_target(before, n);
    assert(s == before + num) by {
        assert(s =~= before + num);
    }
    assert(before.len() == i + word.len());
    lemma_stake_followed(e, n as int, none, 0);
    assert(e + " vs "@ + dec_int(n as int) + none == e + " vs "@ + dec(n)) by {
        assert(e + " vs "@ + dec_int(n as int) + none =~= e + " vs "@ + dec(n));
    }
}

proof fn lemma_plus_target(pre: Seq<char>, n: nat)
    requires
        n <= i32::MAX,
    ensures
        target_at(pre + (seq![' ', '+'] + dec(n)), pre.len() as int) == Ok::<i32, Seq<char>>(
            n as i32,
        ),
{
    let none = Seq::<char>::empty();
    let s = pre + (seq![' ', '+'] + dec(n));
    let at = (pre.len() + 1) as int;
    let before = pre + seq![' ', '+'];
    lemma_number_here(before, n, none);
    assert(before + dec(n) + none =~= s);
    assert(s[at - 1] == ' ' && s[at] == '+');
    lemma_skips(s, at - 1, at);
    assert(past_sign(s, at) == at + 1);
    assert(signed_at(s, at) == n);
    assert(skip_space(s, s.len() as int) == s.len());
}

} // verus!
