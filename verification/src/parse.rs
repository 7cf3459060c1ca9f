//! Dice notation: what an expression means, and the parser that reads it.
//!
//! ```text
//! expr    := ( sep | sign | dice | integer )* [ stake ]
//! sep     := ',' | white space
//! sign    := '+' | '-'
//! dice    := [count] ('d'|'D') ( sides | '%' ) mod*
//! mod     := ('kh'|'kl'|'dh'|'dl') [n]
//!          | '!' [ ('>'|'<'|'=') n ]
//!          | '*' ['+'|'-'] n
//! stake   := ( 'vs' | '>' | '<' ) ['+'|'-'] n
//! ```
//!
//! A sign belongs to the flat modifier that follows it; dice are always added.
//! The stake comes last.

use crate::text::{
    chars_of, dec_int, digits_end, is_letter, is_space, lemma_digits_end, lower, number,
    push_int, read_u32, skip_digits, skip_space, skip_spaces, space, text_of,
};
use vstd::prelude::*;

verus! {

/// The most dice that the terms of one roll may throw.
pub const MAX_DICE: u32 = 60;

/// The most sides that a die may have.
pub const MAX_SIDES: u32 = 1000;

/// The face on which a die explodes.
#[derive(Debug, Clone, Copy, PartialEq, Eq, Structural)]
pub enum Compare {
    Eq(u32),
    Lt(u32),
    Gt(u32),
}

impl Compare {
    /// Whether the face `v` meets the comparison.
    pub open spec fn met(self, v: u32) -> bool {
        match self {
            Compare::Eq(n) => v == n,
            Compare::Lt(n) => v < n,
            Compare::Gt(n) => v > n,
        }
    }

    pub fn matches(self, v: u32) -> (r: bool)
        ensures
            r == self.met(v),
    {
        match self {
            Compare::Eq(n) => v == n,
            Compare::Lt(n) => v < n,
            Compare::Gt(n) => v > n,
        }
    }
}

/// One modifier of a dice term.
#[derive(Debug, Clone, Copy, PartialEq, Eq, Structural)]
pub enum TermMod {
    KeepHigh(u32),
    KeepLow(u32),
    DropHigh(u32),
    DropLow(u32),
    /// `None` stands for the die's highest face.
    Explode(Option<Compare>),
    /// Multiplies the sum of the term's kept dice.
    Mul(i32),
}

/// One dice term: a pool of like dice and its modifiers.
#[derive(Debug, Clone, PartialEq, Eq)]
pub struct DiceTerm {
    pub count: u32,
    pub sides: u32,
    pub mods: Vec<TermMod>,
}

pub struct TermView {
    pub count: u32,
    pub sides: u32,
    pub mods: Seq<TermMod>,
}

impl View for DiceTerm {
    type V = TermView;

    open spec fn view(&self) -> TermView {
        TermView { count: self.count, sides: self.sides, mods: self.mods@ }
    }
}

/// Which way a stake runs. Both ways are inclusive.
#[derive(Debug, Clone, Copy, PartialEq, Eq, Structural)]
pub enum Goal {
    /// Meet or beat the target.
    Over,
    /// Stay at or below the target.
    Under,
}

/// What a roll is checked against.
#[derive(Debug, Clone, Copy, PartialEq, Eq, Structural)]
pub struct Stake {
    pub target: i32,
    pub goal: Goal,
}

/// How a stake is shown.
pub open spec fn stake_text(stake: Stake) -> Seq<char> {
    match stake.goal {
        Goal::Over => "vs "@ + dec_int(stake.target as int),
        Goal::Under => "vs ≤ "@ + dec_int(stake.target as int),
    }
}

impl Stake {
    /// How the stake is shown.
    pub fn label(&self) -> (s: String)
        ensures
            s@ == stake_text(*self),
    {
        let mut s = match self.goal {
            Goal::Over => "vs ".to_owned(),
            Goal::Under => "vs ≤ ".to_owned(),
        };
        push_int(&mut s, self.target);
        s
    }
}

/// What an expression asks for: dice terms, a flat modifier, and at most one stake.
#[derive(Debug, Clone, PartialEq, Eq)]
pub struct Roll {
    pub terms: Vec<DiceTerm>,
    pub modifier: i32,
    pub stake: Option<Stake>,
}

pub struct RollView {
    pub terms: Seq<TermView>,
    pub modifier: i32,
    pub stake: Option<Stake>,
}

/// The views of `terms`, in order.
pub open spec fn term_views(terms: Seq<DiceTerm>) -> Seq<TermView> {
    Seq::new(terms.len(), |k: int| terms[k]@)
}

impl View for Roll {
    type V = RollView;

    open spec fn view(&self) -> RollView {
        RollView {
            terms: term_views(self.terms@),
            modifier: self.modifier,
            stake: self.stake,
        }
    }
}

/// A reading at some position: what was read and where it ends, or the complaint.
pub type Reading<T> = Result<(T, int), Seq<char>>;

/// The digits at `i` as a `u32`: nothing where there are none or too many.
pub open spec fn count_at(s: Seq<char>, i: int) -> Option<u32> {
    let end = digits_end(s, i);
    let n = number(s.subrange(i, end));
    if end == i || n > u32::MAX {
        None
    } else {
        Some(n as u32)
    }
}

/// The keep or drop keyword at `i`, applied to `n` dice.
pub open spec fn keep_drop_at(s: Seq<char>, i: int, n: u32) -> Option<TermMod> {
    if i + 1 >= s.len() {
        None
    } else if lower(s[i]) == 'k' && lower(s[i + 1]) == 'h' {
        Some(TermMod::KeepHigh(n))
    } else if lower(s[i]) == 'k' && lower(s[i + 1]) == 'l' {
        Some(TermMod::KeepLow(n))
    } else if lower(s[i]) == 'd' && lower(s[i + 1]) == 'h' {
        Some(TermMod::DropHigh(n))
    } else if lower(s[i]) == 'd' && lower(s[i + 1]) == 'l' {
        Some(TermMod::DropLow(n))
    } else {
        None
    }
}

/// How many dice the digits at `i` keep or drop out of `count`: one where no
/// number stands there, and never more than there are.
pub open spec fn kept_at(s: Seq<char>, i: int, count: u32) -> u32 {
    let end = digits_end(s, i);
    let n = if end == i {
        1
    } else {
        number(s.subrange(i, end))
    };
    if n < count {
        n as u32
    } else {
        count
    }
}

/// The comparison at `i`, where one stands there.
pub open spec fn compare_at(s: Seq<char>, i: int) -> Reading<Option<Compare>> {
    if i < s.len() && (s[i] == '>' || s[i] == '<' || s[i] == '=') {
        match count_at(s, i + 1) {
            None => Err("expected a number after the explode comparison (e.g. !>8)"@),
            Some(n) => Ok(
                (
                    Some(
                        if s[i] == '>' {
                            Compare::Gt(n)
                        } else if s[i] == '<' {
                            Compare::Lt(n)
                        } else {
                            Compare::Eq(n)
                        },
                    ),
                    digits_end(s, i + 1),
                ),
            ),
        }
    } else {
        Ok((None, i))
    }
}

/// Where a number begins whose sign, if any, stands at `i`.
pub open spec fn past_sign(s: Seq<char>, i: int) -> int {
    if i < s.len() && (s[i] == '+' || s[i] == '-') {
        i + 1
    } else {
        i
    }
}

/// The number that stands at `i`, its sign included.
pub open spec fn signed_at(s: Seq<char>, i: int) -> int {
    let from = past_sign(s, i);
    let n = number(s.subrange(from, digits_end(s, from)));
    if i < s.len() && s[i] == '-' {
        -n
    } else {
        n as int
    }
}

/// The multiplier at `i`.
pub open spec fn factor_at(s: Seq<char>, i: int) -> Reading<i32> {
    let from = past_sign(s, i);
    let end = digits_end(s, from);
    let value = signed_at(s, i);
    if end == from || value < i32::MIN || value > i32::MAX {
        Err("expected a number after '*' (e.g. 4d6*2)"@)
    } else {
        Ok((value as i32, end))
    }
}

/// The modifier at `i` of a term of `count` dice with `sides` sides, where one
/// stands there.
pub open spec fn mod_at(s: Seq<char>, i: int, count: u32, sides: u32) -> Option<Reading<TermMod>> {
    if keep_drop_at(s, i, 1) is Some {
        if count_at(s, i + 2) == Some(0u32) {
            Some(Err("keep/drop count must be at least 1"@))
        } else {
            Some(
                Ok((keep_drop_at(s, i, kept_at(s, i + 2, count))->0, digits_end(s, i + 2))),
            )
        }
    } else if i < s.len() && s[i] == '!' {
        match compare_at(s, i + 1) {
            Err(e) => Some(Err(e)),
            Ok((cond, end)) => if sides == 1 && cond is None {
                Some(Err("a d1 always rolls its max — it can't explode"@))
            } else {
                Some(Ok((TermMod::Explode(cond), end)))
            },
        }
    } else if i < s.len() && s[i] == '*' {
        match factor_at(s, i + 1) {
            Err(e) => Some(Err(e)),
            Ok((m, end)) => Some(Ok((TermMod::Mul(m), end))),
        }
    } else {
        None
    }
}

/// A modifier ends past where it begins.
pub proof fn lemma_mod_advances(s: Seq<char>, i: int, count: u32, sides: u32)
    requires
        0 <= i <= s.len(),
    ensures
        mod_at(s, i, count, sides) matches Some(Ok((m, end))) ==> i < end <= s.len(),
{
    if i + 2 <= s.len() {
        lemma_digits_end(s, i + 2);
    }
    if i + 1 <= s.len() {
        lemma_digits_end(s, i + 1);
    }
    if i + 3 <= s.len() {
        lemma_digits_end(s, i + 3);
    }
}

/// The run of modifiers at `i`.
pub open spec fn mods_at(s: Seq<char>, i: int, count: u32, sides: u32) -> Reading<Seq<TermMod>>
    decreases s.len() - i,
    when 0 <= i <= s.len()
{
    match mod_at(s, i, count, sides) {
        None => Ok((Seq::empty(), i)),
        Some(Err(e)) => Err(e),
        Some(Ok((m, end))) => {
            proof {
                lemma_mod_advances(s, i, count, sides);
            }
            after_mods(seq![m], mods_at(s, end, count, sides))
        },
    }
}

/// What `rest` reads, with `read` before it.
pub open spec fn after_mods(read: Seq<TermMod>, rest: Reading<Seq<TermMod>>) -> Reading<
    Seq<TermMod>,
> {
    match rest {
        Ok((more, end)) => Ok((read + more, end)),
        Err(e) => Err(e),
    }
}

proof fn lemma_mods_advance(s: Seq<char>, i: int, count: u32, sides: u32)
    requires
        0 <= i <= s.len(),
    ensures
        mods_at(s, i, count, sides) matches Ok((m, end)) ==> i <= end <= s.len(),
    decreases s.len() - i,
{
    lemma_mod_advances(s, i, count, sides);
    if let Some(Ok((m, end))) = mod_at(s, i, count, sides) {
        lemma_mods_advance(s, end, count, sides);
    }
}

/// The sides that stand after the `d` of a dice term, as written and as they end.
pub open spec fn sides_at(s: Seq<char>, i: int) -> (Seq<char>, int) {
    if i < s.len() && s[i] == '%' {
        ("100"@, i + 1)
    } else {
        (s.subrange(i, digits_end(s, i)), digits_end(s, i))
    }
}

/// `what` in quotes, and what is wrong with it.
pub open spec fn quoted(what: Seq<char>, complaint: Seq<char>) -> Seq<char> {
    "'"@ + what + complaint
}

/// The dice term whose count stands at `i` and whose `d` stands at `d`, after
/// `thrown` dice.
pub open spec fn dice_at(s: Seq<char>, i: int, d: int, thrown: nat) -> Reading<TermView> {
    let (written, end) = sides_at(s, d + 1);
    let count = if i == d {
        1
    } else {
        number(s.subrange(i, d))
    };
    let sides = number(written);
    if written.len() == 0 {
        Err("expected a number of sides after 'd' (e.g. d6)"@)
    } else if count > u32::MAX {
        Err(quoted(s.subrange(i, d), "' is not a valid dice count"@))
    } else if sides > u32::MAX {
        Err(quoted(written, "' is not a valid number of sides"@))
    } else if sides == 0 {
        Err("a die needs at least 1 side"@)
    } else if sides > MAX_SIDES {
        Err("that's a lot of sides — keep it under 1000"@)
    } else if thrown + count > MAX_DICE {
        Err("too many dice — keep the pool under 60"@)
    } else {
        match mods_at(s, end, count as u32, sides as u32) {
            Err(e) => Err(e),
            Ok((mods, past)) => Ok(
                ((TermView { count: count as u32, sides: sides as u32, mods }), past),
            ),
        }
    }
}

/// A dice term ends past its `d`.
pub proof fn lemma_dice_advances(s: Seq<char>, i: int, d: int, thrown: nat)
    requires
        0 <= i <= d < s.len(),
    ensures
        d + 1 <= sides_at(s, d + 1).1 <= s.len(),
        dice_at(s, i, d, thrown) matches Ok((t, end)) ==> d < end <= s.len(),
{
    lemma_digits_end(s, d + 1);
    let (written, end) = sides_at(s, d + 1);
    let count = if i == d {
        1
    } else {
        number(s.subrange(i, d))
    };
    lemma_mods_advance(s, end, count as u32, number(written) as u32);
}

/// The length of the word at `i` that opens a stake, or 0 where none does.
pub open spec fn stake_word(s: Seq<char>, i: int) -> int {
    if i < s.len() && (s[i] == '>' || s[i] == '<') {
        1
    } else if i + 1 < s.len() && lower(s[i]) == 'v' && lower(s[i + 1]) == 's' {
        2
    } else {
        0
    }
}

/// The target at `i`, with which the expression must end.
pub open spec fn target_at(s: Seq<char>, i: int) -> Result<i32, Seq<char>> {
    let at = skip_space(s, i);
    let from = past_sign(s, at);
    let end = digits_end(s, from);
    let value = signed_at(s, at);
    if end == from {
        Err("expected a target number (e.g. d20 vs 15)"@)
    } else if value < i32::MIN || value > i32::MAX {
        Err(quoted(s.subrange(at, end), "' is not a valid target"@))
    } else if skip_space(s, end) < s.len() {
        Err("the target must come last, and there is only one per roll"@)
    } else {
        Ok(value as i32)
    }
}

/// How far the reading of an expression has come.
pub struct Progress {
    pub terms: Seq<TermView>,
    pub thrown: nat,
    pub modifier: int,
    pub minus: bool,
    pub begun: bool,
}

/// The roll that `p` amounts to at the end of the expression.
pub open spec fn finished(p: Progress, stake: Option<Stake>) -> Result<RollView, Seq<char>> {
    if !p.begun {
        Err("type some dice, e.g. 3d6 or d20+d4"@)
    } else if p.terms.len() == 0 {
        Err("no dice — a roll needs at least one 'd' term"@)
    } else {
        Ok((RollView { terms: p.terms, modifier: p.modifier as i32, stake }))
    }
}

/// The flat modifier after `p` meets the digits `written`.
pub open spec fn flat_sum(p: Progress, written: Seq<char>) -> int {
    if p.minus {
        p.modifier - number(written)
    } else {
        p.modifier + number(written)
    }
}

/// The roll that the expression `s` asks for, read from `i` on after `p`.
pub open spec fn roll_from(s: Seq<char>, i: int, p: Progress) -> Result<RollView, Seq<char>>
    decreases s.len() - i,
    when 0 <= i <= s.len()
{
    let d = digits_end(s, i);
    proof {
        lemma_digits_end(s, i);
        if d < s.len() {
            lemma_dice_advances(s, i, d, p.thrown);
        }
    }
    if i >= s.len() {
        finished(p, None)
    } else if is_space(s[i]) || s[i] == ',' {
        roll_from(s, i + 1, p)
    } else if s[i] == '+' {
        roll_from(s, i + 1, (Progress { minus: false, ..p }))
    } else if s[i] == '-' {
        roll_from(s, i + 1, (Progress { minus: true, ..p }))
    } else if stake_word(s, i) > 0 {
        match target_at(s, i + stake_word(s, i)) {
            Err(e) => Err(e),
            Ok(target) => finished(
                p,
                Some(
                    (Stake {
                        target,
                        goal: if s[i] == '<' {
                            Goal::Under
                        } else {
                            Goal::Over
                        },
                    }),
                ),
            ),
        }
    } else if d < s.len() && (s[d] == 'd' || s[d] == 'D') {
        match dice_at(s, i, d, p.thrown) {
            Err(e) => Err(e),
            Ok((t, end)) => roll_from(
                s,
                end,
                (Progress {
                    terms: p.terms.push(t),
                    thrown: p.thrown + t.count as nat,
                    minus: false,
                    begun: true,
                    ..p
                }),
            ),
        }
    } else if d > i {
        let written = s.subrange(i, d);
        let sum = flat_sum(p, written);
        if number(written) > i32::MAX || sum < i32::MIN || sum > i32::MAX {
            Err(quoted(written, "' is not a valid number"@))
        } else {
            roll_from(s, d, (Progress { modifier: sum, minus: false, begun: true, ..p }))
        }
    } else {
        Err("unexpected character '"@ + seq![s[i]] + "'"@)
    }
}

/// What the expression `s` asks for, or the complaint about it.
pub open spec fn parsed(s: Seq<char>) -> Result<RollView, Seq<char>> {
    roll_from(
        s,
        0,
        (Progress {
            terms: Seq::empty(),
            thrown: 0,
            modifier: 0,
            minus: false,
            begun: false,
        }),
    )
}

/// Whether `res` is the reading `want`.
pub open spec fn reads<T: View>(res: Result<T, String>, want: Result<T::V, Seq<char>>) -> bool {
    match res {
        Ok(v) => want == Ok::<T::V, Seq<char>>(v@),
        Err(e) => want == Err::<T::V, Seq<char>>(e@),
    }
}

/// The digits at `i` as a `u32`, and where they end.
fn parse_optional_count(chars: &Vec<char>, i: usize) -> (r: (Option<u32>, usize))
    requires
        i <= chars@.len(),
    ensures
        r.0 == count_at(chars@, i as int),
        r.1 == digits_end(chars@, i as int),
        i <= r.1 <= chars@.len(),
{
    let end: usize = skip_digits(chars, i);
    if end == i {
        return (None, end);
    }
    (read_u32(chars, i, end), end)
}

/// The keep or drop keyword at `i`, applied to `n` dice.
fn keep_drop_keyword(chars: &Vec<char>, i: usize, n: u32) -> (r: Option<TermMod>)
    requires
        i <= chars@.len(),
    ensures
        r == keep_drop_at(chars@, i as int, n),
{
    if chars.len() - i < 2 {
        return None;
    }
    let a = chars[i];
    let b = chars[i + 1];
    if is_letter(a, 'k') && is_letter(b, 'h') {
        Some(TermMod::KeepHigh(n))
    } else if is_letter(a, 'k') && is_letter(b, 'l') {
        Some(TermMod::KeepLow(n))
    } else if is_letter(a, 'd') && is_letter(b, 'h') {
        Some(TermMod::DropHigh(n))
    } else if is_letter(a, 'd') && is_letter(b, 'l') {
        Some(TermMod::DropLow(n))
    } else {
        None
    }
}

/// The comparison at `i`, where one stands there.
fn parse_optional_compare(chars: &Vec<char>, i: usize) -> (r: Result<
    (Option<Compare>, usize),
    String,
>)
    requires
        i <= chars@.len(),
    ensures
        match r {
            Ok((c, end)) => compare_at(chars@, i as int) == Ok::<_, Seq<char>>((c, end as int)) && i
                <= end <= chars@.len(),
            Err(e) => compare_at(chars@, i as int) == Err::<(Option<Compare>, int), _>(e@),
        },
{
    if i >= chars.len() {
        return Ok((None, i));
    }
    let op = chars[i];
    if op != '>' && op != '<' && op != '=' {
        return Ok((None, i));
    }
    let (n, end) = parse_optional_count(chars, i + 1);
    match n {
        None => Err("expected a number after the explode comparison (e.g. !>8)".to_owned()),
        Some(n) => if op == '>' {
            Ok((Some(Compare::Gt(n)), end))
        } else if op == '<' {
            Ok((Some(Compare::Lt(n)), end))
        } else {
            Ok((Some(Compare::Eq(n)), end))
        },
    }
}

/// The multiplier at `i`.
fn parse_required_int(chars: &Vec<char>, i: usize) -> (r: Result<(i32, usize), String>)
    requires
        i <= chars@.len(),
    ensures
        match r {
            Ok((m, end)) => factor_at(chars@, i as int) == Ok::<_, Seq<char>>((m, end as int)) && i
                <= end <= chars@.len(),
            Err(e) => factor_at(chars@, i as int) == Err::<(i32, int), _>(e@),
        },
{
    let neg = i < chars.len() && chars[i] == '-';
    let from: usize = if neg || (i < chars.len() && chars[i] == '+') {
        i + 1
    } else {
        i
    };
    let (n, end) = parse_optional_count(chars, from);
    let value: i64 = match n {
        Some(n) => if neg {
            -(n as i64)
        } else {
            n as i64
        },
        None => i64::MAX,
    };
    if value < i32::MIN as i64 || value > i32::MAX as i64 {
        return Err("expected a number after '*' (e.g. 4d6*2)".to_owned());
    }
    Ok((value as i32, end))
}

/// The run of modifiers at `i`.
fn parse_term_mods(chars: &Vec<char>, i: usize, count: u32, sides: u32) -> (r: Result<
    (Vec<TermMod>, usize),
    String,
>)
    requires
        i <= chars@.len(),
    ensures
        match r {
            Ok((mods, end)) => mods_at(chars@, i as int, count, sides) == Ok::<_, Seq<char>>(
                (mods@, end as int),
            ) && i <= end <= chars@.len(),
            Err(e) => mods_at(chars@, i as int, count, sides) == Err::<(Seq<TermMod>, int), _>(e@),
        },
{
    let n: usize = chars.len();
    let mut mods: Vec<TermMod> = Vec::new();
    let mut k: usize = i;
    assert(after_mods(mods@, mods_at(chars@, k as int, count, sides)) == mods_at(
        chars@,
        k as int,
        count,
        sides,
    )) by {
        if let Ok((more, end)) = mods_at(chars@, k as int, count, sides) {
            assert(Seq::<TermMod>::empty() + more == more);
        }
    }
    loop
        invariant
            i <= k <= n,
            n == chars@.len(),
            mods_at(chars@, i as int, count, sides) == after_mods(
                mods@,
                mods_at(chars@, k as int, count, sides),
            ),
        decreases chars@.len() - k,
    {
        proof {
            lemma_mod_advances(chars@, k as int, count, sides);
        }
        let ghost before = mods@;
        let ghost at = k as int;
        if keep_drop_keyword(chars, k, 1).is_some() {
            let (written, end) = parse_optional_count(chars, k + 2);
            let asked: u32 = match written {
                Some(asked) => asked,
                None => if end == k + 2 {
                    1
                } else {
                    u32::MAX
                },
            };
            if asked == 0 {
                return Err("keep/drop count must be at least 1".to_owned());
            }
            let taken: u32 = if asked < count {
                asked
            } else {
                count
            };
            match keep_drop_keyword(chars, k, taken) {
                Some(m) => mods.push(m),
                None => {},
            }
            k = end;
        } else if k < n && chars[k] == '!' {
            match parse_optional_compare(chars, k + 1) {
                Err(e) => return Err(e),
                Ok((cond, end)) => {
                    if sides == 1 && cond.is_none() {
                        return Err("a d1 always rolls its max — it can't explode".to_owned());
                    }
                    mods.push(TermMod::Explode(cond));
                    k = end;
                },
            }
        } else if k < n && chars[k] == '*' {
            match parse_required_int(chars, k + 1) {
                Err(e) => return Err(e),
                Ok((m, end)) => {
                    mods.push(TermMod::Mul(m));
                    k = end;
                },
            }
        } else {
            assert(mods@ + Seq::<TermMod>::empty() == mods@);
            return Ok((mods, k));
        }
        proof {
            assert(mod_at(chars@, at, count, sides) == Some(
                Ok::<_, Seq<char>>((mods@.last(), k as int)),
            ));
            assert(mods@ == before.push(mods@.last()));
            if let Ok((more, end)) = mods_at(chars@, k as int, count, sides) {
                assert(before + (seq![mods@.last()] + more) == mods@ + more);
            }
        }
    }
}

/// `what` in quotes, and what is wrong with it.
fn complain(what: &str, complaint: &str) -> (r: String)
    ensures
        r@ == quoted(what@, complaint@),
{
    let mut s = "'".to_owned();
    s.append(what);
    s.append(complaint);
    s
}

/// The dice term whose count stands at `i` and whose `d` stands at `d`, after
/// `thrown` dice.
fn parse_dice(chars: &Vec<char>, i: usize, d: usize, thrown: u32) -> (r: Result<
    (DiceTerm, usize),
    String,
>)
    requires
        i <= d < chars@.len(),
        d == digits_end(chars@, i as int),
        thrown <= MAX_DICE,
    ensures
        match r {
            Ok((t, end)) => dice_at(chars@, i as int, d as int, thrown as nat) == Ok::<_, Seq<char>>(
                (t@, end as int),
            ) && d < end <= chars@.len(),
            Err(e) => dice_at(chars@, i as int, d as int, thrown as nat) == Err::<
                (TermView, int),
                _,
            >(e@),
        },
{
    proof {
        lemma_dice_advances(chars@, i as int, d as int, thrown as nat);
        lemma_digits_end(chars@, i as int);
        reveal_strlit("100");
        reveal_with_fuel(number, 4);
        assert("100"@.drop_last().drop_last().drop_last().len() == 0);
        assert(number("100"@) == 100);
    }
    let n: usize = chars.len();
    let percent = d + 1 < n && chars[d + 1] == '%';
    let end: usize = if percent {
        d + 2
    } else {
        skip_digits(chars, d + 1)
    };
    if end == d + 1 {
        return Err("expected a number of sides after 'd' (e.g. d6)".to_owned());
    }
    let count: u32 = if i == d {
        1
    } else {
        match read_u32(chars, i, d) {
            Some(n) => n,
            None => {
                let written = text_of(chars, i, d);
                return Err(complain(written.as_str(), "' is not a valid dice count"));
            },
        }
    };
    let sides: u32 = if percent {
        100
    } else {
        match read_u32(chars, d + 1, end) {
            Some(n) => n,
            None => {
                let written = text_of(chars, d + 1, end);
                return Err(complain(written.as_str(), "' is not a valid number of sides"));
            },
        }
    };
    if sides == 0 {
        return Err("a die needs at least 1 side".to_owned());
    }
    if sides > MAX_SIDES {
        return Err("that's a lot of sides — keep it under 1000".to_owned());
    }
    if count > MAX_DICE || thrown + count > MAX_DICE {
        return Err("too many dice — keep the pool under 60".to_owned());
    }
    match parse_term_mods(chars, end, count, sides) {
        Err(e) => Err(e),
        Ok((mods, past)) => Ok((DiceTerm { count, sides, mods }, past)),
    }
}

/// The target at `i`, with which the expression must end.
fn parse_target(chars: &Vec<char>, i: usize) -> (r: Result<i32, String>)
    requires
        i <= chars@.len(),
    ensures
        match r {
            Ok(t) => target_at(chars@, i as int) == Ok::<_, Seq<char>>(t),
            Err(e) => target_at(chars@, i as int) == Err::<i32, _>(e@),
        },
{
    let at: usize = skip_spaces(chars, i);
    let neg = at < chars.len() && chars[at] == '-';
    let from: usize = if neg || (at < chars.len() && chars[at] == '+') {
        at + 1
    } else {
        at
    };
    let end: usize = skip_digits(chars, from);
    if end == from {
        return Err("expected a target number (e.g. d20 vs 15)".to_owned());
    }
    let value: i64 = match read_u32(chars, from, end) {
        Some(n) => if neg {
            -(n as i64)
        } else {
            n as i64
        },
        None => i64::MAX,
    };
    if value < i32::MIN as i64 || value > i32::MAX as i64 {
        let written = text_of(chars, at, end);
        return Err(complain(written.as_str(), "' is not a valid target"));
    }
    if skip_spaces(chars, end) < chars.len() {
        return Err("the target must come last, and there is only one per roll".to_owned());
    }
    Ok(value as i32)
}

/// Reads a dice expression.
pub fn parse(input: &str) -> (res: Result<Roll, String>)
    ensures
        reads(res, parsed(input@)),
{
    let chars = chars_of(input);
    let n: usize = chars.len();
    let mut i: usize = 0;
    let mut terms: Vec<DiceTerm> = Vec::new();
    let mut thrown: u32 = 0;
    let mut modifier: i32 = 0;
    let mut minus = false;
    let mut begun = false;
    let mut stake: Option<Stake> = None;
    assert(term_views(terms@) == Seq::<TermView>::empty());
    while i < n
        invariant
            n == chars@.len(),
            chars@ == input@,
            i <= n,
            thrown <= MAX_DICE,
            stake is Some ==> i == n,
            parsed(input@) == (match stake {
                None => roll_from(
                    chars@,
                    i as int,
                    (Progress {
                        terms: term_views(terms@),
                        thrown: thrown as nat,
                        modifier: modifier as int,
                        minus,
                        begun,
                    }),
                ),
                Some(_) => finished(
                    (Progress {
                        terms: term_views(terms@),
                        thrown: thrown as nat,
                        modifier: modifier as int,
                        minus,
                        begun,
                    }),
                    stake,
                ),
            }),
        decreases n - i,
    {
        let c = chars[i];
        if space(c) || c == ',' {
            i += 1;
            continue ;
        }
        if c == '+' {
            minus = false;
            i += 1;
            continue ;
        }
        if c == '-' {
            minus = true;
            i += 1;
            continue ;
        }
        let word: usize = if c == '>' || c == '<' {
            1
        } else if n - i >= 2 && is_letter(c, 'v') && is_letter(chars[i + 1], 's') {
            2
        } else {
            0
        };
        if word > 0 {
            match parse_target(&chars, i + word) {
                Err(e) => return Err(e),
                Ok(target) => {
                    let goal = if c == '<' {
                        Goal::Under
                    } else {
                        Goal::Over
                    };
                    stake = Some(Stake { target, goal });
                    i = n;
                    continue ;
                },
            }
        }
        let d: usize = skip_digits(&chars, i);
        if d < n && (chars[d] == 'd' || chars[d] == 'D') {
            match parse_dice(&chars, i, d, thrown) {
                Err(e) => return Err(e),
                Ok((t, end)) => {
                    let ghost before = term_views(terms@);
                    thrown = thrown + t.count;
                    terms.push(t);
                    assert(term_views(terms@) == before.push(t@));
                    begun = true;
                    minus = false;
                    i = end;
                },
            }
        } else if d > i {
            let v: i64 = match read_u32(&chars, i, d) {
                Some(v) => v as i64,
                None => 0x1_0000_0000,
            };
            let sum: i64 = if minus {
                modifier as i64 - v
            } else {
                modifier as i64 + v
            };
            if v > i32::MAX as i64 || sum < i32::MIN as i64 || sum > i32::MAX as i64 {
                let written = text_of(&chars, i, d);
                return Err(complain(written.as_str(), "' is not a valid number"));
            }
            modifier = sum as i32;
            begun = true;
            minus = false;
            i = d;
        } else {
            let mut e = "unexpected character '".to_owned();
            e.push(c);
            e.append("'");
            assert(e@ == "unexpected character '"@ + seq![c] + "'"@);
            return Err(e);
        }
    }
    if !begun {
        return Err("type some dice, e.g. 3d6 or d20+d4".to_owned());
    }
    if terms.is_empty() {
        return Err("no dice — a roll needs at least one 'd' term".to_owned());
    }
    Ok(Roll { terms, modifier, stake })
}

/// A stake is shown with its target, and an under stake with a sign that says so.
pub proof fn stakes_show_their_target(target: i32)
    ensures
        stake_text((Stake { target, goal: Goal::Over })) == "vs "@ + dec_int(target as int),
        stake_text((Stake { target, goal: Goal::Under })) == "vs ≤ "@ + dec_int(target as int),
{
}

/// A result is a reading where it holds what was read, or the complaint, and nothing else.
pub proof fn readings_hold_what_was_read(
    roll: Roll,
    said: String,
    want: RollView,
    complaint: Seq<char>,
)
    ensures
        reads(Ok::<Roll, String>(roll), Ok(want)) <==> roll@ == want,
        !reads(Ok::<Roll, String>(roll), Err(complaint)),
        !reads(Err::<Roll, String>(said), Ok(want)),
        reads(Err::<Roll, String>(said), Err(complaint)) <==> said@ == complaint,
{
}

/// The views of several terms are those of each, in order.
pub proof fn term_views_go_one_by_one(terms: Seq<DiceTerm>, k: int)
    requires
        0 <= k < terms.len(),
    ensures
        term_views(terms).len() == terms.len(),
        term_views(terms)[k] == terms[k]@,
        terms[k]@.count == terms[k].count,
        terms[k]@.sides == terms[k].sides,
        terms[k]@.mods == terms[k].mods@,
{
}

/// What is known of a roll is what it holds.
pub proof fn rolls_show_what_they_hold(r: Roll)
    ensures
        r@.terms == term_views(r.terms@),
        r@.modifier == r.modifier,
        r@.stake == r.stake,
{
}

} // verus!
