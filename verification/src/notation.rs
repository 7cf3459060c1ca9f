//! What holds of the notation as a whole.

use crate::parse::{
    count_at, dice_at, factor_at, finished, flat_sum, keep_drop_at, kept_at, lemma_dice_advances,
    lemma_mod_advances, mod_at, mods_at, parsed, past_sign, roll_from, sides_at, stake_word,
    target_at, Compare, Progress, RollView, TermMod, TermView, MAX_DICE, MAX_SIDES,
};
use crate::roll::{mod_text, mods_text, notation};
use crate::text::{
    dec, digits_end, is_digit, is_space, lemma_dec_reads_back, lemma_digits_end,
    lemma_digits_end_is, lower, number, skip_space,
};
use vstd::prelude::*;

verus! {

/// What the parser grants of each modifier of a term of `count` dice with `sides`
/// sides: no more dice are kept or dropped than there are, and no d1 explodes on
/// its only face by default.
pub open spec fn mod_allowed(m: TermMod, count: u32, sides: u32) -> bool {
    match m {
        TermMod::KeepHigh(n) => n <= count && (n == 0 ==> count == 0),
        TermMod::KeepLow(n) => n <= count && (n == 0 ==> count == 0),
        TermMod::DropHigh(n) => n <= count && (n == 0 ==> count == 0),
        TermMod::DropLow(n) => n <= count && (n == 0 ==> count == 0),
        TermMod::Explode(cond) => cond is None ==> sides != 1,
        TermMod::Mul(n) => true,
    }
}

pub open spec fn mods_allowed(mods: Seq<TermMod>, count: u32, sides: u32) -> bool {
    forall|k: int| 0 <= k < mods.len() ==> mod_allowed(#[trigger] mods[k], count, sides)
}

/// What the parser grants of each term.
pub open spec fn term_allowed(t: TermView) -> bool {
    &&& 1 <= t.sides <= MAX_SIDES
    &&& t.count <= MAX_DICE
    &&& mods_allowed(t.mods, t.count, t.sides)
}

/// How many dice the terms throw before any explosion.
pub open spec fn dice_thrown(terms: Seq<TermView>) -> nat
    decreases terms.len(),
{
    if terms.len() == 0 {
        0
    } else {
        dice_thrown(terms.drop_last()) + terms.last().count as nat
    }
}

/// What the parser grants of each roll.
pub open spec fn roll_allowed(r: RollView) -> bool {
    &&& r.terms.len() > 0
    &&& forall|k: int| 0 <= k < r.terms.len() ==> term_allowed(#[trigger] r.terms[k])
    &&& dice_thrown(r.terms) <= MAX_DICE
}

proof fn lemma_mods_allowed(s: Seq<char>, i: int, count: u32, sides: u32)
    requires
        0 <= i <= s.len(),
    ensures
        mods_at(s, i, count, sides) matches Ok((mods, end)) ==> mods_allowed(mods, count, sides),
    decreases s.len() - i,
{
    lemma_mod_advances(s, i, count, sides);
    if let Some(Ok((m, end))) = mod_at(s, i, count, sides) {
        lemma_mods_allowed(s, end, count, sides);
        assert(mod_allowed(m, count, sides));
        if let Ok((more, past)) = mods_at(s, end, count, sides) {
            let mods = seq![m] + more;
            assert forall|k: int| 0 <= k < mods.len() implies mod_allowed(
                #[trigger] mods[k],
                count,
                sides,
            ) by {
                if k > 0 {
                    assert(mods[k] == more[k - 1]);
                }
            }
        }
    }
}

proof fn lemma_roll_allowed(s: Seq<char>, i: int, p: Progress)
    requires
        0 <= i <= s.len(),
        forall|k: int| 0 <= k < p.terms.len() ==> term_allowed(#[trigger] p.terms[k]),
        p.thrown == dice_thrown(p.terms),
        p.thrown <= MAX_DICE,
    ensures
        roll_from(s, i, p) matches Ok(r) ==> roll_allowed(r),
    decreases s.len() - i,
{
    let d = digits_end(s, i);
    lemma_digits_end(s, i);
    if i >= s.len() {
    } else if is_space(s[i]) || s[i] == ',' {
        lemma_roll_allowed(s, i + 1, p);
    } else if s[i] == '+' {
        lemma_roll_allowed(s, i + 1, (Progress { minus: false, ..p }));
    } else if s[i] == '-' {
        lemma_roll_allowed(s, i + 1, (Progress { minus: true, ..p }));
    } else if stake_word(s, i) > 0 {
    } else if d < s.len() && (s[d] == 'd' || s[d] == 'D') {
        lemma_dice_advances(s, i, d, p.thrown);
        if let Ok((t, end)) = dice_at(s, i, d, p.thrown) {
            let (written, past) = sides_at(s, d + 1);
            lemma_mods_allowed(s, past, t.count, t.sides);
            let terms = p.terms.push(t);
            assert(terms.drop_last() == p.terms);
            lemma_roll_allowed(
                s,
                end,
                (Progress {
                    terms,
                    thrown: p.thrown + t.count as nat,
                    minus: false,
                    begun: true,
                    ..p
                }),
            );
        }
    } else if d > i {
        let sum = flat_sum(p, s.subrange(i, d));
        lemma_roll_allowed(s, d, (Progress { modifier: sum, minus: false, begun: true, ..p }));
    }
}

/// Whatever is typed, a roll that comes of it throws at least one term and at most
/// the allowed dice, none with more than the allowed sides, and each modifier is in
/// order.
pub proof fn parsed_rolls_are_capped(s: Seq<char>)
    ensures
        parsed(s) matches Ok(r) ==> roll_allowed(r),
{
    lemma_roll_allowed(
        s,
        0,
        (Progress {
            terms: Seq::empty(),
            thrown: 0,
            modifier: 0,
            minus: false,
            begun: false,
        }),
    );
}

/// Whether `rest` can follow a number or a bare explosion without being taken for
/// a part of it.
pub open spec fn stands_apart(rest: Seq<char>) -> bool {
    rest.len() > 0 ==> rest[0] == 'k' || rest[0] == 'd' || rest[0] == '!' || rest[0] == '*'
}

pub proof fn lemma_number_between(a: Seq<char>, n: nat, b: Seq<char>)
    requires
        stands_apart(b),
    ensures
        ({
            let s = a + dec(n) + b;
            let end = (a.len() + dec(n).len()) as int;
            &&& digits_end(s, a.len() as int) == end
            &&& s.subrange(a.len() as int, end) == dec(n)
            &&& number(s.subrange(a.len() as int, end)) == n
            &&& dec(n).len() > 0
            &&& is_digit(s[a.len() as int])
            &&& n <= u32::MAX ==> count_at(s, a.len() as int) == Some(n as u32)
        }),
{
    let s = a + dec(n) + b;
    let end = (a.len() + dec(n).len()) as int;
    lemma_dec_reads_back(n);
    assert(s.subrange(a.len() as int, end) =~= dec(n));
    assert forall|k: int| a.len() <= k < end implies is_digit(#[trigger] s[k]) by {
        assert(s[k] == dec(n)[k - a.len()]);
    }
    lemma_digits_end_is(s, a.len() as int, end);
}

/// Two characters and a number, as they are found again in a longer text.
proof fn lemma_word_and_number(a: Seq<char>, word: Seq<char>, n: nat, b: Seq<char>)
    requires
        word.len() == 2,
        n <= u32::MAX,
        stands_apart(b),
    ensures
        ({
            let s = a + (word + dec(n)) + b;
            let i = a.len() as int;
            &&& i + 2 < s.len()
            &&& s[i] == word[0]
            &&& s[i + 1] == word[1]
            &&& count_at(s, i + 2) == Some(n as u32)
            &&& digits_end(s, i + 2) == i + (word + dec(n)).len()
            &&& (word + dec(n) + b)[0] == word[0]
        }),
{
    let s = a + (word + dec(n)) + b;
    lemma_number_between(a + word, n, b);
    assert(s == a + word + dec(n) + b);
}

proof fn lemma_keep_reads_back(
    a: Seq<char>,
    word: Seq<char>,
    m: TermMod,
    n: u32,
    b: Seq<char>,
    count: u32,
    sides: u32,
)
    requires
        stands_apart(b),
        word.len() == 2,
        keep_drop_at(word, 0, n) == Some(m),
        'a' <= word[0] <= 'z',
        'a' <= word[1] <= 'z',
        1 <= n <= count,
    ensures
        ({
            let s = a + (word + dec(n as nat)) + b;
            &&& mod_at(s, a.len() as int, count, sides) == Some(
                Ok::<_, Seq<char>>((m, (a.len() + (word + dec(n as nat)).len()) as int)),
            )
            &&& stands_apart(word + dec(n as nat) + b)
        }),
{
    let s = a + (word + dec(n as nat)) + b;
    let i = a.len() as int;
    lemma_word_and_number(a, word, n as nat, b);
    assert(keep_drop_at(s, i, n) == Some(m));
    assert(keep_drop_at(s, i, 1) is Some);
    assert(kept_at(s, i + 2, count) == n);
}

proof fn lemma_explode_reads_back(a: Seq<char>, m: TermMod, b: Seq<char>, count: u32, sides: u32)
    requires
        stands_apart(b),
        mod_allowed(m, count, sides),
        m is Explode,
    ensures
        ({
            let s = a + mod_text(m) + b;
            &&& mod_at(s, a.len() as int, count, sides) == Some(
                Ok::<_, Seq<char>>((m, (a.len() + mod_text(m).len()) as int)),
            )
            &&& stands_apart(mod_text(m) + b)
        }),
{
    let s = a + mod_text(m) + b;
    let i = a.len() as int;
    match m {
        TermMod::Explode(Some(Compare::Eq(n))) => {
            reveal_strlit("!=");
            lemma_word_and_number(a, "!="@, n as nat, b);
        },
        TermMod::Explode(Some(Compare::Gt(n))) => {
            reveal_strlit("!>");
            lemma_word_and_number(a, "!>"@, n as nat, b);
        },
        TermMod::Explode(Some(Compare::Lt(n))) => {
            reveal_strlit("!<");
            lemma_word_and_number(a, "!<"@, n as nat, b);
        },
        _ => {
            reveal_strlit("!");
            assert(s[i] == '!');
            if b.len() > 0 {
                assert(s[i + 1] == b[0]);
            }
        },
    }
}

proof fn lemma_negative_factor(a: Seq<char>, mag: nat, b: Seq<char>)
    requires
        stands_apart(b),
        1 <= mag <= 0x8000_0000,
    ensures
        ({
            let text = seq!['*'] + (seq!['-'] + dec(mag));
            let s = a + text + b;
            let i = a.len() as int;
            &&& s[i] == '*'
            &&& (text + b)[0] == '*'
            &&& factor_at(s, i + 1) == Ok::<_, Seq<char>>(((-mag) as i32, i + text.len()))
        }),
{
    let text = seq!['*'] + (seq!['-'] + dec(mag));
    let s = a + text + b;
    let i = a.len() as int;
    let before = a + seq!['*', '-'];
    lemma_number_between(before, mag, b);
    assert(s == before + dec(mag) + b);
    assert(before.len() == i + 2);
    assert(s[i + 1] == '-');
    assert(past_sign(s, i + 1) == i + 2);
}

proof fn lemma_positive_factor(a: Seq<char>, n: nat, b: Seq<char>)
    requires
        stands_apart(b),
        n <= i32::MAX,
    ensures
        ({
            let text = seq!['*'] + dec(n);
            let s = a + text + b;
            let i = a.len() as int;
            &&& s[i] == '*'
            &&& (text + b)[0] == '*'
            &&& factor_at(s, i + 1) == Ok::<_, Seq<char>>((n as i32, i + text.len()))
        }),
{
    let text = seq!['*'] + dec(n);
    let s = a + text + b;
    let i = a.len() as int;
    let before = a + seq!['*'];
    lemma_number_between(before, n, b);
    assert(s == before + dec(n) + b);
    assert(before.len() == i + 1);
    assert(is_digit(s[i + 1]));
    assert(past_sign(s, i + 1) == i + 1);
}

proof fn lemma_factor_reads_back(a: Seq<char>, n: i32, b: Seq<char>, count: u32, sides: u32)
    requires
        stands_apart(b),
    ensures
        ({
            let text = mod_text(TermMod::Mul(n));
            let s = a + text + b;
            &&& mod_at(s, a.len() as int, count, sides) == Some(
                Ok::<_, Seq<char>>((TermMod::Mul(n), (a.len() + text.len()) as int)),
            )
            &&& stands_apart(text + b)
        }),
{
    reveal_strlit("*");
    assert("*"@ =~= seq!['*']);
    if n < 0 {
        lemma_negative_factor(a, (-(n as int)) as nat, b);
    } else {
        lemma_positive_factor(a, n as nat, b);
    }
}

proof fn lemma_mod_reads_back(a: Seq<char>, m: TermMod, b: Seq<char>, count: u32, sides: u32)
    requires
        stands_apart(b),
        mod_allowed(m, count, sides),
        count == 0 ==> m is Explode || m is Mul,
    ensures
        ({
            let s = a + mod_text(m) + b;
            &&& mod_at(s, a.len() as int, count, sides) == Some(
                Ok::<_, Seq<char>>((m, (a.len() + mod_text(m).len()) as int)),
            )
            &&& stands_apart(mod_text(m) + b)
        }),
{
    match m {
        TermMod::KeepHigh(n) => {
            reveal_strlit("kh");
            lemma_keep_reads_back(a, "kh"@, m, n, b, count, sides);
        },
        TermMod::KeepLow(n) => {
            reveal_strlit("kl");
            lemma_keep_reads_back(a, "kl"@, m, n, b, count, sides);
        },
        TermMod::DropHigh(n) => {
            reveal_strlit("dh");
            lemma_keep_reads_back(a, "dh"@, m, n, b, count, sides);
        },
        TermMod::DropLow(n) => {
            reveal_strlit("dl");
            lemma_keep_reads_back(a, "dl"@, m, n, b, count, sides);
        },
        TermMod::Explode(cond) => {
            lemma_explode_reads_back(a, m, b, count, sides);
        },
        TermMod::Mul(n) => {
            lemma_factor_reads_back(a, n, b, count, sides);
        },
    }
}

proof fn lemma_mods_text_front(mods: Seq<TermMod>)
    requires
        mods.len() > 0,
    ensures
        mods_text(mods) == mod_text(mods[0]) + mods_text(mods.drop_first()),
    decreases mods.len(),
{
    if mods.len() == 1 {
        assert(mods.drop_last() == Seq::<TermMod>::empty());
        assert(mods.drop_first() == Seq::<TermMod>::empty());
        assert(mods_text(Seq::<TermMod>::empty()) == Seq::<char>::empty());
        assert(mods_text(mods) == mod_text(mods[0]));
    } else {
        lemma_mods_text_front(mods.drop_last());
        assert(mods.drop_last().drop_first() == mods.drop_first().drop_last());
        assert(mods.drop_first().last() == mods.last());
        assert(mods_text(mods) == mod_text(mods[0]) + (mods_text(mods.drop_first().drop_last())
            + mod_text(mods.last())));
    }
}

pub proof fn lemma_mods_read_back(a: Seq<char>, mods: Seq<TermMod>, count: u32, sides: u32)
    requires
        mods_allowed(mods, count, sides),
        forall|k: int|
            0 <= k < mods.len() && count == 0 ==> (#[trigger] mods[k]) is Explode
                || mods[k] is Mul,
    ensures
        ({
            let s = a + mods_text(mods);
            &&& mods_at(s, a.len() as int, count, sides) == Ok::<_, Seq<char>>((mods, s.len() as int))
            &&& stands_apart(mods_text(mods))
        }),
    decreases mods.len(),
{
    let s = a + mods_text(mods);
    if mods.len() == 0 {
        assert(mod_at(s, a.len() as int, count, sides) is None);
        assert(mods == Seq::<TermMod>::empty());
    } else {
        let m = mods[0];
        let rest = mods.drop_first();
        let text = mod_text(m);
        lemma_mods_text_front(mods);
        lemma_mods_read_back(a + text, rest, count, sides);
        lemma_mod_reads_back(a, m, mods_text(rest), count, sides);
        assert(s == a + text + mods_text(rest));
        lemma_mod_advances(s, a.len() as int, count, sides);
        assert(seq![m] + rest == mods);
    }
}

/// A term reads back as itself from the way it is written: any term that the parser
/// grants, but for a pool of no dice that keeps or drops some.
pub proof fn notation_reads_back(t: TermView)
    requires
        term_allowed(t),
        forall|k: int|
            0 <= k < t.mods.len() && t.count == 0 ==> (#[trigger] t.mods[k]) is Explode
                || t.mods[k] is Mul,
    ensures
        parsed(notation(t)) == Ok::<_, Seq<char>>(
            (RollView { terms: seq![t], modifier: 0, stake: None }),
        ),
{
    reveal_strlit("d");
    let s = notation(t);
    let tail = mods_text(t.mods);
    let head = if t.count == 1 {
        Seq::empty()
    } else {
        dec(t.count as nat)
    };
    let d = head.len() as int;
    let a = head + "d"@;
    lemma_mods_read_back(a + dec(t.sides as nat), t.mods, t.count, t.sides);
    lemma_number_between(a, t.sides as nat, tail);
    assert(s == a + dec(t.sides as nat) + tail);
    assert(s[d] == 'd');
    if t.count == 1 {
        assert(digits_end(s, 0) == 0);
    } else {
        let rest = "d"@ + dec(t.sides as nat) + tail;
        lemma_number_between(Seq::empty(), t.count as nat, rest);
        assert(s == Seq::<char>::empty() + dec(t.count as nat) + rest);
        assert(digits_end(s, 0) == d);
        assert(s.subrange(0, d) == dec(t.count as nat));
        assert(is_digit(s[0]));
    }
    let p = Progress {
        terms: Seq::empty(),
        thrown: 0,
        modifier: 0,
        minus: false,
        begun: false,
    };
    assert(stake_word(s, 0) == 0);
    assert(sides_at(s, d + 1) == (dec(t.sides as nat), d + 1 + dec(t.sides as nat).len()));
    assert(dice_at(s, 0, d, 0) == Ok::<_, Seq<char>>((t, s.len() as int)));
    assert(p.terms.push(t) == seq![t]);
    let q = Progress { terms: p.terms.push(t), thrown: t.count as nat, minus: false, begun: true, ..p };
    assert(roll_from(s, s.len() as int, q) == finished(q, None));
    assert(roll_from(s, 0, p) == roll_from(s, s.len() as int, q));
}

/// Whether two texts differ in nothing but the case of their letters.
pub open spec fn alike(a: Seq<char>, b: Seq<char>) -> bool {
    &&& a.len() == b.len()
    &&& forall|k: int| 0 <= k < a.len() ==> lower(#[trigger] a[k]) == lower(b[k])
}

/// What is no letter has no case.
proof fn lemma_same_mark(c: char, d: char)
    requires
        lower(c) == lower(d),
    ensures
        is_digit(c) == is_digit(d),
        is_digit(c) ==> c == d,
        is_space(c) == is_space(d),
        c == ',' <==> d == ',',
        c == '+' <==> d == '+',
        c == '-' <==> d == '-',
        c == '>' <==> d == '>',
        c == '<' <==> d == '<',
        c == '=' <==> d == '=',
        c == '!' <==> d == '!',
        c == '*' <==> d == '*',
        c == '%' <==> d == '%',
        c == 'd' || c == 'D' <==> d == 'd' || d == 'D',
{
}

proof fn lemma_digits_alike(a: Seq<char>, b: Seq<char>, i: int)
    requires
        alike(a, b),
        0 <= i <= a.len(),
    ensures
        digits_end(a, i) == digits_end(b, i),
        a.subrange(i, digits_end(a, i)) == b.subrange(i, digits_end(a, i)),
        count_at(a, i) == count_at(b, i),
    decreases a.len() - i,
{
    lemma_digits_end(a, i);
    if i < a.len() {
        lemma_same_mark(a[i], b[i]);
        if is_digit(a[i]) {
            lemma_digits_alike(a, b, i + 1);
        }
    }
    let end = digits_end(a, i);
    assert forall|k: int| i <= k < end implies a[k] == b[k] by {
        assert(lower(a[k]) == lower(b[k]));
        lemma_same_mark(a[k], b[k]);
    }
    assert(a.subrange(i, end) =~= b.subrange(i, end));
}

proof fn lemma_spaces_alike(a: Seq<char>, b: Seq<char>, i: int)
    requires
        alike(a, b),
        0 <= i <= a.len(),
    ensures
        skip_space(a, i) == skip_space(b, i),
        i <= skip_space(a, i) <= a.len(),
    decreases a.len() - i,
{
    if i < a.len() {
        lemma_same_mark(a[i], b[i]);
        if is_space(a[i]) {
            lemma_spaces_alike(a, b, i + 1);
        }
    }
}

proof fn lemma_mod_alike(a: Seq<char>, b: Seq<char>, i: int, count: u32, sides: u32)
    requires
        alike(a, b),
        0 <= i <= a.len(),
    ensures
        mod_at(a, i, count, sides) == mod_at(b, i, count, sides),
{
    if i < a.len() {
        lemma_same_mark(a[i], b[i]);
        lemma_digits_alike(a, b, i + 1);
        if i + 1 < a.len() {
            assert(lower(a[i + 1]) == lower(b[i + 1]));
            lemma_same_mark(a[i + 1], b[i + 1]);
            lemma_digits_alike(a, b, i + 2);
        }
    }
}

proof fn lemma_mods_alike(a: Seq<char>, b: Seq<char>, i: int, count: u32, sides: u32)
    requires
        alike(a, b),
        0 <= i <= a.len(),
    ensures
        mods_at(a, i, count, sides) == mods_at(b, i, count, sides),
    decreases a.len() - i,
{
    lemma_mod_alike(a, b, i, count, sides);
    lemma_mod_advances(a, i, count, sides);
    if let Some(Ok((m, end))) = mod_at(a, i, count, sides) {
        lemma_mods_alike(a, b, end, count, sides);
    }
}

proof fn lemma_dice_alike(a: Seq<char>, b: Seq<char>, i: int, d: int, thrown: nat)
    requires
        alike(a, b),
        0 <= i <= d < a.len(),
        d == digits_end(a, i),
    ensures
        dice_at(a, i, d, thrown) == dice_at(b, i, d, thrown),
{
    lemma_digits_alike(a, b, i);
    lemma_digits_alike(a, b, d + 1);
    lemma_digits_end(a, d + 1);
    if d + 1 < a.len() {
        assert(lower(a[d + 1]) == lower(b[d + 1]));
        lemma_same_mark(a[d + 1], b[d + 1]);
    }
    assert(sides_at(a, d + 1) == sides_at(b, d + 1));
    let (written, end) = sides_at(a, d + 1);
    let count = if i == d {
        1
    } else {
        number(a.subrange(i, d))
    };
    lemma_mods_alike(a, b, end, count as u32, number(written) as u32);
}

proof fn lemma_target_alike(a: Seq<char>, b: Seq<char>, i: int)
    requires
        alike(a, b),
        0 <= i <= a.len(),
    ensures
        target_at(a, i) is Ok == target_at(b, i) is Ok,
        target_at(a, i) is Ok ==> target_at(a, i) == target_at(b, i),
{
    lemma_spaces_alike(a, b, i);
    let at = skip_space(a, i);
    if at < a.len() {
        lemma_same_mark(a[at], b[at]);
    }
    let from = past_sign(a, at);
    lemma_digits_alike(a, b, from);
    lemma_digits_end(a, from);
    lemma_spaces_alike(a, b, digits_end(a, from));
}

proof fn lemma_roll_alike(a: Seq<char>, b: Seq<char>, i: int, p: Progress)
    requires
        alike(a, b),
        0 <= i <= a.len(),
    ensures
        roll_from(a, i, p) is Ok == roll_from(b, i, p) is Ok,
        roll_from(a, i, p) is Ok ==> roll_from(a, i, p) == roll_from(b, i, p),
    decreases a.len() - i,
{
    let d = digits_end(a, i);
    lemma_digits_end(a, i);
    lemma_digits_alike(a, b, i);
    if i < a.len() {
        lemma_same_mark(a[i], b[i]);
        if i + 1 < a.len() {
            assert(lower(a[i + 1]) == lower(b[i + 1]));
        }
        assert(stake_word(a, i) == stake_word(b, i));
        if d < a.len() {
            assert(lower(a[d]) == lower(b[d]));
            lemma_same_mark(a[d], b[d]);
        }
        if is_space(a[i]) || a[i] == ',' {
            lemma_roll_alike(a, b, i + 1, p);
        } else if a[i] == '+' {
            lemma_roll_alike(a, b, i + 1, (Progress { minus: false, ..p }));
        } else if a[i] == '-' {
            lemma_roll_alike(a, b, i + 1, (Progress { minus: true, ..p }));
        } else if stake_word(a, i) > 0 {
            lemma_target_alike(a, b, i + stake_word(a, i));
        } else if d < a.len() && (a[d] == 'd' || a[d] == 'D') {
            lemma_dice_advances(a, i, d, p.thrown);
            lemma_dice_alike(a, b, i, d, p.thrown);
            if let Ok((t, end)) = dice_at(a, i, d, p.thrown) {
                lemma_roll_alike(
                    a,
                    b,
                    end,
                    (Progress {
                        terms: p.terms.push(t),
                        thrown: p.thrown + t.count as nat,
                        minus: false,
                        begun: true,
                        ..p
                    }),
                );
            }
        } else if d > i {
            let sum = flat_sum(p, a.subrange(i, d));
            lemma_roll_alike(a, b, d, (Progress { modifier: sum, minus: false, begun: true, ..p }));
        }
    }
}

/// Capital letters read as small ones: two texts that differ in nothing but case ask
/// for the same roll, or are both refused.
pub proof fn case_does_not_matter(a: Seq<char>, b: Seq<char>)
    requires
        alike(a, b),
    ensures
        parsed(a) is Ok == parsed(b) is Ok,
        parsed(a) is Ok ==> parsed(a) == parsed(b),
{
    lemma_roll_alike(
        a,
        b,
        0,
        (Progress {
            terms: Seq::empty(),
            thrown: 0,
            modifier: 0,
            minus: false,
            begun: false,
        }),
    );
}

/// Where an expression begins.
pub open spec fn at_first() -> Progress {
    Progress { terms: Seq::empty(), thrown: 0, modifier: 0, minus: false, begun: false }
}

/// Whether `s` is one dice term without modifiers: a count or none, `d`, and sides.
pub open spec fn plain_term(s: Seq<char>) -> bool {
    let d = digits_end(s, 0);
    &&& d + 1 < s.len()
    &&& s[d] == 'd' || s[d] == 'D'
    &&& sides_at(s, d + 1).1 == s.len()
}

/// Whether `sep` parts two dice terms of which the second is written `b`: commas, blanks
/// and signs in any number, or nothing where `b` has no count to run into.
pub open spec fn parts_terms(sep: Seq<char>, b: Seq<char>) -> bool {
    &&& forall|k: int|
        0 <= k < sep.len() ==> is_space(#[trigger] sep[k]) || sep[k] == ',' || sep[k] == '+'
            || sep[k] == '-'
    &&& sep.len() == 0 ==> b[0] == 'd' || b[0] == 'D'
}

/// A plain term reads in a longer text as it does alone, where what follows is no part
/// of it.
proof fn lemma_plain_term(pre: Seq<char>, a: Seq<char>, post: Seq<char>, thrown: nat)
    requires
        plain_term(a),
        post.len() > 0 ==> is_space(post[0]) || post[0] == ',' || post[0] == '+' || post[0] == '-'
            || ((post[0] == 'd' || post[0] == 'D') && post.len() > 1 && (is_digit(post[1]) || post[1]
            == '%')),
    ensures
        ({
            let s = pre + a + post;
            let i = pre.len() as int;
            let d = digits_end(a, 0);
            &&& digits_end(s, i) == i + d
            &&& s[i] == a[0]
            &&& s[i + d] == a[d]
            &&& is_digit(a[0]) || a[0] == 'd' || a[0] == 'D'
            &&& stake_word(s, i) == 0
            &&& match dice_at(a, 0, d, thrown) {
                Err(e) => dice_at(s, i, i + d, thrown) == Err::<(TermView, int), _>(e),
                Ok((t, end)) => dice_at(s, i, i + d, thrown) == Ok::<_, Seq<char>>(
                    (t, i + a.len()),
                ),
            }
        }),
{
    let s = pre + a + post;
    let i = pre.len() as int;
    let d = digits_end(a, 0);
    lemma_digits_end(a, 0);
    lemma_digits_end(a, d + 1);
    assert forall|k: int| 0 <= k < a.len() implies #[trigger] s[i + k] == a[k] by {}
    assert forall|k: int| i <= k < i + d implies is_digit(#[trigger] s[k]) by {
        assert(s[k] == a[k - i]);
    }
    assert(s[i + d] == a[d]);
    lemma_digits_end_is(s, i, i + d);
    assert(s[i + 0] == a[0]);
    assert(s.subrange(i, i + d) =~= a.subrange(0, d));
    let end = i + a.len() as int;
    if end < s.len() {
        assert(s[end] == post[0]);
        if end + 1 < s.len() {
            assert(s[end + 1] == post[1]);
        }
    }
    assert(s[i + (d + 1)] == a[d + 1]);
    if a[d + 1] != '%' {
        assert forall|k: int| i + d + 1 <= k < end implies is_digit(#[trigger] s[k]) by {
            assert(s[k] == a[k - i]);
        }
        lemma_digits_end_is(s, i + d + 1, end);
        assert(s.subrange(i + d + 1, end) =~= a.subrange(d + 1, a.len() as int));
    }
    assert(sides_at(s, i + d + 1) == (sides_at(a, d + 1).0, end));
    assert forall|count: u32, sides: u32| #[trigger] mods_at(s, end, count, sides) == Ok::<_, Seq<
        char,
    >>((Seq::<TermMod>::empty(), end)) by {
        assert(mod_at(s, end, count, sides) is None);
    }
    assert forall|count: u32, sides: u32| #[trigger]
        mods_at(a, a.len() as int, count, sides) == Ok::<_, Seq<char>>(
        (Seq::<TermMod>::empty(), a.len() as int),
    ) by {
        assert(mod_at(a, a.len() as int, count, sides) is None);
    }
}

/// Commas, blanks and signs are passed over; at most they leave a sign behind.
pub proof fn lemma_pass_separators(s: Seq<char>, i: int, j: int, p: Progress) -> (minus: bool)
    requires
        0 <= i <= j <= s.len(),
        forall|k: int|
            i <= k < j ==> is_space(#[trigger] s[k]) || s[k] == ',' || s[k] == '+' || s[k] == '-',
    ensures
        roll_from(s, i, p) == roll_from(s, j, (Progress { minus, ..p })),
    decreases j - i,
{
    if i >= j {
        p.minus
    } else if is_space(s[i]) || s[i] == ',' {
        lemma_pass_separators(s, i + 1, j, p)
    } else if s[i] == '+' {
        lemma_pass_separators(s, i + 1, j, (Progress { minus: false, ..p }))
    } else {
        lemma_pass_separators(s, i + 1, j, (Progress { minus: true, ..p }))
    }
}

/// What two plain dice terms ask for together.
spec fn together(a: Seq<char>, b: Seq<char>) -> Result<RollView, Seq<char>> {
    match dice_at(a, 0, digits_end(a, 0), 0) {
        Err(e) => Err(e),
        Ok((x, _)) => match dice_at(b, 0, digits_end(b, 0), x.count as nat) {
            Err(e) => Err(e),
            Ok((y, _)) => Ok((RollView { terms: seq![x, y], modifier: 0, stake: None })),
        },
    }
}

/// What one plain dice term asks for.
proof fn lemma_alone(a: Seq<char>)
    requires
        plain_term(a),
    ensures
        match dice_at(a, 0, digits_end(a, 0), 0) {
            Err(e) => parsed(a) == Err::<RollView, _>(e),
            Ok((t, _)) => parsed(a) == Ok::<_, Seq<char>>(
                (RollView { terms: seq![t], modifier: 0, stake: None }),
            ),
        },
{
    let none = Seq::<char>::empty();
    let d = digits_end(a, 0);
    lemma_plain_term(none, a, none, 0);
    assert(none + a + none == a);
    if let Ok((t, end)) = dice_at(a, 0, d, 0) {
        let q = Progress {
            terms: at_first().terms.push(t),
            thrown: t.count as nat,
            minus: false,
            begun: true,
            ..at_first()
        };
        assert(q.terms =~= seq![t]);
        assert(roll_from(a, a.len() as int, q) == finished(q, None));
    }
    assert(parsed(a) == roll_from(a, 0, at_first()));
}

proof fn lemma_together(a: Seq<char>, sep: Seq<char>, b: Seq<char>)
    requires
        plain_term(a),
        plain_term(b),
        parts_terms(sep, b),
    ensures
        parsed(a + sep + b) == together(a, b),
{
    let none = Seq::<char>::empty();
    let s = a + sep + b;
    let post = sep + b;
    let i = a.len() as int;
    let j = i + sep.len() as int;
    let da = digits_end(a, 0);
    let db = digits_end(b, 0);
    lemma_digits_end(b, 0);
    lemma_digits_end(b, db + 1);
    assert(s =~= none + a + post);
    if sep.len() > 0 {
        assert(post[0] == sep[0]);
    } else {
        assert(post =~= b);
        assert(db == 0);
        if b[1] != '%' {
            assert(is_digit(b[1]));
        }
    }
    lemma_plain_term(none, a, post, 0);
    let p = at_first();
    assert(parsed(s) == roll_from(s, 0, p));
    if let Ok((x, _)) = dice_at(a, 0, da, 0) {
        let q = Progress {
            terms: p.terms.push(x),
            thrown: x.count as nat,
            minus: false,
            begun: true,
            ..p
        };
        assert(roll_from(s, 0, p) == roll_from(s, i, q));
        assert forall|k: int| i <= k < j implies is_space(#[trigger] s[k]) || s[k] == ',' || s[k]
            == '+' || s[k] == '-' by {
            assert(s[k] == sep[k - i]);
        }
        let minus = lemma_pass_separators(s, i, j, q);
        let r = Progress { minus, ..q };
        lemma_plain_term(a + sep, b, none, x.count as nat);
        assert(s =~= a + sep + b + none);
        if let Ok((y, _)) = dice_at(b, 0, db, x.count as nat) {
            let t = Progress {
                terms: r.terms.push(y),
                thrown: r.thrown + y.count as nat,
                minus: false,
                begun: true,
                ..r
            };
            assert(t.terms =~= seq![x, y]);
            assert(roll_from(s, s.len() as int, t) == finished(t, None));
            assert(roll_from(s, j, r) == roll_from(s, s.len() as int, t));
        }
    }
}

/// It does not matter what parts two plain dice terms: `+`, `,`, blanks, even `-`, for
/// dice are always added, or nothing where the second has no count. They ask for the
/// dice of the one and then those of the other.
pub proof fn separators_read_alike(a: Seq<char>, sep: Seq<char>, other: Seq<char>, b: Seq<char>)
    requires
        plain_term(a),
        plain_term(b),
        parts_terms(sep, b),
        parts_terms(other, b),
    ensures
        parsed(a + sep + b) == parsed(a + other + b),
        parsed(a + sep + b) matches Ok(r) ==> {
            &&& r.modifier == 0
            &&& r.stake is None
            &&& parsed(a) is Ok
            &&& parsed(b) is Ok
            &&& r.terms == parsed(a)->Ok_0.terms + parsed(b)->Ok_0.terms
            &&& r.terms.len() == 2
        },
{
    lemma_together(a, sep, b);
    lemma_together(a, other, b);
    lemma_alone(a);
    lemma_alone(b);
    if let Ok((x, _)) = dice_at(a, 0, digits_end(a, 0), 0) {
        if let Ok((y, _)) = dice_at(b, 0, digits_end(b, 0), x.count as nat) {
            assert(dice_at(b, 0, digits_end(b, 0), 0) is Ok);
            assert(seq![x] + seq![y] =~= seq![x, y]);
        }
    }
}

} // verus!
