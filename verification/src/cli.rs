//! The command line: what is asked for, and what is printed in answer.

use crate::notation::{parsed_rolls_are_capped, term_allowed};
use crate::parse::{parse, parsed, stake_text, Compare, RollView, Stake, TermMod, TermView};
use crate::rng::{continues, generator, seeded_faces, upcoming};
use crate::roll::{
    castable, concluded, mod_text, mods_text, notation, rolls_follow_each_other, subtotals,
    terms_are_resolved_in_order, fairly_thrown, lemma_fairly_thrown, outcome_fits, playable,
    playable_rolls_fit, pools, resolved, sum_least, sum_most, try_evaluate, verdict_text,
    verdict_words, Outcome, OutcomeDie, OutcomeTerm, OutcomeTermView, OutcomeView,
};
use crate::text::{
    a_minus_marks_the_negative, columns_are_filled_with_blanks, cuts, dec, dec_int,
    decimals_are_canonical, is_space, join, joined, lowered, padded, push_dec, push_int, push_lower,
    push_padded, texts, trim, trimmed, trimming_takes_the_ends,
};
use rand::rngs::StdRng;
use vstd::prelude::*;

verus! {

/// What the command line asks for.
#[derive(Debug)]
pub struct Cli {
    /// The words of the dice expression.
    pub expr: Vec<String>,
    /// Print the total and exit.
    pub print: bool,
    /// Print a breakdown and exit.
    pub verbose: bool,
    /// Print the outcome as JSON and exit.
    pub json: bool,
    /// The seed of the dice.
    pub seed: Option<u64>,
    /// Start without sound.
    pub mute: bool,
}

/// What the program does with a command line.
#[derive(Debug, Clone, Copy, PartialEq, Eq, Structural)]
pub enum Plan {
    /// Roll once, print, and exit.
    OneShot,
    /// Complain that there is nothing to roll.
    Usage,
    /// Open the arena.
    Interactive,
}

/// What the program says, and how it exits.
#[derive(Debug, Clone, PartialEq, Eq)]
pub struct Report {
    /// What goes to the output. JSON is left to the caller.
    pub out: Option<String>,
    /// What goes to the error output.
    pub err: Option<String>,
    pub code: i32,
}

/// Why there is no outcome.
#[derive(Debug, Clone, PartialEq, Eq)]
pub enum Mishap {
    /// The expression does not read.
    Complaint(String),
    /// An `i32` does not hold what the dice come to.
    Overflow,
    /// The system has no entropy to pick dice with.
    NoEntropy,
}

impl Cli {
    /// The words joined by blanks, without blanks at the ends.
    pub open spec fn expression_text(&self) -> Seq<char> {
        trimmed(joined(texts(self.expr@), " "@))
    }

    /// The dice expression as one text.
    pub fn expression(&self) -> (s: String)
        ensures
            s@ == self.expression_text(),
    {
        trim(join(&self.expr, " ").as_str())
    }

    /// Whether the arena stays closed: an output flag is given, or no terminal is
    /// there to open it in.
    pub open spec fn prints(&self, terminal: bool) -> bool {
        self.print || self.json || self.verbose || !terminal
    }

    /// What the program does, where `terminal` says whether its output is one.
    pub fn plan(&self, terminal: bool) -> (p: Plan)
        ensures
            p is Interactive <==> !self.print && !self.verbose && !self.json && terminal,
            p == (if !self.prints(terminal) {
                Plan::Interactive
            } else if self.expression_text().len() == 0 {
                Plan::Usage
            } else {
                Plan::OneShot
            }),
    {
        if self.print || self.json || self.verbose || !terminal {
            if self.expression().as_str().is_empty() {
                Plan::Usage
            } else {
                Plan::OneShot
            }
        } else {
            Plan::Interactive
        }
    }

    /// The exit code after a roll has been printed: under `print` and `verbose` a
    /// missed stake is a failure, but never where JSON is printed.
    pub open spec fn code_after(&self, outcome: Outcome) -> int {
        if !self.json && (self.print || self.verbose) && outcome.success == Some(false) {
            1
        } else {
            0
        }
    }

    /// The text to print after a roll, or nothing where JSON is asked for.
    pub open spec fn text_after(&self, outcome: Outcome) -> Option<Seq<char>> {
        if self.json {
            None
        } else if self.verbose {
            Some(verbose(outcome@))
        } else {
            Some(dec_int(outcome.total as int) + "\n"@)
        }
    }

    /// The exit code after the roll has been printed.
    pub fn exit_code(&self, outcome: &Outcome) -> (code: i32)
        ensures
            code == self.code_after(*outcome),
    {
        let missed = match outcome.success {
            Some(success) => !success,
            None => false,
        };
        if !self.json && (self.print || self.verbose) && missed {
            1
        } else {
            0
        }
    }

    /// The text to print, or nothing where JSON is asked for.
    pub fn answer(&self, outcome: &Outcome) -> (s: Option<String>)
        ensures
            match s {
                None => self.text_after(*outcome) is None,
                Some(s) => self.text_after(*outcome) == Some(s@),
            },
    {
        if self.json {
            None
        } else if self.verbose {
            Some(format_verbose(outcome))
        } else {
            let mut s = String::new();
            push_int(&mut s, outcome.total);
            s.append("\n");
            assert(s@ == dec_int(outcome.total as int) + "\n"@);
            Some(s)
        }
    }

    /// What the program says of a roll, and how it exits: a complaint goes to the
    /// error output alone and exits with 2, which nothing else does.
    pub fn report(&self, res: &Result<Outcome, String>) -> (r: Report)
        ensures
            r.code == 2 <==> res is Err,
            match *res {
                Err(e) => {
                    &&& r.code == 2
                    &&& r.out is None
                    &&& r.err matches Some(said) && said@ == "roll: "@ + e@ + "\n"@
                },
                Ok(o) => {
                    &&& r.code == self.code_after(o)
                    &&& r.err is None
                    &&& match r.out {
                        None => self.text_after(o) is None,
                        Some(s) => self.text_after(o) == Some(s@),
                    }
                },
            },
    {
        match res {
            Err(e) => {
                let mut said = "roll: ".to_owned();
                said.append(e.as_str());
                said.append("\n");
                Report { out: None, err: Some(said), code: 2 }
            },
            Ok(o) => Report { out: self.answer(o), err: None, code: self.exit_code(o) },
        }
    }

    /// Reads the expression and throws it once: with the dice of the seed where one
    /// is given, else with dice that no one can foresee.
    pub fn roll(&self, expr: &str) -> (res: Result<Outcome, Mishap>)
        ensures
            match parsed(expr@) {
                Err(e) => res matches Err(Mishap::Complaint(said)) && said@ == e,
                Ok(r) => {
                    &&& self.seed matches Some(seed) ==> came_out(
                        expr@,
                        r,
                        seeded_faces(seed),
                        res,
                    )
                    &&& self.seed is None ==> res is Err && res->Err_0 is NoEntropy || exists|
                        rng: StdRng,
                    | came_out(expr@, r, #[trigger] upcoming(rng), res)
                },
            },
    {
        let roll = match parse(expr) {
            Err(e) => {
                return Err(Mishap::Complaint(e));
            },
            Ok(roll) => roll,
        };
        match generator(self.seed) {
            Err(_) => Err(Mishap::NoEntropy),
            Ok(start) => {
                let ghost begun = start;
                let mut rng = start;
                let res = roll_once(expr, &mut rng);
                assert(came_out(expr@, roll@, upcoming(begun), res));
                res
            },
        }
    }
}

/// Whether `res` is what comes of throwing the roll `r` once with dice drawn from
/// `faces`: an outcome that shows fairly thrown pools, or none where an `i32` does not
/// hold what they come to. Where it holds every total that the roll can come to, there
/// always is an outcome, within that range.
pub open spec fn came_out(
    expr: Seq<char>,
    r: RollView,
    faces: Map<Seq<u32>, u32>,
    res: Result<Outcome, Mishap>,
) -> bool {
    let terms = resolved(r.terms, faces).0;
    match res {
        Ok(o) => {
            &&& outcome_fits(r, terms)
            &&& o@ == concluded(expr, r, terms)
            &&& fairly_thrown(r.terms, o@)
            &&& playable(r) ==> r.modifier + sum_least(r.terms) <= o.total <= r.modifier
                + sum_most(r.terms)
        },
        Err(Mishap::Overflow) => !outcome_fits(r, terms) && !playable(r),
        Err(_) => false,
    }
}

/// Whether the expression, if it reads at all, asks for a roll that can be thrown.
pub open spec fn can_throw(expr: Seq<char>) -> bool {
    parsed(expr) matches Ok(r) ==> castable(r.terms)
}

/// Whether the expression, if it reads at all, asks for a roll that can be thrown.
pub fn throwable(expr: &str) -> (r: bool)
    ensures
        r == can_throw(expr@),
{
    match parse(expr) {
        Err(_) => true,
        Ok(roll) => roll.casts(),
    }
}

/// Reads the expression and throws it once with the dice that `rng` holds.
pub fn roll_once(expr: &str, rng: &mut StdRng) -> (res: Result<Outcome, Mishap>)
    ensures
        match parsed(expr@) {
            Err(e) => {
                &&& res matches Err(Mishap::Complaint(said)) && said@ == e
                &&& *final(rng) == *old(rng)
            },
            Ok(r) => {
                &&& came_out(expr@, r, upcoming(*old(rng)), res)
                &&& continues(
                    upcoming(*final(rng)),
                    upcoming(*old(rng)),
                    resolved(r.terms, upcoming(*old(rng))).1,
                )
            },
        },
{
    let ghost store = upcoming(*rng);
    match parse(expr) {
        Err(e) => Err(Mishap::Complaint(e)),
        Ok(roll) => {
            proof {
                parsed_rolls_are_capped(expr@);
                assert forall|k: int| 0 <= k < roll@.terms.len() implies (
                #[trigger] roll@.terms[k]).sides >= 1 by {
                    assert(term_allowed(roll@.terms[k]));
                }
            }
            let outcome = try_evaluate(expr, &roll, rng);
            proof {
                let shown = pools(roll@.terms, store).0;
                if playable(roll@) {
                    playable_rolls_fit(roll@, shown);
                }
                if outcome is Some {
                    lemma_fairly_thrown(roll@.terms, shown, outcome->0@);
                }
            }
            match outcome {
                Some(outcome) => Ok(outcome),
                None => Err(Mishap::Overflow),
            }
        },
    }
}

/// One die in a breakdown: an added one with a bang, a dropped one in brackets.
pub open spec fn die_text(d: OutcomeDie) -> Seq<char> {
    let face = if d.exploded {
        dec(d.value as nat) + "!"@
    } else {
        dec(d.value as nat)
    };
    if d.kept {
        face
    } else {
        "["@ + face + "]"@
    }
}

pub open spec fn dice_texts(dice: Seq<OutcomeDie>) -> Seq<Seq<char>> {
    Seq::new(dice.len(), |k: int| die_text(dice[k]))
}

/// A line of a breakdown: a name in its column, and what stands beside it.
pub open spec fn row(name: Seq<char>, rest: Seq<char>) -> Seq<char> {
    "  "@ + padded(name, 10) + " "@ + rest + "\n"@
}

pub open spec fn term_row(t: OutcomeTermView) -> Seq<char> {
    row(
        t.notation,
        joined(dice_texts(t.dice), " "@) + (if t.multiplier != 1 {
            "  ×"@ + dec_int(t.multiplier)
        } else {
            Seq::empty()
        }) + "  = "@ + dec_int(t.subtotal),
    )
}

pub open spec fn term_rows(terms: Seq<OutcomeTermView>) -> Seq<char>
    decreases terms.len(),
{
    if terms.len() == 0 {
        Seq::empty()
    } else {
        term_rows(terms.drop_last()) + term_row(terms.last())
    }
}

pub open spec fn modifier_row(modifier: i32) -> Seq<char> {
    if modifier > 0 {
        row("modifier"@, "+"@ + dec(modifier as nat))
    } else if modifier < 0 {
        row("modifier"@, "−"@ + dec((-modifier) as nat))
    } else {
        Seq::empty()
    }
}

pub open spec fn stake_row(o: OutcomeView) -> Seq<char> {
    match (o.target, o.goal, o.success, o.margin) {
        (Some(target), Some(goal), Some(success), Some(margin)) => row(
            stake_text((Stake { target, goal })),
            lowered(verdict_words(success, margin as int)),
        ),
        _ => Seq::empty(),
    }
}

/// The breakdown of an outcome: a line for each term, for the modifier if there is
/// one, for the total, and for the verdict if the roll is staked.
pub open spec fn verbose(o: OutcomeView) -> Seq<char> {
    term_rows(o.terms) + modifier_row(o.modifier) + row("total"@, dec_int(o.total)) + stake_row(o)
}

fn push_row(s: &mut String, name: &str, rest: &str)
    ensures
        final(s)@ == old(s)@ + row(name@, rest@),
{
    s.append("  ");
    push_padded(s, name, 10);
    s.append(" ");
    s.append(rest);
    s.append("\n");
    assert(s@ == old(s)@ + row(name@, rest@));
}

fn format_die(d: &OutcomeDie) -> (s: String)
    ensures
        s@ == die_text(*d),
{
    let mut s = String::new();
    if !d.kept {
        s.append("[");
    }
    push_dec(&mut s, d.value as u64);
    if d.exploded {
        s.append("!");
    }
    if !d.kept {
        s.append("]");
    }
    assert(s@ == die_text(*d));
    s
}

fn push_term(s: &mut String, t: &OutcomeTerm)
    ensures
        final(s)@ == old(s)@ + term_row(t@),
{
    let mut faces: Vec<String> = Vec::new();
    let mut k: usize = 0;
    while k < t.dice.len()
        invariant
            k <= t.dice@.len(),
            texts(faces@) == dice_texts(t.dice@).take(k as int),
            faces@.len() == k,
        decreases t.dice@.len() - k,
    {
        let ghost before = texts(faces@);
        let face = format_die(&t.dice[k]);
        faces.push(face);
        k += 1;
        assert(texts(faces@) == before.push(face@));
        assert(texts(faces@) == dice_texts(t.dice@).take(k as int));
    }
    assert(texts(faces@) == dice_texts(t.dice@));
    let mut rest = join(&faces, " ");
    if t.multiplier != 1 {
        rest.append("  ×");
        push_int(&mut rest, t.multiplier);
    }
    rest.append("  = ");
    push_int(&mut rest, t.subtotal);
    proof {
        let shown = joined(dice_texts(t.dice@), " "@);
        let times = if t.multiplier != 1 {
            "  ×"@ + dec_int(t.multiplier as int)
        } else {
            Seq::empty()
        };
        assert(rest@ == shown + times + "  = "@ + dec_int(t.subtotal as int));
    }
    push_row(s, t.notation.as_str(), rest.as_str());
}

/// The breakdown of an outcome.
pub fn format_verbose(o: &Outcome) -> (s: String)
    ensures
        s@ == verbose(o@),
{
    let ghost views = o@.terms;
    let mut s = String::new();
    let mut k: usize = 0;
    assert(views.take(0) == Seq::<OutcomeTermView>::empty());
    while k < o.terms.len()
        invariant
            k <= o.terms@.len(),
            views == o@.terms,
            s@ == term_rows(views.take(k as int)),
        decreases o.terms@.len() - k,
    {
        push_term(&mut s, &o.terms[k]);
        assert(views.take(k + 1).drop_last() == views.take(k as int));
        k += 1;
    }
    assert(views.take(k as int) == views);
    if o.modifier != 0 {
        let mut rest = String::new();
        if o.modifier > 0 {
            rest.append("+");
            push_dec(&mut rest, o.modifier as u64);
            assert(rest@ == "+"@ + dec(o.modifier as nat));
        } else {
            rest.append("−");
            push_dec(&mut rest, (-(o.modifier as i64)) as u64);
            assert(rest@ == "−"@ + dec((-o.modifier) as nat));
        }
        push_row(&mut s, "modifier", rest.as_str());
    }
    assert(s@ == term_rows(views) + modifier_row(o.modifier));
    let mut total = String::new();
    push_int(&mut total, o.total);
    assert(total@ == dec_int(o.total as int));
    push_row(&mut s, "total", total.as_str());
    if let (Some(target), Some(goal), Some(success), Some(margin)) = (
        o.target,
        o.goal,
        o.success,
        o.margin,
    ) {
        let label = (Stake { target, goal }).label();
        let mut words = String::new();
        push_lower(&mut words, verdict_text(success, margin).as_str());
        assert(words@ == lowered(verdict_words(success, margin as int)));
        push_row(&mut s, label.as_str(), words.as_str());
    } else {
        assert(stake_row(o@) == Seq::<char>::empty());
    }
    assert(s@ == verbose(o@));
    s
}

/// The arena opens where none of the output flags is given and there is a terminal to
/// open it in, and only there. Each flag alone keeps it closed, and so does a missing
/// terminal.
pub proof fn each_flag_keeps_the_arena_closed(cli: Cli, terminal: bool)
    ensures
        !cli.prints(terminal) <==> !cli.print && !cli.verbose && !cli.json && terminal,
{
}

/// A missed stake fails the program where the total or the breakdown is printed, and
/// nothing else does.
pub proof fn missed_stakes_fail_where_text_is_printed(cli: Cli, outcome: Outcome)
    ensures
        cli.code_after(outcome) == 0 || cli.code_after(outcome) == 1,
        cli.json ==> cli.code_after(outcome) == 0,
        !cli.print && !cli.verbose ==> cli.code_after(outcome) == 0,
        outcome.success != Some(false) ==> cli.code_after(outcome) == 0,
        !cli.json && cli.print && outcome.success == Some(false) ==> cli.code_after(outcome) == 1,
        !cli.json && cli.verbose && outcome.success == Some(false) ==> cli.code_after(outcome) == 1,
{
}

/// JSON is left to the caller whatever else is asked for; the breakdown goes before the
/// bare total, which stands on a line of its own.
pub proof fn json_goes_before_the_breakdown(cli: Cli, outcome: Outcome)
    ensures
        cli.json <==> cli.text_after(outcome) is None,
        !cli.json && cli.verbose ==> cli.text_after(outcome) == Some(verbose(outcome@)),
        !cli.json && !cli.verbose ==> cli.text_after(outcome) == Some(
            dec_int(outcome.total as int) + "\n"@,
        ),
{
}

/// The words of the command line make one expression, as if they had been typed with one
/// blank between them, and blanks at its ends do not count.
pub proof fn words_make_one_expression(cli: Cli)
    ensures
        exists|a: int, b: int|
            #[trigger] cuts(joined(texts(cli.expr@), " "@), a, b, cli.expression_text()),
        cli.expression_text().len() > 0 ==> !is_space(cli.expression_text()[0]) && !is_space(
            cli.expression_text().last(),
        ),
{
    trimming_takes_the_ends(joined(texts(cli.expr@), " "@));
}

/// A die shows its face, an added one with a bang after it, a dropped one in brackets
/// around both.
pub proof fn brackets_mark_the_dropped(d: OutcomeDie)
    ensures
        d.kept && !d.exploded ==> die_text(d) == dec(d.value as nat),
        d.kept && d.exploded ==> die_text(d) == dec(d.value as nat) + "!"@,
        !d.kept && !d.exploded ==> die_text(d) == "["@ + dec(d.value as nat) + "]"@,
        !d.kept && d.exploded ==> die_text(d) == "["@ + (dec(d.value as nat) + "!"@) + "]"@,
{
}

/// Each die of a term is shown, in order.
pub proof fn each_die_is_shown(dice: Seq<OutcomeDie>, k: int)
    requires
        0 <= k < dice.len(),
    ensures
        dice_texts(dice).len() == dice.len(),
        dice_texts(dice)[k] == die_text(dice[k]),
{
}

/// The lines of a text: what stands before its first line break, between each and the
/// next, and after the last.
pub open spec fn lines_of(s: Seq<char>) -> Seq<Seq<char>>
    decreases s.len(),
{
    if s.len() == 0 {
        seq![Seq::empty()]
    } else {
        let before = lines_of(s.drop_last());
        if s.last() == '\n' {
            before.push(Seq::empty())
        } else {
            before.drop_last().push(before.last().push(s.last()))
        }
    }
}

/// Whether a text stands on one line.
pub open spec fn unbroken(s: Seq<char>) -> bool {
    forall|k: int| 0 <= k < s.len() ==> #[trigger] s[k] != '\n'
}

/// The lines of a text are the text: with the breaks between them they give it back, and
/// none of them holds a break.
pub proof fn lines_give_the_text_back(s: Seq<char>)
    ensures
        lines_of(s).len() >= 1,
        joined(lines_of(s), seq!['\n']) == s,
        forall|k: int| 0 <= k < lines_of(s).len() ==> unbroken(#[trigger] lines_of(s)[k]),
    decreases s.len(),
{
    let all = lines_of(s);
    if s.len() == 0 {
        assert(all.drop_last() =~= Seq::<Seq<char>>::empty());
        assert(joined(all, seq!['\n']) =~= s);
    } else {
        let before = lines_of(s.drop_last());
        lines_give_the_text_back(s.drop_last());
        if s.last() == '\n' {
            assert(all.drop_last() =~= before);
            assert(joined(all, seq!['\n']) =~= s);
        } else {
            let line = before.last().push(s.last());
            assert(all.drop_last() =~= before.drop_last());
            assert(all.last() == line);
            if before.len() == 1 {
                assert(before.drop_last() =~= Seq::<Seq<char>>::empty());
                assert(joined(before, seq!['\n']) == before.last());
                assert(joined(all, seq!['\n']) == line);
            } else {
                assert(joined(all, seq!['\n']) == joined(before.drop_last(), seq!['\n']) + seq!['\n']
                    + line);
                assert(joined(before, seq!['\n']) == joined(before.drop_last(), seq!['\n'])
                    + seq!['\n'] + before.last());
            }
            assert(joined(all, seq!['\n']) =~= s.drop_last().push(s.last()));
            assert(unbroken(before.last()));
            assert forall|k: int| 0 <= k < all.len() implies unbroken(#[trigger] all[k]) by {
                if k < all.len() - 1 {
                    assert(all[k] == before[k]);
                }
            }
        }
    }
}

proof fn lemma_line_goes_on(s: Seq<char>, more: Seq<char>)
    requires
        unbroken(more),
    ensures
        lines_of(s + more) == lines_of(s).drop_last().push(lines_of(s).last() + more),
    decreases more.len(),
{
    lines_give_the_text_back(s);
    if more.len() == 0 {
        assert(s + more == s);
        assert(lines_of(s).last() + more =~= lines_of(s).last());
        assert(lines_of(s) =~= lines_of(s).drop_last().push(lines_of(s).last() + more));
    } else {
        let less = more.drop_last();
        assert(unbroken(less)) by {
            assert forall|k: int| 0 <= k < less.len() implies #[trigger] less[k] != '\n' by {
                assert(more[k] != '\n');
            }
        }
        lemma_line_goes_on(s, less);
        assert((s + more).drop_last() == s + less);
        assert((s + more).last() == more.last());
        assert(more.last() != '\n');
        let before = lines_of(s + less);
        assert(before.drop_last() =~= lines_of(s).drop_last());
        assert(before.last().push(more.last()) =~= lines_of(s).last() + more);
    }
}

proof fn lemma_line_ends(s: Seq<char>, line: Seq<char>, more: Seq<char>)
    requires
        lines_of(s).last() == Seq::<char>::empty(),
        unbroken(line),
        more == line + "\n"@,
    ensures
        lines_of(s + more) == lines_of(s).drop_last().push(line).push(Seq::empty()),
{
    reveal_strlit("\n");
    lemma_line_goes_on(s, line);
    assert((s + more).drop_last() =~= s + line);
    assert((s + more).last() == '\n');
    assert(Seq::<char>::empty() + line =~= line);
}

proof fn lemma_together_unbroken(a: Seq<char>, b: Seq<char>)
    requires
        unbroken(a),
        unbroken(b),
    ensures
        unbroken(a + b),
{
    assert forall|k: int| 0 <= k < (a + b).len() implies #[trigger] (a + b)[k] != '\n' by {
        if k < a.len() {
            assert(a[k] != '\n');
        } else {
            assert(b[k - a.len()] != '\n');
        }
    }
}

proof fn lemma_dec_unbroken(n: nat)
    ensures
        unbroken(dec(n)),
{
    decimals_are_canonical(n);
}

proof fn lemma_int_unbroken(i: int)
    ensures
        unbroken(dec_int(i)),
{
    if i < 0 {
        lemma_dec_unbroken((-i) as nat);
        reveal_strlit("-");
        a_minus_marks_the_negative(i);
        lemma_together_unbroken(seq!['-'], dec((-i) as nat));
    } else {
        lemma_dec_unbroken(i as nat);
    }
}

proof fn lemma_joined_unbroken(parts: Seq<Seq<char>>)
    requires
        forall|k: int| 0 <= k < parts.len() ==> unbroken(#[trigger] parts[k]),
    ensures
        unbroken(joined(parts, " "@)),
    decreases parts.len(),
{
    reveal_strlit(" ");
    if parts.len() > 0 {
        assert(unbroken(parts.last()));
        assert forall|k: int| 0 <= k < parts.drop_last().len() implies unbroken(
            #[trigger] parts.drop_last()[k],
        ) by {
            assert(unbroken(parts[k]));
        }
        lemma_joined_unbroken(parts.drop_last());
        lemma_together_unbroken(joined(parts.drop_last(), " "@), " "@);
        lemma_together_unbroken(joined(parts.drop_last(), " "@) + " "@, parts.last());
    }
}

proof fn lemma_dice_unbroken(dice: Seq<OutcomeDie>)
    ensures
        unbroken(joined(dice_texts(dice), " "@)),
{
    reveal_strlit("!");
    reveal_strlit("[");
    reveal_strlit("]");
    assert forall|k: int| 0 <= k < dice_texts(dice).len() implies unbroken(
        #[trigger] dice_texts(dice)[k],
    ) by {
        let d = dice[k];
        lemma_dec_unbroken(d.value as nat);
        lemma_together_unbroken(dec(d.value as nat), "!"@);
        let face = if d.exploded {
            dec(d.value as nat) + "!"@
        } else {
            dec(d.value as nat)
        };
        lemma_together_unbroken("["@, face);
        lemma_together_unbroken("["@ + face, "]"@);
    }
    lemma_joined_unbroken(dice_texts(dice));
}

/// A row without its line break.
spec fn row_line(name: Seq<char>, rest: Seq<char>) -> Seq<char> {
    "  "@ + padded(name, 10) + " "@ + rest
}

proof fn lemma_row_unbroken(name: Seq<char>, rest: Seq<char>)
    requires
        unbroken(name),
        unbroken(rest),
    ensures
        unbroken(row_line(name, rest)),
        row(name, rest) == row_line(name, rest) + "\n"@,
{
    reveal_strlit("  ");
    reveal_strlit(" ");
    assert(unbroken(padded(name, 10))) by {
        assert forall|k: int| 0 <= k < padded(name, 10).len() implies #[trigger] padded(
            name,
            10,
        )[k] != '\n' by {
            columns_are_filled_with_blanks(name, 10, k);
            if k < name.len() {
                assert(name[k] != '\n');
            }
        }
    }
    lemma_together_unbroken("  "@, padded(name, 10));
    lemma_together_unbroken("  "@ + padded(name, 10), " "@);
    lemma_together_unbroken("  "@ + padded(name, 10) + " "@, rest);
}

/// What the breakdown says of a term beside its notation.
spec fn term_rest(t: OutcomeTermView) -> Seq<char> {
    joined(dice_texts(t.dice), " "@) + (if t.multiplier != 1 {
        "  ×"@ + dec_int(t.multiplier)
    } else {
        Seq::empty()
    }) + "  = "@ + dec_int(t.subtotal)
}

proof fn lemma_rest_unbroken(t: OutcomeTermView)
    ensures
        unbroken(term_rest(t)),
{
    reveal_strlit("  ×");
    reveal_strlit("  = ");
    lemma_dice_unbroken(t.dice);
    lemma_int_unbroken(t.multiplier);
    lemma_int_unbroken(t.subtotal);
    lemma_together_unbroken("  ×"@, dec_int(t.multiplier));
    let times = if t.multiplier != 1 {
        "  ×"@ + dec_int(t.multiplier)
    } else {
        Seq::empty()
    };
    lemma_together_unbroken(joined(dice_texts(t.dice), " "@), times);
    lemma_together_unbroken(joined(dice_texts(t.dice), " "@) + times, "  = "@);
    lemma_together_unbroken(
        joined(dice_texts(t.dice), " "@) + times + "  = "@,
        dec_int(t.subtotal),
    );
}

/// Whether each notation stands on one line.
pub open spec fn plainly_named(terms: Seq<OutcomeTermView>) -> bool {
    forall|k: int| 0 <= k < terms.len() ==> unbroken((#[trigger] terms[k]).notation)
}

#[verifier::spinoff_prover]
#[verifier::rlimit(40)]
proof fn lemma_term_lines(terms: Seq<OutcomeTermView>)
    requires
        plainly_named(terms),
    ensures
        lines_of(term_rows(terms)).len() == terms.len() + 1,
        lines_of(term_rows(terms)).last() == Seq::<char>::empty(),
        forall|k: int|
            0 <= k < terms.len() ==> #[trigger] lines_of(term_rows(terms))[k] == row_line(
                terms[k].notation,
                term_rest(terms[k]),
            ),
    decreases terms.len(),
{
    if terms.len() > 0 {
        let less = terms.drop_last();
        let t = terms.last();
        assert(plainly_named(less)) by {
            assert forall|k: int| 0 <= k < less.len() implies unbroken(
                (#[trigger] less[k]).notation,
            ) by {
                assert(unbroken(terms[k].notation));
            }
        }
        lemma_term_lines(less);
        assert(unbroken(terms[terms.len() - 1].notation));
        lemma_rest_unbroken(t);
        lemma_row_unbroken(t.notation, term_rest(t));
        lemma_line_ends(term_rows(less), row_line(t.notation, term_rest(t)), term_row(t));
        assert forall|k: int| 0 <= k < terms.len() implies #[trigger] lines_of(
            term_rows(terms),
        )[k] == row_line(terms[k].notation, term_rest(terms[k])) by {
            if k < less.len() {
                assert(lines_of(term_rows(less))[k] == row_line(
                    less[k].notation,
                    term_rest(less[k]),
                ));
            }
        }
    }
}

/// Whether an outcome says what it was staked on, and how that came out.
pub open spec fn fully_staked(o: OutcomeView) -> bool {
    o.target is Some && o.goal is Some && o.success is Some && o.margin is Some
}

proof fn lemma_lowered_unbroken(s: Seq<char>)
    requires
        unbroken(s),
    ensures
        unbroken(lowered(s)),
{
    assert forall|k: int| 0 <= k < lowered(s).len() implies #[trigger] lowered(s)[k] != '\n' by {
        assert(s[k] != '\n');
    }
}

/// The breakdown holds one line for each term, in order: its notation in a column, its
/// dice, the multiplier where it has one, and its subtotal. Then comes a line for the
/// modifier where it is not 0, with its sign, one for the total, and one for the stake
/// where there is one; each line is ended, and nothing follows the last.
#[verifier::spinoff_prover]
#[verifier::rlimit(40)]
pub proof fn breakdowns_go_line_by_line(o: OutcomeView)
    requires
        plainly_named(o.terms),
    ensures
        ({
            let lines = lines_of(verbose(o));
            let n = o.terms.len();
            let m: int = if o.modifier != 0 {
                1
            } else {
                0
            };
            let staked: int = if fully_staked(o) {
                1
            } else {
                0
            };
            &&& lines.len() == n + m + 1 + staked + 1
            &&& lines.last() == Seq::<char>::empty()
            &&& forall|k: int|
                0 <= k < n ==> #[trigger] lines[k] == "  "@ + padded(o.terms[k].notation, 10) + " "@
                    + (joined(dice_texts(o.terms[k].dice), " "@) + (if o.terms[k].multiplier != 1 {
                    "  ×"@ + dec_int(o.terms[k].multiplier)
                } else {
                    Seq::empty()
                }) + "  = "@ + dec_int(o.terms[k].subtotal))
            &&& o.modifier > 0 ==> lines[n as int] == "  "@ + padded("modifier"@, 10) + " "@ + ("+"@
                + dec(o.modifier as nat))
            &&& o.modifier < 0 ==> lines[n as int] == "  "@ + padded("modifier"@, 10) + " "@ + ("−"@
                + dec((-o.modifier) as nat))
            &&& lines[n + m] == "  "@ + padded("total"@, 10) + " "@ + dec_int(o.total)
            &&& fully_staked(o) ==> lines[n + m + 1] == "  "@ + padded(
                stake_text((Stake { target: o.target->0, goal: o.goal->0 })),
                10,
            ) + " "@ + lowered(verdict_words(o.success->0, o.margin->0 as int))
        }),
{
    let n = o.terms.len();
    lemma_term_lines(o.terms);
    reveal_strlit("modifier");
    reveal_strlit("total");
    reveal_strlit("+");
    reveal_strlit("−");
    let first = term_rows(o.terms);
    let second = first + modifier_row(o.modifier);
    if o.modifier > 0 {
        lemma_dec_unbroken(o.modifier as nat);
        lemma_together_unbroken("+"@, dec(o.modifier as nat));
        let rest = "+"@ + dec(o.modifier as nat);
        lemma_row_unbroken("modifier"@, rest);
        lemma_line_ends(first, row_line("modifier"@, rest), modifier_row(o.modifier));
    } else if o.modifier < 0 {
        lemma_dec_unbroken((-o.modifier) as nat);
        lemma_together_unbroken("−"@, dec((-o.modifier) as nat));
        let rest = "−"@ + dec((-o.modifier) as nat);
        lemma_row_unbroken("modifier"@, rest);
        lemma_line_ends(first, row_line("modifier"@, rest), modifier_row(o.modifier));
    } else {
        assert(second == first);
    }
    let third = second + row("total"@, dec_int(o.total));
    lemma_int_unbroken(o.total);
    lemma_row_unbroken("total"@, dec_int(o.total));
    lemma_line_ends(
        second,
        row_line("total"@, dec_int(o.total)),
        row("total"@, dec_int(o.total)),
    );
    if fully_staked(o) {
        let stake = Stake { target: o.target->0, goal: o.goal->0 };
        let words = verdict_words(o.success->0, o.margin->0 as int);
        reveal_strlit("vs ");
        reveal_strlit("vs ≤ ");
        reveal_strlit("SUCCESS — exactly");
        reveal_strlit("SUCCESS by ");
        reveal_strlit("FAIL by ");
        lemma_int_unbroken(stake.target as int);
        lemma_together_unbroken("vs "@, dec_int(stake.target as int));
        lemma_together_unbroken("vs ≤ "@, dec_int(stake.target as int));
        lemma_int_unbroken(o.margin->0 as int);
        lemma_int_unbroken(-(o.margin->0 as int));
        lemma_together_unbroken("SUCCESS by "@, dec_int(o.margin->0 as int));
        lemma_together_unbroken("FAIL by "@, dec_int(-(o.margin->0 as int)));
        lemma_lowered_unbroken(words);
        lemma_row_unbroken(stake_text(stake), lowered(words));
        lemma_line_ends(third, row_line(stake_text(stake), lowered(words)), stake_row(o));
    } else {
        assert(third + stake_row(o) == third);
    }
    assert forall|k: int| 0 <= k < n implies #[trigger] lines_of(verbose(o))[k] == row_line(
        o.terms[k].notation,
        term_rest(o.terms[k]),
    ) by {
        assert(lines_of(first)[k] == row_line(o.terms[k].notation, term_rest(o.terms[k])));
    }
}

proof fn lemma_mods_unbroken(mods: Seq<TermMod>)
    ensures
        unbroken(mods_text(mods)),
    decreases mods.len(),
{
    if mods.len() > 0 {
        lemma_mods_unbroken(mods.drop_last());
        lemma_mod_unbroken(mods.last());
        lemma_together_unbroken(mods_text(mods.drop_last()), mod_text(mods.last()));
    }
}

proof fn lemma_mod_unbroken(m: TermMod)
    ensures
        unbroken(mod_text(m)),
{
    reveal_strlit("kh");
    reveal_strlit("kl");
    reveal_strlit("dh");
    reveal_strlit("dl");
    reveal_strlit("!");
    reveal_strlit("!=");
    reveal_strlit("!>");
    reveal_strlit("!<");
    reveal_strlit("*");
    match m {
        TermMod::KeepHigh(n) => {
            lemma_dec_unbroken(n as nat);
            lemma_together_unbroken("kh"@, dec(n as nat));
        },
        TermMod::KeepLow(n) => {
            lemma_dec_unbroken(n as nat);
            lemma_together_unbroken("kl"@, dec(n as nat));
        },
        TermMod::DropHigh(n) => {
            lemma_dec_unbroken(n as nat);
            lemma_together_unbroken("dh"@, dec(n as nat));
        },
        TermMod::DropLow(n) => {
            lemma_dec_unbroken(n as nat);
            lemma_together_unbroken("dl"@, dec(n as nat));
        },
        TermMod::Explode(None) => {},
        TermMod::Explode(Some(Compare::Eq(n))) => {
            lemma_dec_unbroken(n as nat);
            lemma_together_unbroken("!="@, dec(n as nat));
        },
        TermMod::Explode(Some(Compare::Gt(n))) => {
            lemma_dec_unbroken(n as nat);
            lemma_together_unbroken("!>"@, dec(n as nat));
        },
        TermMod::Explode(Some(Compare::Lt(n))) => {
            lemma_dec_unbroken(n as nat);
            lemma_together_unbroken("!<"@, dec(n as nat));
        },
        TermMod::Mul(n) => {
            lemma_int_unbroken(n as int);
            lemma_together_unbroken("*"@, dec_int(n as int));
        },
    }
}

/// The terms of a roll are named on one line each, so that the breakdown of whatever is
/// rolled goes line by line.
pub proof fn rolled_terms_are_plainly_named(terms: Seq<TermView>, faces: Map<Seq<u32>, u32>)
    ensures
        plainly_named(resolved(terms, faces).0),
        forall|k: int| 0 <= k < terms.len() ==> unbroken(notation(#[trigger] terms[k])),
{
    reveal_strlit("d");
    rolls_follow_each_other(terms, faces);
    assert forall|k: int| 0 <= k < terms.len() implies unbroken(notation(#[trigger] terms[k])) by {
        let t = terms[k];
        let head = if t.count == 1 {
            Seq::empty()
        } else {
            dec(t.count as nat)
        };
        lemma_dec_unbroken(t.count as nat);
        lemma_dec_unbroken(t.sides as nat);
        lemma_mods_unbroken(t.mods);
        lemma_together_unbroken(head, "d"@);
        lemma_together_unbroken(head + "d"@, dec(t.sides as nat));
        lemma_together_unbroken(head + "d"@ + dec(t.sides as nat), mods_text(t.mods));
    }
    let shown = resolved(terms, faces).0;
    assert forall|k: int| 0 <= k < shown.len() implies unbroken(
        (#[trigger] shown[k]).notation,
    ) by {
        terms_are_resolved_in_order(terms, terms[k], faces, k);
        assert(unbroken(notation(terms[k])));
    }
}

/// What comes of a throw is the outcome of the dice in store: its terms are resolved with
/// them in order, its total is the modifier and their subtotals, and a stake is judged on
/// it. There is none only where an `i32` does not hold what the dice come to, and never
/// for want of anything else.
pub proof fn throws_come_out_as_the_dice_say(
    expr: Seq<char>,
    r: RollView,
    faces: Map<Seq<u32>, u32>,
    res: Result<Outcome, Mishap>,
)
    requires
        came_out(expr, r, faces, res),
    ensures
        res matches Ok(o) ==> {
            &&& o@.expression == expr
            &&& o@.terms == resolved(r.terms, faces).0
            &&& o.modifier == r.modifier
            &&& o.total == r.modifier + subtotals(resolved(r.terms, faces).0)
            &&& r.stake is None ==> o.success is None && o.margin is None && o.target is None
            &&& r.stake matches Some(stake) ==> {
                &&& o.target == Some(stake.target)
                &&& o.goal == Some(stake.goal)
                &&& stake.goal is Over ==> o.success == Some(o.total >= stake.target)
                &&& stake.goal is Under ==> o.success == Some(o.total <= stake.target)
            }
        },
        res is Ok <==> outcome_fits(r, resolved(r.terms, faces).0),
        res matches Err(e) ==> e is Overflow,
        playable(r) ==> res is Ok,
{
}

/// A line that does not read, or whose dice have sides and multipliers that an `i32` holds,
/// can be thrown; any other cannot.
pub proof fn lines_can_be_thrown_unless_they_overreach(expr: Seq<char>)
    ensures
        parsed(expr) is Err ==> can_throw(expr),
        parsed(expr) matches Ok(r) ==> (can_throw(expr) <==> castable(r.terms)),
{
}

} // verus!
