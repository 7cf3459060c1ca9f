//! What the panels say: lines of text, piece by piece, each in its ink.

use crate::app::{crit_indices, fumble_indices, App, EntryView, HistoryEntry};
use crate::parse::stake_text;
use crate::pool::Die;
use crate::roll::{verdict_text, verdict_words};
use crate::stats::{Stats, StatsView};
use crate::text::{dec, dec_int, join, joined, padded, push_dec, push_int, push_padded, texts};
use vstd::prelude::*;

verus! {

/// A colour of the terminal, or that of a die.
#[derive(Debug, Clone, Copy, PartialEq, Eq, Structural)]
pub enum Hue {
    /// Whatever is there.
    Plain,
    Black,
    Red,
    Green,
    Yellow,
    Cyan,
    Gray,
    DarkGray,
    /// The colour of the dice with this index.
    Die(usize),
}

/// How a piece of text is drawn.
#[derive(Debug, Clone, Copy, PartialEq, Eq, Structural)]
pub struct Ink {
    pub fg: Hue,
    pub bg: Hue,
    pub bold: bool,
    pub dim: bool,
    pub italic: bool,
}

/// Ink of one colour and ordinary weight.
pub open spec fn ink(fg: Hue) -> Ink {
    Ink { fg, bg: Hue::Plain, bold: false, dim: false, italic: false }
}

pub open spec fn bold(fg: Hue) -> Ink {
    Ink { bold: true, ..ink(fg) }
}

pub open spec fn dim(fg: Hue) -> Ink {
    Ink { dim: true, ..ink(fg) }
}

/// Bold black on a coloured ground.
pub open spec fn stamp(bg: Hue) -> Ink {
    Ink { bg, ..bold(Hue::Black) }
}

pub(crate) fn in_ink(fg: Hue) -> (i: Ink)
    ensures
        i == ink(fg),
{
    Ink { fg, bg: Hue::Plain, bold: false, dim: false, italic: false }
}

pub(crate) fn in_bold(fg: Hue) -> (i: Ink)
    ensures
        i == bold(fg),
{
    Ink { fg, bg: Hue::Plain, bold: true, dim: false, italic: false }
}

fn in_dim(fg: Hue) -> (i: Ink)
    ensures
        i == dim(fg),
{
    Ink { fg, bg: Hue::Plain, bold: false, dim: true, italic: false }
}

fn in_stamp(bg: Hue) -> (i: Ink)
    ensures
        i == stamp(bg),
{
    Ink { fg: Hue::Black, bg, bold: true, dim: false, italic: false }
}

/// A piece of a line.
#[derive(Debug, PartialEq, Eq)]
pub struct Piece {
    pub text: String,
    pub ink: Ink,
}

pub struct PieceView {
    pub text: Seq<char>,
    pub ink: Ink,
}

impl View for Piece {
    type V = PieceView;

    open spec fn view(&self) -> PieceView {
        PieceView { text: self.text@, ink: self.ink }
    }
}

pub open spec fn piece(text: Seq<char>, ink: Ink) -> PieceView {
    PieceView { text, ink }
}

/// The pieces of a line.
pub open spec fn pieces(line: Seq<Piece>) -> Seq<PieceView> {
    Seq::new(line.len(), |k: int| line[k]@)
}

/// The pieces of each line.
pub open spec fn lines_of(lines: Seq<Vec<Piece>>) -> Seq<Seq<PieceView>> {
    Seq::new(lines.len(), |k: int| pieces(lines[k]@))
}

/// Adds a piece to a line.
pub(crate) fn add_piece(line: &mut Vec<Piece>, text: &str, ink: Ink)
    ensures
        pieces(final(line)@) == pieces(old(line)@).push(piece(text@, ink)),
{
    line.push(Piece { text: text.to_owned(), ink });
    assert(pieces(line@) == pieces(old(line)@).push(piece(text@, ink)));
}

/// A line of one piece.
pub(crate) fn line_of(text: &str, ink: Ink) -> (line: Vec<Piece>)
    ensures
        pieces(line@) == seq![piece(text@, ink)],
{
    let mut line: Vec<Piece> = Vec::new();
    add_piece(&mut line, text, ink);
    assert(pieces(line@) == seq![piece(text@, ink)]);
    line
}

/// Adds a line.
pub(crate) fn add_line(lines: &mut Vec<Vec<Piece>>, line: Vec<Piece>)
    ensures
        lines_of(final(lines)@) == lines_of(old(lines)@).push(pieces(line@)),
{
    lines.push(line);
    assert(lines_of(lines@) == lines_of(old(lines)@).push(pieces(line@)));
}

/// The chip of a die: greyed where the die is dropped, in its colour once it rests,
/// and colourless before.
pub open spec fn chip(d: Die) -> PieceView {
    piece(
        "["@ + dec(d.shown as nat) + "]"@,
        if !d.kept {
            dim(Hue::DarkGray)
        } else if d.settled {
            bold(Hue::Die(d.color_idx))
        } else {
            ink(Hue::DarkGray)
        },
    )
}

/// The chips of the first `n` dice, with blanks between them.
pub open spec fn chips(dice: Seq<Die>, n: int) -> Seq<PieceView>
    decreases n,
{
    if n <= 0 {
        Seq::empty()
    } else if n == 1 {
        seq![chip(dice[0])]
    } else {
        chips(dice, n - 1).push(piece(" "@, ink(Hue::Plain))).push(chip(dice[n - 1]))
    }
}

pub open spec fn modifier_chip(modifier: i32) -> Seq<PieceView> {
    if modifier > 0 {
        seq![piece("  +"@ + dec(modifier as nat), ink(Hue::Gray))]
    } else if modifier < 0 {
        seq![piece("  −"@ + dec((-modifier) as nat), ink(Hue::Gray))]
    } else {
        Seq::empty()
    }
}

/// Whether all the dice with these numbers are d20s.
pub open spec fn all_d20(dice: Seq<Die>, which: Seq<int>) -> bool {
    forall|k: int| 0 <= k < which.len() ==> dice[#[trigger] which[k]].sides == 20
}

/// What `n` dice are hailed as: by name where all are d20s, with their number where
/// they are several.
pub open spec fn hailed(n: nat, d20: bool, name: Seq<char>, other: Seq<char>) -> Seq<char> {
    let word = if d20 {
        name
    } else {
        other
    };
    if n > 1 {
        word + " ×"@ + dec(n)
    } else {
        word
    }
}

/// The end of the second line: the stake and the verdict, or that the dice still roll.
pub open spec fn verdict_pieces(app: App) -> Seq<PieceView> {
    match app.stake {
        None => seq![
            piece(
                if app.settled_spec() {
                    ""@
                } else {
                    "(rolling…)"@
                },
                ink(Hue::DarkGray),
            ),
        ],
        Some(stake) => match app.verdict_spec() {
            Some((success, margin)) => seq![
                piece(stake_text(stake) + "  "@, ink(Hue::Gray)),
                piece(
                    " "@ + verdict_words(success, margin as int) + " "@,
                    stamp(
                        if success {
                            Hue::Green
                        } else {
                            Hue::Red
                        },
                    ),
                ),
            ],
            None => seq![piece(stake_text(stake) + "  (rolling…)"@, ink(Hue::DarkGray))],
        },
    }
}

pub open spec fn crit_pieces(app: App) -> Seq<PieceView> {
    let which = crit_indices(app.dice@, app.dice@.len() as int);
    if app.settled_spec() && which.len() > 0 {
        seq![
            piece(
                hailed(
                    which.len(),
                    all_d20(app.dice@, which),
                    "  ✦ natural 20"@,
                    "  ✦ crit"@,
                ),
                bold(Hue::Yellow),
            ),
        ]
    } else {
        Seq::empty()
    }
}

pub open spec fn fumble_pieces(app: App) -> Seq<PieceView> {
    let which = fumble_indices(app.dice@, app.dice@.len() as int);
    if app.settled_spec() && which.len() > 0 {
        seq![
            piece(
                hailed(which.len(), all_d20(app.dice@, which), "  natural 1"@, "  fumble"@),
                dim(Hue::Red),
            ),
        ]
    } else {
        Seq::empty()
    }
}

/// The total, held back until every die rests.
pub open spec fn total_pieces(app: App) -> Seq<PieceView> {
    seq![
        piece("  Σ total "@, ink(Hue::Gray)),
        if app.settled_spec() {
            piece(" "@ + dec_int(app.total_spec()) + " "@, stamp(Hue::Green))
        } else {
            piece(" … "@, dim(Hue::DarkGray))
        },
        piece("   "@, ink(Hue::Plain)),
    ]
}

/// What the result panel says.
pub open spec fn results(app: App) -> Seq<Seq<PieceView>> {
    if app.error is Some {
        seq![seq![piece("⚠ "@, ink(Hue::Red)), piece(app.error->0@, ink(Hue::Red))]]
    } else if app.dice@.len() == 0 {
        seq![
            seq![
                piece(
                    "type a dice expression below — Enter does the rest"@,
                    ink(Hue::DarkGray),
                ),
            ],
        ]
    } else {
        seq![
            chips(app.dice@, app.dice@.len() as int) + modifier_chip(app.modifier),
            total_pieces(app) + verdict_pieces(app) + crit_pieces(app) + fumble_pieces(app),
        ]
    }
}

fn write_chip(line: &mut Vec<Piece>, d: Die)
    ensures
        pieces(final(line)@) == pieces(old(line)@).push(chip(d)),
{
    let mut text = "[".to_owned();
    push_dec(&mut text, d.shown as u64);
    text.append("]");
    let tone = if !d.kept {
        in_dim(Hue::DarkGray)
    } else if d.settled {
        in_bold(Hue::Die(d.color_idx))
    } else {
        in_ink(Hue::DarkGray)
    };
    add_piece(line, text.as_str(), tone);
}

fn write_modifier(line: &mut Vec<Piece>, modifier: i32)
    ensures
        pieces(final(line)@) == pieces(old(line)@) + modifier_chip(modifier),
{
    if modifier > 0 {
        let mut text = "  +".to_owned();
        push_dec(&mut text, modifier as u64);
        add_piece(line, text.as_str(), in_ink(Hue::Gray));
    } else if modifier < 0 {
        let mut text = "  −".to_owned();
        push_dec(&mut text, (-(modifier as i64)) as u64);
        add_piece(line, text.as_str(), in_ink(Hue::Gray));
    }
    assert(pieces(line@) == pieces(old(line)@) + modifier_chip(modifier));
}

fn all_twenty(dice: &Vec<Die>, which: &Vec<usize>) -> (r: bool)
    requires
        forall|k: int| 0 <= k < which@.len() ==> #[trigger] which@[k] < dice@.len(),
    ensures
        r == all_d20(dice@, crate::app::ints(which@)),
{
    let ghost all = crate::app::ints(which@);
    let mut k: usize = 0;
    while k < which.len()
        invariant
            k <= which@.len(),
            all == crate::app::ints(which@),
            forall|j: int| 0 <= j < which@.len() ==> #[trigger] which@[j] < dice@.len(),
            forall|j: int| 0 <= j < k ==> dice@[#[trigger] all[j]].sides == 20,
        decreases which@.len() - k,
    {
        assert(which@[k as int] < dice@.len());
        if dice[which[k]].sides != 20 {
            assert(dice@[all[k as int]].sides != 20);
            return false;
        }
        k += 1;
    }
    true
}

fn hail(n: usize, d20: bool, name: &str, other: &str) -> (s: String)
    ensures
        s@ == hailed(n as nat, d20, name@, other@),
{
    let mut s = if d20 {
        name.to_owned()
    } else {
        other.to_owned()
    };
    if n > 1 {
        s.append(" ×");
        push_dec(&mut s, n as u64);
    }
    s
}

proof fn lemma_crits_in_range(dice: Seq<Die>, n: int)
    requires
        0 <= n <= dice.len(),
    ensures
        forall|k: int|
            0 <= k < crit_indices(dice, n).len() ==> 0 <= #[trigger] crit_indices(dice, n)[k] < n,
    decreases n,
{
    if n > 0 {
        lemma_crits_in_range(dice, n - 1);
        assert forall|k: int| 0 <= k < crit_indices(dice, n).len() implies 0
            <= #[trigger] crit_indices(dice, n)[k] < n by {
            if k < crit_indices(dice, n - 1).len() {
                assert(crit_indices(dice, n - 1)[k] < n - 1);
                assert(crit_indices(dice, n)[k] == crit_indices(dice, n - 1)[k]);
            }
        }
    }
}

proof fn lemma_fumbles_in_range(dice: Seq<Die>, n: int)
    requires
        0 <= n <= dice.len(),
    ensures
        forall|k: int|
            0 <= k < fumble_indices(dice, n).len() ==> 0 <= #[trigger] fumble_indices(dice, n)[k]
                < n,
    decreases n,
{
    if n > 0 {
        lemma_fumbles_in_range(dice, n - 1);
        assert forall|k: int| 0 <= k < fumble_indices(dice, n).len() implies 0
            <= #[trigger] fumble_indices(dice, n)[k] < n by {
            if k < fumble_indices(dice, n - 1).len() {
                assert(fumble_indices(dice, n - 1)[k] < n - 1);
                assert(fumble_indices(dice, n)[k] == fumble_indices(dice, n - 1)[k]);
            }
        }
    }
}

fn write_total(line: &mut Vec<Piece>, app: &App, settled: bool)
    requires
        app.can_tell(),
        settled == app.settled_spec(),
    ensures
        pieces(final(line)@) == pieces(old(line)@) + total_pieces(*app),
{
    add_piece(line, "  Σ total ", in_ink(Hue::Gray));
    if settled {
        let mut text = " ".to_owned();
        push_int(&mut text, app.total());
        text.append(" ");
        add_piece(line, text.as_str(), in_stamp(Hue::Green));
    } else {
        add_piece(line, " … ", in_dim(Hue::DarkGray));
    }
    add_piece(line, "   ", in_ink(Hue::Plain));
    assert(pieces(line@) == pieces(old(line)@) + total_pieces(*app));
}

fn write_verdict(line: &mut Vec<Piece>, app: &App, settled: bool)
    requires
        app.can_tell(),
        settled == app.settled_spec(),
    ensures
        pieces(final(line)@) == pieces(old(line)@) + verdict_pieces(*app),
{
    match app.stake {
        None => {
            if settled {
                add_piece(line, "", in_ink(Hue::DarkGray));
            } else {
                add_piece(line, "(rolling…)", in_ink(Hue::DarkGray));
            }
        },
        Some(stake) => {
            let mut label = stake.label();
            match app.verdict() {
                Some((success, margin)) => {
                    label.append("  ");
                    add_piece(line, label.as_str(), in_ink(Hue::Gray));
                    let mut words = " ".to_owned();
                    words.append(verdict_text(success, margin).as_str());
                    words.append(" ");
                    let ground = if success {
                        Hue::Green
                    } else {
                        Hue::Red
                    };
                    add_piece(line, words.as_str(), in_stamp(ground));
                },
                None => {
                    label.append("  (rolling…)");
                    add_piece(line, label.as_str(), in_ink(Hue::DarkGray));
                },
            }
        },
    }
    assert(pieces(line@) == pieces(old(line)@) + verdict_pieces(*app));
}

fn write_honours(line: &mut Vec<Piece>, app: &App, settled: bool)
    requires
        settled == app.settled_spec(),
    ensures
        pieces(final(line)@) == pieces(old(line)@) + crit_pieces(*app) + fumble_pieces(*app),
{
    if settled {
        let crits = app.crit_dice();
        let fumbles = app.fumble_dice();
        proof {
            lemma_crits_in_range(app.dice@, app.dice@.len() as int);
            lemma_fumbles_in_range(app.dice@, app.dice@.len() as int);
            assert forall|k: int| 0 <= k < crits@.len() implies #[trigger] crits@[k]
                < app.dice@.len() by {
                assert(crate::app::ints(crits@)[k] == crits@[k]);
            }
            assert forall|k: int| 0 <= k < fumbles@.len() implies #[trigger] fumbles@[k]
                < app.dice@.len() by {
                assert(crate::app::ints(fumbles@)[k] == fumbles@[k]);
            }
        }
        if crits.len() > 0 {
            let d20 = all_twenty(&app.dice, &crits);
            let text = hail(crits.len(), d20, "  ✦ natural 20", "  ✦ crit");
            add_piece(line, text.as_str(), in_bold(Hue::Yellow));
        }
        assert(pieces(line@) == pieces(old(line)@) + crit_pieces(*app));
        if fumbles.len() > 0 {
            let d20 = all_twenty(&app.dice, &fumbles);
            let text = hail(fumbles.len(), d20, "  natural 1", "  fumble");
            add_piece(line, text.as_str(), in_dim(Hue::Red));
        }
    }
    assert(pieces(line@) == pieces(old(line)@) + crit_pieces(*app) + fumble_pieces(*app));
}

/// What the result panel says.
pub fn result_lines(app: &App) -> (lines: Vec<Vec<Piece>>)
    requires
        app.error is Some || app.can_tell(),
    ensures
        lines_of(lines@) == results(*app),
{
    let mut lines: Vec<Vec<Piece>> = Vec::new();
    if let Some(err) = &app.error {
        let mut line = line_of("⚠ ", in_ink(Hue::Red));
        add_piece(&mut line, err.as_str(), in_ink(Hue::Red));
        add_line(&mut lines, line);
        assert(pieces(line@) == seq![
            piece("⚠ "@, ink(Hue::Red)),
            piece(app.error->0@, ink(Hue::Red)),
        ]);
        assert(lines_of(lines@) == results(*app));
        return lines;
    }
    if app.dice.is_empty() {
        let line = line_of(
            "type a dice expression below — Enter does the rest",
            in_ink(Hue::DarkGray),
        );
        add_line(&mut lines, line);
        assert(lines_of(lines@) == results(*app));
        return lines;
    }
    let settled = app.all_settled();
    let mut first: Vec<Piece> = Vec::new();
    let mut k: usize = 0;
    assert(pieces(first@) == Seq::<PieceView>::empty());
    while k < app.dice.len()
        invariant
            k <= app.dice@.len(),
            pieces(first@) == chips(app.dice@, k as int),
        decreases app.dice@.len() - k,
    {
        if k > 0 {
            add_piece(&mut first, " ", in_ink(Hue::Plain));
        }
        write_chip(&mut first, app.dice[k]);
        k += 1;
        assert(pieces(first@) == chips(app.dice@, k as int));
    }
    write_modifier(&mut first, app.modifier);
    let mut second: Vec<Piece> = Vec::new();
    assert(pieces(second@) == Seq::<PieceView>::empty());
    write_total(&mut second, app, settled);
    assert(pieces(second@) == total_pieces(*app));
    write_verdict(&mut second, app, settled);
    write_honours(&mut second, app, settled);
    add_line(&mut lines, first);
    add_line(&mut lines, second);
    assert(lines_of(lines@) == results(*app));
    lines
}

/// The footer of every pane.
pub open spec fn close_hint() -> Seq<PieceView> {
    seq![
        piece(
            "  ↑ ↓ scroll · Esc · q to close"@,
            (Ink { italic: true, ..ink(Hue::DarkGray) }),
        ),
    ]
}

fn add_footer(lines: &mut Vec<Vec<Piece>>)
    ensures
        lines_of(final(lines)@) == lines_of(old(lines)@).push(Seq::empty()).push(close_hint()),
{
    let blank: Vec<Piece> = Vec::new();
    assert(pieces(blank@) == Seq::<PieceView>::empty());
    add_line(lines, blank);
    let faint = Ink {
        fg: Hue::DarkGray,
        bg: Hue::Plain,
        bold: false,
        dim: false,
        italic: true,
    };
    let hint = line_of("  ↑ ↓ scroll · Esc · q to close", faint);
    assert(pieces(hint@) == close_hint());
    add_line(lines, hint);
}

/// `s`, filled up with blanks on its left to `width` characters.
pub open spec fn right_aligned(s: Seq<char>, width: nat) -> Seq<char> {
    Seq::new(
        if s.len() < width {
            (width - s.len()) as nat
        } else {
            0
        },
        |k: int| ' ',
    ) + s
}

fn align_right(s: &String, width: usize) -> (r: String)
    ensures
        r@ == right_aligned(s@, width as nat),
{
    let mut r = String::new();
    let n: usize = s.as_str().unicode_len();
    let mut k: usize = n;
    while k < width
        invariant
            n == s@.len(),
            n <= k,
            k <= width || k == n,
            r@ == Seq::new((k - n) as nat, |j: int| ' '),
        decreases width - k,
    {
        r.push(' ');
        k += 1;
        assert(r@ == Seq::new((k - n) as nat, |j: int| ' '));
    }
    r.append(s.as_str());
    assert(r@ == right_aligned(s@, width as nat));
    r
}

pub open spec fn numbers(values: Seq<u32>) -> Seq<Seq<char>> {
    Seq::new(values.len(), |k: int| dec(values[k] as nat))
}

/// One roll in the history, counted as number `idx`.
pub open spec fn history_line(e: EntryView, idx: nat) -> Seq<PieceView> {
    seq![
        piece("  "@ + right_aligned(dec(idx), 3) + ". "@, ink(Hue::DarkGray)),
        piece(padded(e.expr, 12), ink(Hue::Cyan)),
        piece("["@ + joined(numbers(e.values), " "@) + "]  "@, ink(Hue::Gray)),
        piece("= "@ + dec_int(e.total as int), bold(Hue::Green)),
    ]
}

/// The first `n` lines of the history: the newest rolls first.
pub open spec fn history_rows(history: Seq<EntryView>, n: int) -> Seq<Seq<PieceView>>
    decreases n,
{
    if n <= 0 {
        Seq::empty()
    } else {
        let at = history.len() - n;
        history_rows(history, n - 1).push(history_line(history[at], (at + 1) as nat))
    }
}

/// What the history pane says.
pub open spec fn history_text(history: Seq<EntryView>) -> Seq<Seq<PieceView>> {
    (if history.len() == 0 {
        seq![
            seq![
                piece(
                    "  no rolls yet — shake some dice loose with Enter"@,
                    ink(Hue::DarkGray),
                ),
            ],
        ]
    } else {
        history_rows(history, history.len() as int)
    }).push(Seq::empty()).push(close_hint())
}

fn format_entry(e: &HistoryEntry, idx: usize) -> (line: Vec<Piece>)
    ensures
        pieces(line@) == history_line(e@, idx as nat),
{
    let mut number = String::new();
    push_dec(&mut number, idx as u64);
    assert(number@ == dec(idx as nat));
    let mut label = "  ".to_owned();
    label.append(align_right(&number, 3).as_str());
    label.append(". ");
    let mut line = line_of(label.as_str(), in_ink(Hue::DarkGray));
    let mut expr = String::new();
    push_padded(&mut expr, e.expr.as_str(), 12);
    assert(expr@ == padded(e.expr@, 12));
    add_piece(&mut line, expr.as_str(), in_ink(Hue::Cyan));
    let mut faces: Vec<String> = Vec::new();
    let mut k: usize = 0;
    while k < e.values.len()
        invariant
            k <= e.values@.len(),
            faces@.len() == k,
            texts(faces@) == numbers(e.values@).take(k as int),
        decreases e.values@.len() - k,
    {
        let ghost before = texts(faces@);
        let mut face = String::new();
        push_dec(&mut face, e.values[k] as u64);
        assert(face@ == dec(e.values@[k as int] as nat));
        faces.push(face);
        k += 1;
        assert(texts(faces@) == before.push(face@));
        assert(texts(faces@) == numbers(e.values@).take(k as int));
    }
    assert(texts(faces@) == numbers(e.values@));
    let mut shown = "[".to_owned();
    shown.append(join(&faces, " ").as_str());
    shown.append("]  ");
    add_piece(&mut line, shown.as_str(), in_ink(Hue::Gray));
    let mut total = "= ".to_owned();
    push_int(&mut total, e.total);
    add_piece(&mut line, total.as_str(), in_bold(Hue::Green));
    assert(pieces(line@) == history_line(e@, idx as nat));
    line
}

/// What the history pane says.
pub fn history_lines(history: &Vec<HistoryEntry>) -> (lines: Vec<Vec<Piece>>)
    ensures
        lines_of(lines@) == history_text(crate::app::entries(history@)),
{
    let ghost all = crate::app::entries(history@);
    let mut lines: Vec<Vec<Piece>> = Vec::new();
    assert(lines_of(lines@) == Seq::<Seq<PieceView>>::empty());
    if history.is_empty() {
        let line = line_of(
            "  no rolls yet — shake some dice loose with Enter",
            in_ink(Hue::DarkGray),
        );
        add_line(&mut lines, line);
    } else {
        let len: usize = history.len();
        let mut n: usize = 0;
        while n < len
            invariant
                n <= len,
                len == history@.len(),
                all == crate::app::entries(history@),
                lines_of(lines@) == history_rows(all, n as int),
            decreases len - n,
        {
            let at: usize = len - 1 - n;
            let line = format_entry(&history[at], at + 1);
            add_line(&mut lines, line);
            n += 1;
        }
    }
    add_footer(&mut lines);
    assert(lines_of(lines@) == history_text(all));
    lines
}

/// A heading in a pane.
pub open spec fn heading(text: Seq<char>) -> Seq<PieceView> {
    seq![piece(text, bold(Hue::Yellow))]
}

/// One bar of the distribution: the total that it stands for, how long it is, and
/// its share in words.
#[derive(Debug, PartialEq, Eq)]
pub struct Bar {
    pub total: i32,
    pub filled: usize,
    pub share: String,
}

/// Those figures of the statistics that are not whole numbers, in words.
#[derive(Debug, PartialEq, Eq)]
pub struct Figures {
    /// The mean of the samples.
    pub mean: String,
    /// The chance to make the stake, in percent.
    pub odds: String,
    pub bars: Vec<Bar>,
    /// The mean of the rolls in the session.
    pub session_mean: String,
}

pub open spec fn bar_line(b: Bar) -> Seq<PieceView> {
    seq![
        piece("  "@ + right_aligned(dec_int(b.total as int), 4) + " "@, ink(Hue::DarkGray)),
        piece(Seq::new(b.filled as nat, |k: int| '█'), ink(Hue::Cyan)),
        piece(" "@ + b.share@, ink(Hue::Gray)),
    ]
}

pub open spec fn bar_lines(bars: Seq<Bar>) -> Seq<Seq<PieceView>> {
    Seq::new(bars.len(), |k: int| bar_line(bars[k]))
}

/// The chance to make the stake, where there is one.
pub open spec fn odds_lines(s: StatsView, f: Figures) -> Seq<Seq<PieceView>> {
    if s.stake is Some && s.successes is Some {
        seq![
            seq![
                piece("  "@, ink(Hue::Plain)),
                piece(stake_text(s.stake->0) + ": "@, ink(Hue::Gray)),
                piece(f.odds@ + "% to succeed"@, bold(Hue::Green)),
            ],
        ]
    } else {
        Seq::empty()
    }
}

pub open spec fn range_lines(s: StatsView, f: Figures) -> Seq<Seq<PieceView>> {
    seq![
        seq![
            piece("  "@, ink(Hue::Plain)),
            piece(
                "min "@ + dec_int(s.min) + "   max "@ + dec_int(s.max) + "   avg "@ + f.mean@,
                ink(Hue::Gray),
            ),
        ],
        seq![
            piece(
                "  (estimated from "@ + dec(s.samples as nat) + " samples)"@,
                ink(Hue::DarkGray),
            ),
        ],
        Seq::empty(),
    ]
}

pub open spec fn session_line(s: StatsView, f: Figures) -> Seq<PieceView> {
    if s.session.count == 0 {
        seq![
            piece(
                "  no rolls of "@ + s.expr + " yet ("@ + dec(s.total_rolls as nat)
                    + " rolls total)"@,
                ink(Hue::DarkGray),
            ),
        ]
    } else {
        seq![
            piece(
                "  "@ + dec(s.session.count as nat) + " rolls   low "@ + dec_int(
                    s.session.min as int,
                ) + "   high "@ + dec_int(s.session.max as int) + "   mean "@ + f.session_mean@,
                ink(Hue::Gray),
            ),
        ]
    }
}

/// What the statistics pane says.
pub open spec fn stats_text(s: StatsView, f: Figures) -> Seq<Seq<PieceView>> {
    (seq![heading("Odds for  "@ + s.expr)] + odds_lines(s, f) + range_lines(s, f)
        + (if f.bars@.len() > 0 {
        bar_lines(f.bars@).push(Seq::empty())
    } else {
        Seq::empty()
    })).push(heading("This session"@)).push(session_line(s, f)).push(Seq::empty()).push(close_hint())
}

fn format_bar(b: &Bar) -> (line: Vec<Piece>)
    ensures
        pieces(line@) == bar_line(*b),
{
    let mut number = String::new();
    push_int(&mut number, b.total);
    assert(number@ == dec_int(b.total as int));
    let mut label = "  ".to_owned();
    label.append(align_right(&number, 4).as_str());
    label.append(" ");
    let mut line = line_of(label.as_str(), in_ink(Hue::DarkGray));
    let mut bar = String::new();
    let mut k: usize = 0;
    while k < b.filled
        invariant
            k <= b.filled,
            bar@ == Seq::new(k as nat, |j: int| '█'),
        decreases b.filled - k,
    {
        bar.push('█');
        k += 1;
        assert(bar@ == Seq::new(k as nat, |j: int| '█'));
    }
    add_piece(&mut line, bar.as_str(), in_ink(Hue::Cyan));
    let mut share = " ".to_owned();
    share.append(b.share.as_str());
    add_piece(&mut line, share.as_str(), in_ink(Hue::Gray));
    assert(pieces(line@) == bar_line(*b));
    line
}

fn format_range(s: &Stats, f: &Figures) -> (line: Vec<Piece>)
    ensures
        pieces(line@) == range_lines(s@, *f)[0],
{
    let mut text = "min ".to_owned();
    push_int(&mut text, s.min);
    text.append("   max ");
    push_int(&mut text, s.max);
    text.append("   avg ");
    text.append(f.mean.as_str());
    let mut line = line_of("  ", in_ink(Hue::Plain));
    add_piece(&mut line, text.as_str(), in_ink(Hue::Gray));
    assert(pieces(line@) == range_lines(s@, *f)[0]);
    line
}

fn format_session(s: &Stats, f: &Figures) -> (line: Vec<Piece>)
    ensures
        pieces(line@) == session_line(s@, *f),
{
    if s.session.count == 0 {
        let mut text = "  no rolls of ".to_owned();
        text.append(s.expr.as_str());
        text.append(" yet (");
        push_dec(&mut text, s.total_rolls as u64);
        text.append(" rolls total)");
        line_of(text.as_str(), in_ink(Hue::DarkGray))
    } else {
        let mut text = "  ".to_owned();
        push_dec(&mut text, s.session.count as u64);
        text.append(" rolls   low ");
        push_int(&mut text, s.session.min);
        text.append("   high ");
        push_int(&mut text, s.session.max);
        text.append("   mean ");
        text.append(f.session_mean.as_str());
        line_of(text.as_str(), in_ink(Hue::Gray))
    }
}

/// What the statistics pane says.
pub fn stats_lines(s: &Stats, f: &Figures) -> (lines: Vec<Vec<Piece>>)
    ensures
        lines_of(lines@) == stats_text(s@, *f),
{
    let mut lines: Vec<Vec<Piece>> = Vec::new();
    let mut title = "Odds for  ".to_owned();
    title.append(s.expr.as_str());
    add_line(&mut lines, line_of(title.as_str(), in_bold(Hue::Yellow)));
    assert(lines_of(lines@) == seq![heading("Odds for  "@ + s.expr@)]);
    let ghost head = lines_of(lines@);
    if let Some(stake) = s.stake {
        if s.successes.is_some() {
            let mut label = stake.label();
            label.append(": ");
            let mut odds = f.odds.clone();
            odds.append("% to succeed");
            let mut line = line_of("  ", in_ink(Hue::Plain));
            add_piece(&mut line, label.as_str(), in_ink(Hue::Gray));
            add_piece(&mut line, odds.as_str(), in_bold(Hue::Green));
            add_line(&mut lines, line);
            assert(pieces(line@) == odds_lines(s@, *f)[0]);
        }
    }
    assert(lines_of(lines@) == head + odds_lines(s@, *f));
    let ghost upto = lines_of(lines@);
    add_line(&mut lines, format_range(s, f));
    let mut note = "  (estimated from ".to_owned();
    push_dec(&mut note, s.samples as u64);
    note.append(" samples)");
    add_line(&mut lines, line_of(note.as_str(), in_ink(Hue::DarkGray)));
    let blank: Vec<Piece> = Vec::new();
    assert(pieces(blank@) == Seq::<PieceView>::empty());
    add_line(&mut lines, blank);
    assert(lines_of(lines@) == upto + range_lines(s@, *f));
    let ghost before = lines_of(lines@);
    let mut k: usize = 0;
    while k < f.bars.len()
        invariant
            k <= f.bars@.len(),
            lines_of(lines@) == before + bar_lines(f.bars@).take(k as int),
        decreases f.bars@.len() - k,
    {
        add_line(&mut lines, format_bar(&f.bars[k]));
        k += 1;
        assert(lines_of(lines@) == before + bar_lines(f.bars@).take(k as int));
    }
    if f.bars.len() > 0 {
        let blank: Vec<Piece> = Vec::new();
        assert(pieces(blank@) == Seq::<PieceView>::empty());
        add_line(&mut lines, blank);
    }
    let ghost dist = if f.bars@.len() > 0 {
        bar_lines(f.bars@).push(Seq::empty())
    } else {
        Seq::empty()
    };
    assert(bar_lines(f.bars@).take(k as int) == bar_lines(f.bars@));
    assert(lines_of(lines@) == before + dist);
    add_line(&mut lines, line_of("This session", in_bold(Hue::Yellow)));
    add_line(&mut lines, format_session(s, f));
    add_footer(&mut lines);
    assert(lines_of(lines@) == stats_text(s@, *f));
    lines
}

/// What the statistics pane says of a line that does not read.
pub fn stats_error_lines(e: &str) -> (lines: Vec<Vec<Piece>>)
    ensures
        lines_of(lines@) == seq![
            seq![
                piece(
                    "  can't compute stats — the expression doesn't parse:"@,
                    ink(Hue::Red),
                ),
            ],
            seq![piece("  "@ + e@, ink(Hue::Red))],
            Seq::empty(),
            close_hint(),
        ],
{
    let mut lines: Vec<Vec<Piece>> = Vec::new();
    add_line(
        &mut lines,
        line_of("  can't compute stats — the expression doesn't parse:", in_ink(Hue::Red)),
    );
    let mut text = "  ".to_owned();
    text.append(e);
    add_line(&mut lines, line_of(text.as_str(), in_ink(Hue::Red)));
    add_footer(&mut lines);
    lines
}

/// Whether two dice look alike: all that sets them apart is a face that has yet to
/// come to light.
pub open spec fn look_alike(a: Die, b: Die) -> bool {
    &&& a.settled == b.settled
    &&& a.shown == b.shown
    &&& a.kept == b.kept
    &&& a.color_idx == b.color_idx
}

proof fn lemma_chips_alike(a: Seq<Die>, b: Seq<Die>, n: int)
    requires
        n <= a.len(),
        n <= b.len(),
        forall|i: int| 0 <= i < n ==> look_alike(#[trigger] a[i], b[i]),
    ensures
        chips(a, n) == chips(b, n),
    decreases n,
{
    if n > 0 {
        assert(look_alike(a[n - 1], b[n - 1]));
        assert(look_alike(a[0], b[0]));
        lemma_chips_alike(a, b, n - 1);
    }
}

/// Until the last die rests the result panel keeps the outcome to itself: it says the
/// same of two rolls that differ in nothing but the faces that are to come.
pub proof fn results_keep_the_secret(a: App, b: App)
    requires
        !a.settled_spec(),
        !b.settled_spec(),
        a.error is None,
        b.error is None,
        a.modifier == b.modifier,
        a.stake == b.stake,
        a.dice@.len() == b.dice@.len(),
        forall|i: int| 0 <= i < a.dice@.len() ==> look_alike(#[trigger] a.dice@[i], b.dice@[i]),
    ensures
        results(a) == results(b),
{
    lemma_chips_alike(a.dice@, b.dice@, a.dice@.len() as int);
}

/// Inks differ by what they are named for: plain ink by its colour alone, bold and dim ink
/// by their weight, and a stamp by its ground.
pub proof fn inks_are_as_named(h: Hue)
    ensures
        ink(h).fg == h && ink(h).bg is Plain && !ink(h).bold && !ink(h).dim && !ink(h).italic,
        bold(h).fg == h && bold(h).bg is Plain && bold(h).bold && !bold(h).dim && !bold(h).italic,
        dim(h).fg == h && dim(h).bg is Plain && !dim(h).bold && dim(h).dim && !dim(h).italic,
        stamp(h).fg is Black && stamp(h).bg == h && stamp(h).bold && !stamp(h).dim
            && !stamp(h).italic,
{
}

/// Lines and pieces are seen one by one, in order.
pub proof fn pieces_go_one_by_one(
    line: Seq<Piece>,
    lines: Seq<Vec<Piece>>,
    text: Seq<char>,
    ink: Ink,
    k: int,
)
    ensures
        pieces(line).len() == line.len(),
        0 <= k < line.len() ==> pieces(line)[k].text == line[k].text@,
        0 <= k < line.len() ==> pieces(line)[k].ink == line[k].ink,
        lines_of(lines).len() == lines.len(),
        0 <= k < lines.len() ==> lines_of(lines)[k] == pieces(lines[k]@),
        piece(text, ink).text == text,
        piece(text, ink).ink == ink,
{
}

/// A chip shows the face that the die shows, in brackets: dim where the die is dropped, in
/// the die's own colour once it rests, and grey while it tumbles.
pub proof fn chips_show_the_die(d: Die)
    ensures
        chip(d).text == "["@ + dec(d.shown as nat) + "]"@,
        !d.kept ==> chip(d).ink.dim && chip(d).ink.fg is DarkGray && !chip(d).ink.bold,
        d.kept && d.settled ==> chip(d).ink.fg == Hue::Die(d.color_idx) && chip(d).ink.bold
            && !chip(d).ink.dim,
        d.kept && !d.settled ==> chip(d).ink.fg is DarkGray && !chip(d).ink.bold
            && !chip(d).ink.dim,
        chip(d).ink.bg is Plain && !chip(d).ink.italic,
{
}

/// The first line of a result holds the chip of each die, in order, with one blank between
/// each two.
pub proof fn each_die_has_its_chip(dice: Seq<Die>, n: int, k: int)
    requires
        0 <= k < n,
    ensures
        chips(dice, n).len() == 2 * n - 1,
        chips(dice, n)[2 * k] == chip(dice[k]),
        k + 1 < n ==> chips(dice, n)[2 * k + 1].text == " "@,
        chips(dice, 0).len() == 0,
    decreases n,
{
    lemma_chips_len(dice, n);
    if k < n - 1 {
        lemma_chips_len(dice, n - 1);
        each_die_has_its_chip(dice, n - 1, k);
    } else if n > 1 {
        lemma_chips_len(dice, n - 1);
    }
}

proof fn lemma_chips_len(dice: Seq<Die>, n: int)
    requires
        0 <= n,
    ensures
        n > 0 ==> chips(dice, n).len() == 2 * n - 1,
        n == 0 ==> chips(dice, n).len() == 0,
    decreases n,
{
    if n > 0 {
        lemma_chips_len(dice, n - 1);
    }
}

/// A modifier is shown with its sign after the dice, and none is where it is 0.
pub proof fn modifiers_show_their_sign(n: i32)
    ensures
        n > 0 ==> modifier_chip(n).len() == 1 && modifier_chip(n)[0].text == "  +"@ + dec(n as nat),
        n < 0 ==> modifier_chip(n).len() == 1 && modifier_chip(n)[0].text == "  −"@ + dec(
            (-n) as nat,
        ),
        n == 0 ==> modifier_chip(n).len() == 0,
        n != 0 ==> modifier_chip(n)[0].ink == ink(Hue::Gray),
{
}

/// Dice are hailed by name where all of them are d20s, and counted where they are several.
pub proof fn several_dice_are_counted(n: nat, d20: bool, name: Seq<char>, other: Seq<char>)
    ensures
        n <= 1 && d20 ==> hailed(n, d20, name, other) == name,
        n <= 1 && !d20 ==> hailed(n, d20, name, other) == other,
        n > 1 ==> hailed(n, d20, name, other) == hailed(1, d20, name, other) + " ×"@ + dec(n),
{
}

/// Dice are all d20s where none of them has another number of sides.
pub proof fn d20s_have_twenty_sides(dice: Seq<Die>, which: Seq<int>, i: int)
    ensures
        all_d20(dice, Seq::empty()),
        all_d20(dice, which.push(i)) <==> all_d20(dice, which) && dice[i].sides == 20,
{
    let all = which.push(i);
    if all_d20(dice, all) {
        assert(dice[all[which.len() as int]].sides == 20);
        assert forall|k: int| 0 <= k < which.len() implies dice[#[trigger] which[k]].sides == 20 by {
            assert(dice[all[k]].sides == 20);
        }
    }
}

/// The total is shown once every die rests, on a green ground, and is held back before.
pub proof fn totals_wait_for_the_dice(app: App)
    ensures
        total_pieces(app).len() == 3,
        total_pieces(app)[0].text == "  Σ total "@,
        app.settled_spec() ==> total_pieces(app)[1].text == " "@ + dec_int(app.total_spec()) + " "@,
        app.settled_spec() ==> total_pieces(app)[1].ink == stamp(Hue::Green),
        !app.settled_spec() ==> total_pieces(app)[1].text == " … "@,
        !app.settled_spec() ==> total_pieces(app)[1].ink == dim(Hue::DarkGray),
        total_pieces(app)[0].ink == ink(Hue::Gray),
        total_pieces(app)[2].text == "   "@,
        total_pieces(app)[2].ink == ink(Hue::Plain),
{
}

/// The verdict on a staked roll is shown beside the stake once every die rests, on green
/// where it is made and on red where it is missed; before that, and without a stake, only
/// that the dice roll.
pub proof fn verdicts_show_the_stake(app: App)
    ensures
        app.stake is None && app.settled_spec() ==> verdict_pieces(app).len() == 1
            && verdict_pieces(app)[0].text == ""@,
        app.stake is None && !app.settled_spec() ==> verdict_pieces(app).len() == 1
            && verdict_pieces(app)[0].text == "(rolling…)"@,
        app.stake is Some && !app.settled_spec() ==> verdict_pieces(app).len() == 1
            && verdict_pieces(app)[0].text == stake_text(app.stake->0) + "  (rolling…)"@,
        app.stake is Some && app.settled_spec() ==> {
            let (success, margin) = app.verdict_spec()->0;
            &&& verdict_pieces(app).len() == 2
            &&& verdict_pieces(app)[0].text == stake_text(app.stake->0) + "  "@
            &&& verdict_pieces(app)[1].text == " "@ + verdict_words(success, margin as int) + " "@
            &&& verdict_pieces(app)[0].ink == ink(Hue::Gray)
            &&& success ==> verdict_pieces(app)[1].ink == stamp(Hue::Green)
            &&& !success ==> verdict_pieces(app)[1].ink == stamp(Hue::Red)
        },
        app.verdict_spec() is None ==> verdict_pieces(app)[0].ink == ink(Hue::DarkGray),
{
}

/// Crits and fumbles are hailed once every die rests, each only where there is one, and
/// with how many there are.
pub proof fn honours_wait_for_the_dice(app: App)
    ensures
        ({
            let up = crit_indices(app.dice@, app.dice@.len() as int);
            let down = fumble_indices(app.dice@, app.dice@.len() as int);
            &&& crit_pieces(app).len() == 1 <==> app.settled_spec() && up.len() > 0
            &&& crit_pieces(app).len() == 0 <==> !app.settled_spec() || up.len() == 0
            &&& fumble_pieces(app).len() == 1 <==> app.settled_spec() && down.len() > 0
            &&& fumble_pieces(app).len() == 0 <==> !app.settled_spec() || down.len() == 0
            &&& crit_pieces(app).len() == 1 ==> crit_pieces(app)[0].text == hailed(
                up.len(),
                all_d20(app.dice@, up),
                "  ✦ natural 20"@,
                "  ✦ crit"@,
            ) && crit_pieces(app)[0].ink == bold(Hue::Yellow)
            &&& fumble_pieces(app).len() == 1 ==> fumble_pieces(app)[0].text == hailed(
                down.len(),
                all_d20(app.dice@, down),
                "  natural 1"@,
                "  fumble"@,
            ) && fumble_pieces(app)[0].ink == dim(Hue::Red)
        }),
{
}

/// The result panel shows the complaint where there is one, an invitation where there are
/// no dice, and else two lines: the dice and the modifier, then the total, the verdict and
/// the honours.
pub proof fn results_show_complaint_or_dice(app: App)
    ensures
        app.error matches Some(said) ==> {
            &&& results(app).len() == 1
            &&& results(app)[0].len() == 2
            &&& results(app)[0][0].text == "⚠ "@
            &&& results(app)[0][1].text == said@
            &&& results(app)[0][0].ink == ink(Hue::Red)
            &&& results(app)[0][1].ink == ink(Hue::Red)
        },
        app.error is None && app.dice@.len() == 0 ==> {
            &&& results(app).len() == 1
            &&& results(app)[0].len() == 1
            &&& results(app)[0][0].text == "type a dice expression below — Enter does the rest"@
        },
        app.error is None && app.dice@.len() > 0 ==> {
            &&& results(app).len() == 2
            &&& results(app)[0] == chips(app.dice@, app.dice@.len() as int) + modifier_chip(
                app.modifier,
            )
            &&& results(app)[1] == total_pieces(app) + verdict_pieces(app) + crit_pieces(app)
                + fumble_pieces(app)
        },
{
}

/// Blanks fill a text up to its column, on the left; one that is wider stays as it is.
pub proof fn columns_align_on_the_right(s: Seq<char>, width: nat, k: int)
    requires
        0 <= k < right_aligned(s, width).len(),
    ensures
        s.len() >= width ==> right_aligned(s, width) == s,
        s.len() < width ==> right_aligned(s, width).len() == width,
        k < right_aligned(s, width).len() - s.len() ==> right_aligned(s, width)[k] == ' ',
        k >= right_aligned(s, width).len() - s.len() ==> right_aligned(s, width)[k] == s[k - (
        right_aligned(s, width).len() - s.len())],
{
    assert(s.len() >= width ==> right_aligned(s, width) =~= s);
}

/// Numbers are written in decimal, in order.
pub proof fn numbers_go_one_by_one(values: Seq<u32>, k: int)
    requires
        0 <= k < values.len(),
    ensures
        numbers(values).len() == values.len(),
        numbers(values)[k] == dec(values[k] as nat),
{
}

/// A roll in the history is shown with its number, its expression, the faces of its kept
/// dice and its total.
pub proof fn entries_show_the_roll(e: EntryView, idx: nat)
    ensures
        history_line(e, idx).len() == 4,
        history_line(e, idx)[0].text == "  "@ + right_aligned(dec(idx), 3) + ". "@,
        history_line(e, idx)[1].text == padded(e.expr, 12),
        history_line(e, idx)[2].text == "["@ + joined(numbers(e.values), " "@) + "]  "@,
        history_line(e, idx)[3].text == "= "@ + dec_int(e.total as int),
        history_line(e, idx)[0].ink == ink(Hue::DarkGray),
        history_line(e, idx)[1].ink == ink(Hue::Cyan),
        history_line(e, idx)[2].ink == ink(Hue::Gray),
        history_line(e, idx)[3].ink == bold(Hue::Green),
{
}

/// The history shows every roll, the newest first, each with the number that it has had
/// from the start, and then the footer; an empty one says so.
pub proof fn histories_show_the_newest_first(history: Seq<EntryView>, k: int)
    requires
        0 <= k < history.len(),
    ensures
        history_text(history).len() == history.len() + 2,
        history_text(history)[k] == history_line(
            history[history.len() - 1 - k],
            (history.len() - k) as nat,
        ),
        history_text(history)[history.len() as int].len() == 0,
        history_text(history).last() == close_hint(),
        close_hint().len() == 1,
        close_hint()[0].text == "  ↑ ↓ scroll · Esc · q to close"@,
        history_text(Seq::empty()).len() == 3,
        history_text(Seq::empty())[0].len() == 1,
        history_text(Seq::empty())[0][0].text
            == "  no rolls yet — shake some dice loose with Enter"@,
{
    lemma_history_rows(history, history.len() as int, k);
}

proof fn lemma_history_rows(history: Seq<EntryView>, n: int, k: int)
    requires
        0 <= k < n <= history.len(),
    ensures
        history_rows(history, n).len() == n,
        history_rows(history, n)[k] == history_line(
            history[history.len() - 1 - k],
            (history.len() - k) as nat,
        ),
    decreases n,
{
    lemma_rows_len(history, n - 1);
    if k < n - 1 {
        lemma_history_rows(history, n - 1, k);
    }
}

proof fn lemma_rows_len(history: Seq<EntryView>, n: int)
    requires
        0 <= n,
    ensures
        history_rows(history, n).len() == n,
    decreases n,
{
    if n > 0 {
        lemma_rows_len(history, n - 1);
    }
}

/// A bar is shown with the total that it stands for, as long as it is, and with its share.
pub proof fn bars_are_as_long_as_they_are(bars: Seq<Bar>, k: int, j: int)
    requires
        0 <= k < bars.len(),
    ensures
        bar_lines(bars).len() == bars.len(),
        bar_lines(bars)[k].len() == 3,
        bar_lines(bars)[k][0].text == "  "@ + right_aligned(dec_int(bars[k].total as int), 4)
            + " "@,
        bar_lines(bars)[k][1].text.len() == bars[k].filled,
        0 <= j < bars[k].filled ==> bar_lines(bars)[k][1].text[j] == '█',
        bar_lines(bars)[k][2].text == " "@ + bars[k].share@,
        bar_lines(bars)[k][0].ink == ink(Hue::DarkGray),
        bar_lines(bars)[k][1].ink == ink(Hue::Cyan),
        bar_lines(bars)[k][2].ink == ink(Hue::Gray),
{
}

/// The chance to make a stake is told where there is one, and only there; the range, the
/// mean and the number of samples always are, and then how the session has fared.
pub proof fn odds_tell_of_stake_range_and_session(s: StatsView, f: Figures)
    ensures
        s.stake is Some && s.successes is Some ==> odds_lines(s, f).len() == 1 && odds_lines(
            s,
            f,
        )[0].len() == 3 && odds_lines(s, f)[0][1].text == stake_text(s.stake->0) + ": "@
            && odds_lines(s, f)[0][2].text == f.odds@ + "% to succeed"@ && odds_lines(
            s,
            f,
        )[0][2].ink == bold(Hue::Green),
        s.stake is None || s.successes is None ==> odds_lines(s, f).len() == 0,
        range_lines(s, f).len() == 3,
        range_lines(s, f)[0].len() == 2,
        range_lines(s, f)[0][1].text == "min "@ + dec_int(s.min) + "   max "@ + dec_int(s.max)
            + "   avg "@ + f.mean@,
        range_lines(s, f)[1].len() == 1,
        range_lines(s, f)[1][0].text == "  (estimated from "@ + dec(s.samples as nat)
            + " samples)"@,
        range_lines(s, f)[2].len() == 0,
        session_line(s, f).len() == 1,
        s.session.count == 0 ==> session_line(s, f)[0].text == "  no rolls of "@ + s.expr
            + " yet ("@ + dec(s.total_rolls as nat) + " rolls total)"@,
        s.session.count != 0 ==> session_line(s, f)[0].text == "  "@ + dec(s.session.count as nat)
            + " rolls   low "@ + dec_int(s.session.min as int) + "   high "@ + dec_int(
            s.session.max as int,
        ) + "   mean "@ + f.session_mean@,
{
}

/// The statistics pane shows, from top to bottom: the expression, the chance where there is
/// a stake, the range, each bar in order, how the session has fared, and the footer.
pub proof fn statistics_go_from_odds_to_session(s: StatsView, f: Figures, k: int)
    ensures
        ({
            let all = stats_text(s, f);
            let o = odds_lines(s, f).len() as int;
            let b = f.bars@.len() as int;
            let dist = if b > 0 {
                b + 1
            } else {
                0
            };
            &&& all.len() == 1 + o + 3 + dist + 4
            &&& all[0].len() == 1 && all[0][0].text == "Odds for  "@ + s.expr
            &&& all[0][0].ink.bold && all[0][0].ink.fg is Yellow
            &&& o == 1 ==> all[1] == odds_lines(s, f)[0]
            &&& all[1 + o] == range_lines(s, f)[0]
            &&& all[2 + o] == range_lines(s, f)[1]
            &&& all[3 + o].len() == 0
            &&& 0 <= k < b ==> all[4 + o + k] == bar_line(f.bars@[k])
            &&& b > 0 ==> all[4 + o + b].len() == 0
            &&& all[4 + o + dist].len() == 1 && all[4 + o + dist][0].text == "This session"@
            &&& all[5 + o + dist] == session_line(s, f)
            &&& all[6 + o + dist].len() == 0
            &&& all[7 + o + dist] == close_hint()
        }),
{
}

} // verus!
