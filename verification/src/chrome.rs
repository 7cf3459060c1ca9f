//! The frame around the arena: its title, the help, the line being typed, and where
//! a pane lies.

use crate::app::{App, Pane, RollMode};
use crate::edit::find_caret;
use crate::lines::{
    add_line, add_piece, bold, close_hint, heading, in_bold, in_ink, ink, line_of, lines_of, piece,
    pieces, Hue, Ink, Piece, PieceView,
};
use crate::pool::Die;
use crate::roll::{crit_face, fumble_face, is_crit, is_fumble};
use crate::text::{chars_of, dec, padded, push_dec, push_padded, text_of};
use vstd::prelude::*;

verus! {

/// How hard a throw was.
#[derive(Debug, Clone, Copy, PartialEq, Eq, Structural)]
pub enum ThrowTier {
    Lob,
    Toss,
    Rocket,
    Peak,
}

/// The title of the arena: what the dice are doing, and how they were thrown.
pub open spec fn title(app: App, tier: Option<ThrowTier>) -> Seq<char> {
    if app.shake is Some {
        " 🎲  tinhorn — shaking… "@
    } else if app.settled_spec() {
        " 🎲  tinhorn — settled "@
    } else if app.spawned {
        match tier {
            Some(ThrowTier::Lob) => " 🎲  tinhorn — a timid lob… "@,
            Some(ThrowTier::Toss) => " 🎲  tinhorn — a clean toss… "@,
            Some(_) => " 🎲  tinhorn — a rocket throw… "@,
            None => " 🎲  tinhorn — rolling… "@,
        }
    } else {
        " 🎲  tinhorn "@
    }
}

pub fn arena_title(app: &App, tier: Option<ThrowTier>) -> (s: &'static str)
    ensures
        s@ == title(*app, tier),
{
    if app.shaking() {
        " 🎲  tinhorn — shaking… "
    } else if app.all_settled() {
        " 🎲  tinhorn — settled "
    } else if app.spawned {
        match tier {
            Some(ThrowTier::Lob) => " 🎲  tinhorn — a timid lob… ",
            Some(ThrowTier::Toss) => " 🎲  tinhorn — a clean toss… ",
            Some(_) => " 🎲  tinhorn — a rocket throw… ",
            None => " 🎲  tinhorn — rolling… ",
        }
    } else {
        " 🎲  tinhorn "
    }
}

/// The words for a throw that has just been made.
pub open spec fn tier_words(tier: ThrowTier) -> Seq<char> {
    match tier {
        ThrowTier::Peak => "— the peak!"@,
        ThrowTier::Rocket => "— a rocket"@,
        ThrowTier::Toss => "— a clean toss"@,
        ThrowTier::Lob => "— a timid lob"@,
    }
}

pub fn release_words(tier: ThrowTier) -> (s: &'static str)
    ensures
        s@ == tier_words(tier),
{
    match tier {
        ThrowTier::Peak => "— the peak!",
        ThrowTier::Rocket => "— a rocket",
        ThrowTier::Toss => "— a clean toss",
        ThrowTier::Lob => "— a timid lob",
    }
}

/// The cells of the power meter.
pub const METER_WIDTH: usize = 14;

/// The power meter with `filled` of its cells full.
pub open spec fn meter(filled: usize) -> Seq<char> {
    Seq::new(
        METER_WIDTH as nat,
        |k: int|
            if k < filled {
                '▓'
            } else {
                '░'
            },
    )
}

pub fn power_bar(filled: usize) -> (s: String)
    ensures
        s@ == meter(filled),
{
    let mut s = String::new();
    let mut k: usize = 0;
    while k < METER_WIDTH
        invariant
            k <= METER_WIDTH,
            s@ == Seq::new(
                k as nat,
                |j: int|
                    if j < filled {
                        '▓'
                    } else {
                        '░'
                    },
            ),
        decreases METER_WIDTH - k,
    {
        if k < filled {
            s.push('▓');
        } else {
            s.push('░');
        }
        k += 1;
        assert(s@ == Seq::new(
            k as nat,
            |j: int|
                if j < filled {
                    '▓'
                } else {
                    '░'
                },
        ));
    }
    s
}

pub open spec fn key(name: Seq<char>) -> PieceView {
    piece(name, bold(Hue::Cyan))
}

pub open spec fn word(text: Seq<char>) -> PieceView {
    piece(text, ink(Hue::Plain))
}

pub open spec fn mode_word(mode: RollMode) -> Seq<char> {
    match mode {
        RollMode::Shake => "shake"@,
        RollMode::Roll => "roll"@,
        RollMode::Insta => "insta"@,
    }
}

/// The help bar: what the keys do just now.
pub open spec fn help_bar_text(app: App) -> Seq<PieceView> {
    if app.shake is Some {
        seq![
            piece(" › shaking…  "@, ink(Hue::Yellow)),
            key("Enter"@),
            word(" · "@),
            key("Tab"@),
            word(" throw  "@),
            key("Esc"@),
            word(" put them down"@),
        ]
    } else {
        seq![
            piece(" › "@, ink(Hue::Cyan)),
            key("Enter"@),
            word(" "@ + mode_word(app.mode) + "  "@),
            key("Tab"@),
            word(" mode  "@),
            key("?"@),
            word(" help  "@),
            key("^H"@),
            word(" history  "@),
            key("^S"@),
            word(" stats  "@),
            key("^Q"@),
            word(
                if app.muted {
                    " unmute 🔇  "@
                } else {
                    " mute  "@
                },
            ),
            key("Esc"@),
            word(" quit"@),
        ]
    }
}

fn write_key(line: &mut Vec<Piece>, name: &str, text: &str)
    ensures
        pieces(final(line)@) == pieces(old(line)@).push(key(name@)).push(word(text@)),
{
    add_piece(line, name, in_bold(Hue::Cyan));
    add_piece(line, text, in_ink(Hue::Plain));
}

/// The help bar: what the keys do just now.
pub fn help_bar(app: &App) -> (line: Vec<Piece>)
    ensures
        pieces(line@) == help_bar_text(*app),
{
    if app.shaking() {
        let mut line = line_of(" › shaking…  ", in_ink(Hue::Yellow));
        write_key(&mut line, "Enter", " · ");
        write_key(&mut line, "Tab", " throw  ");
        write_key(&mut line, "Esc", " put them down");
        assert(pieces(line@) == help_bar_text(*app));
        line
    } else {
        let mut line = line_of(" › ", in_ink(Hue::Cyan));
        let mut mode = " ".to_owned();
        mode.append(app.mode.label());
        mode.append("  ");
        write_key(&mut line, "Enter", mode.as_str());
        write_key(&mut line, "Tab", " mode  ");
        write_key(&mut line, "?", " help  ");
        write_key(&mut line, "^H", " history  ");
        write_key(&mut line, "^S", " stats  ");
        let sound = if app.muted {
            " unmute 🔇  "
        } else {
            " mute  "
        };
        write_key(&mut line, "^Q", sound);
        write_key(&mut line, "Esc", " quit");
        assert(pieces(line@) == help_bar_text(*app));
        line
    }
}

/// A row of the help: an example and what it means.
pub open spec fn help_row(example: Seq<char>, meaning: Seq<char>) -> Seq<PieceView> {
    seq![
        word("  "@),
        piece(padded(example, 11), ink(Hue::Cyan)),
        piece(meaning, ink(Hue::Gray)),
    ]
}

fn add_heading(lines: &mut Vec<Vec<Piece>>, text: &str)
    ensures
        lines_of(final(lines)@) == lines_of(old(lines)@).push(heading(text@)),
{
    let line = line_of(text, in_bold(Hue::Yellow));
    assert(pieces(line@) == heading(text@));
    add_line(lines, line);
}

fn add_row(lines: &mut Vec<Vec<Piece>>, example: &str, meaning: &str)
    ensures
        lines_of(final(lines)@) == lines_of(old(lines)@).push(help_row(example@, meaning@)),
{
    let mut left = String::new();
    push_padded(&mut left, example, 11);
    assert(left@ == padded(example@, 11));
    let mut line = line_of("  ", in_ink(Hue::Plain));
    add_piece(&mut line, left.as_str(), in_ink(Hue::Cyan));
    add_piece(&mut line, meaning, in_ink(Hue::Gray));
    assert(pieces(line@) == help_row(example@, meaning@));
    add_line(lines, line);
}

fn add_blank(lines: &mut Vec<Vec<Piece>>)
    ensures
        lines_of(final(lines)@) == lines_of(old(lines)@).push(Seq::empty()),
{
    let blank: Vec<Piece> = Vec::new();
    assert(pieces(blank@) == Seq::<PieceView>::empty());
    add_line(lines, blank);
}

/// The dice notation in short.
pub open spec fn dice_help() -> Seq<Seq<PieceView>> {
    seq![
        heading("Dice"@),
        help_row("3d6"@, "three six-sided dice"@),
        help_row("d20"@, "one die (count defaults to 1)"@),
        help_row("d6+d8"@, "combine different dice"@),
        help_row("2d20-1"@, "add or subtract a flat modifier"@),
        Seq::empty(),
        heading("Keep / drop"@),
        help_row("2d20kh1"@, "advantage — keep the highest 1"@),
        help_row("2d20kl1"@, "disadvantage — keep the lowest 1"@),
        help_row("4d6dl1"@, "drop the lowest 1 (ability scores)"@),
        help_row("4d6dh1"@, "drop the highest 1"@),
        Seq::empty(),
    ]
}

pub open spec fn stakes_help() -> Seq<Seq<PieceView>> {
    seq![
        heading("Stakes & multiply"@),
        help_row("d20 > 15"@, "beat a target (or 'vs'); < N rolls under"@),
        help_row("4d6*2"@, "double this term's sum (modifiers stack)"@),
        Seq::empty(),
        heading("Exploding"@),
        help_row("3d6!"@, "a max face rolls another die"@),
        help_row("d10!>8"@, "explode on any face over 8 (also !=N, !<N)"@),
        Seq::empty(),
    ]
}

pub open spec fn throw_help() -> Seq<Seq<PieceView>> {
    seq![
        heading("The Throw"@),
        help_row("Enter"@, "shake the cup; Enter again throws — harder at the peak"@),
        help_row("Tab"@, "cycle Enter's mode: shake → roll → insta"@),
        help_row("Esc"@, "put them down. Power never touches the values."@),
        seq![
            piece(
                "  Separators: +  -  ,  space  or just write dice next to each other."@,
                ink(Hue::DarkGray),
            ),
        ],
        close_hint(),
    ]
}

/// What the help pane says. With its frame it fits a terminal of 28 rows.
pub fn help_lines() -> (lines: Vec<Vec<Piece>>)
    ensures
        lines_of(lines@) == dice_help() + stakes_help() + throw_help(),
        lines@.len() + 2 <= 28,
{
    let mut lines: Vec<Vec<Piece>> = Vec::new();
    assert(lines_of(lines@) == Seq::<Seq<PieceView>>::empty());
    add_heading(&mut lines, "Dice");
    add_row(&mut lines, "3d6", "three six-sided dice");
    add_row(&mut lines, "d20", "one die (count defaults to 1)");
    add_row(&mut lines, "d6+d8", "combine different dice");
    add_row(&mut lines, "2d20-1", "add or subtract a flat modifier");
    add_blank(&mut lines);
    add_heading(&mut lines, "Keep / drop");
    add_row(&mut lines, "2d20kh1", "advantage — keep the highest 1");
    add_row(&mut lines, "2d20kl1", "disadvantage — keep the lowest 1");
    add_row(&mut lines, "4d6dl1", "drop the lowest 1 (ability scores)");
    add_row(&mut lines, "4d6dh1", "drop the highest 1");
    add_blank(&mut lines);
    assert(lines_of(lines@) == dice_help());
    add_heading(&mut lines, "Stakes & multiply");
    add_row(&mut lines, "d20 > 15", "beat a target (or 'vs'); < N rolls under");
    add_row(&mut lines, "4d6*2", "double this term's sum (modifiers stack)");
    add_blank(&mut lines);
    add_heading(&mut lines, "Exploding");
    add_row(&mut lines, "3d6!", "a max face rolls another die");
    add_row(&mut lines, "d10!>8", "explode on any face over 8 (also !=N, !<N)");
    add_blank(&mut lines);
    assert(lines_of(lines@) == dice_help() + stakes_help());
    add_heading(&mut lines, "The Throw");
    add_row(&mut lines, "Enter", "shake the cup; Enter again throws — harder at the peak");
    add_row(&mut lines, "Tab", "cycle Enter's mode: shake → roll → insta");
    add_row(&mut lines, "Esc", "put them down. Power never touches the values.");
    add_line(
        &mut lines,
        line_of(
            "  Separators: +  -  ,  space  or just write dice next to each other.",
            in_ink(Hue::DarkGray),
        ),
    );
    let faint = Ink {
        fg: Hue::DarkGray,
        bg: Hue::Plain,
        bold: false,
        dim: false,
        italic: true,
    };
    let hint = line_of("  ↑ ↓ scroll · Esc · q to close", faint);
    assert(pieces(hint@) == close_hint());
    add_line(&mut lines, hint);
    assert(lines_of(lines@) == dice_help() + stakes_help() + throw_help());
    assert(lines_of(lines@).len() == lines@.len());
    lines
}

/// What stands above a pane.
pub open spec fn title_of(pane: Pane) -> Seq<char> {
    match pane {
        Pane::Closed => ""@,
        Pane::Help => " 🎲  dice notation "@,
        Pane::History => " 🎲  history "@,
        Pane::Stats => " 🎲  statistics "@,
    }
}

pub fn pane_title(pane: Pane) -> (s: &'static str)
    ensures
        s@ == title_of(pane),
{
    match pane {
        Pane::Closed => "",
        Pane::Help => " 🎲  dice notation ",
        Pane::History => " 🎲  history ",
        Pane::Stats => " 🎲  statistics ",
    }
}

/// Where a pane lies: its size, and the first of its lines that is shown.
#[derive(Debug, Clone, Copy, PartialEq, Eq, Structural)]
pub struct Panel {
    pub width: u16,
    pub height: u16,
    pub scroll: u16,
}

pub open spec fn lesser(a: int, b: int) -> int {
    if a < b {
        a
    } else {
        b
    }
}

/// The lines of a pane of `height` rows that its frame leaves free.
pub open spec fn rows_inside(height: int) -> int {
    if height < 2 {
        0
    } else {
        height - 2
    }
}

/// The pane for `lines` lines, the widest of `widest` cells, in a terminal of `width`
/// by `height` cells. It is as large as its text and frame, but no larger than the
/// terminal, and scrolls no further than to its last line.
pub fn panel(lines: u16, widest: u16, width: u16, height: u16, scroll: u16) -> (p: Panel)
    ensures
        p.width == lesser(widest + 4, width as int),
        p.height == lesser(lines + 2, height as int),
        p.scroll == lesser(
            scroll as int,
            if lines < rows_inside(p.height as int) {
                0
            } else {
                lines - rows_inside(p.height as int)
            },
        ),
{
    let w: u32 = widest as u32 + 4;
    let h: u32 = lines as u32 + 2;
    let pw: u16 = if w < width as u32 {
        w as u16
    } else {
        width
    };
    let ph: u16 = if h < height as u32 {
        h as u16
    } else {
        height
    };
    let rows: u16 = ph.saturating_sub(2);
    let most: u16 = lines.saturating_sub(rows);
    Panel {
        width: pw,
        height: ph,
        scroll: if scroll < most {
            scroll
        } else {
            most
        },
    }
}

/// A pane that is scrolled as far as it goes shows its last line at its foot, and one
/// whose text fits does not scroll.
pub proof fn panes_scroll_to_their_end(lines: int, height: int)
    requires
        0 <= lines,
        0 <= height,
    ensures
        ({
            let rows = rows_inside(lesser(lines + 2, height));
            let most = if lines < rows {
                0
            } else {
                lines - rows
            };
            &&& most + rows == lines
            &&& lines + 2 <= height ==> most == 0
        }),
{
}

/// The line in three: before the caret, under it, and after it. A blank is under the
/// caret at the end.
pub fn caret_split(app: &App) -> (r: (String, String, String))
    ensures
        r.0@ == app.input@.take(app.caret()),
        r.1@ == (if app.caret() < app.input@.len() {
            seq![app.input@[app.caret()]]
        } else {
            " "@
        }),
        r.2@ == (if app.caret() < app.input@.len() {
            app.input@.skip(app.caret() + 1)
        } else {
            Seq::empty()
        }),
{
    let chars = chars_of(app.input.as_str());
    let n: usize = chars.len();
    let (k, at) = find_caret(&chars, app.cursor);
    let before = text_of(&chars, 0, k);
    assert(before@ == app.input@.take(app.caret()));
    if k < n {
        let under = text_of(&chars, k, k + 1);
        let after = text_of(&chars, k + 1, n);
        assert(under@ == seq![app.input@[app.caret()]]);
        assert(after@ == app.input@.skip(app.caret() + 1));
        (before, under, after)
    } else {
        (before, " ".to_owned(), String::new())
    }
}

/// How far the line is shifted so that a caret in column `caret` shows in `width`
/// columns.
pub fn input_scroll(caret: u16, width: u16) -> (shift: u16)
    ensures
        shift == (if caret + 1 > width && width > 0 {
            caret + 1 - width
        } else if width == 0 {
            caret as int
        } else {
            0
        }),
        width > 0 ==> shift <= caret < shift + width,
{
    caret.saturating_sub(width.saturating_sub(1))
}

/// How the number on a die is drawn.
#[derive(Debug, Clone, Copy, PartialEq, Eq, Structural)]
pub enum FaceInk {
    /// The die still tumbles.
    Tumbling,
    /// The die was dropped.
    Dropped,
    Crit,
    Fumble,
    Plain,
}

/// How the number on a die is drawn, or that it is not, while the die tumbles and no
/// face of it is `clear`.
pub fn face_ink(die: &Die, clear: bool) -> (i: Option<FaceInk>)
    ensures
        i == (if !die.settled {
            if clear {
                Some(FaceInk::Tumbling)
            } else {
                None
            }
        } else if !die.kept {
            Some(FaceInk::Dropped)
        } else if is_crit(die.sides, die.final_value) {
            Some(FaceInk::Crit)
        } else if is_fumble(die.sides, die.final_value) {
            Some(FaceInk::Fumble)
        } else {
            Some(FaceInk::Plain)
        }),
{
    if !die.settled {
        if clear {
            Some(FaceInk::Tumbling)
        } else {
            None
        }
    } else if !die.kept {
        Some(FaceInk::Dropped)
    } else if crit_face(die.sides, die.final_value) {
        Some(FaceInk::Crit)
    } else if fumble_face(die.sides, die.final_value) {
        Some(FaceInk::Fumble)
    } else {
        Some(FaceInk::Plain)
    }
}

/// The digits of the widest number that any of the first `n` dice can show.
pub open spec fn widest(dice: Seq<Die>, n: int) -> nat
    decreases n,
{
    if n <= 0 {
        1
    } else {
        let here = dec(dice[n - 1].sides as nat).len();
        let before = widest(dice, n - 1);
        if here > before {
            here
        } else {
            before
        }
    }
}

/// The digits of the widest number that any of the dice can show.
pub fn widest_number(dice: &Vec<Die>) -> (n: usize)
    ensures
        n == widest(dice@, dice@.len() as int),
{
    let mut n: usize = 1;
    let mut k: usize = 0;
    while k < dice.len()
        invariant
            k <= dice@.len(),
            n == widest(dice@, k as int),
        decreases dice@.len() - k,
    {
        let mut text = String::new();
        push_dec(&mut text, dice[k].sides as u64);
        assert(text@ == dec(dice@[k as int].sides as nat));
        let here: usize = text.as_str().unicode_len();
        if here > n {
            n = here;
        }
        k += 1;
    }
    n
}

/// The power meter with its words, while the cup is up.
pub fn meter_label(filled: usize) -> (s: String)
    ensures
        s@ == "power "@ + meter(filled) + " throw ↵"@,
{
    let mut s = "power ".to_owned();
    s.append(power_bar(filled).as_str());
    s.append(" throw ↵");
    s
}

/// The power that a throw was caught at, with the words for it.
pub fn echo_label(filled: usize, tier: ThrowTier) -> (s: String)
    ensures
        s@ == "caught "@ + meter(filled) + " "@ + tier_words(tier),
{
    let mut s = "caught ".to_owned();
    s.append(power_bar(filled).as_str());
    s.append(" ");
    s.append(release_words(tier));
    s
}

/// The column in which a text of `len` cells begins that is centred in `width` cells
/// from column `x` on, where it fits.
pub fn centred_column(x: u16, width: u16, len: u16) -> (r: Option<u16>)
    requires
        x + width <= u16::MAX,
    ensures
        match r {
            None => width < len,
            Some(at) => len <= width && at == x + (width - len) / 2 && at + len <= x + width,
        },
{
    if width < len {
        None
    } else {
        Some(x + (width - len) / 2)
    }
}

/// The title says what the dice do: that they are shaken where the cup is up, that they
/// have settled once they rest, how they were thrown while they fly, and nothing before.
pub proof fn titles_say_what_the_dice_do(app: App, tier: Option<ThrowTier>)
    ensures
        app.shake is Some ==> title(app, tier) == " 🎲  tinhorn — shaking… "@,
        app.shake is None && app.settled_spec() ==> title(app, tier) == " 🎲  tinhorn — settled "@,
        app.shake is None && !app.settled_spec() && !app.spawned ==> title(app, tier)
            == " 🎲  tinhorn "@,
        app.shake is None && !app.settled_spec() && app.spawned ==> {
            &&& tier is None ==> title(app, tier) == " 🎲  tinhorn — rolling… "@
            &&& tier == Some(ThrowTier::Lob) ==> title(app, tier)
                == " 🎲  tinhorn — a timid lob… "@
            &&& tier == Some(ThrowTier::Toss) ==> title(app, tier)
                == " 🎲  tinhorn — a clean toss… "@
            &&& tier == Some(ThrowTier::Rocket) || tier == Some(ThrowTier::Peak) ==> title(
                app,
                tier,
            ) == " 🎲  tinhorn — a rocket throw… "@
        },
{
}

/// Each way to throw, each mode and each pane has its words.
pub proof fn throws_and_panes_have_their_words()
    ensures
        tier_words(ThrowTier::Lob) == "— a timid lob"@,
        tier_words(ThrowTier::Toss) == "— a clean toss"@,
        tier_words(ThrowTier::Rocket) == "— a rocket"@,
        tier_words(ThrowTier::Peak) == "— the peak!"@,
        mode_word(RollMode::Shake) == "shake"@,
        mode_word(RollMode::Roll) == "roll"@,
        mode_word(RollMode::Insta) == "insta"@,
        title_of(Pane::Closed) == ""@,
        title_of(Pane::Help) == " 🎲  dice notation "@,
        title_of(Pane::History) == " 🎲  history "@,
        title_of(Pane::Stats) == " 🎲  statistics "@,
{
}

/// The power meter has fourteen cells, of which the first are full.
pub proof fn meters_fill_from_the_left(filled: usize, k: int)
    requires
        0 <= k < 14,
    ensures
        meter(filled).len() == 14,
        meter(filled)[k] == if k < filled {
            '▓'
        } else {
            '░'
        },
{
}

/// The help bar names the keys that work just now: while the cup is up those that empty it
/// and put it down, and else what enter does in the mode, the panes, the sound and quitting.
pub proof fn help_bars_name_the_keys(app: App)
    ensures
        app.shake is Some ==> {
            let bar = help_bar_text(app);
            &&& bar.len() == 7
            &&& bar[0].text == " › shaking…  "@
            &&& bar[1].text == "Enter"@ && bar[3].text == "Tab"@ && bar[4].text == " throw  "@
            &&& bar[5].text == "Esc"@ && bar[6].text == " put them down"@
        },
        app.shake is None ==> {
            let bar = help_bar_text(app);
            &&& bar.len() == 15
            &&& bar[1].text == "Enter"@ && bar[2].text == " "@ + mode_word(app.mode) + "  "@
            &&& bar[3].text == "Tab"@ && bar[4].text == " mode  "@
            &&& bar[5].text == "?"@ && bar[6].text == " help  "@
            &&& bar[7].text == "^H"@ && bar[8].text == " history  "@
            &&& bar[9].text == "^S"@ && bar[10].text == " stats  "@
            &&& bar[11].text == "^Q"@
            &&& app.muted ==> bar[12].text == " unmute 🔇  "@
            &&& !app.muted ==> bar[12].text == " mute  "@
            &&& bar[13].text == "Esc"@ && bar[14].text == " quit"@
        },
{
}

/// A row of the help holds an example in its column and what it means.
pub proof fn help_rows_hold_example_and_meaning(example: Seq<char>, meaning: Seq<char>)
    ensures
        help_row(example, meaning).len() == 3,
        help_row(example, meaning)[0].text == "  "@,
        help_row(example, meaning)[1].text == padded(example, 11),
        help_row(example, meaning)[2].text == meaning,
        key(example).text == example && key(example).ink.bold,
        word(example).text == example && !word(example).ink.bold,
{
}

/// The help speaks of dice, of what is kept, of stakes, of explosions and of the throw, in
/// this order, and ends with the footer.
pub proof fn help_speaks_of_all_of_it()
    ensures
        ({
            let all = dice_help() + stakes_help() + throw_help();
            &&& all.len() == 26
            &&& all[0] == heading("Dice"@)
            &&& all[1] == help_row("3d6"@, "three six-sided dice"@)
            &&& all[2] == help_row("d20"@, "one die (count defaults to 1)"@)
            &&& all[3] == help_row("d6+d8"@, "combine different dice"@)
            &&& all[4] == help_row("2d20-1"@, "add or subtract a flat modifier"@)
            &&& all[6] == heading("Keep / drop"@)
            &&& all[7] == help_row("2d20kh1"@, "advantage — keep the highest 1"@)
            &&& all[8] == help_row("2d20kl1"@, "disadvantage — keep the lowest 1"@)
            &&& all[9] == help_row("4d6dl1"@, "drop the lowest 1 (ability scores)"@)
            &&& all[10] == help_row("4d6dh1"@, "drop the highest 1"@)
            &&& all[12] == heading("Stakes & multiply"@)
            &&& all[13] == help_row("d20 > 15"@, "beat a target (or 'vs'); < N rolls under"@)
            &&& all[14] == help_row("4d6*2"@, "double this term's sum (modifiers stack)"@)
            &&& all[16] == heading("Exploding"@)
            &&& all[17] == help_row("3d6!"@, "a max face rolls another die"@)
            &&& all[18] == help_row("d10!>8"@, "explode on any face over 8 (also !=N, !<N)"@)
            &&& all[20] == heading("The Throw"@)
            &&& all[21] == help_row(
                "Enter"@,
                "shake the cup; Enter again throws — harder at the peak"@,
            )
            &&& all[22] == help_row("Tab"@, "cycle Enter's mode: shake → roll → insta"@)
            &&& all[23] == help_row("Esc"@, "put them down. Power never touches the values."@)
            &&& all[24].len() == 1 && all[24][0].text
                == "  Separators: +  -  ,  space  or just write dice next to each other."@
            &&& all[25] == close_hint()
            &&& all[5].len() == 0 && all[11].len() == 0 && all[15].len() == 0 && all[19].len() == 0
            &&& heading("Dice"@).len() == 1 && heading("Dice"@)[0].text == "Dice"@
        }),
{
}

/// A pane is no larger than either of two limits and meets one of them; its frame takes a
/// row at its head and one at its foot.
pub proof fn panes_meet_a_limit(a: int, b: int)
    ensures
        lesser(a, b) <= a,
        lesser(a, b) <= b,
        lesser(a, b) == a || lesser(a, b) == b,
        a >= 2 ==> rows_inside(a) + 2 == a,
        a < 2 ==> rows_inside(a) == 0,
{
}

/// The widest number has as many digits as the sides of some die, or one where there are no
/// dice, and no die has more.
pub proof fn the_widest_number_fits_all(dice: Seq<Die>, n: int, k: int)
    requires
        0 <= k < n,
    ensures
        dec(dice[k].sides as nat).len() <= widest(dice, n),
        widest(dice, n) == 1 || exists|j: int|
            0 <= j < n && widest(dice, n) == dec((#[trigger] dice[j]).sides as nat).len(),
        widest(dice, 0) == 1,
    decreases n,
{
    let before = widest(dice, n - 1);
    let here = dec(dice[n - 1].sides as nat).len();
    if n > 1 {
        if k < n - 1 {
            the_widest_number_fits_all(dice, n - 1, k);
        } else {
            the_widest_number_fits_all(dice, n - 1, 0);
        }
        if here <= before && before != 1 {
            let j = choose|j: int|
                0 <= j < n - 1 && before == dec((#[trigger] dice[j]).sides as nat).len();
            assert(widest(dice, n) == dec(dice[j].sides as nat).len());
        }
    }
    if here > before {
        assert(widest(dice, n) == dec(dice[n - 1].sides as nat).len());
    }
}

} // verus!
