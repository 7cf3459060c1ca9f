use rand::rngs::StdRng;
use rand::SeedableRng;
use tinhorn::app::{App, Pane, RollMode};
use tinhorn::arena::{Pose, SoundEvent};
use tinhorn::chrome::{help_lines, panel};
use tinhorn::keys::{cap_clicks, followable, handle_key, route, toggle, Action, Key, Route};

fn session(initial: &str) -> App {
    App::with_rng(initial, StdRng::seed_from_u64(1))
}

/// Feed a string of plain (non-ctrl) characters through the key handler.
fn type_str(app: &mut App, s: &str) {
    for c in s.chars() {
        assert_eq!(handle_key(app, Key::Char(c), false), Action::Continue);
    }
}

/// Launches the roll that is due and lets everything come to rest.
fn settle(app: &mut App) {
    app.launched(0);
    while !app.all_settled() {
        let poses = vec![Pose { x: 0, y: 0, z: 0, rests: true }; app.dice.len()];
        app.sync_and_settle(&poses);
        while app.spawn_next().is_some() {}
    }
}

#[test]
fn main_typing_kh_reaches_the_input_and_does_not_open_a_pane() {
    // Regression: `h`/`s` must be typeable so `kh`, `dh`, etc. work. Before
    // the fix a bare `h` opened the history pane instead of typing.
    let mut app = session("");
    type_str(&mut app, "2d20kh1");
    assert_eq!(app.input, "2d20kh1");
    assert_eq!(app.pane, Pane::Closed, "typing must never open a pane");

    // An `s`-bearing expression types cleanly too.
    let mut app2 = session("");
    type_str(&mut app2, "3d6s"); // a stray 's' is just text
    assert_eq!(app2.input, "3d6s");
    assert_eq!(app2.pane, Pane::Closed);
}

#[test]
fn main_ctrl_chords_toggle_panes_without_typing() {
    let mut app = session("3d6");

    // Ctrl-H opens history; the letter is not inserted into the input.
    assert_eq!(
        handle_key(&mut app, Key::Char('h'), true),
        Action::Continue
    );
    assert_eq!(app.pane, Pane::History);
    assert_eq!(app.input, "3d6", "the chord must not type 'h'");

    // Pressing it again closes it; Ctrl-S then opens stats.
    handle_key(&mut app, Key::Char('h'), true);
    assert_eq!(app.pane, Pane::Closed);
    handle_key(&mut app, Key::Char('s'), true);
    assert_eq!(app.pane, Pane::Stats);

    // `?` toggles help and switches from another open pane.
    handle_key(&mut app, Key::Char('?'), false);
    assert_eq!(app.pane, Pane::Help);
}

#[test]
fn main_enter_shakes_then_throws_by_default() {
    let mut app = session("");
    type_str(&mut app, "2d20kh1");

    // Enter picks the cup up; nothing is rolled yet.
    assert_eq!(handle_key(&mut app, Key::Enter, false), Action::Continue);
    assert!(app.shaking());
    assert!(app.dice.is_empty(), "shaking must not roll");

    // Typing while shaking is swallowed — the expression is locked in.
    type_str(&mut app, "9d9");
    assert_eq!(app.input, "2d20kh1", "input changed mid-shake");

    // Esc puts the dice down instead of quitting.
    assert_eq!(handle_key(&mut app, Key::Esc, false), Action::Continue);
    assert!(!app.shaking());
    assert!(app.dice.is_empty(), "a cancelled shake must not roll");

    // Shake again and release with a second Enter: now the roll happens.
    handle_key(&mut app, Key::Enter, false);
    assert_eq!(handle_key(&mut app, Key::Enter, false), Action::Continue);
    assert!(!app.shaking());
    assert_eq!(app.dice.len(), 2, "the throw rolls the locked expression");
}

#[test]
fn main_tab_cycles_the_roll_mode() {
    let mut app = session("");
    type_str(&mut app, "2d6");

    // The full ritual is the default.
    assert_eq!(app.mode, RollMode::Shake);

    // One Tab: a plain animated roll — no cup, dice still bounce.
    assert_eq!(handle_key(&mut app, Key::Tab, false), Action::Continue);
    assert_eq!(app.mode, RollMode::Roll);
    assert_eq!(app.input, "2d6", "Tab must not type or roll");
    handle_key(&mut app, Key::Enter, false);
    assert!(!app.shaking(), "roll mode must not shake");
    assert_eq!(app.dice.len(), 2);
    assert!(!app.all_settled(), "a plain roll still animates");

    // Two Tabs in: insta — the dice land settled between two frames.
    handle_key(&mut app, Key::Tab, false);
    assert_eq!(app.mode, RollMode::Insta);
    handle_key(&mut app, Key::Enter, false);
    settle(&mut app);
    assert!(!app.shaking(), "insta must not shake");
    assert_eq!(app.dice.len(), 2);
    assert!(app.all_settled(), "insta must land already at rest");

    // A third Tab wraps back to the cup.
    handle_key(&mut app, Key::Tab, false);
    assert_eq!(app.mode, RollMode::Shake);
}

#[test]
fn main_ctrl_q_toggles_mute_everywhere() {
    let mut app = session("");
    assert!(!app.muted, "sound starts on");

    // Plain toggle, and the chord must not type a 'q'.
    type_str(&mut app, "3d6");
    assert_eq!(
        handle_key(&mut app, Key::Char('q'), true),
        Action::Continue
    );
    assert!(app.muted);
    assert_eq!(app.input, "3d6", "the chord must not type 'q'");

    // Works while a pane is open (and leaves the pane alone — the chord
    // must not act as the pane-closing bare 'q')…
    app.pane = Pane::Stats;
    handle_key(&mut app, Key::Char('q'), true);
    assert!(!app.muted);
    assert_eq!(app.pane, Pane::Stats);
    app.pane = Pane::Closed;

    // …and mid-shake, without throwing or cancelling.
    handle_key(&mut app, Key::Enter, false);
    assert!(app.shaking());
    handle_key(&mut app, Key::Char('q'), true);
    assert!(app.muted);
    assert!(app.shaking(), "muting must not disturb the shake");

    // A bare 'q' (no ctrl) still just types.
    app.cancel_shake();
    type_str(&mut app, "q");
    assert_eq!(app.input, "3d6q");
}

#[test]
fn main_enter_with_a_bad_expression_errors_instead_of_shaking() {
    let mut app = session("");
    type_str(&mut app, "garbage");
    handle_key(&mut app, Key::Enter, false);
    assert!(!app.shaking());
    assert!(app.error.is_some(), "the typo surfaces at pickup");
    // The input stays editable — the very next key must reach it.
    type_str(&mut app, "x");
    assert_eq!(app.input, "garbagex");
}

#[test]
fn main_esc_closes_a_pane_then_quits() {
    let mut app = session("3d6");
    app.pane = Pane::History;
    // First Esc just closes the pane (does not quit).
    assert_eq!(handle_key(&mut app, Key::Esc, false), Action::Continue);
    assert_eq!(app.pane, Pane::Closed);
    // With no pane open, Esc quits.
    assert_eq!(handle_key(&mut app, Key::Esc, false), Action::Quit);
}

#[test]
fn main_keys_are_swallowed_while_a_pane_is_open() {
    let mut app = session("");
    app.pane = Pane::Stats;
    // Typing while a pane is open must not edit the hidden expression.
    type_str(&mut app, "9d9");
    assert_eq!(app.input, "", "input changed while a pane was open");
    assert_eq!(app.pane, Pane::Stats);
}

#[test]
fn arrows_move_the_caret_and_edits_land_at_it() {
    let mut app = session("");
    type_str(&mut app, "3d6");
    // Typing leaves the caret at the end of the line.
    assert_eq!(app.cursor, 3);

    // Left steps back over the '6'; the next keystroke inserts there rather
    // than at the end.
    handle_key(&mut app, Key::Left, false);
    assert_eq!(app.cursor, 2);
    handle_key(&mut app, Key::Char('0'), false);
    assert_eq!(app.input, "3d06", "the digit lands under the caret");
    assert_eq!(app.cursor, 3);

    // Backspace deletes the character before the caret (the '0' just typed).
    handle_key(&mut app, Key::Backspace, false);
    assert_eq!(app.input, "3d6");
    assert_eq!(app.cursor, 2);

    // Delete removes the character under the caret (the '6').
    handle_key(&mut app, Key::Delete, false);
    assert_eq!(app.input, "3d");
    assert_eq!(app.cursor, 2);

    // Home/End jump to the ends; an insert at Home prepends.
    handle_key(&mut app, Key::Home, false);
    assert_eq!(app.cursor, 0);
    handle_key(&mut app, Key::Char('+'), false);
    assert_eq!(app.input, "+3d");
    handle_key(&mut app, Key::End, false);
    assert_eq!(app.cursor, app.input.len());

    // The caret clamps at both ends — Right past the end and Left past the
    // start are no-ops, not panics.
    handle_key(&mut app, Key::Right, false);
    assert_eq!(app.cursor, app.input.len());
    handle_key(&mut app, Key::Home, false);
    handle_key(&mut app, Key::Left, false);
    assert_eq!(app.cursor, 0);
}

#[test]
fn delete_at_end_of_line_is_a_no_op() {
    // The empty branch of input_delete (caret at end, nothing under it) must
    // not panic or alter the input.
    let mut app = session("");
    type_str(&mut app, "3d6");
    handle_key(&mut app, Key::End, false);
    handle_key(&mut app, Key::Delete, false);
    assert_eq!(app.input, "3d6");
    assert_eq!(app.cursor, 3);
}

#[test]
fn the_caret_survives_a_throw() {
    // A throw restores the locked expression; the caret must stay a valid
    // index into it, and the next keystroke must edit without panicking.
    let mut app = session("");
    type_str(&mut app, "2d20kh1");
    handle_key(&mut app, Key::Home, false); // caret to the start
    handle_key(&mut app, Key::Enter, false); // shake
    assert!(app.shaking());
    handle_key(&mut app, Key::Enter, false); // throw
    assert!(!app.shaking());
    assert_eq!(app.input, "2d20kh1");
    assert!(
        app.cursor <= app.input.len(),
        "caret must stay within the input"
    );
    handle_key(&mut app, Key::Char('x'), false);
    assert_eq!(
        app.input, "x2d20kh1",
        "the next keystroke edits at the caret"
    );
}

/// What a frame of 60 by 12 cells makes of the help pane's scroll.
fn draw_help(app: &mut App) {
    app.pane_scroll = panel(help_lines().len() as u16, 50, 60, 12, app.pane_scroll).scroll;
}

/// What a frame of 60 by 12 cells shows of the help, drawn once.
fn help_on_screen(app: &mut App) -> String {
    let lines = help_lines();
    let p = panel(lines.len() as u16, 50, 60, 12, app.pane_scroll);
    app.pane_scroll = p.scroll;
    let from = p.scroll as usize;
    lines[from..from + p.height as usize - 2]
        .iter()
        .map(|line| line.iter().map(|piece| piece.text.as_str()).collect::<String>() + "\n")
        .collect()
}

#[test]
fn page_keys_scroll_a_pane_by_a_chunk() {
    let mut app = session("");
    handle_key(&mut app, Key::Char('?'), false); // open help (26 lines)
    draw_help(&mut app);
    assert_eq!(app.pane_scroll, 0);

    // PageDown jumps a chunk (ten lines), not one.
    handle_key(&mut app, Key::PageDown, false);
    draw_help(&mut app);
    let after_pgdn = app.pane_scroll;
    assert!(after_pgdn >= 6, "PageDown scrolls by a chunk, not a line");

    // PageUp walks back toward the top.
    handle_key(&mut app, Key::PageUp, false);
    draw_help(&mut app);
    assert!(app.pane_scroll < after_pgdn, "PageUp scrolls back up");
}

#[test]
fn arrows_scroll_a_pane_taller_than_the_frame() {
    let mut app = session("");

    // Open help (opening resets the scroll to the top).
    handle_key(&mut app, Key::Char('?'), false);
    assert_eq!(app.pane, Pane::Help);
    assert_eq!(app.pane_scroll, 0);
    let top = help_on_screen(&mut app);
    assert!(top.contains("Dice"), "the first heading shows at the top");
    assert!(!top.contains("to close"), "the footer is below the fold");

    // End jumps to the last screenful: the footer scrolls in and the first heading
    // scrolls off.
    handle_key(&mut app, Key::End, false);
    let bottom = help_on_screen(&mut app);
    assert!(bottom.contains("to close"), "the footer scrolls into view");
    assert!(!bottom.contains("Dice"), "the top heading scrolled away");

    // Another Down can't run past the final screenful.
    let settled = app.pane_scroll;
    assert!(settled > 0, "the pane actually scrolled");
    handle_key(&mut app, Key::Down, false);
    help_on_screen(&mut app);
    assert_eq!(app.pane_scroll, settled, "scrolling stops at the bottom");

    // Home returns to the top.
    handle_key(&mut app, Key::Home, false);
    let again = help_on_screen(&mut app);
    assert_eq!(app.pane_scroll, 0);
    assert!(again.contains("Dice"), "Home shows the top again");
}

#[test]
fn arrows_scroll_by_a_line_and_stop_at_the_ends() {
    let mut app = session("");
    handle_key(&mut app, Key::Char('?'), false);
    handle_key(&mut app, Key::Down, false);
    handle_key(&mut app, Key::Down, false);
    handle_key(&mut app, Key::Up, false);
    draw_help(&mut app);
    assert_eq!(app.pane_scroll, 1);
    // The end is the last line at the foot: 26 lines in 10 rows.
    handle_key(&mut app, Key::End, false);
    assert_eq!(app.pane_scroll, u16::MAX);
    handle_key(&mut app, Key::Down, false);
    assert_eq!(app.pane_scroll, u16::MAX);
    draw_help(&mut app);
    assert_eq!(app.pane_scroll, 16);
    handle_key(&mut app, Key::Home, false);
    assert_eq!(app.pane_scroll, 0);
    handle_key(&mut app, Key::Up, false);
    assert_eq!(app.pane_scroll, 0);
    // Another pane opens at its top.
    handle_key(&mut app, Key::Down, false);
    handle_key(&mut app, Key::Char('h'), true);
    assert_eq!(app.pane_scroll, 0);
}

#[test]
fn carets_keep_off_the_inside_of_characters() {
    let mut app = session("");
    type_str(&mut app, "d6é€🎲");
    assert_eq!(app.cursor, app.input.len());
    assert_eq!(app.cursor, 2 + 2 + 3 + 4);
    handle_key(&mut app, Key::Left, false);
    assert_eq!(app.cursor, 7);
    handle_key(&mut app, Key::Left, false);
    assert_eq!(app.cursor, 4);
    // A stale caret inside a character stands before it, one past the end at the end.
    app.cursor = 6;
    assert_eq!(app.cursor_byte(), 4);
    app.cursor = 9;
    assert_eq!(app.cursor_byte(), 7);
    app.cursor = 100;
    assert_eq!(app.cursor_byte(), 11);
    app.cursor = 3;
    handle_key(&mut app, Key::Delete, false);
    assert_eq!(app.input, "d6€🎲");
    assert_eq!(app.cursor, 2);
    handle_key(&mut app, Key::Right, false);
    assert_eq!(app.cursor, 5);
    handle_key(&mut app, Key::Backspace, false);
    assert_eq!(app.input, "d6🎲");
    assert_eq!(app.cursor, 2);
}

#[test]
fn typing_and_erasing_leave_nothing_behind() {
    for at in 0..=3 {
        let mut app = session("");
        type_str(&mut app, "3d6");
        app.cursor = at;
        handle_key(&mut app, Key::Char('€'), false);
        handle_key(&mut app, Key::Backspace, false);
        assert_eq!(app.input, "3d6");
        assert_eq!(app.cursor, at);
    }
    let mut app = session("");
    handle_key(&mut app, Key::Backspace, false);
    assert_eq!(app.input, "");
}

#[test]
fn routes_depend_on_what_is_open() {
    let mut app = session("");
    assert_eq!(route(&app, Key::Char('c'), true), Route::Quit);
    assert_eq!(route(&app, Key::Char('x'), true), Route::Ignore);
    assert_eq!(route(&app, Key::Other, false), Route::Ignore);
    assert_eq!(route(&app, Key::Up, false), Route::Ignore);
    assert_eq!(route(&app, Key::Enter, false), Route::Shake);
    app.pane = Pane::Help;
    assert_eq!(route(&app, Key::Char('c'), true), Route::Quit);
    assert_eq!(route(&app, Key::Char('q'), false), Route::SetPane(Pane::Closed));
    assert_eq!(route(&app, Key::Enter, false), Route::Ignore);
    assert_eq!(route(&app, Key::PageDown, false), Route::Scroll(10));
    app.pane = Pane::Closed;
    app.input = "d6".into();
    app.start_shake();
    assert_eq!(route(&app, Key::Tab, false), Route::Release);
    assert_eq!(route(&app, Key::Char('?'), false), Route::SetPane(Pane::Help));
    assert_eq!(route(&app, Key::Left, false), Route::Ignore);
}

#[test]
fn a_pane_key_closes_what_it_opened() {
    assert_eq!(toggle(Pane::Help, Pane::Help), Pane::Closed);
    assert_eq!(toggle(Pane::Closed, Pane::Help), Pane::Help);
    assert_eq!(toggle(Pane::Stats, Pane::Help), Pane::Help);
}

#[test]
fn modes_go_round_in_three_turns() {
    assert_eq!(RollMode::Shake.next().next().next(), RollMode::Shake);
    assert_eq!(RollMode::Shake.label(), "shake");
    assert_eq!(RollMode::Roll.label(), "roll");
    assert_eq!(RollMode::Insta.label(), "insta");
}

#[test]
fn a_frame_plays_only_so_many_clicks() {
    let mut events = vec![SoundEvent::Impact { sides: 6, speed: 1 }; 6];
    events.push(SoundEvent::Settle { sides: 6 });
    events.extend(vec![SoundEvent::Knock { sides: 6, speed: 1 }; 5]);
    events.push(SoundEvent::Crit);
    let heard = cap_clicks(&events);
    assert_eq!(heard.len(), 10);
    assert_eq!(heard[6], SoundEvent::Settle { sides: 6 });
    assert_eq!(heard[9], SoundEvent::Crit);
}

#[test]
fn arrows_never_throw() {
    let mut app = session("");
    type_str(&mut app, "3d6");
    for key in [Key::Up, Key::Down, Key::Left, Key::Right] {
        for ctrl in [false, true] {
            handle_key(&mut app, key, ctrl);
        }
    }
    assert!(app.dice.is_empty() && app.launch.is_none() && !app.shaking());
    assert_eq!(app.input, "3d6");
}

#[test]
fn escape_closes_one_thing_at_a_time() {
    let mut app = session("");
    type_str(&mut app, "d6");
    handle_key(&mut app, Key::Enter, false);
    handle_key(&mut app, Key::Char('?'), false);
    assert_eq!(handle_key(&mut app, Key::Char('c'), true), Action::Quit);
    assert_eq!(handle_key(&mut app, Key::Esc, false), Action::Continue);
    assert!(app.shaking() && app.pane == Pane::Closed);
    assert_eq!(handle_key(&mut app, Key::Esc, false), Action::Continue);
    assert!(!app.shaking());
    assert_eq!(handle_key(&mut app, Key::Esc, false), Action::Quit);
}

#[test]
fn a_multiplier_that_overflows_is_not_followed() {
    let mut app = session("");
    app.input = "d6*65536*65536".into();
    assert!(followable(&app, Key::Enter, false), "picking up the cup throws nothing");
    app.start_shake();
    assert!(!followable(&app, Key::Enter, false));
    app.cancel_shake();
    app.mode = RollMode::Roll;
    assert!(!followable(&app, Key::Enter, false));
    app.mode = RollMode::Insta;
    assert!(!followable(&app, Key::Enter, false));
    app.input = "nonsense".into();
    assert!(followable(&app, Key::Enter, false));
}
