//! What each key does.

use crate::app::{App, Launch, Pane, RollMode};
use crate::arena::SoundEvent;
use crate::cli::{can_throw, throwable};
use crate::edit::{bytes, caret_is_in_the_text, caret_stays_where_put};
use crate::parse::parsed;
use vstd::prelude::*;

verus! {

/// The most clicks that are played in one frame.
pub const MAX_CLICKS_PER_FRAME: usize = 8;

/// A key that was pressed.
#[derive(Debug, Clone, Copy, PartialEq, Eq, Structural)]
pub enum Key {
    Char(char),
    Enter,
    Tab,
    Esc,
    Backspace,
    Delete,
    Left,
    Right,
    Up,
    Down,
    Home,
    End,
    PageUp,
    PageDown,
    Other,
}

/// What the event loop does after a key.
#[derive(Debug, Clone, Copy, PartialEq, Eq, Structural)]
pub enum Action {
    Continue,
    Quit,
}

/// What a key calls for.
#[derive(Debug, Clone, Copy, PartialEq, Eq, Structural)]
pub enum Route {
    Quit,
    SetPane(Pane),
    Mute,
    Scroll(u16),
    Ignore,
    Release,
    PutDown,
    Shake,
    Roll,
    Insta,
    SetMode(RollMode),
    Left,
    Right,
    Home,
    End,
    Backspace,
    Delete,
    Insert(char),
}

pub open spec fn toggled(current: Pane, target: Pane) -> Pane {
    if current == target {
        Pane::Closed
    } else {
        target
    }
}

/// The pane that is open after the key of `target` has been pressed: it closes the
/// pane that it opened.
pub fn toggle(current: Pane, target: Pane) -> (p: Pane)
    ensures
        p == toggled(current, target),
{
    if current == target {
        Pane::Closed
    } else {
        target
    }
}

pub open spec fn less(n: u16, by: u16) -> u16 {
    if n < by {
        0
    } else {
        (n - by) as u16
    }
}

pub open spec fn more(n: u16, by: u16) -> u16 {
    if n + by > u16::MAX {
        u16::MAX
    } else {
        (n + by) as u16
    }
}

/// What a key calls for in an open pane, which takes all keys but its own.
pub open spec fn pane_route(scroll: u16, key: Key) -> Route {
    match key {
        Key::Esc => Route::SetPane(Pane::Closed),
        Key::Char('q') => Route::SetPane(Pane::Closed),
        Key::Up => Route::Scroll(less(scroll, 1)),
        Key::Down => Route::Scroll(more(scroll, 1)),
        Key::PageUp => Route::Scroll(less(scroll, 10)),
        Key::PageDown => Route::Scroll(more(scroll, 10)),
        Key::Home => Route::Scroll(0),
        Key::End => Route::Scroll(u16::MAX),
        _ => Route::Ignore,
    }
}

/// What a key calls for while the cup is up.
pub open spec fn cup_route(key: Key) -> Route {
    match key {
        Key::Enter => Route::Release,
        Key::Tab => Route::Release,
        Key::Esc => Route::PutDown,
        _ => Route::Ignore,
    }
}

/// What a key calls for on the line.
pub open spec fn line_route(mode: RollMode, key: Key, ctrl: bool) -> Route {
    match key {
        Key::Esc => Route::Quit,
        Key::Enter => match mode {
            RollMode::Shake => Route::Shake,
            RollMode::Roll => Route::Roll,
            RollMode::Insta => Route::Insta,
        },
        Key::Tab => Route::SetMode(mode.after()),
        Key::Left => Route::Left,
        Key::Right => Route::Right,
        Key::Home => Route::Home,
        Key::End => Route::End,
        Key::Backspace => Route::Backspace,
        Key::Delete => Route::Delete,
        Key::Char(c) => if ctrl {
            Route::Ignore
        } else {
            Route::Insert(c)
        },
        _ => Route::Ignore,
    }
}

/// What a key calls for.
pub open spec fn routed(app: App, key: Key, ctrl: bool) -> Route {
    if ctrl && key == Key::Char('c') {
        Route::Quit
    } else if key == Key::Char('?') {
        Route::SetPane(toggled(app.pane, Pane::Help))
    } else if ctrl && key == Key::Char('h') {
        Route::SetPane(toggled(app.pane, Pane::History))
    } else if ctrl && key == Key::Char('s') {
        Route::SetPane(toggled(app.pane, Pane::Stats))
    } else if ctrl && key == Key::Char('q') {
        Route::Mute
    } else if app.pane != Pane::Closed {
        pane_route(app.pane_scroll, key)
    } else if app.shake is Some {
        cup_route(key)
    } else {
        line_route(app.mode, key, ctrl)
    }
}

/// Whether following `route` leads from `app` to `next`.
pub open spec fn follows(app: App, route: Route, next: App) -> bool {
    match route {
        Route::Quit => next == app,
        Route::Ignore => next == app,
        Route::SetPane(pane) => next == (App { pane, pane_scroll: 0, ..app }),
        Route::Mute => next == (App { muted: !app.muted, ..app }),
        Route::Scroll(n) => next == (App { pane_scroll: n, ..app }),
        Route::SetMode(mode) => next == (App { mode, ..app }),
        Route::PutDown => next == (App { shake: None, ..app }),
        Route::Release => match app.shake {
            None => next == app,
            Some(locked) => (App { input: locked, shake: None, ..app }).rolled(Launch::Cup, next),
        },
        Route::Shake => if app.shake is Some {
            next == app
        } else {
            match parsed(app.input@) {
                Err(e) => {
                    &&& next.error matches Some(said) && said@ == e
                    &&& next == (App { error: next.error, ..app })
                },
                Ok(_) => {
                    &&& next.error is None
                    &&& next.shake matches Some(locked) && locked@ == app.input@
                    &&& next == (App { error: next.error, shake: next.shake, ..app })
                },
            }
        },
        Route::Roll => app.rolled(Launch::Rain, next),
        Route::Insta => app.rolled(Launch::Insta, next),
        Route::Left => {
            &&& next == (App { cursor: next.cursor, ..app })
            &&& next.cursor == bytes(
                app.input@.take(
                    if app.caret() > 0 {
                        app.caret() - 1
                    } else {
                        0
                    },
                ),
            )
        },
        Route::Right => {
            &&& next == (App { cursor: next.cursor, ..app })
            &&& next.cursor == bytes(
                app.input@.take(
                    if app.caret() < app.input@.len() {
                        app.caret() + 1
                    } else {
                        app.caret()
                    },
                ),
            )
        },
        Route::Home => next == (App { cursor: 0, ..app }),
        Route::End => {
            &&& next == (App { cursor: next.cursor, ..app })
            &&& next.cursor == bytes(app.input@)
        },
        Route::Backspace => if app.caret() == 0 {
            next == app
        } else {
            &&& next == (App { input: next.input, cursor: next.cursor, ..app })
            &&& next.input@ == app.input@.remove(app.caret() - 1)
            &&& next.cursor == bytes(app.input@.take(app.caret() - 1))
        },
        Route::Delete => {
            &&& next == (App { input: next.input, cursor: next.cursor, ..app })
            &&& next.input@ == if app.caret() < app.input@.len() {
                app.input@.remove(app.caret())
            } else {
                app.input@
            }
            &&& next.cursor == bytes(app.input@.take(app.caret()))
        },
        Route::Insert(c) => {
            &&& next == (App { input: next.input, cursor: next.cursor, ..app })
            &&& next.input@ == app.input@.insert(app.caret(), c)
            &&& next.cursor == bytes(next.input@.take(app.caret() + 1))
        },
    }
}

/// What a key calls for.
pub fn route(app: &App, key: Key, ctrl: bool) -> (r: Route)
    ensures
        r == routed(*app, key, ctrl),
{
    if ctrl && key == Key::Char('c') {
        return Route::Quit;
    }
    if key == Key::Char('?') {
        return Route::SetPane(toggle(app.pane, Pane::Help));
    }
    if ctrl && key == Key::Char('h') {
        return Route::SetPane(toggle(app.pane, Pane::History));
    }
    if ctrl && key == Key::Char('s') {
        return Route::SetPane(toggle(app.pane, Pane::Stats));
    }
    if ctrl && key == Key::Char('q') {
        return Route::Mute;
    }
    if app.pane != Pane::Closed {
        return match key {
            Key::Esc => Route::SetPane(Pane::Closed),
            Key::Char('q') => Route::SetPane(Pane::Closed),
            Key::Up => Route::Scroll(app.pane_scroll.saturating_sub(1)),
            Key::Down => Route::Scroll(app.pane_scroll.saturating_add(1)),
            Key::PageUp => Route::Scroll(app.pane_scroll.saturating_sub(10)),
            Key::PageDown => Route::Scroll(app.pane_scroll.saturating_add(10)),
            Key::Home => Route::Scroll(0),
            Key::End => Route::Scroll(u16::MAX),
            _ => Route::Ignore,
        };
    }
    if app.shaking() {
        return match key {
            Key::Enter => Route::Release,
            Key::Tab => Route::Release,
            Key::Esc => Route::PutDown,
            _ => Route::Ignore,
        };
    }
    match key {
        Key::Esc => Route::Quit,
        Key::Enter => match app.mode {
            RollMode::Shake => Route::Shake,
            RollMode::Roll => Route::Roll,
            RollMode::Insta => Route::Insta,
        },
        Key::Tab => Route::SetMode(app.mode.next()),
        Key::Left => Route::Left,
        Key::Right => Route::Right,
        Key::Home => Route::Home,
        Key::End => Route::End,
        Key::Backspace => Route::Backspace,
        Key::Delete => Route::Delete,
        Key::Char(c) => if ctrl {
            Route::Ignore
        } else {
            Route::Insert(c)
        },
        _ => Route::Ignore,
    }
}

/// Whether the roll that the key calls for, if it calls for one, can be thrown.
pub open spec fn can_follow(app: App, key: Key, ctrl: bool) -> bool {
    match routed(app, key, ctrl) {
        Route::Roll => can_throw(app.input@),
        Route::Insta => can_throw(app.input@),
        Route::Release => app.shake is Some ==> can_throw(app.shake->0@),
        _ => true,
    }
}

/// Whether the roll that the key calls for, if it calls for one, can be thrown.
pub fn followable(app: &App, key: Key, ctrl: bool) -> (r: bool)
    ensures
        r == can_follow(*app, key, ctrl),
{
    match route(app, key, ctrl) {
        Route::Roll => throwable(app.input.as_str()),
        Route::Insta => throwable(app.input.as_str()),
        Route::Release => match &app.shake {
            Some(expr) => throwable(expr.as_str()),
            None => true,
        },
        _ => true,
    }
}

/// Does what a key calls for.
pub fn handle_key(app: &mut App, key: Key, ctrl: bool) -> (action: Action)
    requires
        old(app).wf(),
        can_follow(*old(app), key, ctrl),
        old(app).has_room(),
    ensures
        final(app).wf(),
        follows(*old(app), routed(*old(app), key, ctrl), *final(app)),
        action == (if routed(*old(app), key, ctrl) == Route::Quit {
            Action::Quit
        } else {
            Action::Continue
        }),
{
    match route(app, key, ctrl) {
        Route::Quit => {
            return Action::Quit;
        },
        Route::Ignore => {},
        Route::SetPane(pane) => app.set_pane(pane),
        Route::Mute => {
            app.muted = !app.muted;
        },
        Route::Scroll(n) => {
            app.pane_scroll = n;
        },
        Route::SetMode(mode) => {
            app.mode = mode;
        },
        Route::PutDown => app.cancel_shake(),
        Route::Release => app.throw(),
        Route::Shake => app.start_shake(),
        Route::Roll => app.roll(),
        Route::Insta => app.insta_roll(),
        Route::Left => app.cursor_left(),
        Route::Right => app.cursor_right(),
        Route::Home => app.cursor_home(),
        Route::End => app.cursor_end(),
        Route::Backspace => app.input_backspace(),
        Route::Delete => app.input_delete(),
        Route::Insert(c) => app.input_insert(c),
    }
    Action::Continue
}

/// Every letter can be typed: on the line, a character without the control key goes
/// into the text, but for the one that opens the help.
pub proof fn letters_reach_the_line(app: App, c: char)
    requires
        app.pane == Pane::Closed,
        app.shake is None,
        c != '?',
    ensures
        routed(app, Key::Char(c), false) == Route::Insert(c),
{
}

/// An open pane takes every key: none of them edits the hidden line, rolls, or
/// changes the mode.
pub proof fn open_panes_swallow_keys(app: App, key: Key, ctrl: bool, next: App)
    requires
        app.pane != Pane::Closed,
        follows(app, routed(app, key, ctrl), next),
    ensures
        next == (App {
            pane: next.pane,
            pane_scroll: next.pane_scroll,
            muted: next.muted,
            ..app
        }),
{
}

/// While the cup is up no key changes the line, but for the release, which rolls
/// what was locked in.
pub proof fn the_cup_swallows_keys(app: App, key: Key, ctrl: bool, next: App)
    requires
        app.shake is Some,
        follows(app, routed(app, key, ctrl), next),
    ensures
        next.input == app.input || (next.input == app.shake->0 && next.shake is None),
        next.mode == app.mode,
        next.history == app.history,
{
}

/// Whether a sound is a click.
pub open spec fn is_click(ev: SoundEvent) -> bool {
    ev is Impact || ev is Knock
}

/// How many of the first `n` sounds are clicks.
pub open spec fn clicks(events: Seq<SoundEvent>, n: int) -> nat
    decreases n,
{
    if n <= 0 {
        0
    } else {
        clicks(events, n - 1) + if is_click(events[n - 1]) {
            1nat
        } else {
            0
        }
    }
}

/// The sounds among the first `n` that are played: all but the clicks that are too
/// many for one frame.
pub open spec fn audible(events: Seq<SoundEvent>, n: int) -> Seq<SoundEvent>
    decreases n,
{
    if n <= 0 {
        Seq::empty()
    } else if is_click(events[n - 1]) && clicks(events, n) > MAX_CLICKS_PER_FRAME {
        audible(events, n - 1)
    } else {
        audible(events, n - 1).push(events[n - 1])
    }
}

/// The sounds that are played in one frame.
pub fn cap_clicks(events: &Vec<SoundEvent>) -> (heard: Vec<SoundEvent>)
    ensures
        heard@ == audible(events@, events@.len() as int),
{
    let mut heard: Vec<SoundEvent> = Vec::new();
    let mut count: usize = 0;
    let mut k: usize = 0;
    while k < events.len()
        invariant
            k <= events@.len(),
            count <= k,
            count == clicks(events@, k as int),
            heard@ == audible(events@, k as int),
        decreases events@.len() - k,
    {
        let ev = events[k];
        let click = match ev {
            SoundEvent::Impact { .. } => true,
            SoundEvent::Knock { .. } => true,
            _ => false,
        };
        if click {
            count += 1;
        }
        if !click || count <= MAX_CLICKS_PER_FRAME {
            heard.push(ev);
        }
        k += 1;
    }
    heard
}

proof fn lemma_audible_holds(events: Seq<SoundEvent>, n: int, k: int)
    requires
        0 <= k < n <= events.len(),
        !is_click(events[k]),
    ensures
        audible(events, n).contains(events[k]),
    decreases n,
{
    let heard = audible(events, n);
    if k == n - 1 {
        assert(heard.last() == events[k]);
        assert(heard[heard.len() - 1] == events[k]);
    } else {
        lemma_audible_holds(events, n - 1, k);
        let before = audible(events, n - 1);
        let j = choose|j: int| 0 <= j < before.len() && before[j] == events[k];
        assert(heard[j] == events[k]);
    }
}

proof fn lemma_clicks_push(events: Seq<SoundEvent>, ev: SoundEvent, n: int)
    requires
        0 <= n <= events.len(),
    ensures
        clicks(events.push(ev), n) == clicks(events, n),
    decreases n,
{
    if n > 0 {
        lemma_clicks_push(events, ev, n - 1);
    }
}

proof fn lemma_audible_clicks(events: Seq<SoundEvent>, n: int)
    requires
        0 <= n <= events.len(),
    ensures
        clicks(audible(events, n), audible(events, n).len() as int) == if clicks(events, n)
            < MAX_CLICKS_PER_FRAME {
            clicks(events, n)
        } else {
            MAX_CLICKS_PER_FRAME as nat
        },
    decreases n,
{
    if n > 0 {
        lemma_audible_clicks(events, n - 1);
        let before = audible(events, n - 1);
        lemma_clicks_push(before, events[n - 1], before.len() as int);
    }
}

/// Only clicks go unheard, and only those that are too many: all other sounds of a
/// frame are played.
pub proof fn only_clicks_go_unheard(events: Seq<SoundEvent>)
    ensures
        forall|k: int|
            0 <= k < events.len() && !is_click(events[k]) ==> audible(
                events,
                events.len() as int,
            ).contains(#[trigger] events[k]),
        clicks(
            audible(events, events.len() as int),
            audible(events, events.len() as int).len() as int,
        ) <= MAX_CLICKS_PER_FRAME,
{
    let n = events.len() as int;
    assert forall|k: int| 0 <= k < events.len() && !is_click(events[k]) implies audible(
        events,
        n,
    ).contains(#[trigger] events[k]) by {
        lemma_audible_holds(events, n, k);
    }
    lemma_audible_clicks(events, n);
}

/// The arrow keys edit and scroll; none of them ever throws dice or picks up the cup.
pub proof fn arrows_never_roll(app: App, key: Key, ctrl: bool, next: App)
    requires
        key == Key::Up || key == Key::Down || key == Key::Left || key == Key::Right,
        follows(app, routed(app, key, ctrl), next),
    ensures
        next == (App { cursor: next.cursor, pane_scroll: next.pane_scroll, ..app }),
{
}

/// Control and C quit from everywhere, while escape quits only from the line: it
/// closes a pane and puts down the cup first.
pub proof fn leaving_takes_one_way(app: App)
    ensures
        routed(app, Key::Char('c'), true) == Route::Quit,
        routed(app, Key::Esc, false) == Route::Quit <==> app.pane == Pane::Closed && app.shake
            is None,
{
}

/// A pane that opens shows its first line.
pub proof fn panes_open_at_their_top(app: App, key: Key, ctrl: bool, next: App)
    requires
        follows(app, routed(app, key, ctrl), next),
        next.pane != app.pane,
    ensures
        next.pane_scroll == 0,
{
}

/// The key of a pane opens it over whatever is open, and closes it where it is open
/// already.
pub proof fn panes_toggle(current: Pane, target: Pane)
    ensures
        current != target ==> toggled(current, target) == target,
        toggled(target, target) == Pane::Closed,
        toggled(toggled(Pane::Closed, target), target) == Pane::Closed,
{
}

/// Scrolling stops at the first line and at the last that can be counted; away from these,
/// one way undoes the other.
pub proof fn scrolling_stops_at_the_ends(n: u16, by: u16)
    ensures
        n >= by ==> less(n, by) == n - by,
        n < by ==> less(n, by) == 0,
        n + by <= 65535 ==> more(n, by) == n + by && less(more(n, by), by) == n,
        n + by > 65535 ==> more(n, by) == 65535,
{
}

/// The keys that mean the same wherever the session is: quitting, the panes and muting.
pub proof fn some_keys_work_everywhere(app: App, ctrl: bool)
    ensures
        routed(app, Key::Char('c'), true) == Route::Quit,
        routed(app, Key::Char('?'), ctrl) == Route::SetPane(
            if app.pane is Help {
                Pane::Closed
            } else {
                Pane::Help
            },
        ),
        routed(app, Key::Char('h'), true) == Route::SetPane(
            if app.pane is History {
                Pane::Closed
            } else {
                Pane::History
            },
        ),
        routed(app, Key::Char('s'), true) == Route::SetPane(
            if app.pane is Stats {
                Pane::Closed
            } else {
                Pane::Stats
            },
        ),
        routed(app, Key::Char('q'), true) == Route::Mute,
{
}

/// An open pane scrolls by lines, by tens, and to its ends; escape and `q` close it, and
/// any other key is ignored.
pub proof fn open_panes_scroll(app: App, key: Key)
    requires
        app.pane != Pane::Closed,
    ensures
        routed(app, Key::Esc, false) == Route::SetPane(Pane::Closed),
        routed(app, Key::Char('q'), false) == Route::SetPane(Pane::Closed),
        app.pane_scroll > 0 ==> routed(app, Key::Up, false) == Route::Scroll(
            (app.pane_scroll - 1) as u16,
        ),
        app.pane_scroll == 0 ==> routed(app, Key::Up, false) == Route::Scroll(0),
        app.pane_scroll < 65535 ==> routed(app, Key::Down, false) == Route::Scroll(
            (app.pane_scroll + 1) as u16,
        ),
        app.pane_scroll == 65535 ==> routed(app, Key::Down, false) == Route::Scroll(65535),
        app.pane_scroll >= 10 ==> routed(app, Key::PageUp, false) == Route::Scroll(
            (app.pane_scroll - 10) as u16,
        ),
        app.pane_scroll < 10 ==> routed(app, Key::PageUp, false) == Route::Scroll(0),
        app.pane_scroll <= 65525 ==> routed(app, Key::PageDown, false) == Route::Scroll(
            (app.pane_scroll + 10) as u16,
        ),
        app.pane_scroll > 65525 ==> routed(app, Key::PageDown, false) == Route::Scroll(65535),
        routed(app, Key::Home, false) == Route::Scroll(0),
        routed(app, Key::End, false) == Route::Scroll(65535),
        key is Enter || key is Tab || key is Backspace || key is Delete || key is Left || key
            is Right || key is Other ==> routed(app, key, false) == Route::Ignore,
        key matches Key::Char(c) && c != '?' && c != 'q' ==> routed(app, key, false)
            == Route::Ignore,
{
}

/// While the cup is up, enter and tab empty it, escape puts it down, and any other key that
/// does not work everywhere is ignored.
pub proof fn the_cup_is_emptied_or_put_down(app: App, key: Key)
    requires
        app.pane == Pane::Closed,
        app.shake is Some,
    ensures
        routed(app, Key::Enter, false) == Route::Release,
        routed(app, Key::Tab, false) == Route::Release,
        routed(app, Key::Esc, false) == Route::PutDown,
        key != Key::Enter && key != Key::Tab && key != Key::Esc && key != Key::Char('?') ==> routed(
            app,
            key,
            false,
        ) == Route::Ignore,
{
}

/// On the line, enter rolls as the mode says, tab turns to the next mode, the arrows and
/// the keys of the ends move the caret, two keys erase, escape quits, and the control key
/// keeps a letter from being typed.
pub proof fn the_line_is_edited_and_rolled(app: App, c: char, ctrl: bool)
    requires
        app.pane == Pane::Closed,
        app.shake is None,
    ensures
        app.mode is Shake ==> routed(app, Key::Enter, ctrl) == Route::Shake,
        app.mode is Roll ==> routed(app, Key::Enter, ctrl) == Route::Roll,
        app.mode is Insta ==> routed(app, Key::Enter, ctrl) == Route::Insta,
        app.mode is Shake ==> routed(app, Key::Tab, ctrl) == Route::SetMode(RollMode::Roll),
        app.mode is Roll ==> routed(app, Key::Tab, ctrl) == Route::SetMode(RollMode::Insta),
        app.mode is Insta ==> routed(app, Key::Tab, ctrl) == Route::SetMode(RollMode::Shake),
        routed(app, Key::Left, ctrl) == Route::Left,
        routed(app, Key::Right, ctrl) == Route::Right,
        routed(app, Key::Home, ctrl) == Route::Home,
        routed(app, Key::End, ctrl) == Route::End,
        routed(app, Key::Backspace, ctrl) == Route::Backspace,
        routed(app, Key::Delete, ctrl) == Route::Delete,
        routed(app, Key::Esc, ctrl) == Route::Quit,
        routed(app, Key::Up, ctrl) == Route::Ignore,
        routed(app, Key::Down, ctrl) == Route::Ignore,
        routed(app, Key::PageUp, ctrl) == Route::Ignore,
        routed(app, Key::PageDown, ctrl) == Route::Ignore,
        routed(app, Key::Other, ctrl) == Route::Ignore,
        c != 'c' && c != '?' && c != 'h' && c != 's' && c != 'q' ==> routed(app, Key::Char(c), true)
            == Route::Ignore,
{
}

/// What is ignored changes nothing, nor does quitting; what sets a pane, a mode, a scroll
/// or the mute sets that and nothing else, and muting twice is as before.
pub proof fn settings_change_alone(
    app: App,
    pane: Pane,
    n: u16,
    mode: RollMode,
    next: App,
    last: App,
)
    ensures
        follows(app, Route::Quit, next) ==> next == app,
        follows(app, Route::Ignore, next) ==> next == app,
        follows(app, Route::SetPane(pane), next) ==> next.pane == pane && next.pane_scroll == 0
            && next == (App { pane: next.pane, pane_scroll: next.pane_scroll, ..app }),
        follows(app, Route::Scroll(n), next) ==> next.pane_scroll == n && next == (App {
            pane_scroll: next.pane_scroll,
            ..app
        }),
        follows(app, Route::SetMode(mode), next) ==> next.mode == mode && next == (App {
            mode: next.mode,
            ..app
        }),
        follows(app, Route::Mute, next) ==> next.muted != app.muted && next == (App {
            muted: next.muted,
            ..app
        }),
        follows(app, Route::Mute, next) && follows(next, Route::Mute, last) ==> last == app,
        follows(app, Route::PutDown, next) ==> next.shake is None && next == (App {
            shake: next.shake,
            ..app
        }),
{
}

/// The keys that move the caret move it by one character, or to an end, and never out of
/// the line; the text stays as it is.
pub proof fn carets_move_within_the_line(app: App, next: App)
    ensures
        follows(app, Route::Left, next) ==> next.input == app.input && next.caret() == if app.caret()
            > 0 {
            app.caret() - 1
        } else {
            0
        },
        follows(app, Route::Right, next) ==> next.input == app.input && next.caret()
            == if app.caret() < app.input@.len() {
            app.caret() + 1
        } else {
            app.input@.len() as int
        },
        follows(app, Route::Home, next) ==> next.input == app.input && next.caret() == 0,
        follows(app, Route::End, next) ==> next.input == app.input && next.caret()
            == app.input@.len(),
{
    let s = app.input@;
    let k = app.caret();
    caret_is_in_the_text(s, app.cursor as int);
    if k > 0 {
        caret_stays_where_put(s, k - 1);
    }
    if k < s.len() {
        caret_stays_where_put(s, k + 1);
    }
    caret_stays_where_put(s, k);
    caret_stays_where_put(s, 0);
    caret_stays_where_put(s, s.len() as int);
    assert(s.take(s.len() as int) =~= s);
    assert(s.take(0) =~= Seq::<char>::empty());
}

/// A letter goes in before the caret and moves it on; erasing takes the character before
/// the caret, or the one behind it, and leaves all others.
pub proof fn letters_go_in_and_out_at_the_caret(app: App, c: char, next: App)
    ensures
        follows(app, Route::Insert(c), next) ==> next.input@ == app.input@.insert(app.caret(), c)
            && next.caret() == app.caret() + 1,
        follows(app, Route::Backspace, next) && app.caret() > 0 ==> next.input@
            == app.input@.remove(app.caret() - 1) && next.caret() == app.caret() - 1,
        follows(app, Route::Backspace, next) && app.caret() == 0 ==> next == app,
        follows(app, Route::Delete, next) && app.caret() < app.input@.len() ==> next.input@
            == app.input@.remove(app.caret()) && next.caret() == app.caret(),
        follows(app, Route::Delete, next) && app.caret() == app.input@.len() ==> next.input@
            == app.input@ && next.caret() == app.caret(),
{
    let s = app.input@;
    let k = app.caret();
    caret_is_in_the_text(s, app.cursor as int);
    caret_stays_where_put(s, k);
    caret_stays_where_put(s.insert(k, c), k + 1);
    if k > 0 {
        let less = s.remove(k - 1);
        caret_stays_where_put(less, k - 1);
        assert(less.take(k - 1) =~= s.take(k - 1));
    }
    if k < s.len() {
        let less = s.remove(k);
        caret_stays_where_put(less, k);
        assert(less.take(k) =~= s.take(k));
    }
}

/// Enter in one mode rains the dice in, in another runs them to rest at once, and in the
/// third picks up the cup with the line locked in, from which the release throws them.
pub proof fn rolls_are_launched_by_mode(app: App, next: App)
    ensures
        follows(app, Route::Roll, next) && parsed(app.input@) is Ok ==> next.launch == Some(
            Launch::Rain,
        ) && next.error is None,
        follows(app, Route::Insta, next) && parsed(app.input@) is Ok ==> next.launch == Some(
            Launch::Insta,
        ) && next.error is None,
        follows(app, Route::Shake, next) && app.shake is None && parsed(app.input@) is Ok ==> (
        next.shake matches Some(locked) && locked@ == app.input@) && next.dice == app.dice
            && next.launch == app.launch && next.rng == app.rng,
        follows(app, Route::Shake, next) && app.shake is None && parsed(app.input@) is Err ==> (
        next.error matches Some(said) && said@ == parsed(app.input@)->Err_0) && next.shake is None
            && next.dice == app.dice,
        follows(app, Route::Release, next) && app.shake is Some && parsed(app.shake->0@) is Ok
            ==> next.launch == Some(Launch::Cup) && next.shake is None && next.input
            == app.shake->0,
{
}

/// A key can be followed where it calls for no roll, or for one that can be thrown.
pub proof fn keys_can_be_followed_unless_they_overreach(app: App, key: Key, ctrl: bool)
    ensures
        !(routed(app, key, ctrl) is Roll || routed(app, key, ctrl) is Insta || routed(
            app,
            key,
            ctrl,
        ) is Release) ==> can_follow(app, key, ctrl),
        routed(app, key, ctrl) is Roll || routed(app, key, ctrl) is Insta ==> (can_follow(
            app,
            key,
            ctrl,
        ) <==> can_throw(app.input@)),
        routed(app, key, ctrl) is Release && app.shake is Some ==> (can_follow(app, key, ctrl)
            <==> can_throw(app.shake->0@)),
{
}

/// Impacts and knocks are clicks, and nothing else is; of a frame all sounds are played in
/// order but for the clicks after the eighth.
pub proof fn eight_clicks_are_played(events: Seq<SoundEvent>, n: int)
    requires
        0 <= n < events.len(),
    ensures
        is_click(events[n]) <==> events[n] is Impact || events[n] is Knock,
        clicks(events, 0) == 0,
        clicks(events, n + 1) == clicks(events, n) + if is_click(events[n]) {
            1nat
        } else {
            0
        },
        audible(events, 0) == Seq::<SoundEvent>::empty(),
        is_click(events[n]) && clicks(events, n) >= 8 ==> audible(events, n + 1) == audible(
            events,
            n,
        ),
        !is_click(events[n]) || clicks(events, n) < 8 ==> audible(events, n + 1) == audible(
            events,
            n,
        ).push(events[n]),
{
}

} // verus!
