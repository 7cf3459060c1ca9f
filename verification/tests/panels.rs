use rand::rngs::StdRng;
use rand::SeedableRng;
use tinhorn::app::{App, HistoryEntry, Pane};
use tinhorn::arena::Pose;
use tinhorn::chrome::{
    arena_title, caret_split, centred_column, echo_label, face_ink, help_bar, help_lines,
    input_scroll, meter_label, pane_title, panel, power_bar, widest_number, FaceInk, ThrowTier,
};
use tinhorn::glyph::{big_number, die_shape, number_px, number_scale, read_digits, Px};
use tinhorn::keys::{handle_key, Key};
use tinhorn::lines::{
    history_lines, result_lines, stats_error_lines, stats_lines, Bar, Figures, Hue, Piece,
};
use tinhorn::paint::{
    between, braille_bits, braille_color, die_rgb, downsample_into, half_blocks, hash32, px,
    shade_letter, Canvas, RenderMode, Rgb, Texture,
};
use tinhorn::stats::{histogram, tally, SessionStats};

fn session(initial: &str) -> App {
    App::with_rng(initial, StdRng::seed_from_u64(1))
}

fn roll_to_settle(app: &mut App, expr: &str) {
    app.input = expr.into();
    app.roll();
    app.launched(0);
    while !app.all_settled() {
        let poses = vec![Pose { x: 0, y: 0, z: 0, rests: true }; app.dice.len()];
        app.sync_and_settle(&poses);
        while app.spawn_next().is_some() {}
    }
    app.record_if_settled();
}

fn row(line: &[Piece]) -> String {
    line.iter().map(|p| p.text.as_str()).collect()
}

fn flatten(lines: &[Vec<Piece>]) -> String {
    lines.iter().map(|l| row(l) + "\n").collect()
}

#[test]
fn main_a_staked_roll_renders_its_verdict() {
    let mut app = session("");
    roll_to_settle(&mut app, "2d20kh1 vs 12");
    let screen = flatten(&result_lines(&app));
    assert!(screen.contains("vs 12"), "the target is not on screen");
    let (success, _) = app.verdict().expect("settled staked roll has a verdict");
    if success {
        assert!(
            screen.contains("SUCCESS"),
            "verdict chip missing:\n{screen}"
        );
    } else {
        assert!(screen.contains("FAIL"), "verdict chip missing:\n{screen}");
    }
}

#[test]
fn the_caret_renders_over_the_character_it_covers() {
    let mut app = session("");
    app.input = "3d6".into();
    app.cursor_end();
    // Walk the caret back onto the 'd'.
    app.cursor_left(); // over '6'
    app.cursor_left(); // over 'd'
    let (before, under, after) = caret_split(&app);
    assert_eq!(before, "3");
    assert_eq!(under, "d", "the caret covers the char under it");
    assert_eq!(after, "6");
    app.cursor_end();
    assert_eq!(
        caret_split(&app),
        ("3d6".to_string(), " ".to_string(), String::new())
    );
}

#[test]
fn the_input_scrolls_horizontally_to_keep_the_caret_visible() {
    // 17 characters with the caret past them, in the 17 columns that a row of 24
    // leaves beside the prompt.
    assert_eq!(input_scroll(17, 17), 1);
    assert_eq!(input_scroll(16, 17), 0);
    assert_eq!(input_scroll(40, 10), 31);
    assert_eq!(input_scroll(3, 0), 3);
}

#[test]
fn main_history_pane_lists_recent_rolls() {
    let mut app = session("");

    // Empty history shows a hint, not a crash.
    assert!(flatten(&history_lines(&app.history)).contains("no rolls yet"));

    // After a couple of rolls the pane lists them with their totals.
    roll_to_settle(&mut app, "3d6");
    roll_to_settle(&mut app, "d20");
    let screen = flatten(&history_lines(&app.history));
    assert!(screen.contains("3d6"), "first roll not listed");
    assert!(screen.contains("d20"), "second roll not listed");
}

#[test]
fn history_pane_scrolls_to_older_rolls() {
    let mut app = session("");
    for expr in ["1d4", "2d4", "3d4", "4d4", "5d4", "6d4", "7d4", "8d4"] {
        roll_to_settle(&mut app, expr);
    }
    app.pane = Pane::History;
    // What a frame of 72 by 8 cells shows of the pane, drawn once.
    let show = |app: &mut App| {
        let lines = history_lines(&app.history);
        let p = panel(lines.len() as u16, 40, 72, 8, app.pane_scroll);
        app.pane_scroll = p.scroll;
        let from = p.scroll as usize;
        flatten(&lines[from..from + p.height as usize - 2])
    };
    let top = show(&mut app);
    assert!(top.contains("8d4"), "the newest roll shows at the top");
    assert!(!top.contains("1d4"), "the oldest roll is below the fold");

    // End scrolls to the bottom, bringing the oldest roll into view.
    handle_key(&mut app, Key::End, false);
    assert!(show(&mut app).contains("1d4"), "scrolling reaches the oldest roll");
}

#[test]
fn the_history_pane_line_by_line() {
    let mut history = Vec::new();
    for n in 0..30 {
        history.push(HistoryEntry {
            expr: format!("d{}", n + 2),
            values: vec![1, n],
            total: n as i32,
        });
    }
    let lines = history_lines(&history);
    assert_eq!(lines.len(), 32);
    assert_eq!(row(&lines[0]), "   30. d31         [1 29]  = 29");
    assert_eq!(row(&lines[29]), "    1. d2          [1 0]  = 0");
}

fn figures(bars: Vec<Bar>) -> Figures {
    Figures {
        mean: "10.5".into(),
        odds: "63".into(),
        bars,
        session_mean: "9.0".into(),
    }
}

#[test]
fn main_stats_pane_shows_odds_and_session_summary() {
    let mut app = session("");
    roll_to_settle(&mut app, "3d6");
    let s = app.stats().unwrap();
    let screen = flatten(&stats_lines(&s, &figures(Vec::new())));
    assert!(screen.contains("Odds for"), "odds header missing");
    assert!(screen.contains("min 3"), "min not shown for 3d6");
    assert!(screen.contains("max 18"), "max not shown for 3d6");
    assert!(screen.contains("This session"), "session summary missing");
}

#[test]
fn the_stats_pane_line_by_line() {
    let history = vec![
        HistoryEntry { expr: "d6 vs 4".into(), values: vec![2], total: 2 },
        HistoryEntry { expr: "d8".into(), values: vec![7], total: 7 },
        HistoryEntry { expr: "d6 vs 4".into(), values: vec![5], total: 5 },
    ];
    let stake = tinhorn::parse::parse("d6 vs 4").unwrap().stake;
    let s = tally("d6 vs 4".into(), stake, &vec![1, 6, 6, 3], &history);
    assert_eq!(s.successes, Some(2));
    assert_eq!(s.session, SessionStats { count: 2, min: 2, max: 5, sum: 7 });
    assert_eq!(s.dist, vec![1, 0, 1, 0, 0, 2]);
    let bars = vec![
        Bar { total: -7, filled: 3, share: "25.0%".into() },
        Bar { total: 12345, filled: 0, share: " 0.0%".into() },
    ];
    assert_eq!(
        flatten(&stats_lines(&s, &figures(bars))),
        "Odds for  d6 vs 4\n  vs 4: 63% to succeed\n  min 1   max 6   avg 10.5\n  \
         (estimated from 4 samples)\n\n    -7 ███ 25.0%\n  12345   0.0%\n\nThis session\n  \
         2 rolls   low 2   high 5   mean 9.0\n\n  ↑ ↓ scroll · Esc · q to close\n"
    );
    let s = tally("d9".into(), None, &vec![4], &history);
    let text = flatten(&stats_lines(&s, &figures(Vec::new())));
    assert!(text.contains("  no rolls of d9 yet (3 rolls total)\n"));
    assert!(!text.contains("succeed"));
}

#[test]
fn stats_lines_for_a_line_that_does_not_read() {
    assert_eq!(
        flatten(&stats_error_lines("oops")),
        "  can't compute stats — the expression doesn't parse:\n  oops\n\n  ↑ ↓ scroll · Esc · q to close\n"
    );
}

#[test]
fn main_panes_are_mutually_exclusive() {
    // Each pane has a marker that is unique to it.
    let mut app = session("3d6");
    let s = app.stats().unwrap();
    let panes = [
        pane_title(Pane::Help).to_string() + &flatten(&help_lines()),
        pane_title(Pane::History).to_string() + &flatten(&history_lines(&app.history)),
        pane_title(Pane::Stats).to_string() + &flatten(&stats_lines(&s, &figures(Vec::new()))),
    ];
    for (k, pane) in panes.iter().enumerate() {
        let markers = ["dice notation", "no rolls yet", "Odds for"];
        let showing = markers.iter().filter(|t| pane.contains(**t)).count();
        assert_eq!(showing, 1, "exactly one pane should be visible");
        assert!(pane.contains(markers[k]));
    }
}

#[test]
fn stats_pane_scrolls_when_it_overflows() {
    let mut app = session("");
    roll_to_settle(&mut app, "3d6");
    let s = app.stats().unwrap();
    let bars = (3..14)
        .map(|total| Bar { total, filled: 1, share: " 9.1%".into() })
        .collect();
    let lines = stats_lines(&s, &figures(bars));
    // What a frame of 12 rows shows of the pane.
    let shown = |scroll: u16| {
        let p = panel(lines.len() as u16, 40, 72, 12, scroll);
        let from = p.scroll as usize;
        flatten(&lines[from..(from + p.height as usize - 2).min(lines.len())])
    };
    let top = shown(0);
    assert!(top.contains("Odds for"), "the header shows at the top");
    assert!(!top.contains("This session"), "the session summary is below the fold");
    // End scrolls to the bottom, revealing the session summary.
    assert!(shown(u16::MAX).contains("This session"), "scrolling reveals the session summary");
}

#[test]
fn a_tiny_terminal_skips_the_meter_rather_than_breaking_the_border() {
    // A terminal of 9 columns leaves 7 inside the border.
    let width = meter_label(7).chars().count() as u16;
    assert_eq!(centred_column(1, 7, width), None, "the meter must not squeeze in");
    assert_eq!(centred_column(1, width, width), Some(1));
}

#[test]
fn main_advantage_renders_the_dropped_die_dimmed() {
    let mut app = session("");
    roll_to_settle(&mut app, "2d20kh1");
    let dropped = app.dice.iter().filter(|d| !d.kept).count();
    assert_eq!(dropped, 1, "advantage should drop exactly one die");
    let at = app.dice.iter().position(|d| !d.kept).unwrap();
    let lines = result_lines(&app);
    let chip = &lines[0][at * 2];
    assert_eq!(chip.text, format!("[{}]", app.dice[at].final_value));
    assert_eq!(chip.ink.fg, Hue::DarkGray);
    assert!(chip.ink.dim);
    let other = &lines[0][(1 - at) * 2];
    assert_eq!(other.ink.fg, Hue::Die(app.dice[1 - at].color_idx));
    assert!(other.ink.bold);
}

#[test]
fn main_help_overlay_shows_the_notation_when_toggled() {
    let screen = flatten(&help_lines());
    assert!(screen.contains("advantage"), "keep/drop section missing");
    assert!(screen.contains("explode"), "exploding section missing");
    assert!(screen.contains("The Throw"), "Throw section missing");
    assert!(screen.contains("to close"), "dismiss hint missing");
    assert!(screen.contains("  2d20kh1    advantage — keep the highest 1\n"));
    assert_eq!(help_lines().len(), 26);
}

#[test]
fn main_help_overlay_fits_a_short_terminal_without_panicking() {
    // A frame too short to hold the whole panel still shows some of it.
    let p = panel(26, 62, 40, 8, 0);
    assert_eq!((p.width, p.height, p.scroll), (40, 8, 0));
    assert_eq!(panel(26, 62, 80, 28, 9).scroll, 0);
    assert_eq!(panel(26, 62, 1, 1, 99).scroll, 26);
}

#[test]
fn main_bad_input_shows_an_error_not_a_crash() {
    let mut app = session("");
    app.input = "nonsense".to_string();
    app.roll();
    assert!(flatten(&result_lines(&app)).contains("⚠"), "error not surfaced");
}

#[test]
fn the_total_is_held_back_until_the_dice_rest() {
    let mut app = session("");
    assert_eq!(
        flatten(&result_lines(&app)),
        "type a dice expression below — Enter does the rest\n"
    );
    app.input = "2d1-3 vs 5".into();
    app.roll();
    assert_eq!(
        flatten(&result_lines(&app)),
        "[1] [1]  −3\n  Σ total  …    vs 5  (rolling…)\n"
    );
    roll_to_settle(&mut app, "2d1-3 vs 5");
    assert_eq!(
        flatten(&result_lines(&app)),
        "[1] [1]  −3\n  Σ total  -1    vs 5   FAIL by 6 \n"
    );
    app.input = "d1+2".into();
    app.roll();
    assert_eq!(flatten(&result_lines(&app)), "[1]  +2\n  Σ total  …    (rolling…)\n");
}

#[test]
fn crits_and_fumbles_are_named() {
    let mut app = session("");
    roll_to_settle(&mut app, "3d1");
    for (sides, value, words) in [
        (20, 20, "  ✦ natural 20 ×3"),
        (6, 6, "  ✦ crit ×3"),
        (20, 1, "  natural 1 ×3"),
        (6, 1, "  fumble ×3"),
    ] {
        for d in app.dice.iter_mut() {
            d.sides = sides;
            d.final_value = value;
        }
        assert!(flatten(&result_lines(&app)).ends_with(&format!("{words}\n")));
    }
    app.dice[0].sides = 6;
    app.dice[1].final_value = 3;
    app.dice[2].kept = false;
    assert!(flatten(&result_lines(&app)).ends_with("  fumble\n"));
}

#[test]
fn the_title_names_what_the_dice_do() {
    let mut app = session("");
    assert_eq!(arena_title(&app, None), " 🎲  tinhorn ");
    app.input = "d6".into();
    app.start_shake();
    assert_eq!(arena_title(&app, None), " 🎲  tinhorn — shaking… ");
    app.throw();
    app.launched(0);
    assert_eq!(arena_title(&app, None), " 🎲  tinhorn — rolling… ");
    assert_eq!(arena_title(&app, Some(ThrowTier::Lob)), " 🎲  tinhorn — a timid lob… ");
    assert_eq!(arena_title(&app, Some(ThrowTier::Toss)), " 🎲  tinhorn — a clean toss… ");
    assert_eq!(arena_title(&app, Some(ThrowTier::Peak)), " 🎲  tinhorn — a rocket throw… ");
    roll_to_settle(&mut app, "d6");
    assert_eq!(arena_title(&app, Some(ThrowTier::Lob)), " 🎲  tinhorn — settled ");
}

#[test]
fn the_help_bar_follows_the_cup_and_the_sound() {
    let mut app = session("");
    assert_eq!(
        row(&help_bar(&app)),
        " › Enter shake  Tab mode  ? help  ^H history  ^S stats  ^Q mute  Esc quit"
    );
    app.muted = true;
    assert!(row(&help_bar(&app)).contains("^Q unmute 🔇  Esc"));
    app.input = "d6".into();
    app.start_shake();
    assert_eq!(
        row(&help_bar(&app)),
        " › shaking…  Enter · Tab throw  Esc put them down"
    );
}

#[test]
fn the_power_meter_in_cells() {
    assert_eq!(power_bar(0), "░░░░░░░░░░░░░░");
    assert_eq!(power_bar(5), "▓▓▓▓▓░░░░░░░░░");
    assert_eq!(power_bar(99), "▓▓▓▓▓▓▓▓▓▓▓▓▓▓");
    assert_eq!(meter_label(14), "power ▓▓▓▓▓▓▓▓▓▓▓▓▓▓ throw ↵");
    assert_eq!(echo_label(0, ThrowTier::Lob), "caught ░░░░░░░░░░░░░░ — a timid lob");
    assert_eq!(echo_label(14, ThrowTier::Peak), "caught ▓▓▓▓▓▓▓▓▓▓▓▓▓▓ — the peak!");
    assert_eq!(centred_column(3, 10, 4), Some(6));
    assert_eq!(centred_column(3, 10, 11), None);
}

#[test]
fn numbers_take_their_ink_from_the_die() {
    let mut app = session("");
    roll_to_settle(&mut app, "d20");
    let mut d = app.dice[0];
    d.final_value = 20;
    assert_eq!(face_ink(&d, false), Some(FaceInk::Crit));
    d.final_value = 1;
    assert_eq!(face_ink(&d, false), Some(FaceInk::Fumble));
    d.final_value = 7;
    assert_eq!(face_ink(&d, false), Some(FaceInk::Plain));
    d.kept = false;
    assert_eq!(face_ink(&d, false), Some(FaceInk::Dropped));
    d.settled = false;
    assert_eq!(face_ink(&d, true), Some(FaceInk::Tumbling));
    assert_eq!(face_ink(&d, false), None);
    assert_eq!(widest_number(&app.dice), 2);
    assert_eq!(widest_number(&Vec::new()), 1);
}

#[test]
fn the_number_scales_with_the_die() {
    // A tiny die can't fit even a scale-1 half-block glyph (3×3 cells) → 0.
    assert_eq!(number_scale(3, 2, 1), 0, "small die → single cell");
    // Room for the 3×3 glyph but not the 6×5 one → scale 1.
    assert_eq!(number_scale(6, 3, 1), 1);
    // A big die fits the larger glyph → scale 2.
    assert_eq!(number_scale(12, 6, 1), 2);
    // Bigger dice keep scaling up.
    assert!(number_scale(40, 20, 1) > number_scale(12, 6, 1));
    // Two digits are wider, so the same die yields a smaller (or equal) scale.
    assert!(number_scale(9, 6, 2) <= number_scale(9, 6, 1));
}

#[test]
fn big_numbers_are_inked_and_outlined() {
    let digits = read_digits("d17");
    assert_eq!(digits, vec![1, 7]);
    let mut picture = String::new();
    for y in -1..6 {
        for x in -1..8 {
            picture.push(match number_px(&digits, 1, x, y) {
                Px::Ink => '#',
                Px::Outline => '+',
                Px::Clear => '.',
            });
        }
        picture.push('\n');
    }
    assert_eq!(
        picture,
        ".++++++++\n\
         ++#++###+\n\
         +##++++#+\n\
         ++#+.+#++\n\
         ++#+++#+.\n\
         +###++#+.\n\
         ++++++++.\n"
    );
    assert!(big_number("d", 1).is_empty());
    let cells = big_number("1", 1);
    assert!(cells.iter().all(|c| (-1..=3).contains(&c.col) && (-1..=3).contains(&c.row)));
    assert!(cells.iter().any(|c| c.upper == Px::Ink && c.lower == Px::Ink));
}

#[test]
fn dice_in_outline() {
    assert_eq!(die_shape(6, 4), ["┌────┐", "│    │", "│ 4  │", "└────┘"]);
    assert_eq!(die_shape(20, 17), [" ╱‾‾╲ ", "│ 17 │", "│    │", " ╲__╱ "]);
    assert_eq!(die_shape(8, 3), ["  ╱╲  ", " ╱  ╲ ", " ╲3 ╱ ", "  ╲╱  "]);
    assert_eq!(die_shape(100, 7), ["┌────┐", "│    │", "│ 7  │", "└────┘"]);
    assert_eq!(die_shape(1000, 1000)[2], "│1000│");
    assert_eq!(die_shape(4, 2)[2], "╱ 2  ╲");
    assert_eq!(die_shape(10, 9)[1], "╱    ╲");
    assert_eq!(die_shape(12, 12)[2], "│ 12 │");
}

#[test]
fn the_palette_goes_round() {
    assert_eq!(die_rgb(0), Rgb(60, 200, 210));
    assert_eq!(die_rgb(7), Rgb(230, 130, 230));
    assert_eq!(die_rgb(12), die_rgb(4));
}

#[test]
fn grain_is_scattered() {
    let reference = |mut h: u32| {
        h ^= h >> 16;
        h = h.wrapping_mul(0x7feb_352d);
        h ^= h >> 15;
        h = h.wrapping_mul(0x846c_a68b);
        h ^ (h >> 16)
    };
    for h in [0, 1, 2, 77, 0x8000_0000, u32::MAX] {
        assert_eq!(hash32(h), reference(h));
    }
    assert_eq!(hash32(0), 0);
    assert_ne!(hash32(1), hash32(2));
}

fn canvas(width: u32, height: u32) -> Canvas {
    let n = width * height;
    Canvas {
        width,
        height,
        color: (0..n).map(|k| Rgb(k as u8, (2 * k) as u8, 7)).collect(),
        alpha: (0..n).map(|k| if k % 3 == 0 { 255 } else { 0 }).collect(),
    }
}

#[test]
fn pictures_shrink_to_the_mean() {
    let big = canvas(4, 5);
    let small = downsample_into(&big, 2);
    assert_eq!((small.width, small.height), (2, 2));
    // The pixels 0, 1, 4 and 5.
    assert_eq!(small.color[0], Rgb(2, 5, 7));
    assert_eq!(small.alpha[0], 255 / 4);
    // The pixels 10, 11, 14 and 15.
    assert_eq!(small.color[3], Rgb(12, 25, 7));
    assert_eq!(downsample_into(&big, 1).color, big.color);
    assert_eq!(px(&big, 1, 2), Rgb(9, 18, 7));
    assert_eq!(px(&big, 4, 0), Rgb(0, 0, 0));
}

#[test]
fn dots_make_braille() {
    // Covered: every third pixel of two columns by four rows and a bit.
    let c = canvas(2, 5);
    assert_eq!(braille_bits(&c, 0, 0), 0x01 | 0x10 | 0x40);
    assert_eq!(braille_bits(&c, 0, 1), 0x08);
    assert_eq!(braille_bits(&c, 1, 0), 0);
    // The pixels 0, 3 and 6.
    assert_eq!(braille_color(&c, 0, 0), Some(Rgb(3, 6, 7)));
    assert_eq!(braille_color(&c, 1, 0), None);
}

#[test]
fn halves_letters_and_what_is_between() {
    let c = canvas(2, 5);
    assert_eq!(half_blocks(&c, 1, 1), (Rgb(5, 10, 7), Rgb(7, 14, 7)));
    assert_eq!(half_blocks(&c, 1, 2), (Rgb(9, 18, 7), Rgb(0, 0, 0)));
    assert_eq!(between(Rgb(255, 1, 0), Rgb(254, 2, 0)), Rgb(254, 1, 0));
    let letters: String = (0..11).map(shade_letter).collect();
    assert_eq!(letters, " .:-=+*#%@@");
}

#[test]
fn cells_and_pixels() {
    assert_eq!(RenderMode::HalfBlock.pixel_size(10, 4), (10, 8));
    assert_eq!(RenderMode::Braille.pixel_size(10, 4), (20, 16));
    assert_eq!(RenderMode::Ascii.pixel_size(10, 4), (10, 8));
    assert_eq!(RenderMode::default(), RenderMode::HalfBlock);
    let t = Texture::from_rgba(1, 2, vec![1; 8]);
    assert_eq!((t.width, t.height, t.data.len()), (1, 2, 8));
}

#[test]
fn totals_fall_into_even_buckets() {
    assert_eq!(histogram(&vec![5, 5, 5], 5, 5), vec![3]);
    assert_eq!(histogram(&Vec::new(), 0, 9), Vec::<usize>::new());
    assert_eq!(histogram(&vec![1, 2, 2, 6], 1, 6), vec![1, 2, 0, 0, 0, 1]);
    // 22 neighbouring totals, two to a bucket.
    let all: Vec<i32> = (-3..19).collect();
    assert_eq!(histogram(&all, -3, 18), vec![2; 11]);
    // Just as in floating point.
    for hi in 11..400i32 {
        let all: Vec<i32> = (0..=hi).collect();
        let width = (hi as f64 + 1.0) / 11.0;
        let mut want = vec![0usize; 11];
        for t in &all {
            let b = (*t as f64 / width) as usize;
            want[b.min(10)] += 1;
        }
        assert_eq!(histogram(&all, 0, hi), want, "{hi}");
    }
}

#[test]
fn the_panel_keeps_the_secret() {
    let mut a = session("");
    a.input = "3d20 vs 30".into();
    a.roll();
    a.launched(0);
    let mut b = session("");
    b.input = "3d20 vs 30".into();
    b.roll();
    b.launched(0);
    for d in b.dice.iter_mut() {
        d.final_value = 20;
    }
    assert_eq!(result_lines(&a), result_lines(&b));
}
