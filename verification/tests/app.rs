use rand::rngs::StdRng;
use rand::SeedableRng;
use tinhorn::app::{App, HistoryEntry, Launch, Pane, RollMode, MAX_HISTORY};
use tinhorn::arena::{tumbling_face, Pose, SoundEvent, MAX_SOUNDS};
use tinhorn::cli::Mishap;
use tinhorn::launch::{slot, Hit, KNOCK_BUDGET};
use tinhorn::parse::{parse, Goal, Stake};
use tinhorn::pool::Die;
use tinhorn::roll::{evaluate, score_term, MAX_EXPLOSIONS};

fn seeded(input: &str, seed: u64) -> App {
    App::with_seed(input, seed)
}

fn poses(n: usize, rests: bool) -> Vec<Pose> {
    vec![Pose { x: 1, y: 2, z: 3, rests }; n]
}

/// One step of the simulation in which every die comes to rest.
fn step(app: &mut App) {
    let poses = poses(app.dice.len(), true);
    app.sync_and_settle(&poses);
    while app.spawn_next().is_some() {}
    app.record_if_settled();
}

/// Launches the roll that is due and steps until everything rests.
fn settle(app: &mut App, max_steps: usize) -> Option<usize> {
    if app.launch.is_some() {
        app.launched(0);
    }
    for f in 0..max_steps {
        step(app);
        if app.all_settled() {
            return Some(f);
        }
    }
    None
}

#[test]
fn insta_rolls_the_same_dice_as_the_animation_under_the_same_seed() {
    let expr = "4d6!kh3+2";

    let mut animated = seeded(expr, 9);
    settle(&mut animated, 40_000).expect("never settled");
    assert!(animated.all_settled());

    // Same seed, untouched by the empty line at the start.
    let mut insta = seeded("", 9);
    insta.input = expr.to_string();
    insta.insta_roll();
    assert_eq!(insta.launch, Some(Launch::Insta));
    settle(&mut insta, 40_000).expect("never settled");
    insta.hush();

    assert!(insta.all_settled(), "insta must land settled");
    let a: Vec<u32> = animated.dice.iter().map(|d| d.final_value).collect();
    let b: Vec<u32> = insta.dice.iter().map(|d| d.final_value).collect();
    assert_eq!(a, b, "insta must roll exactly the animation's dice");
}

#[test]
fn shaking_rolls_nothing_until_released() {
    let mut app = seeded("", 2);
    app.input = "3d6".into();
    app.start_shake();
    assert!(app.dice.is_empty(), "dice appeared before the throw");
    assert!(app.history.is_empty());

    // Cancelling puts the dice down: still nothing rolled.
    app.cancel_shake();
    assert!(!app.shaking());
    assert!(app.dice.is_empty(), "cancelling a shake must not roll");
}

#[test]
fn a_bad_expression_errors_at_pickup_not_at_release() {
    let mut app = seeded("", 3);
    app.input = "nonsense".into();
    app.start_shake();
    assert!(!app.shaking(), "a bad expression must not start a shake");
    assert!(app.error.is_some(), "the typo surfaces immediately");
}

#[test]
fn throw_power_shapes_the_launch_but_not_the_values() {
    // Same seed: the faces must be identical however hard you throw, because power
    // only feeds the trajectory, never the order of the draws.
    let faces = |power: u32| -> Vec<u32> {
        let mut app = seeded("", 42);
        app.input = "5d20".into();
        app.start_shake();
        app.emit(SoundEvent::Rattle { power });
        app.throw();
        app.launched(power);
        let mut vals: Vec<u32> = app.dice.iter().map(|d| d.final_value).collect();
        vals.sort_unstable();
        vals
    };
    let hard_vals = faces(0.95f32.to_bits());
    let soft_vals = faces(0.15f32.to_bits());
    assert_eq!(hard_vals, soft_vals, "throw power leaked into the roll values");
    // The same dice rain in without the cup.
    let mut plain: Vec<u32> = seeded("5d20", 42).dice.iter().map(|d| d.final_value).collect();
    plain.sort_unstable();
    assert_eq!(hard_vals, plain);
}

#[test]
fn staked_roll_reaches_a_verdict_only_once_settled() {
    for seed in 0..30 {
        let mut app = seeded("d20+2 vs 12", seed);
        assert_eq!(app.stake.map(|s| s.target), Some(12));
        assert_eq!(app.verdict(), None, "no verdict while dice are falling");
        settle(&mut app, 6000).expect("never settled");
        let (success, margin) = app.verdict().expect("settled roll must have a verdict");
        assert_eq!(margin, app.total() - 12);
        assert_eq!(success, app.total() >= 12, "seed {seed}");
    }
}

#[test]
fn a_roll_under_verdict_flips_the_comparison() {
    // Same target, opposite direction: roll-under succeeds when the total
    // comes in at or below it, and the margin is how far under it landed.
    for seed in 0..30 {
        let mut app = seeded("d20 < 10", seed);
        assert_eq!(
            app.stake,
            Some(Stake {
                target: 10,
                goal: Goal::Under
            })
        );
        settle(&mut app, 6000).expect("never settled");
        let (success, margin) = app.verdict().expect("settled roll must have a verdict");
        assert_eq!(success, app.total() <= 10, "seed {seed}");
        assert_eq!(margin, 10 - app.total(), "seed {seed}");
    }
}

#[test]
fn a_natural_20_bursts_gold_and_rings() {
    // Find a seed whose d20 lands a 20, and one that lands a 1.
    let mut found = (false, false);
    for seed in 0..300 {
        let mut app = seeded("d20", seed);
        let v = app.dice[0].final_value;
        if v != 20 && v != 1 {
            continue;
        }
        app.launched(0);
        app.sync_and_settle(&poses(1, true));
        let party = app.record_if_settled().expect("the roll is at rest");
        if v == 20 {
            assert!(app.crit_dice().len() == 1);
            assert_eq!(party.crits, vec![0], "seed {seed}: no gold burst");
            assert!(app.sounds.contains(&SoundEvent::Crit), "no crit ring");
            found.0 = true;
        } else {
            assert!(app.fumble_dice().len() == 1);
            assert_eq!(party.fumbles, vec![0], "seed {seed}: no dust");
            assert!(app.sounds.contains(&SoundEvent::Fumble), "no fumble thud");
            found.1 = true;
        }
        if found == (true, true) {
            return;
        }
    }
    panic!("seed range produced neither a 20 nor a 1: {found:?}");
}

#[test]
fn any_die_type_crits_on_its_max_and_fumbles_on_one() {
    // A d6 landing a 6 earns the same gold as a d20 landing a 20…
    let mut found = (false, false);
    for seed in 0..200 {
        let mut app = seeded("d6", seed);
        let v = app.dice[0].final_value;
        if v != 6 && v != 1 {
            continue;
        }
        settle(&mut app, 6000).expect("never settled");
        if v == 6 {
            assert_eq!(
                app.crit_dice().len(),
                1,
                "seed {seed}: a maxed d6 is a crit"
            );
            assert!(app.sounds.contains(&SoundEvent::Crit));
            found.0 = true;
        } else {
            assert_eq!(
                app.fumble_dice().len(),
                1,
                "seed {seed}: a d6 on 1 fumbles"
            );
            assert!(app.sounds.contains(&SoundEvent::Fumble));
            found.1 = true;
        }
        if found == (true, true) {
            return;
        }
    }
    panic!("seed range produced neither a 6 nor a 1 on a d6: {found:?}");
}

#[test]
fn dropped_dice_never_crit() {
    // Disadvantage where the *dropped* die maxed: no crit, no gold.
    for seed in 0..500 {
        let mut app = seeded("2d20kl1", seed);
        let dropped_max = app.dice.iter().any(|d| !d.kept && d.final_value == 20);
        let kept_max = app.dice.iter().any(|d| d.kept && d.final_value == 20);
        if !dropped_max || kept_max {
            continue;
        }
        settle(&mut app, 6000).expect("never settled");
        assert_eq!(
            app.crit_dice().len(),
            0,
            "seed {seed}: a dropped 20 must not crit"
        );
        assert!(
            !app.sounds.contains(&SoundEvent::Crit),
            "seed {seed}: dropped 20 rang"
        );
        return;
    }
    panic!("no seed dropped a 20 under disadvantage");
}

#[test]
fn many_crits_burst_per_die_but_ring_once() {
    // A pool with several maxed dice: one gold burst per die, one chord.
    for seed in 0..300 {
        let mut app = seeded("8d4", seed);
        let maxes = app.dice.iter().filter(|d| d.final_value == 4).count();
        if maxes < 2 {
            continue;
        }
        app.launched(0);
        app.sync_and_settle(&poses(8, true));
        let party = app.record_if_settled().expect("never settled");
        assert_eq!(app.crit_dice().len(), maxes);
        assert_eq!(party.crits.len(), maxes);
        let rings = app
            .sounds
            .iter()
            .filter(|s| **s == SoundEvent::Crit)
            .count();
        assert_eq!(rings, 1, "seed {seed}: the ring plays once per roll");
        return;
    }
    panic!("no seed rolled two maxed d4s");
}

#[test]
fn a_staked_settle_emits_the_matching_verdict_sound() {
    for seed in 0..30 {
        let mut app = seeded("d20 vs 10", seed);
        settle(&mut app, 6000).expect("never settled");
        let (success, _) = app.verdict().unwrap();
        let expect = if success {
            SoundEvent::Success
        } else {
            SoundEvent::Failure
        };
        let opposite = if success {
            SoundEvent::Failure
        } else {
            SoundEvent::Success
        };
        assert!(
            app.sounds.contains(&expect),
            "seed {seed}: verdict sound missing"
        );
        assert!(
            !app.sounds.contains(&opposite),
            "seed {seed}: wrong verdict sound"
        );
    }
}

#[test]
fn physics_makes_noise_and_the_queue_self_caps() {
    // A big undrained roll: impacts, knocks and settles pile up but never exceed the cap.
    let mut app = seeded("20d6", 4);
    app.launched(0);
    let hits = vec![Hit { sides: 6, speed: 9, die: true }; 20];
    for _ in 0..4 {
        app.voice_hits(&hits);
        app.sync_and_settle(&poses(20, false));
    }
    settle(&mut app, 20000).expect("never settled");
    for _ in 0..30 {
        app.voice_hits(&hits);
    }
    assert!(!app.sounds.is_empty(), "a full roll should make some noise");
    assert!(app.sounds.len() <= MAX_SOUNDS, "queue exceeded its cap");
    assert!(
        app.sounds.iter().any(|s| matches!(s, SoundEvent::Settle { .. })),
        "no settle knock recorded"
    );
}

#[test]
fn muting_empties_the_sound_queue_at_the_source() {
    let mut app = seeded("3d6", 1);
    settle(&mut app, 6000).expect("never settled");
    assert!(!app.sounds.is_empty(), "a roll should queue some noise");

    // Muted: the queue is cleared but nothing is handed over.
    app.muted = true;
    assert!(
        app.take_sounds().is_empty(),
        "muted take_sounds must return nothing"
    );
    assert!(
        app.sounds.is_empty(),
        "muted take_sounds must still clear the queue"
    );

    // Unmuted: events flow again.
    app.muted = false;
    app.input = "3d6".into();
    app.roll();
    settle(&mut app, 6000).expect("never settled");
    assert!(
        !app.take_sounds().is_empty(),
        "unmuted take_sounds must hand events over"
    );
}

#[test]
fn the_throw_rolls_the_expression_locked_at_pickup() {
    // The shake snapshots the input: whatever mutates it mid-shake, the
    // throw rolls what was validated when the cup was lifted.
    let mut app = seeded("", 8);
    app.input = "2d6".into();
    app.start_shake();
    app.input = "9d9nonsense".into(); // bypasses the key router on purpose
    app.throw();
    assert!(app.error.is_none(), "the locked expression was valid");
    assert_eq!(
        app.dice.len(),
        2,
        "the throw must roll the snapshot, not the mutation"
    );
    assert_eq!(
        app.input, "2d6",
        "the input reverts to what was actually thrown"
    );
}

#[test]
fn advantage_keeps_the_higher_die() {
    // Try a spread of seeds; for every one, the kept d20 is the larger.
    for seed in 0..50 {
        let app = seeded("2d20kh1", seed);
        assert_eq!(app.dice.len(), 2, "both dice are still thrown");
        let kept: Vec<&Die> = app.dice.iter().filter(|d| d.kept).collect();
        assert_eq!(kept.len(), 1, "advantage keeps exactly one");
        let dropped = app.dice.iter().find(|d| !d.kept).unwrap();
        assert!(
            kept[0].final_value >= dropped.final_value,
            "kept {} < dropped {}",
            kept[0].final_value,
            dropped.final_value
        );
        // The total is just the kept die.
        assert_eq!(app.total(), kept[0].final_value as i32);
    }
}

#[test]
fn disadvantage_keeps_the_lower_die() {
    for seed in 0..50 {
        let app = seeded("2d20kl1", seed);
        let kept = app.dice.iter().find(|d| d.kept).unwrap();
        let dropped = app.dice.iter().find(|d| !d.kept).unwrap();
        assert!(kept.final_value <= dropped.final_value);
    }
}

#[test]
fn drop_lowest_sums_the_top_three() {
    for seed in 0..50 {
        let app = seeded("4d6dl1", seed);
        assert_eq!(app.dice.len(), 4);
        let mut vals: Vec<u32> = app.dice.iter().map(|d| d.final_value).collect();
        vals.sort_unstable();
        let expected: i32 = vals[1..].iter().map(|&v| v as i32).sum(); // top 3
        assert_eq!(app.total(), expected);
        // Exactly the single lowest die is dropped.
        assert_eq!(app.dice.iter().filter(|d| !d.kept).count(), 1);
    }
}

#[test]
fn exploding_happens_during_the_animation_not_up_front() {
    // roll() builds only the base pool — no dice are pre-spawned...
    for seed in 0..30 {
        let app = seeded("6d6!", seed);
        assert_eq!(app.dice.len(), 6, "seed {seed}: roll() pre-spawned dice");
    }
    // ...and the pool only grows once the simulation runs and a max settles.
    // Find a seed whose base roll contains a six, then prove it grows.
    let mut grew = false;
    for seed in 0..200 {
        let mut app = seeded("6d6!", seed);
        let base_max = app.dice.iter().filter(|d| d.final_value == 6).count();
        settle(&mut app, 20000).expect("exploding pool never settled");
        if base_max > 0 {
            assert!(
                app.dice.len() > 6,
                "seed {seed}: base roll had a six but pool never grew"
            );
            grew = true;
            break;
        }
    }
    assert!(grew, "no seed in range rolled a six to explode");
}

#[test]
fn every_settled_max_die_spawned_exactly_one_more() {
    // Once everything is at rest, the number of dice that rolled a matching face
    // equals the number of explosions (each max spawns exactly one), up to the
    // per-term cap.
    for seed in 0..30 {
        let mut app = seeded("6d6!", seed);
        settle(&mut app, 20000).expect("never settled");
        let sixes = app.dice.iter().filter(|d| d.final_value == 6).count();
        let spawned = app.dice.len() - 6;
        // Every six spawned a die unless the term hit the cap.
        assert_eq!(
            spawned,
            sixes.min(MAX_EXPLOSIONS),
            "seed {seed}: {sixes} sixes but {spawned} spawned"
        );
        // Once settled, every die has had (and used up) its one explosion chance.
        assert!(
            app.dice.iter().all(|d| d.exploded),
            "a settled die never got its explosion check"
        );
    }
}

#[test]
fn frequent_explosions_hit_the_cap_and_still_converge() {
    // d3 exploding on >1 fires roughly two times in three, so a chain races
    // to the per-term cap. It must still terminate.
    for seed in 0..20 {
        let mut app = seeded("4d3!>1", seed);
        settle(&mut app, 40000).expect("capped explosion chain never settled");
        assert!(app.dice.len() <= 4 + MAX_EXPLOSIONS, "blew past the cap");
    }
}

#[test]
fn exploding_stays_capped_and_total_is_the_full_sum() {
    for seed in 0..30 {
        let mut app = seeded("6d6!", seed);
        settle(&mut app, 20000).expect("never settled");
        assert!(
            app.dice.len() <= 6 + MAX_EXPLOSIONS,
            "explosion count is capped"
        );
        // `!` keeps everything, so the total is just the sum of every die.
        let expected: i32 = app.dice.iter().map(|d| d.final_value as i32).sum();
        assert_eq!(app.total(), expected);
    }
}

#[test]
fn multiply_scales_only_its_term() {
    for seed in 0..50 {
        let app = seeded("3d6*2+d8", seed);
        // Term 0 is the three d6 (×2); term 1 is the lone d8 (×1).
        let t0: i32 = app
            .dice
            .iter()
            .filter(|d| d.term_idx == 0)
            .map(|d| d.final_value as i32)
            .sum();
        let t1: i32 = app
            .dice
            .iter()
            .filter(|d| d.term_idx == 1)
            .map(|d| d.final_value as i32)
            .sum();
        assert_eq!(app.total(), t0 * 2 + t1);
    }
}

#[test]
fn dice_settle_and_total_is_consistent() {
    let mut app = seeded("4d6+2", 12);
    let frame = settle(&mut app, 6000).expect("dice never came to rest");
    assert!(frame < 6000);

    // Once settled, every die's shown face is the burned-in rolled value...
    for d in &app.dice {
        assert_eq!(d.shown, d.final_value);
        assert!((1..=d.sides).contains(&d.final_value));
    }
    // ...and the total is in range.
    let t = app.total();
    assert!((4 + 2..=24 + 2).contains(&t), "total {t} out of range");
}

#[test]
fn a_completed_roll_is_recorded_in_history_exactly_once() {
    let mut app = seeded("3d6+1", 5);
    assert!(app.history.is_empty(), "nothing recorded before it settles");
    settle(&mut app, 6000).expect("never settled");

    // Keep stepping after settling — the entry must not be duplicated.
    for _ in 0..200 {
        step(&mut app);
    }
    assert_eq!(app.history.len(), 1, "recorded once and only once");

    let e = &app.history[0];
    assert_eq!(e.expr, "3d6+1");
    assert_eq!(e.values.len(), 3); // three kept dice
    // total = sum of faces + 1, and matches what the entry stored.
    let face_sum: i32 = e.values.iter().map(|&v| v as i32).sum();
    assert_eq!(e.total, face_sum + 1);
    assert_eq!(e.total, app.total());
}

#[test]
fn history_records_only_kept_dice() {
    // Advantage: two thrown, one kept — history stores the single kept value.
    let mut app = seeded("2d20kh1", 9);
    settle(&mut app, 6000).expect("never settled");
    assert_eq!(app.history.len(), 1);
    assert_eq!(
        app.history[0].values.len(),
        1,
        "only the kept die is stored"
    );
    assert_eq!(app.history[0].total, app.history[0].values[0] as i32);
}

#[test]
fn history_is_capped() {
    let mut app = seeded("d6", 1);
    // Forge more than the cap of entries, then roll one more for real.
    for n in 0..(MAX_HISTORY + 50) {
        app.history.push(HistoryEntry {
            expr: "d6".into(),
            values: vec![1],
            total: n as i32,
        });
    }
    app.input = "d6".into();
    app.roll();
    settle(&mut app, 6000).expect("never settled");
    assert!(app.history.len() <= MAX_HISTORY, "history exceeded its cap");
    // The newest stay.
    assert_eq!(app.history.len(), MAX_HISTORY);
    assert_eq!(app.history[0].total, 51);
    assert_eq!(app.history.last().unwrap().total, app.total());
}

#[test]
fn sampled_stats_match_known_dice_ranges() {
    // 3d6: exactly 3..=18, average 10.5. Sampling should pin the bounds and
    // land close on the mean.
    let mut app = seeded("3d6", 1);
    let s = app.stats().expect("3d6 parses");
    assert_eq!(s.min, 3);
    assert_eq!(s.max, 18);
    let mean = s.sum as f64 / s.samples as f64;
    assert!((mean - 10.5).abs() < 0.3, "mean {} far from 10.5", mean);
    // The distribution fractions sum to ~1.
    let total: f64 = s.dist.iter().map(|&c| c as f64 / s.samples as f64).sum();
    assert!((total - 1.0).abs() < 1e-6, "fractions sum to {total}");
    assert_eq!(s.dist.len(), 11);
}

#[test]
fn sampled_stats_reflect_modifiers() {
    // Advantage shifts the average of a single d20 up from 10.5 toward ~13.8.
    let adv = seeded("2d20kh1", 21).stats().unwrap();
    assert_eq!(adv.min, 1);
    assert_eq!(adv.max, 20);
    let mean = adv.sum as f64 / adv.samples as f64;
    assert!(mean > 12.0, "advantage mean {} should beat a flat d20", mean);

    // A flat *2 multiplier doubles the achievable range.
    let doubled = seeded("1d6*2", 22).stats().unwrap();
    assert_eq!(doubled.min, 2);
    assert_eq!(doubled.max, 12);
}

#[test]
fn session_stats_summarize_matching_rolls() {
    let mut app = seeded("3d6", 2);
    settle(&mut app, 6000).expect("settle 1");
    // Roll the same expression a second time.
    app.input = "3d6".into();
    app.roll();
    settle(&mut app, 6000).expect("settle 2");

    let s = app.stats().unwrap();
    assert_eq!(s.session.count, 2, "both 3d6 rolls counted");
    assert_eq!(s.total_rolls, 2);
    assert!(s.session.min <= s.session.max);
    // Mean of the session sits within the achievable 3..=18 range.
    let mean = s.session.sum as f64 / s.session.count as f64;
    assert!(mean >= 3.0 && mean <= 18.0);
}

#[test]
fn stats_error_surfaces_for_bad_input() {
    let mut app = seeded("", 1);
    app.input = "garbage".into();
    assert!(matches!(app.stats(), Err(Mishap::Complaint(_))));
}

#[test]
fn the_arena_agrees_with_the_evaluator() {
    let expr = "5d6!kh3*2 3d4!>2 d20-3 vs 40";
    for seed in 0..40 {
        let mut app = seeded(expr, seed);
        settle(&mut app, 1000).expect("never settled");
        let roll = parse(expr).unwrap();
        let mut total = roll.modifier;
        for (k, term) in roll.terms.iter().enumerate() {
            let faces: Vec<u32> = app
                .dice
                .iter()
                .filter(|d| d.term_idx == k)
                .map(|d| d.final_value)
                .collect();
            let scored = score_term(term, &faces);
            let kept: Vec<bool> = app
                .dice
                .iter()
                .filter(|d| d.term_idx == k)
                .map(|d| d.kept)
                .collect();
            let want: Vec<bool> = scored.dice.iter().map(|d| d.kept).collect();
            assert_eq!(kept, want);
            total += scored.subtotal;
        }
        assert_eq!(app.total(), total);
        let (success, margin) = app.verdict().unwrap();
        assert_eq!(success, total >= 40);
        assert_eq!(margin, total - 40);
    }
}

#[test]
fn without_explosions_the_arena_shows_what_the_evaluator_rolls() {
    for seed in 0..40 {
        let expr = "4d6dl1 2d20kh1+3";
        let app = seeded(expr, seed);
        let mut rng = StdRng::seed_from_u64(seed);
        let o = evaluate(expr, &parse(expr).unwrap(), &mut rng);
        assert_eq!(app.total(), o.total);
        let faces: Vec<u32> = app.dice.iter().map(|d| d.final_value).collect();
        let rolled: Vec<u32> = o.terms.iter().flat_map(|t| t.dice.iter().map(|d| d.value)).collect();
        assert_eq!(faces, rolled);
    }
}

#[test]
fn a_session_starts_as_it_is_told() {
    let app = seeded("  2d6  ", 3);
    assert_eq!(app.input, "2d6");
    assert_eq!(app.cursor, 3);
    assert_eq!(app.launch, Some(Launch::Rain));
    assert_eq!(app.pane, Pane::Closed);
    assert_eq!(app.mode, RollMode::Shake);
    assert!(!app.spawned && !app.muted && app.history.is_empty());
    let empty = seeded("   ", 3);
    assert!(empty.dice.is_empty() && empty.error.is_none() && empty.launch.is_none());
    let bad = seeded("2d", 3);
    assert_eq!(
        bad.error.as_deref(),
        Some("expected a number of sides after 'd' (e.g. d6)")
    );
}

#[test]
fn fresh_dice_show_a_decoy() {
    let app = seeded("3d6 2d20", 3);
    let shown: Vec<u32> = app.dice.iter().map(|d| d.shown).collect();
    assert_eq!(shown, vec![3, 4, 5, 4, 11]);
    let colors: Vec<usize> = app.dice.iter().map(|d| d.color_idx).collect();
    assert_eq!(colors, vec![0, 1, 2, 3, 4]);
}

#[test]
fn tumbling_faces_come_from_the_orientation() {
    assert_eq!(tumbling_face(7, 0, 0, 1), 1);
    assert_eq!(tumbling_face(7, 0, 0, 6), 2);
    let bits = 0x3f80_0000u32 ^ 0x1234_5678u32.rotate_left(11) ^ 0xdead_beefu32.rotate_left(22);
    assert_eq!(
        tumbling_face(0x3f80_0000, 0x1234_5678, 0xdead_beef, 20),
        1 + bits % 20
    );
    let mut app = seeded("d20", 3);
    app.launched(0);
    app.sync_and_settle(&poses(1, false));
    assert_eq!(app.dice[0].shown, tumbling_face(1, 2, 3, 20));
    assert!(!app.all_settled());
}

#[test]
fn a_full_queue_keeps_only_what_must_be_heard() {
    let mut app = seeded("", 3);
    for speed in 0..80 {
        app.emit(SoundEvent::Impact { sides: 6, speed });
    }
    assert_eq!(app.sounds.len(), MAX_SOUNDS);
    assert_eq!(app.sounds[0], SoundEvent::Impact { sides: 6, speed: 0 });
    app.emit_priority(SoundEvent::Crit);
    assert_eq!(app.sounds.len(), MAX_SOUNDS);
    assert_eq!(app.sounds[0], SoundEvent::Impact { sides: 6, speed: 1 });
    assert_eq!(*app.sounds.last().unwrap(), SoundEvent::Crit);
}

#[test]
fn only_a_throw_from_the_cup_is_heard_leaving() {
    let mut app = seeded("d6", 3);
    app.launched(7);
    assert!(app.sounds.is_empty());
    assert!(app.spawned && app.launch.is_none());
    app.start_shake();
    app.throw();
    assert_eq!(app.launch, Some(Launch::Cup));
    app.launched(7);
    assert_eq!(app.sounds, vec![SoundEvent::Throw { power: 7 }]);
}

#[test]
fn an_insta_roll_ends_with_a_landing_and_its_climax() {
    let mut app = seeded("", 3);
    app.input = "4d1 vs 4".into();
    app.insta_roll();
    settle(&mut app, 10).unwrap();
    assert_eq!(app.sounds.len(), 5);
    app.hush();
    assert_eq!(
        app.sounds,
        vec![SoundEvent::Settle { sides: 1 }, SoundEvent::Success]
    );
}

#[test]
fn hits_are_heard_up_to_a_budget() {
    let mut app = seeded("", 3);
    let hits: Vec<Hit> = (0..12)
        .map(|n| Hit { sides: n, speed: 5, die: n % 2 == 0 })
        .collect();
    app.voice_hits(&hits);
    assert_eq!(app.sounds.len(), KNOCK_BUDGET);
    assert_eq!(app.sounds[0], SoundEvent::Knock { sides: 0, speed: 5 });
    assert_eq!(app.sounds[1], SoundEvent::Impact { sides: 1, speed: 5 });
}

#[test]
fn an_explosion_waits_to_be_thrown_and_always_counts() {
    let mut app = seeded("d1!=1kh1", 3);
    app.launched(0);
    app.sync_and_settle(&poses(1, true));
    assert_eq!(app.pending.len(), 1);
    assert!(!app.all_settled(), "a die is still to come");
    assert!(app.record_if_settled().is_none());
    assert_eq!(app.spawn_next(), Some(1));
    assert_eq!(app.spawn_next(), None);
    assert!(app.dice[1].kept && !app.dice[1].settled);
    settle(&mut app, 100).unwrap();
    assert_eq!(app.dice.len(), 1 + MAX_EXPLOSIONS);
    assert_eq!(app.total(), 41);
}

#[test]
fn dice_enter_from_places_of_their_own() {
    for count in 1..=72 {
        let mut seen = Vec::new();
        for i in 0..count {
            let s = slot(i, count);
            assert!(s.column < s.columns && s.columns <= 6 && s.depth < 3 && s.layer < 4);
            assert!(!seen.contains(&(s.column, s.depth, s.layer)));
            seen.push((s.column, s.depth, s.layer));
        }
    }
    assert_eq!(slot(0, 0).columns, 1);
    let s = slot(45, 60);
    assert_eq!((s.column, s.depth, s.layer), (3, 1, 2));
}

#[test]
fn the_total_is_decided_when_the_dice_are_thrown() {
    for seed in 0..20 {
        let mut app = seeded("4d6kh3*2 3d8+5", seed);
        let total = app.total();
        app.launched(0);
        for _ in 0..5 {
            app.sync_and_settle(&poses(7, false));
            assert_eq!(app.total(), total);
        }
        app.sync_and_settle(&poses(7, true));
        assert_eq!(app.total(), total);
    }
}

#[test]
fn the_total_never_falls_while_dice_are_added() {
    for seed in 0..40 {
        let mut app = seeded("6d4!>1kh2*3", seed);
        app.launched(0);
        let mut total = app.total();
        while !app.all_settled() {
            app.sync_and_settle(&poses(app.dice.len(), true));
            while let Some(i) = app.spawn_next() {
                let added = app.dice[i].final_value as i32 * 3;
                assert_eq!(app.total(), total + added);
                total += added;
            }
        }
    }
}

#[test]
fn a_session_begins_with_its_seed_or_without_one() {
    for seed in 0..20 {
        let a = App::with_seed(" 6d20-3 vs 40 ", seed);
        let b = App::with_rng("6d20-3 vs 40", StdRng::seed_from_u64(seed));
        let faces = |app: &App| app.dice.iter().map(|d| d.final_value).collect::<Vec<u32>>();
        assert_eq!(faces(&a), faces(&b));
        assert_eq!((a.input.as_str(), a.cursor, a.modifier), ("6d20-3 vs 40", 12, -3));
        assert_eq!(a.launch, Some(Launch::Rain));
    }
    let fresh = App::new("60d1000").unwrap();
    assert_eq!(fresh.dice.len(), 60);
    assert!(fresh.dice.iter().all(|d| (1..=1000).contains(&d.final_value)));
    let other = App::new("60d1000").unwrap();
    assert!(fresh.dice.iter().zip(&other.dice).any(|(a, b)| a.final_value != b.final_value));
    assert!(App::new("nope").unwrap().error.is_some());
    let blank = App::new("").unwrap();
    assert!(blank.error.is_none() && blank.dice.is_empty());
}

#[test]
fn known_odds_never_outlive_the_history_they_show() {
    let mut app = seeded("", 5);
    for _ in 0..MAX_HISTORY {
        app.history.push(HistoryEntry { expr: "d1".into(), values: vec![1], total: 1 });
    }
    app.input = "d6+10".into();
    let before = app.stats().unwrap();
    assert_eq!((before.session.count, before.total_rolls), (0, MAX_HISTORY));
    assert_eq!(app.stats().unwrap(), before, "the same odds once more");

    // The history is full, so that one more roll leaves its length alone.
    app.roll();
    settle(&mut app, 6000).expect("never settled");
    assert!(app.recorded);
    assert_eq!(app.history.len(), MAX_HISTORY);
    let after = app.stats().unwrap();
    assert_eq!(after.session.count, 1);
    assert_eq!(after.session.min, app.total());
    assert_eq!(after.session.max, app.total());
    assert_eq!(after.session.sum, app.total() as i64);
    assert_eq!(app.stats().unwrap(), after);
}

#[test]
fn typing_and_erasing_leave_the_line_as_it_was() {
    let mut app = seeded("", 1);
    app.input = "2d6é€🎲".into();
    for stale in 0..=app.input.len() + 2 {
        app.cursor = stale;
        let at = app.cursor_byte();
        for c in ['k', 'é', '€', '🎲'] {
            app.input_insert(c);
            assert_eq!(app.cursor, at + c.len_utf8());
            app.input_backspace();
            assert_eq!((app.input.as_str(), app.cursor), ("2d6é€🎲", at));
        }
    }
}

#[test]
fn the_same_landings_roll_the_same_explosions() {
    for seed in 0..40 {
        let run = |launch: fn(&mut App)| -> (Vec<u32>, i32) {
            let mut app = seeded("", seed);
            app.input = "5d4!kh2 3d6!>4*2-1".into();
            launch(&mut app);
            app.launched(7);
            let mut frame: usize = 0;
            while !app.all_settled() {
                // The dice come to rest one after the other, the last first.
                let n = app.dice.len();
                let poses: Vec<Pose> = (0..n)
                    .map(|i| Pose { x: 1, y: 2, z: 3, rests: i + frame >= n })
                    .collect();
                app.sync_and_settle(&poses);
                while app.spawn_next().is_some() {}
                frame += 1;
            }
            (app.dice.iter().map(|d| d.final_value).collect(), app.total())
        };
        let watched = run(|app| app.roll());
        assert_eq!(watched, run(|app| app.insta_roll()), "seed {seed}");
        let thrown = run(|app| {
            app.start_shake();
            app.throw();
        });
        assert_eq!(watched, thrown, "seed {seed}");
    }
}

#[test]
fn a_total_is_told_only_where_it_fits() {
    // One die of 1 to 1000 times 3 000 000: up to 715 fits.
    let mut told = 0;
    for seed in 0..60 {
        let mut app = seeded("d1000*3000000", seed);
        assert!(app.tellable(), "nothing to tell while the die is in the air");
        app.launched(0);
        app.sync_and_settle(&poses(1, true));
        assert!(app.all_settled());
        let face = app.dice[0].final_value;
        assert_eq!(app.tellable(), face <= 715);
        if app.tellable() {
            assert_eq!(app.total(), face as i32 * 3_000_000);
            told += 1;
        }
    }
    assert!(0 < told && told < 60);
}

#[test]
fn odds_that_overflow_are_not_given() {
    let mut app = seeded("", 1);
    app.input = "d1000*3000000".into();
    assert_eq!(app.stats(), Err(Mishap::Overflow));
    app.input = "d1000*2000000".into();
    let s = app.stats().unwrap();
    assert!(2_000_000 <= s.min && s.min <= s.max && s.max <= 2_000_000_000);
}
