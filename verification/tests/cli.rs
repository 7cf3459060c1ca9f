use rand::rngs::StdRng;
use rand::SeedableRng;
use tinhorn::cli::{format_verbose, roll_once, throwable, Cli, Mishap, Plan};
use tinhorn::parse::parse;
use tinhorn::roll::{evaluate, Outcome};

/// What the command line rolls with a seed.
fn roll_seeded(expr: &str, seed: u64) -> Result<Outcome, Mishap> {
    Cli { seed: Some(seed), ..cli(&[expr]) }.roll(expr)
}

fn outcome(expr: &str, seed: u64) -> Outcome {
    let roll = parse(expr).unwrap();
    let mut rng = StdRng::seed_from_u64(seed);
    evaluate(expr, &roll, &mut rng)
}

#[test]
fn seeded_evaluation_is_deterministic() {
    let a = outcome("4d6dl1+2", 42);
    let b = outcome("4d6dl1+2", 42);
    assert_eq!(a.total, b.total);
    let av: Vec<u32> = a.terms[0].dice.iter().map(|d| d.value).collect();
    let bv: Vec<u32> = b.terms[0].dice.iter().map(|d| d.value).collect();
    assert_eq!(av, bv, "same seed must reproduce the same dice");
}

#[test]
fn total_matches_kept_dice_and_modifier() {
    let o = outcome("4d6dl1+2", 7);
    // Four dice rolled, exactly one dropped.
    assert_eq!(o.terms[0].dice.len(), 4);
    assert_eq!(o.terms[0].dice.iter().filter(|d| !d.kept).count(), 1);
    // Total = sum of kept dice + modifier.
    let kept: i32 = o.terms[0].dice.iter().filter(|d| d.kept).map(|d| d.value as i32).sum();
    assert_eq!(o.total, kept + 2);
    assert_eq!(o.modifier, 2);
}

#[test]
fn multiply_is_reflected_in_subtotal() {
    let o = outcome("3d6*2+d8", 3);
    let t0 = &o.terms[0];
    let raw: i32 = t0.dice.iter().filter(|d| d.kept).map(|d| d.value as i32).sum();
    assert_eq!(t0.multiplier, 2);
    assert_eq!(t0.subtotal, raw * 2);
}

#[test]
fn exploded_dice_are_flagged() {
    // Find a seed that explodes a d6 and check the spawned die is marked.
    for seed in 0..200 {
        let o = outcome("6d6!", seed);
        if o.terms[0].dice.iter().any(|d| d.exploded) {
            // Every exploded die is kept (explosions always count).
            assert!(o.terms[0].dice.iter().filter(|d| d.exploded).all(|d| d.kept));
            return;
        }
    }
    panic!("no seed produced an explosion");
}

#[test]
fn verbose_marks_dropped_and_shows_total() {
    let o = outcome("4d6dl1", 7);
    let text = format_verbose(&o);
    assert!(text.contains("4d6dl1"), "term notation missing");
    assert!(text.contains('['), "dropped die not bracketed");
    assert!(text.contains("total"), "total line missing");
}
fn cli(words: &[&str]) -> Cli {
    Cli {
        expr: words.iter().map(|w| w.to_string()).collect(),
        print: false,
        verbose: false,
        json: false,
        seed: None,
        mute: false,
    }
}

#[test]
fn expression_joins_args() {
    let cli = cli(&["d6", "+", "d8"]);
    assert_eq!(cli.expression(), "d6 + d8");
}

#[test]
fn expressions_lose_the_blanks_at_their_ends() {
    assert_eq!(cli(&[" d6", "+ d8 "]).expression(), "d6 + d8");
    assert_eq!(cli(&[]).expression(), "");
    assert_eq!(cli(&["", " "]).expression(), "");
}

#[test]
fn the_breakdown_of_a_staked_roll() {
    let o = roll_seeded("d20+5 vs 15", 1).unwrap();
    assert_eq!(
        format_verbose(&o),
        "  d20        17  = 17\n  modifier   +5\n  total      22\n  vs 15      success by 7\n"
    );
}

#[test]
fn a_seed_always_rolls_the_same_dice() {
    for seed in 0..50 {
        let a = roll_seeded("6d6!kh3*2 d20-1 vs 10", seed).unwrap();
        let mut rng = StdRng::seed_from_u64(seed);
        let b = roll_once("6d6!kh3*2 d20-1 vs 10", &mut rng).unwrap();
        assert_eq!(a, b);
        assert_eq!(a, outcome("6d6!kh3*2 d20-1 vs 10", seed));
    }
    assert_ne!(roll_seeded("9d1000", 1), roll_seeded("9d1000", 2));
}

#[test]
fn the_breakdown_marks_multipliers_and_a_minus() {
    let o = outcome("d1*3-2", 1);
    assert_eq!(
        format_verbose(&o),
        "  d1*3       1  ×3  = 3\n  modifier   −2\n  total      1\n"
    );
    let o = outcome("2d1!>0kh1 vs 900", 1);
    let bangs = vec!["1!"; 40].join(" ");
    assert_eq!(
        format_verbose(&o),
        format!("  2d1kh1!>0  [1] 1 {bangs}  = 41\n  total      41\n  vs 900     fail by 859\n")
            .replace("2d1kh1!>0 ", "2d1!>0kh1 ")
    );
}

#[test]
fn plans_follow_the_flags_and_the_terminal() {
    let mut c = cli(&["3d6"]);
    assert_eq!(c.plan(true), Plan::Interactive);
    assert_eq!(c.plan(false), Plan::OneShot);
    c.print = true;
    assert_eq!(c.plan(true), Plan::OneShot);
    let mut empty = cli(&[" "]);
    assert_eq!(empty.plan(true), Plan::Interactive);
    assert_eq!(empty.plan(false), Plan::Usage);
    empty.json = true;
    assert_eq!(empty.plan(true), Plan::Usage);
}

#[test]
fn the_exit_code_carries_the_check() {
    let missed = outcome("d20 vs 30", 1);
    let made = outcome("d20 vs 1", 1);
    let mut c = cli(&[]);
    assert_eq!(c.exit_code(&missed), 0);
    c.print = true;
    assert_eq!(c.exit_code(&missed), 1);
    assert_eq!(c.exit_code(&made), 0);
    assert_eq!(c.exit_code(&outcome("d20", 1)), 0);
    c.json = true;
    assert_eq!(c.exit_code(&missed), 0);
}

#[test]
fn answers_take_the_asked_form() {
    let o = outcome("d1+4", 1);
    let mut c = cli(&[]);
    assert_eq!(c.answer(&o).unwrap(), "5\n");
    c.verbose = true;
    assert_eq!(c.answer(&o).unwrap(), format_verbose(&o));
    c.json = true;
    assert_eq!(c.answer(&o), None);
}

#[test]
fn a_bad_expression_draws_no_dice() {
    let mut rng = StdRng::seed_from_u64(4);
    assert_eq!(
        roll_once("d", &mut rng).unwrap_err(),
        Mishap::Complaint("expected a number of sides after 'd' (e.g. d6)".into())
    );
    assert_eq!(rng, StdRng::seed_from_u64(4));
}

#[test]
fn rolls_that_cannot_be_thrown() {
    assert!(throwable("3d6"));
    assert!(throwable("nonsense"));
    assert!(throwable("60d1000*100000"));
    assert!(throwable("d6*65536*32767"));
    assert!(!throwable("d6*65536*65536"));
}

#[test]
fn without_a_seed_the_dice_stay_in_range() {
    for _ in 0..50 {
        let o = cli(&["3d6+1"]).roll("3d6+1").unwrap();
        let faces: Vec<u32> = o.terms[0].dice.iter().map(|d| d.value).collect();
        assert_eq!(faces.len(), 3);
        assert!(faces.iter().all(|f| (1..=6).contains(f)));
        assert_eq!(o.total, 1 + faces.iter().sum::<u32>() as i32);
    }
    assert_ne!(cli(&[]).roll("60d1000"), cli(&[]).roll("60d1000"));
    assert_eq!(cli(&[]).roll("d"), roll_seeded("d", 1));
}

#[test]
fn a_complaint_goes_to_the_error_output_and_exits_with_two() {
    for (print, verbose, json) in
        [(false, false, false), (true, false, false), (false, true, false), (false, false, true)]
    {
        let c = Cli { print, verbose, json, seed: Some(3), ..cli(&[]) };
        let Err(Mishap::Complaint(e)) = c.roll("3d") else { panic!("3d reads") };
        let refused = c.report(&Err(e));
        assert_eq!(refused.code, 2);
        assert_eq!(refused.out, None);
        assert_eq!(
            refused.err.unwrap(),
            "roll: expected a number of sides after 'd' (e.g. d6)\n"
        );

        let rolled = Ok(c.roll("d20 vs 30").unwrap());
        let said = c.report(&rolled);
        assert_eq!(said.err, None);
        assert_eq!(said.code, if (print || verbose) && !json { 1 } else { 0 });
        assert_eq!(said.out, c.answer(&rolled.unwrap()));
        assert_eq!(c.report(&Ok(c.roll("d1 vs 1").unwrap())).code, 0);
    }
}

#[test]
fn only_the_outcome_that_overflows_is_lost() {
    // The most that these dice can come to does not fit, but most throws do.
    let expr = "60d1000*50000";
    assert!(!parse(expr).unwrap().fits());
    let mut lost = 0;
    let mut kept = 0;
    for seed in 0..40 {
        let roll = parse(expr).unwrap();
        let sum: i64 = roll_seeded("60d1000", seed).unwrap().total as i64;
        match roll_seeded(expr, seed) {
            Ok(o) => {
                assert_eq!(o.total as i64, sum * 50000);
                assert_eq!(o.terms[0].dice.len(), roll.terms[0].count as usize);
                kept += 1;
            }
            Err(e) => {
                assert_eq!(e, Mishap::Overflow);
                assert!(sum * 50000 > i32::MAX as i64);
                lost += 1;
            }
        }
    }
    assert_eq!(lost + kept, 40);
    assert!(kept > 0, "every throw overflowed");
    assert_eq!(roll_seeded("d1*65536*65536", 1), Err(Mishap::Overflow));
    assert_eq!(roll_seeded("d1*2147483647 d1", 1), Err(Mishap::Overflow));
    assert_eq!(roll_seeded("d1*2147483647 d1-1", 1).unwrap().total, i32::MAX);
}
