use rand::rngs::StdRng;
use rand::SeedableRng;
use tinhorn::keep::keep_n_values;
use tinhorn::parse::{parse, Compare, Goal, Stake};
use tinhorn::roll::{
    check, conclude, crit_face, evaluate, explode_condition, explodes, fumble_face, keep_flags,
    resolve, roll_faces, roll_pool, sample_total, score_term, term_multiplier, term_notation,
    verdict_text, MAX_EXPLOSIONS,
};
use tinhorn::text::{push_dec, space, trim};

fn stake(goal: Goal, target: i32) -> Stake {
    Stake { target, goal }
}

#[test]
fn checks_are_inclusive_both_ways() {
    assert_eq!(check(15, stake(Goal::Over, 15)), (true, 0));
    assert_eq!(check(15, stake(Goal::Under, 15)), (true, 0));
    assert_eq!(check(22, stake(Goal::Over, 15)), (true, 7));
    assert_eq!(check(22, stake(Goal::Under, 15)), (false, -7));
    assert_eq!(check(14, stake(Goal::Over, 15)), (false, -1));
    assert_eq!(check(5, stake(Goal::Over, i32::MIN)), (true, i32::MAX));
    assert_eq!(check(5, stake(Goal::Under, i32::MIN)), (false, i32::MIN));
}

#[test]
fn verdicts_in_words() {
    assert_eq!(verdict_text(true, 0), "SUCCESS — exactly");
    assert_eq!(verdict_text(true, 7), "SUCCESS by 7");
    assert_eq!(verdict_text(false, -3), "FAIL by 3");
    assert_eq!(verdict_text(false, i32::MIN), "FAIL by 2147483648");
}

#[test]
fn a_d1_neither_crits_nor_fumbles() {
    assert!(crit_face(20, 20) && !crit_face(20, 19) && !crit_face(1, 1));
    assert!(fumble_face(6, 1) && !fumble_face(6, 2) && !fumble_face(1, 1));
}

#[test]
fn terms_are_written_as_they_are_read() {
    for text in [
        "d6", "3d6", "4d6dl1", "2d20kh1*2", "4d6!kh3*2", "d10!>8", "d6!=6", "d6!<3*-4", "0d6",
        "60d1000kl7dh2", "d100*-2147483648",
    ] {
        let roll = parse(text).unwrap();
        assert_eq!(term_notation(&roll.terms[0]), text);
        assert_eq!(parse(&term_notation(&roll.terms[0])).unwrap(), roll);
    }
    let t = &parse("1d%KH").unwrap().terms[0];
    assert_eq!(term_notation(t), "d100kh1");
}

#[test]
fn the_first_explosion_decides() {
    let cond = |s: &str| explode_condition(&parse(s).unwrap().terms[0]);
    assert_eq!(cond("3d6"), None);
    assert_eq!(cond("3d6!"), Some(Compare::Eq(6)));
    assert_eq!(cond("3d6kh1!>4!<2"), Some(Compare::Gt(4)));
    assert!(explodes(Compare::Gt(4), 5, 39));
    assert!(!explodes(Compare::Gt(4), 5, MAX_EXPLOSIONS));
    assert!(!explodes(Compare::Gt(4), 4, 0));
}

#[test]
fn multipliers_multiply() {
    let m = |s: &str| term_multiplier(&parse(s).unwrap().terms[0]);
    assert_eq!(m("3d6"), 1);
    assert_eq!(m("3d6*2*-3"), -6);
    assert_eq!(m("3d6*0*7"), 0);
}

#[test]
fn ties_are_broken_by_place() {
    let values = vec![3, 5, 5, 1, 3];
    let kept = |n: usize, high: bool| {
        let mut kept = vec![true; 5];
        keep_n_values(&values, &mut kept, n, high);
        kept
    };
    assert_eq!(kept(1, true), [false, false, true, false, false]);
    assert_eq!(kept(2, true), [false, true, true, false, false]);
    assert_eq!(kept(3, true), [false, true, true, false, true]);
    assert_eq!(kept(2, false), [true, false, false, true, false]);
    assert_eq!(kept(0, false), [false; 5]);
    assert_eq!(kept(9, true), [true; 5]);
    // What is out of play stays out.
    let mut some = vec![false, true, false, true, true];
    keep_n_values(&values, &mut some, 2, true);
    assert_eq!(some, [false, true, false, false, true]);
}

#[test]
fn a_term_is_scored_on_its_faces() {
    let t = &parse("4d6!kh3*2").unwrap().terms[0];
    let out = score_term(t, &vec![6, 2, 1, 4, 3]);
    let kept: Vec<bool> = out.dice.iter().map(|d| d.kept).collect();
    assert_eq!(kept, [true, true, false, true, true]);
    let added: Vec<bool> = out.dice.iter().map(|d| d.exploded).collect();
    assert_eq!(added, [false, false, false, false, true]);
    assert!(out.dice[0].crit && !out.dice[4].crit);
    assert!(!out.dice[2].fumble, "a dropped 1 is no fumble");
    assert_eq!(out.multiplier, 2);
    assert_eq!(out.subtotal, 2 * (6 + 2 + 4 + 3));
    assert_eq!(out.notation, "4d6!kh3*2");
    // Each modifier narrows what the ones before it left.
    let t = &parse("4d6kh2dl1").unwrap().terms[0];
    assert_eq!(score_term(t, &vec![6, 2, 1, 4]).subtotal, 6);
    let t = &parse("4d6dl1dh1").unwrap().terms[0];
    assert_eq!(score_term(t, &vec![6, 2, 1, 4]).subtotal, 2 + 4);
}

#[test]
fn a_roll_is_concluded_with_its_verdict() {
    let roll = parse("2d6+1 < 10").unwrap();
    let term = score_term(&roll.terms[0], &vec![5, 6]);
    let o = conclude("2d6+1 < 10", &roll, vec![term]);
    assert_eq!(o.total, 12);
    assert_eq!(o.target, Some(10));
    assert_eq!(o.goal, Some(Goal::Under));
    assert_eq!(o.success, Some(false));
    assert_eq!(o.margin, Some(-2));
    assert_eq!(o.expression, "2d6+1 < 10");
    let plain = parse("2d6").unwrap();
    let term = score_term(&plain.terms[0], &vec![5, 6]);
    let o = conclude("2d6", &plain, vec![term]);
    assert_eq!((o.target, o.goal, o.success, o.margin), (None, None, None, None));
}

#[test]
fn pools_grow_by_one_for_each_match() {
    for seed in 0..100 {
        let mut rng = StdRng::seed_from_u64(seed);
        let t = &parse("5d4!>2").unwrap().terms[0];
        let faces = roll_pool(t, &mut rng);
        let matches = faces.iter().filter(|&&v| v > 2).count();
        assert_eq!(faces.len(), 5 + matches.min(MAX_EXPLOSIONS));
        assert!(faces.iter().all(|v| (1..=4).contains(v)));
        // The faces are those of a run of like dice.
        let mut again = StdRng::seed_from_u64(seed);
        assert_eq!(roll_faces(4, faces.len() as u32, &mut again), faces);
        assert_eq!(again, rng);
    }
    let t = &parse("d1!=1").unwrap().terms[0];
    assert_eq!(roll_pool(t, &mut StdRng::seed_from_u64(1)), vec![1; 41]);
}

#[test]
fn samples_are_what_evaluation_comes_to() {
    let roll = parse("4d6!dl1*3 2d8-5").unwrap();
    for seed in 0..50 {
        let mut a = StdRng::seed_from_u64(seed);
        let mut b = StdRng::seed_from_u64(seed);
        for _ in 0..3 {
            assert_eq!(sample_total(&roll, &mut a), evaluate("x", &roll, &mut b).total);
        }
        assert_eq!(a, b);
    }
}

#[test]
fn rolls_that_could_overflow_do_not_fit() {
    let fits = |s: &str| parse(s).unwrap().fits();
    assert!(fits("60d1000"));
    assert!(fits("d1*2147483647"));
    assert!(!fits("d2*2147483647"));
    assert!(fits("d1*-2147483648"));
    assert!(!fits("d1*2147483647+1"));
    assert!(fits("d1*2147483647-1"));
    assert!(fits("60d1000kh1*2147483"));
    assert!(!fits("60d1000kh3*2147483"));
    assert!(!fits("d6*65536*65536*0"));
    assert!(fits("d1*2000000000 d1*-2000000000"));
    assert!(!fits("d1!=1*2147483647"));
    assert!(fits("d1!=1*52377649"));
    assert!(!fits("d1!=1*52377650"));
    // A term none of whose faces explodes adds no dice.
    assert!(fits("60d1000!>1000*30000"));
    assert!(!fits("60d1000!>999*30000"));
    assert!(fits("60d1000!<1*30000") && !fits("60d1000!<2*30000"));
    assert!(fits("60d1000!=0*30000") && fits("60d1000!=1001*30000"));
    assert!(!fits("60d1000!=1000*30000"));
}

#[test]
fn spaces_are_those_of_unicode() {
    for n in 0..=0x10ffffu32 {
        if let Some(c) = char::from_u32(n) {
            assert_eq!(space(c), c.is_whitespace(), "{n:x}");
        }
    }
    assert_eq!(trim("\u{2003} a b\t\n"), "a b");
    assert_eq!(trim(" \u{85}"), "");
}

#[test]
fn numbers_are_written_in_decimal() {
    for n in [0, 7, 10, 99, 1000, 4294967296, u64::MAX] {
        let mut s = String::from("n=");
        push_dec(&mut s, n);
        assert_eq!(s, format!("n={n}"));
    }
}

#[test]
fn stacked_drops_narrow_what_is_left() {
    let total = |expr: &str| {
        let roll = parse(expr).unwrap();
        let mut rng = StdRng::seed_from_u64(0);
        let o = evaluate(expr, &roll, &mut rng);
        (o.terms[0].dice.iter().filter(|d| d.kept).count(), o.total)
    };
    assert_eq!(total("4d1dl1dh1"), (2, 2));
    assert_eq!(total("4d1dl1dl1dh1"), (1, 1));
    assert_eq!(total("4d1dl3dh3"), (0, 0));
    assert_eq!(total("6d1kh4dl1kl2"), (2, 2));
    assert_eq!(total("6d1kh2dh1"), (1, 1));

    // The best and the worst go, and the middle stays.
    let t = &parse("5d6dl1dh1").unwrap().terms[0];
    assert_eq!(keep_flags(t, &vec![3, 6, 1, 4, 2]), vec![true, false, false, true, true]);
}

#[test]
fn a_roll_is_resolved_on_the_faces_it_shows() {
    let roll = parse("3d6kh2*2 d8-1 vs 20").unwrap();
    let o = resolve("3d6kh2*2 d8-1 vs 20", &roll, &vec![vec![2, 5, 4], vec![7]]).unwrap();
    assert_eq!((o.terms[0].subtotal, o.terms[1].subtotal, o.total), (18, 7, 24));
    assert_eq!((o.success, o.margin), (Some(true), Some(4)));

    let wide = parse("d1000*3000000").unwrap();
    assert_eq!(resolve("", &wide, &vec![vec![715]]).unwrap().total, 2_145_000_000);
    assert!(resolve("", &wide, &vec![vec![716]]).is_none());
}

#[test]
fn samples_stay_within_the_range_of_the_roll() {
    let roll = parse("4d6dl1!*2 2d8-3").unwrap();
    let mut rng = StdRng::seed_from_u64(8);
    for _ in 0..500 {
        let total = sample_total(&roll, &mut rng);
        assert!((2 * 3 + 2 - 3..=2 * 43 * 6 + 16 - 3).contains(&total));
    }
}
