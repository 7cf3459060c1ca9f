use tinhorn::parse::{parse, Compare, DiceTerm, Goal, Roll, Stake, TermMod};

fn term(r: &Roll, idx: usize) -> &DiceTerm {
    &r.terms[idx]
}

#[test]
fn count_and_sides() {
    let r = parse("3d6").unwrap();
    assert_eq!(term(&r, 0).count, 3);
    assert_eq!(term(&r, 0).sides, 6);
    assert!(term(&r, 0).mods.is_empty());
    assert_eq!(r.modifier, 0);
}

#[test]
fn plus_separator() {
    let r = parse("d6+d8").unwrap();
    assert_eq!(term(&r, 0).sides, 6);
    assert_eq!(term(&r, 1).sides, 8);
}

#[test]
fn adjacency_separator() {
    let r = parse("d6d10").unwrap();
    assert_eq!(term(&r, 0).sides, 6);
    assert_eq!(term(&r, 1).sides, 10);
}

#[test]
fn comma_separator() {
    let r = parse("d6,d12").unwrap();
    assert_eq!(term(&r, 0).sides, 6);
    assert_eq!(term(&r, 1).sides, 12);
}

#[test]
fn modifier_add_and_subtract() {
    let r = parse("2d20-1").unwrap();
    assert_eq!(term(&r, 0).count, 2);
    assert_eq!(r.modifier, -1);

    let r = parse("d8 + 5").unwrap();
    assert_eq!(r.modifier, 5);
}

#[test]
fn case_insensitive_d() {
    let r = parse("2D6").unwrap();
    assert_eq!(term(&r, 0).count, 2);
    assert_eq!(term(&r, 0).sides, 6);
}

#[test]
fn keep_high_and_low() {
    let r = parse("2d20kh1").unwrap(); // advantage
    assert_eq!(term(&r, 0).mods, vec![TermMod::KeepHigh(1)]);

    let r = parse("2d20kl1").unwrap(); // disadvantage
    assert_eq!(term(&r, 0).mods, vec![TermMod::KeepLow(1)]);

    // bare kh defaults to 1
    let r = parse("2d20kh").unwrap();
    assert_eq!(term(&r, 0).mods, vec![TermMod::KeepHigh(1)]);
}

#[test]
fn drop_low_is_not_confused_with_adjacency() {
    // The leading 'd' of 'dl' must not be read as an adjacency separator.
    let r = parse("4d6dl1").unwrap();
    assert_eq!(r.terms.len(), 1);
    assert_eq!(term(&r, 0).count, 4);
    assert_eq!(term(&r, 0).mods, vec![TermMod::DropLow(1)]);
}

#[test]
fn keep_drop_clamps_to_pool() {
    let r = parse("4d6kh9").unwrap();
    assert_eq!(term(&r, 0).mods, vec![TermMod::KeepHigh(4)]);
}

#[test]
fn exploding() {
    let r = parse("3d6!").unwrap();
    assert_eq!(term(&r, 0).mods, vec![TermMod::Explode(None)]);

    let r = parse("d10!>8").unwrap();
    assert_eq!(term(&r, 0).mods, vec![TermMod::Explode(Some(Compare::Gt(8)))]);

    let r = parse("d6!=6").unwrap();
    assert_eq!(term(&r, 0).mods, vec![TermMod::Explode(Some(Compare::Eq(6)))]);
}

#[test]
fn multiply() {
    let r = parse("4d6*2").unwrap();
    assert_eq!(term(&r, 0).mods, vec![TermMod::Mul(2)]);

    // Multiply binds to its term, not the whole roll.
    let r = parse("3d6*2+d8").unwrap();
    assert_eq!(term(&r, 0).mods, vec![TermMod::Mul(2)]);
    assert!(term(&r, 1).mods.is_empty());
}

#[test]
fn stacked_modifiers() {
    // explode, then keep the best 3 of whatever results, then double.
    let r = parse("4d6!kh3*2").unwrap();
    assert_eq!(
        term(&r, 0).mods,
        vec![TermMod::Explode(None), TermMod::KeepHigh(3), TermMod::Mul(2)]
    );
}

#[test]
fn errors() {
    assert!(parse("").is_err());
    assert!(parse("d").is_err());
    assert!(parse("5").is_err()); // modifier with no dice
    assert!(parse("d0").is_err());
    assert!(parse("xyz").is_err());
    assert!(parse("d1!").is_err()); // can't explode a d1
    assert!(parse("4d6*").is_err()); // multiply needs a number
    assert!(parse("d6!>").is_err()); // comparison needs a number
}
fn message(input: &str) -> String {
    parse(input).unwrap_err()
}

#[test]
fn percentile_is_a_d100() {
    let r = parse("2d%kh1").unwrap();
    assert_eq!(term(&r, 0).sides, 100);
    assert_eq!(term(&r, 0).mods, vec![TermMod::KeepHigh(1)]);
    assert!(parse("d10%").is_err());
}

#[test]
fn stakes_run_over_or_under() {
    let over = |target| Some(Stake { target, goal: Goal::Over });
    let under = |target| Some(Stake { target, goal: Goal::Under });
    assert_eq!(parse("d20+5 vs 15").unwrap().stake, over(15));
    assert_eq!(parse("d20+5 VS15").unwrap().stake, over(15));
    assert_eq!(parse("d20 > 15 ").unwrap().stake, over(15));
    assert_eq!(parse("d20<10").unwrap().stake, under(10));
    assert_eq!(parse("d20 vs -3").unwrap().stake, over(-3));
    assert_eq!(parse("d20 vs +3").unwrap().stake, over(3));
    assert_eq!(parse("d20").unwrap().stake, None);
    assert_eq!(parse("d20!>18 > 15").unwrap().stake, over(15));
}

#[test]
fn stakes_are_range_checked() {
    let min = parse("d20 vs -2147483648").unwrap().stake.unwrap();
    assert_eq!(min.target, i32::MIN);
    let max = parse("d20 vs 2147483647").unwrap().stake.unwrap();
    assert_eq!(max.target, i32::MAX);
    assert_eq!(
        message("d20 vs 2147483648"),
        "'2147483648' is not a valid target"
    );
    assert_eq!(
        message("d20 vs -2147483649"),
        "'-2147483649' is not a valid target"
    );
    assert_eq!(
        message("d20 vs 99999999999999999999"),
        "'99999999999999999999' is not a valid target"
    );
}

#[test]
fn the_target_comes_last_and_alone() {
    let last = "the target must come last, and there is only one per roll";
    assert_eq!(message("d20 vs 4d6"), last);
    assert_eq!(message("d20 vs 10 + 2"), last);
    assert_eq!(message("d20 vs 10 vs 12"), last);
    assert_eq!(message("d20 vs"), "expected a target number (e.g. d20 vs 15)");
    assert_eq!(message("vs 10"), "type some dice, e.g. 3d6 or d20+d4");
}

#[test]
fn stake_labels() {
    let label = |s: &str| parse(s).unwrap().stake.unwrap().label();
    assert_eq!(label("d20 vs 15"), "vs 15");
    assert_eq!(label("d20 < 10"), "vs ≤ 10");
    assert_eq!(label("d20 > -4"), "vs -4");
}

#[test]
fn every_complaint_has_its_words() {
    assert_eq!(message(""), "type some dice, e.g. 3d6 or d20+d4");
    assert_eq!(message("5"), "no dice — a roll needs at least one 'd' term");
    assert_eq!(message("d"), "expected a number of sides after 'd' (e.g. d6)");
    assert_eq!(
        message("4294967296d6"),
        "'4294967296' is not a valid dice count"
    );
    assert_eq!(
        message("d4294967296"),
        "'4294967296' is not a valid number of sides"
    );
    assert_eq!(message("d0"), "a die needs at least 1 side");
    assert_eq!(message("d1001"), "that's a lot of sides — keep it under 1000");
    assert_eq!(message("61d6"), "too many dice — keep the pool under 60");
    assert_eq!(message("60d6 d6"), "too many dice — keep the pool under 60");
    assert_eq!(message("4d6kh0"), "keep/drop count must be at least 1");
    assert_eq!(message("d1!"), "a d1 always rolls its max — it can't explode");
    assert_eq!(message("4d6*"), "expected a number after '*' (e.g. 4d6*2)");
    assert_eq!(
        message("d6!>"),
        "expected a number after the explode comparison (e.g. !>8)"
    );
    assert_eq!(message("d6+2147483648"), "'2147483648' is not a valid number");
    assert_eq!(
        message("d6+2147483647+1"),
        "'1' is not a valid number"
    );
    assert_eq!(message("d6 x"), "unexpected character 'x'");
}

#[test]
fn numbers_at_their_limits() {
    assert_eq!(parse("d6-2147483647-1").unwrap().modifier, i32::MIN);
    assert_eq!(parse("d6*-2147483648").unwrap().terms[0].mods, vec![TermMod::Mul(i32::MIN)]);
    assert_eq!(parse("d6*2147483647").unwrap().terms[0].mods, vec![TermMod::Mul(i32::MAX)]);
    assert_eq!(parse("d6*+2").unwrap().terms[0].mods, vec![TermMod::Mul(2)]);
    let wide = "expected a number after '*' (e.g. 4d6*2)";
    for text in ["d6*2147483648", "d6*3000000000", "d6*-2147483649", "d6*4294967295", "d6*99999999999"]
    {
        assert_eq!(message(text), wide, "{text}");
    }
    assert_eq!(parse("d6*-3").unwrap().terms[0].mods, vec![TermMod::Mul(-3)]);
    assert_eq!(parse("d6*+3").unwrap().terms[0].mods, vec![TermMod::Mul(3)]);
    // However large a count, no more dice are kept or dropped than there are.
    assert_eq!(parse("4d6dh99999999999").unwrap().terms[0].mods, vec![TermMod::DropHigh(4)]);
    assert_eq!(parse("4d6kh99999999999").unwrap().terms[0].mods, vec![TermMod::KeepHigh(4)]);
    assert_eq!(parse("4d6kl4294967296!").unwrap().terms[0].mods.len(), 2);
    assert_eq!(parse("4d6kl").unwrap().terms[0].mods, vec![TermMod::KeepLow(1)]);
    assert_eq!(
        message("4d6kh00000000000000"),
        "keep/drop count must be at least 1"
    );
    assert_eq!(parse("60d1000").unwrap().terms[0].count, 60);
    assert_eq!(parse("0d6").unwrap().terms[0].count, 0);
}

#[test]
fn signs_belong_to_the_next_modifier() {
    assert_eq!(parse("d6 - + 3").unwrap().modifier, 3);
    assert_eq!(parse("d6 - d8 3").unwrap().modifier, 3);
    assert_eq!(parse("d6\u{a0}-\u{2003}3,4").unwrap().modifier, 1);
}

#[test]
fn comparisons_are_strict_but_for_equality() {
    assert!(Compare::Eq(6).matches(6) && !Compare::Eq(6).matches(5));
    assert!(Compare::Gt(8).matches(9) && !Compare::Gt(8).matches(8));
    assert!(Compare::Lt(3).matches(2) && !Compare::Lt(3).matches(3));
}

#[test]
fn case_is_ignored() {
    for (a, b) in [
        ("2D20KH1 VS 15", "2d20kh1 vs 15"),
        ("4D6dL1", "4d6Dl1"),
        ("D%kL", "d%Kl"),
    ] {
        assert_eq!(parse(a).unwrap(), parse(b).unwrap());
    }
    assert!(parse("X").is_err() && parse("x").is_err());
}

#[test]
fn any_separator_parts_two_dice_terms() {
    for (a, b) in [("3d6", "d8"), ("d%", "D20"), ("2d4", "10d1000"), ("40d6", "30d6"), ("d0", "d6")]
    {
        let plus = parse(&format!("{a}+{b}"));
        for sep in [",", " ", " + ", "-", ", ", "\t-+ ", "++"] {
            assert_eq!(parse(&format!("{a}{sep}{b}")), plus, "{a}{sep}{b}");
        }
        if b.starts_with(['d', 'D']) {
            assert_eq!(parse(&format!("{a}{b}")), plus);
        }
        if let Ok(r) = plus {
            assert_eq!(r.terms[0], parse(a).unwrap().terms[0]);
            assert_eq!(r.terms[1], parse(b).unwrap().terms[0]);
            assert_eq!((r.terms.len(), r.modifier, r.stake), (2, 0, None));
        }
    }
}
