use dicebot::eval_dice_expression::eval_dice_expression;
use dicebot::util::roll;

// Evaluating "4d6" always yields exactly 4 rolls joined by " + " and no
// selection markup.
#[test]
fn four_d6_yields_four_plain_rolls() {
    for _ in 0..50 {
        let out = eval_dice_expression("4d6").unwrap();
        assert!(out.starts_with("Rolling 4d6:\n"));
        assert!(!out.contains("~~"));
        let line = out.strip_prefix("Rolling 4d6:\n").unwrap();
        let (rolls_part, _sum_part) = line.split_once(" → ").unwrap();
        assert_eq!(rolls_part.split(" + ").count(), 4);
    }
}

// Text with neither a dice group nor a modifier produces nothing.
#[test]
fn non_expression_yields_nothing() {
    assert!(eval_dice_expression("xyz").is_none());
    assert!(eval_dice_expression("hello there").is_none());
    assert!(eval_dice_expression("1d0").is_none());
}

// "1d20adv" rolls exactly two dice side by side; exactly one side is
// emphasized unless the two values tie.
#[test]
fn advantage_rolls_two_dice() {
    for _ in 0..50 {
        let out = eval_dice_expression("1d20adv").unwrap();
        assert!(out.starts_with("Rolling 1d20 with advantage:\n"));
        let line = out.strip_prefix("Rolling 1d20 with advantage:\n").unwrap();
        assert!(line.contains(" / "));
        let (pair, sum_part) = line.split_once(" → ").unwrap();
        // The sum is always emphasized; the winning side adds one more
        // emphasized span unless the two rolls tie.
        assert_eq!(sum_part.matches("**").count(), 2);
        let (left, right) = pair.split_once(" / ").unwrap();
        let emphasized = [left, right]
            .iter()
            .filter(|side| side.starts_with("**") && side.ends_with("**"))
            .count();
        if left == right {
            assert_eq!(emphasized, 0);
        } else {
            assert_eq!(emphasized, 1);
        }
    }
}

// "4d6r1k3*6" yields six iteration lines of four rolls each, exactly one
// roll struck per line by the keep rule, and a final total over all six.
#[test]
fn keep_three_of_four_repeated_six_times() {
    for _ in 0..20 {
        let out = eval_dice_expression("4d6r1k3*6").unwrap();
        let header = "Rolling 4d6, rerolling 1s, keeping highest 3 rolls, repeating 6 times:\n";
        assert!(out.starts_with(header), "{out}");
        let rest = out.strip_prefix(header).unwrap();
        let (body, total_part) = rest.split_once("\nTotal: **").unwrap();
        let total: i64 = total_part.strip_suffix("**").unwrap().parse().unwrap();
        let lines: Vec<&str> = body.split('\n').collect();
        assert_eq!(lines.len(), 6);
        let mut sum_of_sums: i64 = 0;
        for line in lines {
            let (rolls_part, sum_part) = line.split_once(" → ").unwrap();
            assert_eq!(rolls_part.split(" + ").count(), 4);
            // The unkept roll is struck through.
            assert!(rolls_part.contains("~~"));
            let sum: i64 = sum_part
                .strip_prefix("**")
                .unwrap()
                .strip_suffix("**")
                .unwrap()
                .parse()
                .unwrap();
            sum_of_sums += sum;
        }
        assert_eq!(total, sum_of_sums);
    }
}

// A lone modifier is an expression of its own, rolled on the default die.
#[test]
fn modifier_alone_rolls_default_die() {
    let out = eval_dice_expression("+5").unwrap();
    assert!(out.starts_with("Rolling 1d20 + 5:\n"), "{out}");
}

// A negative modifier is restated with a minus sign.
#[test]
fn negative_modifier_in_restatement() {
    let out = eval_dice_expression("2d6-3").unwrap();
    assert!(out.starts_with("Rolling 2d6 − 3:\n"), "{out}");
}

// A single repetition gets no Total line.
#[test]
fn no_total_line_without_repeats() {
    let out = eval_dice_expression("3d8").unwrap();
    assert!(!out.contains("Total:"));
}

// The reroll clause lists every face at or below the threshold.
#[test]
fn reroll_clause_lists_faces() {
    let out = eval_dice_expression("1d6r2+1").unwrap();
    assert!(out.starts_with("Rolling 1d6 + 1, rerolling 1s/2s:\n"), "{out}");
}

// A plain single die with no modifier renders just the glyph, no sum.
#[test]
fn plain_single_die_has_no_sum() {
    let out = eval_dice_expression("d20").unwrap();
    assert!(out.starts_with("Rolling 1d20:\n"));
    let line = out.strip_prefix("Rolling 1d20:\n").unwrap();
    assert!(!line.contains("→"));
    assert!(!line.contains("**"));
}

// Whitespace and case never change the reading of an expression.
#[test]
fn spaces_and_case_are_ignored() {
    let out = eval_dice_expression("2 D 6 + 1").unwrap();
    assert!(out.starts_with("Rolling 2d6 + 1:\n"), "{out}");
}

// The roll engine itself: values stay on the die, and the discarded first
// draw appears exactly when it was at or below the threshold.
#[test]
fn roll_respects_die_and_threshold() {
    for _ in 0..200 {
        let r = roll(6, 2);
        assert!((1..=6).contains(&r.value));
        match r.old_value {
            Some(ov) => assert!((1..=2).contains(&ov)),
            None => assert!(r.value > 2),
        }
    }
    for _ in 0..50 {
        let r = roll(1, 0);
        assert_eq!(r.value, 1);
        assert!(r.old_value.is_none());
    }
}

// Repeating renders one line per repetition plus the total.
#[test]
fn repeat_three_lines() {
    let out = eval_dice_expression("2*1d6*3").unwrap();
    let header = "Rolling 1d6, repeating 3 times:\n";
    assert!(out.starts_with(header), "{out}");
    let rest = out.strip_prefix(header).unwrap();
    let (body, _total) = rest.split_once("\nTotal: **").unwrap();
    assert_eq!(body.split('\n').count(), 3);
}

// A selection written next to advantage is restated in the header even
// though the two forced dice ignore it.
#[test]
fn advantage_restates_moot_selection() {
    let out = eval_dice_expression("4d6k3adv").unwrap();
    let header = "Rolling 1d6 with advantage, keeping highest 3 rolls:\n";
    assert!(out.starts_with(header), "{out}");
    let line = out.strip_prefix(header).unwrap();
    assert!(line.contains(" / "));
}

// Advantage combines with a modifier: the suffix and the emphasized sum
// follow the pair.
#[test]
fn advantage_with_modifier() {
    let out = eval_dice_expression("1d20adv+2").unwrap();
    assert!(out.starts_with("Rolling 1d20 + 2 with advantage:\n"), "{out}");
    let line = out.split_once(":\n").unwrap().1;
    assert!(line.contains(" / "));
    assert!(line.contains(" + 2 → **"));
}

// Arbitrary chat text never panics: it either renders a report or stays
// silent.
#[test]
fn arbitrary_text_never_panics() {
    let cases = [
        "d", "dd", "ddd", "k", "kh", "r", "rep", "reroll", "*", "+", "-", "1*",
        "*1", "d6d", "4d6kl", "disadv", "1d6disadvx", "répé", "🎲", "1d6🎲",
        "99999999999999999999*d99999999999999999999+99999999999999999999",
        "-2147483648", "+2147483647", "1d2147483647", "  4 d 6  ",
    ];
    for c in cases {
        let _ = eval_dice_expression(c);
    }
}

// Dropping the lowest of two dice strikes exactly one roll and sums the
// other.
#[test]
fn drop_lowest_strikes_one() {
    for _ in 0..20 {
        let out = eval_dice_expression("2d6d1").unwrap();
        let header = "Rolling 2d6, dropping lowest roll:\n";
        assert!(out.starts_with(header), "{out}");
        let line = out.strip_prefix(header).unwrap();
        let (rolls_part, _sum) = line.split_once(" → ").unwrap();
        assert_eq!(rolls_part.split(" + ").count(), 2);
        assert!(rolls_part.contains("~~"));
    }
}
