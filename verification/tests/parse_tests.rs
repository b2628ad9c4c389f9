use dicebot::parse::resolve_expression;
use dicebot::parse::DropOrKeep;
use dicebot::util::MarkCondition;

#[test]
fn plain_expression_defaults() {
    let p = resolve_expression("d20").unwrap();
    assert_eq!(p.num_dice, 1);
    assert_eq!(p.dice_size, 20);
    assert_eq!(p.modifier, 0);
    assert_eq!(p.reroll, 0);
    assert_eq!(p.repeat, 1);
    assert!(!p.advantage);
    assert!(!p.disadvantage);
    assert!(p.selection.is_none());
}

#[test]
fn full_expression() {
    let p = resolve_expression("4d6r1k3*6").unwrap();
    assert_eq!(p.num_dice, 4);
    assert_eq!(p.dice_size, 6);
    assert_eq!(p.reroll, 1);
    assert_eq!(p.repeat, 6);
    let sel = p.selection.unwrap();
    assert!(matches!(sel.action, DropOrKeep::Keep));
    assert!(matches!(sel.condition, MarkCondition::Highest));
    assert_eq!(sel.amount, 3);
}

#[test]
fn num_dice_clamped_to_100() {
    let p = resolve_expression("999d6").unwrap();
    assert_eq!(p.num_dice, 100);
}

#[test]
fn oversized_num_dice_falls_back_to_default() {
    // A numeral past the 32-bit range behaves like an absent one.
    let p = resolve_expression("99999999999999999999d6").unwrap();
    assert_eq!(p.num_dice, 1);
}

#[test]
fn repeat_clamped_to_20() {
    let p = resolve_expression("1d6*999").unwrap();
    assert_eq!(p.repeat, 20);
}

#[test]
fn repeat_takes_larger_of_leading_and_trailing() {
    let p = resolve_expression("2*1d6*3").unwrap();
    assert_eq!(p.repeat, 3);
    let q = resolve_expression("7*1d6*3").unwrap();
    assert_eq!(q.repeat, 7);
}

#[test]
fn modifier_signed() {
    assert_eq!(resolve_expression("2d6+3").unwrap().modifier, 3);
    assert_eq!(resolve_expression("2d6-4").unwrap().modifier, -4);
    // The most recent occurrence of a repeated field wins.
    assert_eq!(resolve_expression("2d6+3-4").unwrap().modifier, -4);
}

#[test]
fn modifier_alone_is_an_expression() {
    let p = resolve_expression("+5").unwrap();
    assert_eq!(p.num_dice, 1);
    assert_eq!(p.dice_size, 20);
    assert_eq!(p.modifier, 5);
}

#[test]
fn no_dice_group_and_no_modifier_rejected() {
    assert!(resolve_expression("xyz").is_none());
    assert!(resolve_expression("d").is_none());
    assert!(resolve_expression("adv").is_none());
    assert!(resolve_expression("").is_none());
}

#[test]
fn zero_dice_size_rejected() {
    assert!(resolve_expression("1d0").is_none());
    assert!(resolve_expression("d0").is_none());
}

#[test]
fn advantage_forces_single_die_but_keeps_selection_text() {
    let p = resolve_expression("4d6k3adv").unwrap();
    assert!(p.advantage);
    assert_eq!(p.num_dice, 1);
    // The selection was validated against the written count of 4 dice and is
    // still carried for the restatement, though rolling will not apply it.
    let sel = p.selection.unwrap();
    assert!(matches!(sel.action, DropOrKeep::Keep));
    assert!(matches!(sel.condition, MarkCondition::Highest));
    assert_eq!(sel.amount, 3);
}

#[test]
fn disadvantage_keyword_forms() {
    assert!(resolve_expression("1d20d").unwrap().disadvantage);
    assert!(resolve_expression("1d20dis").unwrap().disadvantage);
    assert!(resolve_expression("1d20disadv").unwrap().disadvantage);
    assert!(resolve_expression("1d20disadvantage").unwrap().disadvantage);
}

#[test]
fn d_with_digits_is_drop_lowest_not_disadvantage() {
    let p = resolve_expression("4d6d1").unwrap();
    assert!(!p.disadvantage);
    let sel = p.selection.unwrap();
    assert!(matches!(sel.action, DropOrKeep::Drop));
    assert!(matches!(sel.condition, MarkCondition::Lowest));
    assert_eq!(sel.amount, 1);
}

#[test]
fn selection_priority_order() {
    // drop-lowest outranks keep-highest when both are present and usable.
    let p = resolve_expression("4d6k2d1").unwrap();
    let sel = p.selection.unwrap();
    assert!(matches!(sel.action, DropOrKeep::Drop));
    assert!(matches!(sel.condition, MarkCondition::Lowest));
    assert_eq!(sel.amount, 1);
}

#[test]
fn out_of_range_selection_is_ignored() {
    // Keeping 4 of 4 makes no sense; the selection silently disappears.
    assert!(resolve_expression("4d6k4").unwrap().selection.is_none());
    // But the next usable one in priority order still wins.
    let p = resolve_expression("4d6d9k2").unwrap();
    let sel = p.selection.unwrap();
    assert!(matches!(sel.action, DropOrKeep::Keep));
    assert_eq!(sel.amount, 2);
}

#[test]
fn case_and_spaces_ignored() {
    let p = resolve_expression("4 D 6 KH 3").unwrap();
    assert_eq!(p.num_dice, 4);
    assert_eq!(p.dice_size, 6);
    let sel = p.selection.unwrap();
    assert!(matches!(sel.condition, MarkCondition::Highest));
    assert_eq!(sel.amount, 3);
}

#[test]
fn trailing_garbage_rejects_the_whole_expression() {
    assert!(resolve_expression("4d6x").is_none());
    assert!(resolve_expression("4d6 k").is_none());
    assert!(resolve_expression("rep3").is_none());
}

#[test]
fn reroll_keyword_forms() {
    assert_eq!(resolve_expression("1d6r2").unwrap().reroll, 2);
    assert_eq!(resolve_expression("1d6reroll2").unwrap().reroll, 2);
    assert_eq!(resolve_expression("1d6rep2").unwrap().repeat, 2);
    assert_eq!(resolve_expression("1d6repeat2").unwrap().repeat, 2);
}

// Resolved parameters always sit in their documented ranges, however extreme
// the written numerals.
#[test]
fn resolved_parameters_in_range() {
    let cases = [
        "2147483647d2147483647r2147483647*2147483647",
        "2147483647*1d6",
        "0d6",
        "1d6*0",
        "100d100d99",
        "999d999kh998+2147483647",
        "999d999kh998-2147483648",
    ];
    for c in cases {
        let p = resolve_expression(c).unwrap();
        assert!((1..=100).contains(&p.num_dice), "{c}");
        assert!((1..=20).contains(&p.repeat), "{c}");
        assert!(p.dice_size >= 1, "{c}");
        assert!(p.reroll >= 0, "{c}");
        if let Some(sel) = p.selection {
            assert!(1 <= sel.amount && sel.amount <= 99, "{c}");
            if !p.advantage && !p.disadvantage {
                assert!(sel.amount <= p.num_dice - 1, "{c}");
            }
        }
    }
}
