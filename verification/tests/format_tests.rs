use dicebot::util::format_roll;
use dicebot::util::Roll;

fn plain(value: i32) -> Roll {
    Roll {
        value,
        old_value: None,
    }
}

#[test]
fn glyphs_for_small_values() {
    assert_eq!(format_roll(&plain(1), false), "①");
    assert_eq!(format_roll(&plain(5), false), "⑤");
    assert_eq!(format_roll(&plain(20), false), "⑳");
    assert_eq!(format_roll(&plain(21), false), "㉑");
    assert_eq!(format_roll(&plain(36), false), "㊱");
    assert_eq!(format_roll(&plain(50), false), "㊿");
}

#[test]
fn values_above_fifty_in_parentheses() {
    assert_eq!(format_roll(&plain(51), false), "(51)");
    assert_eq!(format_roll(&plain(123), false), "(123)");
    assert_eq!(format_roll(&plain(2147483647), false), "(2147483647)");
}

#[test]
fn values_at_or_below_zero_render_x() {
    assert_eq!(format_roll(&plain(0), false), "X");
    assert_eq!(format_roll(&plain(-3), false), "X");
}

#[test]
fn struck_roll() {
    assert_eq!(format_roll(&plain(7), true), "~~⑦~~");
}

#[test]
fn rerolled_roll_shows_old_value_struck() {
    let r = Roll {
        value: 3,
        old_value: Some(1),
    };
    assert_eq!(format_roll(&r, false), "~~①~~③");
}

#[test]
fn rerolled_and_struck_roll_struck_as_a_unit() {
    let r = Roll {
        value: 3,
        old_value: Some(1),
    };
    assert_eq!(format_roll(&r, true), "~~①③~~");
}
