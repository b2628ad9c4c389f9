//! A dice-notation evaluator.
//!
//! One line of text such as `4d6r1k3*6` is matched against a compact grammar
//! (dice count and size, drop/keep selections, advantage and disadvantage,
//! rerolls, modifiers, repeats), resolved into validated parameters, rolled,
//! and rendered as an annotated report: one glyph per die, struck-through
//! markup for discarded rolls, emphasized sums, and a grand total across
//! repetitions.  Text that is not a dice expression yields nothing.
//!
//! [`eval_dice_expression::eval_dice_expression`] is the whole pipeline;
//! [`parse`], [`util`] and [`digits`] hold its pieces.

pub mod digits;
pub mod eval_dice_expression;
pub mod parse;
pub mod util;
