//! The dice-notation grammar and the parameter resolver.
//!
//! An expression is matched in full, over its bytes after normalization
//! (spaces removed, ASCII letters lowercased): an optional leading repeat
//! `N*`, an optional dice group `[N]dM`, then any number of trailing tokens.
//! At each position the trailing-token alternatives are tried in a fixed
//! order — drop-lowest (`d`/`dl` with digits), drop-highest (`dh`), keep-lowest
//! (`kl`), keep-highest (`k`/`kh`), the disadvantage keyword (`d`, `dis`,
//! `disadv`, `disadvantage`, longest first), the advantage keyword (`a`,
//! `adv`, `advantage`), repeat (`*N`, `repN`, `repeatN`), reroll (`rN`,
//! `rerollN`), and a signed modifier — and the first that matches wins, so
//! `d` followed by digits is always drop-lowest, never disadvantage.  When
//! one field is written twice, the later occurrence wins.
//!
//! A numeral too large for its field behaves exactly like an absent one: the
//! field falls back to its default.  A full match that has neither a dice
//! group nor a modifier means the text was not a dice expression at all.

use crate::util::MarkCondition;
use vstd::prelude::*;
use vstd::string::StrSliceExecFns;
use vstd::string::StringSliceAdditionalSpecFns;

verus! {

/// One raw captured field: absent, present but too large for its type, or a
/// present in-range value.  An oversized numeral acts exactly like an absent
/// one everywhere a field is resolved.
#[derive(Clone, Copy, PartialEq, Eq, Debug)]
pub enum Cap {
    Missing,
    Big,
    Val(i32),
}

/// The raw capture set of one full grammar match.
#[derive(Clone, Copy, PartialEq, Eq, Debug)]
pub struct ParsedFields {
    /// Leading `N*` repeat count.
    pub repeat1: Cap,
    /// The `N` of the dice group `NdM`.
    pub num_dice: Cap,
    /// The `M` of the dice group; `Missing` exactly when there was no dice
    /// group.
    pub dice_size: Cap,
    pub drop_lowest: Cap,
    pub drop_highest: Cap,
    pub keep_lowest: Cap,
    pub keep_highest: Cap,
    pub disadvantage: bool,
    pub advantage: bool,
    /// Trailing `*N` / `repN` repeat count.
    pub repeat2: Cap,
    pub reroll: Cap,
    /// Signed modifier; `Missing` exactly when no modifier token occurred.
    pub modifier: Cap,
}

impl ParsedFields {
    /// No field captured at all.
    pub open spec fn empty() -> ParsedFields {
        ParsedFields {
            repeat1: Cap::Missing,
            num_dice: Cap::Missing,
            dice_size: Cap::Missing,
            drop_lowest: Cap::Missing,
            drop_highest: Cap::Missing,
            keep_lowest: Cap::Missing,
            keep_highest: Cap::Missing,
            disadvantage: false,
            advantage: false,
            repeat2: Cap::Missing,
            reroll: Cap::Missing,
            modifier: Cap::Missing,
        }
    }
}

/// An ASCII decimal digit.
pub open spec fn is_digit(b: u8) -> bool {
    48 <= b <= 57
}

/// There is a digit at position `i`.
pub open spec fn digits_at(s: Seq<u8>, i: int) -> bool {
    0 <= i < s.len() && is_digit(s[i])
}

/// The end of the digit run starting at `i`: the first position at or after
/// `i` that does not hold a digit.
pub open spec fn run_end(s: Seq<u8>, i: int) -> int
    decreases s.len() - i,
{
    if !(0 <= i < s.len()) {
        i
    } else if !is_digit(s[i]) {
        i
    } else {
        run_end(s, i + 1)
    }
}

/// The numeric value of the digit run `s[i..j)`.
pub open spec fn run_val(s: Seq<u8>, i: int, j: int) -> int
    decreases j - i,
{
    if j <= i {
        0
    } else {
        run_val(s, i, j - 1) * 10 + (s[j - 1] - 48)
    }
}

/// The digit run starting at `i` runs to its end and holds only digits.
proof fn lemma_run_end(s: Seq<u8>, i: int)
    requires
        0 <= i <= s.len(),
    ensures
        i <= run_end(s, i) <= s.len(),
        forall|t: int| i <= t < run_end(s, i) ==> is_digit(#[trigger] s[t]),
        run_end(s, i) == s.len() || !is_digit(s[run_end(s, i)]),
    decreases s.len() - i,
{
    if i < s.len() && is_digit(s[i]) {
        lemma_run_end(s, i + 1);
    }
}

/// A run of digits has a non-negative value.
proof fn lemma_run_val_nonneg(s: Seq<u8>, i: int, j: int)
    requires
        forall|t: int| i <= t < j ==> is_digit(#[trigger] s[t]),
    ensures
        run_val(s, i, j) >= 0,
    decreases j - i,
{
    if j > i {
        lemma_run_val_nonneg(s, i, j - 1);
    }
}

/// The capture for an unsigned digit run: its value when it fits an `i32`.
pub open spec fn cap_of(s: Seq<u8>, i: int, j: int) -> Cap {
    let v = run_val(s, i, j);
    if v <= 0x7fff_ffff {
        Cap::Val(v as i32)
    } else {
        Cap::Big
    }
}

/// The capture for a signed modifier with magnitude `v`.
pub open spec fn cap_signed(negative: bool, v: int) -> Cap {
    let sv = if negative {
        -v
    } else {
        v
    };
    if -0x8000_0000 <= sv <= 0x7fff_ffff {
        Cap::Val(sv as i32)
    } else {
        Cap::Big
    }
}

/// The keyword `dis` sits at position `i`.
pub open spec fn kw_dis_at(s: Seq<u8>, i: int) -> bool {
    &&& 0 <= i && i + 3 <= s.len()
    &&& s[i] == 100
    &&& s[i + 1] == 105
    &&& s[i + 2] == 115
}

/// The keyword `disadv` sits at position `i`.
pub open spec fn kw_disadv_at(s: Seq<u8>, i: int) -> bool {
    &&& kw_dis_at(s, i)
    &&& i + 6 <= s.len()
    &&& s[i + 3] == 97
    &&& s[i + 4] == 100
    &&& s[i + 5] == 118
}

/// The keyword `disadvantage` sits at position `i`.
pub open spec fn kw_disadvantage_at(s: Seq<u8>, i: int) -> bool {
    &&& kw_disadv_at(s, i)
    &&& i + 12 <= s.len()
    &&& s[i + 6] == 97
    &&& s[i + 7] == 110
    &&& s[i + 8] == 116
    &&& s[i + 9] == 97
    &&& s[i + 10] == 103
    &&& s[i + 11] == 101
}

/// The keyword `adv` sits at position `i`.
pub open spec fn kw_adv_at(s: Seq<u8>, i: int) -> bool {
    &&& 0 <= i && i + 3 <= s.len()
    &&& s[i] == 97
    &&& s[i + 1] == 100
    &&& s[i + 2] == 118
}

/// The keyword `advantage` sits at position `i`.
pub open spec fn kw_advantage_at(s: Seq<u8>, i: int) -> bool {
    &&& kw_adv_at(s, i)
    &&& i + 9 <= s.len()
    &&& s[i + 3] == 97
    &&& s[i + 4] == 110
    &&& s[i + 5] == 116
    &&& s[i + 6] == 97
    &&& s[i + 7] == 103
    &&& s[i + 8] == 101
}

/// The keyword `rep` sits at position `i`.
pub open spec fn kw_rep_at(s: Seq<u8>, i: int) -> bool {
    &&& 0 <= i && i + 3 <= s.len()
    &&& s[i] == 114
    &&& s[i + 1] == 101
    &&& s[i + 2] == 112
}

/// The keyword `repeat` sits at position `i`.
pub open spec fn kw_repeat_at(s: Seq<u8>, i: int) -> bool {
    &&& kw_rep_at(s, i)
    &&& i + 6 <= s.len()
    &&& s[i + 3] == 101
    &&& s[i + 4] == 97
    &&& s[i + 5] == 116
}

/// The keyword `reroll` sits at position `i`.
pub open spec fn kw_reroll_at(s: Seq<u8>, i: int) -> bool {
    &&& 0 <= i && i + 6 <= s.len()
    &&& s[i] == 114
    &&& s[i + 1] == 101
    &&& s[i + 2] == 114
    &&& s[i + 3] == 111
    &&& s[i + 4] == 108
    &&& s[i + 5] == 108
}

/// How many bytes the disadvantage keyword takes at `i`, longest form first;
/// meaningful when `s[i]` is `d`.
pub open spec fn dis_kw_len(s: Seq<u8>, i: int) -> int {
    if kw_disadvantage_at(s, i) {
        12
    } else if kw_disadv_at(s, i) {
        6
    } else if kw_dis_at(s, i) {
        3
    } else {
        1
    }
}

/// How many bytes the advantage keyword takes at `i`, longest form first;
/// meaningful when `s[i]` is `a`.
pub open spec fn adv_kw_len(s: Seq<u8>, i: int) -> int {
    if kw_advantage_at(s, i) {
        9
    } else if kw_adv_at(s, i) {
        3
    } else {
        1
    }
}

/// One trailing token of the grammar.
#[derive(Clone, Copy, PartialEq, Eq, Debug)]
pub enum TokenKind {
    DropLowest,
    DropHighest,
    KeepLowest,
    KeepHighest,
    Disadvantage,
    Advantage,
    Repeat,
    Reroll,
    Modifier,
}

/// Match one trailing token at position `i`: the token, its capture, and the
/// position right after it.  The alternatives are tried in the fixed order
/// the module doc gives, and the first that matches wins.
pub open spec fn lex_token(s: Seq<u8>, i: int) -> Option<(TokenKind, Cap, int)> {
    let n = s.len() as int;
    if !(0 <= i < n) {
        None
    } else if s[i] == 100 {
        // `d`: drop-lowest with digits first, then drop-highest, then the
        // disadvantage keyword.
        if i + 1 < n && s[i + 1] == 108 && digits_at(s, i + 2) {
            Some((TokenKind::DropLowest, cap_of(s, i + 2, run_end(s, i + 2)), run_end(s, i + 2)))
        } else if digits_at(s, i + 1) {
            Some((TokenKind::DropLowest, cap_of(s, i + 1, run_end(s, i + 1)), run_end(s, i + 1)))
        } else if i + 1 < n && s[i + 1] == 104 && digits_at(s, i + 2) {
            Some((TokenKind::DropHighest, cap_of(s, i + 2, run_end(s, i + 2)), run_end(s, i + 2)))
        } else {
            Some((TokenKind::Disadvantage, Cap::Missing, i + dis_kw_len(s, i)))
        }
    } else if s[i] == 107 {
        // `k`: keep-lowest, then keep-highest with or without its `h`.
        if i + 1 < n && s[i + 1] == 108 && digits_at(s, i + 2) {
            Some((TokenKind::KeepLowest, cap_of(s, i + 2, run_end(s, i + 2)), run_end(s, i + 2)))
        } else if i + 1 < n && s[i + 1] == 104 && digits_at(s, i + 2) {
            Some((TokenKind::KeepHighest, cap_of(s, i + 2, run_end(s, i + 2)), run_end(s, i + 2)))
        } else if digits_at(s, i + 1) {
            Some((TokenKind::KeepHighest, cap_of(s, i + 1, run_end(s, i + 1)), run_end(s, i + 1)))
        } else {
            None
        }
    } else if s[i] == 97 {
        Some((TokenKind::Advantage, Cap::Missing, i + adv_kw_len(s, i)))
    } else if s[i] == 42 {
        // `*N`
        if digits_at(s, i + 1) {
            Some((TokenKind::Repeat, cap_of(s, i + 1, run_end(s, i + 1)), run_end(s, i + 1)))
        } else {
            None
        }
    } else if s[i] == 114 {
        // `r`: the repeat keywords come before reroll in the alternation.
        if kw_repeat_at(s, i) && digits_at(s, i + 6) {
            Some((TokenKind::Repeat, cap_of(s, i + 6, run_end(s, i + 6)), run_end(s, i + 6)))
        } else if kw_rep_at(s, i) && digits_at(s, i + 3) {
            Some((TokenKind::Repeat, cap_of(s, i + 3, run_end(s, i + 3)), run_end(s, i + 3)))
        } else if kw_reroll_at(s, i) && digits_at(s, i + 6) {
            Some((TokenKind::Reroll, cap_of(s, i + 6, run_end(s, i + 6)), run_end(s, i + 6)))
        } else if digits_at(s, i + 1) {
            Some((TokenKind::Reroll, cap_of(s, i + 1, run_end(s, i + 1)), run_end(s, i + 1)))
        } else {
            None
        }
    } else if s[i] == 43 {
        if digits_at(s, i + 1) {
            Some(
                (
                    TokenKind::Modifier,
                    cap_signed(false, run_val(s, i + 1, run_end(s, i + 1))),
                    run_end(s, i + 1),
                ),
            )
        } else {
            None
        }
    } else if s[i] == 45 {
        if digits_at(s, i + 1) {
            Some(
                (
                    TokenKind::Modifier,
                    cap_signed(true, run_val(s, i + 1, run_end(s, i + 1))),
                    run_end(s, i + 1),
                ),
            )
        } else {
            None
        }
    } else {
        None
    }
}

/// A matched token always ends past where it began and within the input.
proof fn lemma_lex_advances(s: Seq<u8>, i: int)
    requires
        0 <= i <= s.len(),
    ensures
        match lex_token(s, i) {
            Some(t) => i < t.2 <= s.len(),
            None => true,
        },
{
    if 0 <= i < s.len() {
        lemma_run_end(s, i + 1);
        if i + 2 <= s.len() {
            lemma_run_end(s, i + 2);
        }
        if i + 3 <= s.len() {
            lemma_run_end(s, i + 3);
        }
        if i + 6 <= s.len() {
            lemma_run_end(s, i + 6);
        }
    }
}

/// Record one token's capture in the field set; a later occurrence of the
/// same field overwrites an earlier one.
pub open spec fn apply_token(f: ParsedFields, k: TokenKind, c: Cap) -> ParsedFields {
    match k {
        TokenKind::DropLowest => ParsedFields { drop_lowest: c, ..f },
        TokenKind::DropHighest => ParsedFields { drop_highest: c, ..f },
        TokenKind::KeepLowest => ParsedFields { keep_lowest: c, ..f },
        TokenKind::KeepHighest => ParsedFields { keep_highest: c, ..f },
        TokenKind::Disadvantage => ParsedFields { disadvantage: true, ..f },
        TokenKind::Advantage => ParsedFields { advantage: true, ..f },
        TokenKind::Repeat => ParsedFields { repeat2: c, ..f },
        TokenKind::Reroll => ParsedFields { reroll: c, ..f },
        TokenKind::Modifier => ParsedFields { modifier: c, ..f },
    }
}

/// Scan trailing tokens from position `i` to the end of the input, folding
/// their captures into `f`; fail if some position starts no token.
pub open spec fn scan_tokens(s: Seq<u8>, i: int, f: ParsedFields) -> Option<ParsedFields>
    decreases s.len() - i,
        when 0 <= i <= s.len() via scan_tokens_decreases
{
    if i == s.len() {
        Some(f)
    } else {
        match lex_token(s, i) {
            None => None,
            Some(t) => scan_tokens(s, t.2, apply_token(f, t.0, t.1)),
        }
    }
}

#[via_fn]
proof fn scan_tokens_decreases(s: Seq<u8>, i: int, f: ParsedFields) {
    lemma_lex_advances(s, i);
}

/// Match the optional leading repeat `N*`: its capture and the position
/// right after the `*`.
pub open spec fn lead_repeat(s: Seq<u8>) -> Option<(Cap, int)> {
    let j = run_end(s, 0);
    if j > 0 && j < s.len() && s[j] == 42 {
        Some((cap_of(s, 0, j), j + 1))
    } else {
        None
    }
}

/// Match the optional dice group `[N]dM` at position `i`: the two captures
/// and the position after the group.  The dice count may be absent; the size
/// digits are what makes it a dice group.
pub open spec fn dice_group(s: Seq<u8>, i: int) -> Option<(Cap, Cap, int)> {
    let j = run_end(s, i);
    if j < s.len() && s[j] == 100 && digits_at(s, j + 1) {
        let e = run_end(s, j + 1);
        Some(
            (
                if j > i {
                    cap_of(s, i, j)
                } else {
                    Cap::Missing
                },
                cap_of(s, j + 1, e),
                e,
            ),
        )
    } else {
        None
    }
}

/// Match a whole normalized expression against the grammar: leading repeat,
/// dice group, then trailing tokens to the very end.
pub open spec fn spec_parse(s: Seq<u8>) -> Option<ParsedFields> {
    let f0 = ParsedFields::empty();
    let start = match lead_repeat(s) {
        Some(r) => (ParsedFields { repeat1: r.0, ..f0 }, r.1),
        None => (f0, 0int),
    };
    let after_group = match dice_group(s, start.1) {
        Some(g) => (ParsedFields { num_dice: g.0, dice_size: g.1, ..start.0 }, g.2),
        None => start,
    };
    scan_tokens(s, after_group.1, after_group.0)
}

/// Whether the marked rolls are discarded or retained.
#[derive(Clone, Copy, PartialEq, Eq, Debug)]
pub enum DropOrKeep {
    Drop,
    Keep,
}

/// An active drop/keep selection: which extreme is marked, how many rolls,
/// and whether the marked ones are dropped or kept.
#[derive(Clone, Copy, PartialEq, Eq, Debug)]
pub struct Selection {
    pub action: DropOrKeep,
    pub condition: MarkCondition,
    pub amount: i32,
}

/// The validated, clamped parameter set of one evaluated expression.
#[derive(Clone, Copy, PartialEq, Eq, Debug)]
pub struct RollParams {
    /// How many dice to roll, clamped to `[1, 100]`; forced to 1 under
    /// advantage or disadvantage.
    pub num_dice: i32,
    /// Faces per die; always at least 1 (a smaller size rejects the whole
    /// expression).
    pub dice_size: i32,
    pub advantage: bool,
    pub disadvantage: bool,
    /// Reroll a die once when its first draw is at or below this; 0 never
    /// rerolls.
    pub reroll: i32,
    /// Signed modifier added to each iteration's sum.
    pub modifier: i32,
    /// How many independent repetitions to run, clamped to `[1, 20]`.
    pub repeat: i32,
    /// The drop/keep selection, if any survived validation against the
    /// written dice count.  Under advantage or disadvantage it is still
    /// restated but never applied to the rolls.
    pub selection: Option<Selection>,
}

/// The field's value when it captured one that fits, else the default.
pub open spec fn cap_or(c: Cap, d: i32) -> i32 {
    match c {
        Cap::Val(v) => v,
        _ => d,
    }
}

/// Clamp `v` into `[lo, hi]`.
pub open spec fn clamp_to(v: i32, lo: i32, hi: i32) -> i32 {
    if v < lo {
        lo
    } else if v > hi {
        hi
    } else {
        v
    }
}

/// A selection capture is usable when its amount leaves at least one die
/// rolled and one die selected: `1 <= amount <= num_dice - 1`.
pub open spec fn sel_valid(c: Cap, nd: i32) -> bool {
    match c {
        Cap::Val(v) => 1 <= v && v <= nd - 1,
        _ => false,
    }
}

/// The active selection: drop-lowest, drop-highest, keep-lowest and
/// keep-highest are consulted in that fixed priority order, and the first
/// with a usable amount wins; the rest are ignored outright.
pub open spec fn spec_selection(f: ParsedFields, nd: i32) -> Option<Selection> {
    if sel_valid(f.drop_lowest, nd) {
        Some(
            Selection {
                action: DropOrKeep::Drop,
                condition: MarkCondition::Lowest,
                amount: cap_or(f.drop_lowest, 0),
            },
        )
    } else if sel_valid(f.drop_highest, nd) {
        Some(
            Selection {
                action: DropOrKeep::Drop,
                condition: MarkCondition::Highest,
                amount: cap_or(f.drop_highest, 0),
            },
        )
    } else if sel_valid(f.keep_lowest, nd) {
        Some(
            Selection {
                action: DropOrKeep::Keep,
                condition: MarkCondition::Lowest,
                amount: cap_or(f.keep_lowest, 0),
            },
        )
    } else if sel_valid(f.keep_highest, nd) {
        Some(
            Selection {
                action: DropOrKeep::Keep,
                condition: MarkCondition::Highest,
                amount: cap_or(f.keep_highest, 0),
            },
        )
    } else {
        None
    }
}

/// Resolve raw captures into the validated parameter set, or reject.  The
/// expression is rejected when the match had neither a dice group nor a
/// modifier, or when the dice size resolved to zero or below; every other
/// out-of-range field silently falls back to its default.  Advantage or
/// disadvantage forces a single die; a selection is still validated against
/// the written dice count and restated, though rolling will not apply it.
pub open spec fn spec_resolve(f: ParsedFields) -> Option<RollParams> {
    if f.dice_size is Missing && f.modifier is Missing {
        None
    } else {
        let dice_size = cap_or(f.dice_size, 20);
        if dice_size <= 0 {
            None
        } else {
            let nd0 = clamp_to(cap_or(f.num_dice, 1), 1, 100);
            let forced = f.advantage || f.disadvantage;
            let r1 = cap_or(f.repeat1, 1);
            let r2 = cap_or(f.repeat2, 1);
            Some(
                RollParams {
                    num_dice: if forced {
                        1
                    } else {
                        nd0
                    },
                    dice_size,
                    advantage: f.advantage,
                    disadvantage: f.disadvantage,
                    reroll: cap_or(f.reroll, 0),
                    modifier: cap_or(f.modifier, 0),
                    repeat: clamp_to(
                        if r1 >= r2 {
                            r1
                        } else {
                            r2
                        },
                        1,
                        20,
                    ),
                    selection: spec_selection(f, nd0),
                },
            )
        }
    }
}

/// Lowercase one ASCII letter; anything else passes through.
pub open spec fn lower_byte(b: u8) -> u8 {
    if 65 <= b <= 90 {
        (b + 32) as u8
    } else {
        b
    }
}

/// Normalization before matching: spaces are removed and ASCII letters
/// lowercased.
pub open spec fn normalize_spec(s: Seq<u8>) -> Seq<u8>
    decreases s.len(),
{
    if s.len() == 0 {
        Seq::empty()
    } else {
        let rest = normalize_spec(s.drop_last());
        if s.last() == 32 {
            rest
        } else {
            rest.push(lower_byte(s.last()))
        }
    }
}

/// What an expression's bytes resolve to: the validated parameter set when
/// the normalized text matches the grammar and survives resolution, and
/// nothing otherwise.
pub open spec fn spec_params(bytes: Seq<u8>) -> Option<RollParams> {
    match spec_parse(normalize_spec(bytes)) {
        None => None,
        Some(f) => spec_resolve(f),
    }
}

/// The guarantees resolution gives about every parameter set it produces.
pub open spec fn params_wf(p: RollParams) -> bool {
    &&& 1 <= p.num_dice <= 100
    &&& p.dice_size >= 1
    &&& 1 <= p.repeat <= 20
    &&& p.reroll >= 0
    &&& match p.selection {
        Some(sel) => 1 <= sel.amount <= 99 && (!(p.advantage || p.disadvantage) ==> sel.amount
            <= p.num_dice - 1),
        None => true,
    }
    &&& ((p.advantage || p.disadvantage) ==> p.num_dice == 1)
}

/// A capture from an unsigned numeral is never negative.
pub open spec fn cap_nonneg(c: Cap) -> bool {
    match c {
        Cap::Val(v) => v >= 0,
        _ => true,
    }
}

/// Every capture of the grammar except the signed modifier is non-negative.
pub open spec fn fields_nonneg(f: ParsedFields) -> bool {
    &&& cap_nonneg(f.repeat1)
    &&& cap_nonneg(f.num_dice)
    &&& cap_nonneg(f.dice_size)
    &&& cap_nonneg(f.drop_lowest)
    &&& cap_nonneg(f.drop_highest)
    &&& cap_nonneg(f.keep_lowest)
    &&& cap_nonneg(f.keep_highest)
    &&& cap_nonneg(f.repeat2)
    &&& cap_nonneg(f.reroll)
}

/// The capture of a digit run is non-negative.
proof fn lemma_cap_of_nonneg(s: Seq<u8>, i: int)
    requires
        0 <= i <= s.len(),
    ensures
        cap_nonneg(cap_of(s, i, run_end(s, i))),
{
    lemma_run_end(s, i);
    lemma_run_val_nonneg(s, i, run_end(s, i));
}

/// Every token hands a non-negative capture to its field, except the
/// modifier, whose field the non-negativity claim leaves alone.
proof fn lemma_lex_cap_nonneg(s: Seq<u8>, i: int)
    requires
        0 <= i <= s.len(),
    ensures
        match lex_token(s, i) {
            Some(t) => t.0 is Modifier || cap_nonneg(t.1),
            None => true,
        },
{
    if 0 <= i < s.len() {
        lemma_cap_of_nonneg(s, i + 1);
        if i + 2 <= s.len() {
            lemma_cap_of_nonneg(s, i + 2);
        }
        if i + 3 <= s.len() {
            lemma_cap_of_nonneg(s, i + 3);
        }
        if i + 6 <= s.len() {
            lemma_cap_of_nonneg(s, i + 6);
        }
    }
}

proof fn lemma_scan_nonneg(s: Seq<u8>, i: int, f: ParsedFields)
    requires
        0 <= i <= s.len(),
        fields_nonneg(f),
    ensures
        match scan_tokens(s, i, f) {
            Some(g) => fields_nonneg(g),
            None => true,
        },
    decreases s.len() - i,
{
    if i < s.len() {
        lemma_lex_advances(s, i);
        lemma_lex_cap_nonneg(s, i);
        match lex_token(s, i) {
            None => {},
            Some(t) => {
                lemma_scan_nonneg(s, t.2, apply_token(f, t.0, t.1));
            },
        }
    }
}

/// Every capture set the grammar produces has non-negative numerals in all
/// unsigned fields.
proof fn lemma_parse_nonneg(s: Seq<u8>)
    ensures
        match spec_parse(s) {
            Some(f) => fields_nonneg(f),
            None => true,
        },
{
    lemma_run_end(s, 0);
    lemma_cap_of_nonneg(s, 0);
    let f0 = ParsedFields::empty();
    let start = match lead_repeat(s) {
        Some(r) => (ParsedFields { repeat1: r.0, ..f0 }, r.1),
        None => (f0, 0int),
    };
    lemma_run_end(s, start.1);
    lemma_cap_of_nonneg(s, start.1);
    let j = run_end(s, start.1);
    if j + 1 <= s.len() {
        lemma_cap_of_nonneg(s, j + 1);
        lemma_run_end(s, j + 1);
    }
    let after_group = match dice_group(s, start.1) {
        Some(g) => (ParsedFields { num_dice: g.0, dice_size: g.1, ..start.0 }, g.2),
        None => start,
    };
    lemma_scan_nonneg(s, after_group.1, after_group.0);
}

/// Whatever numerals an accepted expression wrote, the resolved parameters
/// sit in their documented ranges: dice count in `[1, 100]`, repeat count in
/// `[1, 20]`, dice size at least 1, reroll threshold at least 0, a selection
/// amount in `[1, num_dice - 1]` except where advantage or disadvantage
/// forced the dice count to a single die out from under a selection that was
/// validated against the written count.
pub proof fn lemma_resolved_params_in_range(bytes: Seq<u8>)
    ensures
        match spec_params(bytes) {
            Some(p) => params_wf(p),
            None => true,
        },
{
    let s = normalize_spec(bytes);
    lemma_parse_nonneg(s);
}

/// Scan the digit run starting at `i`: its end, and its value tracked
/// exactly while it still fits 32 bits, with a flag once it no longer does.
fn scan_run(b: &Vec<u8>, i: usize) -> (r: (usize, u64, bool))
    requires
        i <= b@.len(),
    ensures
        r.0 == run_end(b@, i as int),
        i <= r.0 <= b@.len(),
        r.2 <==> run_val(b@, i as int, r.0 as int) > 0xffff_ffff,
        !r.2 ==> r.1 == run_val(b@, i as int, r.0 as int) && r.1 <= 0xffff_ffff,
{
    let ghost s = b@;
    let n = b.len();
    let mut j = i;
    let mut acc: u64 = 0;
    let mut big = false;
    while j < n && 48 <= b[j] && b[j] <= 57
        invariant
            i <= j <= n,
            n == s.len(),
            s == b@,
            run_end(s, i as int) == run_end(s, j as int),
            forall|t: int| i <= t < j ==> is_digit(#[trigger] s[t]),
            big <==> run_val(s, i as int, j as int) > 0xffff_ffff,
            !big ==> acc == run_val(s, i as int, j as int) && acc <= 0xffff_ffff,
        decreases n - j,
    {
        let d = b[j] - 48;
        proof {
            lemma_run_val_nonneg(s, i as int, j as int);
            assert(run_val(s, i as int, j as int + 1) == run_val(s, i as int, j as int) * 10 + (
            s[j as int] - 48));
        }
        if !big {
            let next = acc * 10 + (d as u64);
            if next > 0xffff_ffff {
                big = true;
            } else {
                acc = next;
            }
        }
        j = j + 1;
    }
    proof {
        assert(run_end(s, j as int) == j);
    }
    (j, acc, big)
}

/// The capture of the unsigned digit run `[i, end)` of `b`, from what
/// `scan_run` tracked.
fn mk_cap(end: usize, acc: u64, big: bool, Ghost(s): Ghost<Seq<u8>>, Ghost(i): Ghost<int>) -> (c:
    Cap)
    requires
        big <==> run_val(s, i, end as int) > 0xffff_ffff,
        !big ==> acc == run_val(s, i, end as int),
    ensures
        c == cap_of(s, i, end as int),
{
    if big {
        Cap::Big
    } else if acc <= 0x7fff_ffff {
        Cap::Val(acc as i32)
    } else {
        Cap::Big
    }
}

/// The capture of a signed modifier whose magnitude is the digit run
/// `[i, end)` of `b`.
fn mk_cap_signed(
    negative: bool,
    end: usize,
    acc: u64,
    big: bool,
    Ghost(s): Ghost<Seq<u8>>,
    Ghost(i): Ghost<int>,
) -> (c: Cap)
    requires
        big <==> run_val(s, i, end as int) > 0xffff_ffff,
        !big ==> acc == run_val(s, i, end as int),
        run_val(s, i, end as int) >= 0,
    ensures
        c == cap_signed(negative, run_val(s, i, end as int)),
{
    if big {
        Cap::Big
    } else if negative {
        if acc <= 0x7fff_ffff {
            Cap::Val(-(acc as i32))
        } else if acc == 0x8000_0000 {
            Cap::Val(i32::MIN)
        } else {
            Cap::Big
        }
    } else {
        if acc <= 0x7fff_ffff {
            Cap::Val(acc as i32)
        } else {
            Cap::Big
        }
    }
}

/// How far the disadvantage keyword reaches at `i`, longest form first.
fn dis_len_ex(b: &Vec<u8>, i: usize) -> (l: usize)
    requires
        i < b@.len(),
        b@[i as int] == 100,
    ensures
        l as int == dis_kw_len(b@, i as int),
        i + l <= b@.len(),
{
    let n = b.len();
    if n - i >= 12 && b[i + 1] == 105 && b[i + 2] == 115 && b[i + 3] == 97 && b[i + 4] == 100 && b[i
        + 5] == 118 && b[i + 6] == 97 && b[i + 7] == 110 && b[i + 8] == 116 && b[i + 9] == 97 && b[i
        + 10] == 103 && b[i + 11] == 101 {
        12
    } else if n - i >= 6 && b[i + 1] == 105 && b[i + 2] == 115 && b[i + 3] == 97 && b[i + 4] == 100
        && b[i + 5] == 118 {
        6
    } else if n - i >= 3 && b[i + 1] == 105 && b[i + 2] == 115 {
        3
    } else {
        1
    }
}

/// How far the advantage keyword reaches at `i`, longest form first.
fn adv_len_ex(b: &Vec<u8>, i: usize) -> (l: usize)
    requires
        i < b@.len(),
        b@[i as int] == 97,
    ensures
        l as int == adv_kw_len(b@, i as int),
        i + l <= b@.len(),
{
    let n = b.len();
    if n - i >= 9 && b[i + 1] == 100 && b[i + 2] == 118 && b[i + 3] == 97 && b[i + 4] == 110 && b[i
        + 5] == 116 && b[i + 6] == 97 && b[i + 7] == 103 && b[i + 8] == 101 {
        9
    } else if n - i >= 3 && b[i + 1] == 100 && b[i + 2] == 118 {
        3
    } else {
        1
    }
}

/// Match one trailing token at `i`, exactly as the grammar's alternation
/// does.
#[verifier::rlimit(100)]
fn lex_token_ex(b: &Vec<u8>, i: usize) -> (r: Option<(TokenKind, Cap, usize)>)
    requires
        i < b@.len(),
    ensures
        match r {
            None => lex_token(b@, i as int) is None,
            Some(t) => {
                &&& lex_token(b@, i as int) == Some((t.0, t.1, t.2 as int))
                &&& i < t.2 <= b@.len()
            },
        },
{
    let ghost s = b@;
    proof {
        lemma_lex_advances(s, i as int);
    }
    let n = b.len();
    let c = b[i];
    if c == 100 {
        if i + 1 < n && b[i + 1] == 108 && i + 2 < n && 48 <= b[i + 2] && b[i + 2] <= 57 {
            let run = scan_run(b, i + 2);
            Some((TokenKind::DropLowest, mk_cap(run.0, run.1, run.2, Ghost(s), Ghost(i + 2)), run.0))
        } else if i + 1 < n && 48 <= b[i + 1] && b[i + 1] <= 57 {
            let run = scan_run(b, i + 1);
            Some((TokenKind::DropLowest, mk_cap(run.0, run.1, run.2, Ghost(s), Ghost(i + 1)), run.0))
        } else if i + 1 < n && b[i + 1] == 104 && i + 2 < n && 48 <= b[i + 2] && b[i + 2] <= 57 {
            let run = scan_run(b, i + 2);
            Some(
                (TokenKind::DropHighest, mk_cap(run.0, run.1, run.2, Ghost(s), Ghost(i + 2)), run.0),
            )
        } else {
            let l = dis_len_ex(b, i);
            Some((TokenKind::Disadvantage, Cap::Missing, i + l))
        }
    } else if c == 107 {
        if i + 1 < n && b[i + 1] == 108 && i + 2 < n && 48 <= b[i + 2] && b[i + 2] <= 57 {
            let run = scan_run(b, i + 2);
            Some((TokenKind::KeepLowest, mk_cap(run.0, run.1, run.2, Ghost(s), Ghost(i + 2)), run.0))
        } else if i + 1 < n && b[i + 1] == 104 && i + 2 < n && 48 <= b[i + 2] && b[i + 2] <= 57 {
            let run = scan_run(b, i + 2);
            Some(
                (TokenKind::KeepHighest, mk_cap(run.0, run.1, run.2, Ghost(s), Ghost(i + 2)), run.0),
            )
        } else if i + 1 < n && 48 <= b[i + 1] && b[i + 1] <= 57 {
            let run = scan_run(b, i + 1);
            Some(
                (TokenKind::KeepHighest, mk_cap(run.0, run.1, run.2, Ghost(s), Ghost(i + 1)), run.0),
            )
        } else {
            None
        }
    } else if c == 97 {
        let l = adv_len_ex(b, i);
        Some((TokenKind::Advantage, Cap::Missing, i + l))
    } else if c == 42 {
        if i + 1 < n && 48 <= b[i + 1] && b[i + 1] <= 57 {
            let run = scan_run(b, i + 1);
            Some((TokenKind::Repeat, mk_cap(run.0, run.1, run.2, Ghost(s), Ghost(i + 1)), run.0))
        } else {
            None
        }
    } else if c == 114 {
        let kw_repeat = n - i >= 6 && b[i + 1] == 101 && b[i + 2] == 112 && b[i + 3] == 101 && b[i
            + 4] == 97 && b[i + 5] == 116;
        let kw_rep = n - i >= 3 && b[i + 1] == 101 && b[i + 2] == 112;
        let kw_reroll = n - i >= 6 && b[i + 1] == 101 && b[i + 2] == 114 && b[i + 3] == 111 && b[i
            + 4] == 108 && b[i + 5] == 108;
        if kw_repeat && i + 6 < n && 48 <= b[i + 6] && b[i + 6] <= 57 {
            let run = scan_run(b, i + 6);
            Some((TokenKind::Repeat, mk_cap(run.0, run.1, run.2, Ghost(s), Ghost(i + 6)), run.0))
        } else if kw_rep && i + 3 < n && 48 <= b[i + 3] && b[i + 3] <= 57 {
            let run = scan_run(b, i + 3);
            Some((TokenKind::Repeat, mk_cap(run.0, run.1, run.2, Ghost(s), Ghost(i + 3)), run.0))
        } else if kw_reroll && i + 6 < n && 48 <= b[i + 6] && b[i + 6] <= 57 {
            let run = scan_run(b, i + 6);
            Some((TokenKind::Reroll, mk_cap(run.0, run.1, run.2, Ghost(s), Ghost(i + 6)), run.0))
        } else if i + 1 < n && 48 <= b[i + 1] && b[i + 1] <= 57 {
            let run = scan_run(b, i + 1);
            Some((TokenKind::Reroll, mk_cap(run.0, run.1, run.2, Ghost(s), Ghost(i + 1)), run.0))
        } else {
            None
        }
    } else if c == 43 || c == 45 {
        if i + 1 < n && 48 <= b[i + 1] && b[i + 1] <= 57 {
            let run = scan_run(b, i + 1);
            proof {
                lemma_run_end(s, i as int + 1);
                lemma_run_val_nonneg(s, i as int + 1, run.0 as int);
            }
            let cap = mk_cap_signed(c == 45, run.0, run.1, run.2, Ghost(s), Ghost(i + 1));
            Some((TokenKind::Modifier, cap, run.0))
        } else {
            None
        }
    } else {
        None
    }
}

/// Match a whole normalized expression against the grammar.
pub fn parse_fields(b: &Vec<u8>) -> (r: Option<ParsedFields>)
    ensures
        r == spec_parse(b@),
{
    let ghost s = b@;
    let n = b.len();
    let mut f = ParsedFields {
        repeat1: Cap::Missing,
        num_dice: Cap::Missing,
        dice_size: Cap::Missing,
        drop_lowest: Cap::Missing,
        drop_highest: Cap::Missing,
        keep_lowest: Cap::Missing,
        keep_highest: Cap::Missing,
        disadvantage: false,
        advantage: false,
        repeat2: Cap::Missing,
        reroll: Cap::Missing,
        modifier: Cap::Missing,
    };
    proof {
        assert(f == ParsedFields::empty());
    }
    let mut i: usize = 0;

    let r0 = scan_run(b, 0);
    if r0.0 > 0 && r0.0 < n && b[r0.0] == 42 {
        f.repeat1 = mk_cap(r0.0, r0.1, r0.2, Ghost(s), Ghost(0int));
        i = r0.0 + 1;
        proof {
            assert(lead_repeat(s) == Some((f.repeat1, i as int)));
        }
    } else {
        proof {
            assert(lead_repeat(s) is None);
        }
    }

    let rg = scan_run(b, i);
    if rg.0 < n && b[rg.0] == 100 && rg.0 + 1 < n && 48 <= b[rg.0 + 1] && b[rg.0 + 1] <= 57 {
        let rs = scan_run(b, rg.0 + 1);
        if rg.0 > i {
            f.num_dice = mk_cap(rg.0, rg.1, rg.2, Ghost(s), Ghost(i as int));
        }
        f.dice_size = mk_cap(rs.0, rs.1, rs.2, Ghost(s), Ghost(rg.0 as int + 1));
        proof {
            assert(dice_group(s, i as int) == Some((f.num_dice, f.dice_size, rs.0 as int)));
        }
        i = rs.0;
    } else {
        proof {
            assert(dice_group(s, i as int) is None);
        }
    }

    proof {
        assert(spec_parse(s) == scan_tokens(s, i as int, f));
    }

    while i < n
        invariant
            i <= n,
            n == s.len(),
            s == b@,
            spec_parse(s) == scan_tokens(s, i as int, f),
        decreases n - i,
    {
        match lex_token_ex(b, i) {
            None => {
                return None;
            },
            Some(t) => {
                let ghost fold = f;
                match t.0 {
                    TokenKind::DropLowest => {
                        f.drop_lowest = t.1;
                    },
                    TokenKind::DropHighest => {
                        f.drop_highest = t.1;
                    },
                    TokenKind::KeepLowest => {
                        f.keep_lowest = t.1;
                    },
                    TokenKind::KeepHighest => {
                        f.keep_highest = t.1;
                    },
                    TokenKind::Disadvantage => {
                        f.disadvantage = true;
                    },
                    TokenKind::Advantage => {
                        f.advantage = true;
                    },
                    TokenKind::Repeat => {
                        f.repeat2 = t.1;
                    },
                    TokenKind::Reroll => {
                        f.reroll = t.1;
                    },
                    TokenKind::Modifier => {
                        f.modifier = t.1;
                    },
                }
                proof {
                    assert(f == apply_token(fold, t.0, t.1));
                }
                i = t.2;
            },
        }
    }
    Some(f)
}

/// Normalize an expression's bytes: remove spaces, lowercase ASCII letters.
pub fn normalize(b: &Vec<u8>) -> (out: Vec<u8>)
    ensures
        out@ == normalize_spec(b@),
{
    let n = b.len();
    let mut out: Vec<u8> = Vec::new();
    let mut i: usize = 0;
    while i < n
        invariant
            i <= n,
            n == b@.len(),
            out@ == normalize_spec(b@.take(i as int)),
        decreases n - i,
    {
        let c = b[i];
        proof {
            assert(b@.take(i as int + 1).drop_last() =~= b@.take(i as int));
            assert(b@.take(i as int + 1).last() == b@[i as int]);
        }
        if c != 32 {
            if 65 <= c && c <= 90 {
                out.push(c + 32);
            } else {
                out.push(c);
            }
        }
        i = i + 1;
    }
    proof {
        assert(b@.take(n as int) == b@);
    }
    out
}

/// The field's captured value, or the default where it is absent or did not
/// fit.
fn cap_or_ex(c: Cap, d: i32) -> (r: i32)
    ensures
        r == cap_or(c, d),
{
    match c {
        Cap::Val(v) => v,
        _ => d,
    }
}

/// The first selection capture, in priority order, whose amount is usable.
fn pick_selection(f: &ParsedFields, nd: i32) -> (r: Option<Selection>)
    requires
        nd >= 1,
    ensures
        r == spec_selection(*f, nd),
{
    if let Cap::Val(v) = f.drop_lowest {
        if 1 <= v && v <= nd - 1 {
            return Some(
                Selection { action: DropOrKeep::Drop, condition: MarkCondition::Lowest, amount: v },
            );
        }
    }
    if let Cap::Val(v) = f.drop_highest {
        if 1 <= v && v <= nd - 1 {
            return Some(
                Selection { action: DropOrKeep::Drop, condition: MarkCondition::Highest, amount: v },
            );
        }
    }
    if let Cap::Val(v) = f.keep_lowest {
        if 1 <= v && v <= nd - 1 {
            return Some(
                Selection { action: DropOrKeep::Keep, condition: MarkCondition::Lowest, amount: v },
            );
        }
    }
    if let Cap::Val(v) = f.keep_highest {
        if 1 <= v && v <= nd - 1 {
            return Some(
                Selection { action: DropOrKeep::Keep, condition: MarkCondition::Highest, amount: v },
            );
        }
    }
    None
}

/// Resolve raw captures into the validated parameter set, or reject.
pub fn resolve(f: &ParsedFields) -> (r: Option<RollParams>)
    ensures
        r == spec_resolve(*f),
{
    let no_dice = match f.dice_size {
        Cap::Missing => true,
        _ => false,
    };
    let no_modifier = match f.modifier {
        Cap::Missing => true,
        _ => false,
    };
    if no_dice && no_modifier {
        return None;
    }
    let dice_size = cap_or_ex(f.dice_size, 20);
    if dice_size <= 0 {
        return None;
    }
    let nd_raw = cap_or_ex(f.num_dice, 1);
    let nd0 = if nd_raw < 1 {
        1
    } else if nd_raw > 100 {
        100
    } else {
        nd_raw
    };
    let forced = f.advantage || f.disadvantage;
    let r1 = cap_or_ex(f.repeat1, 1);
    let r2 = cap_or_ex(f.repeat2, 1);
    let rep_raw = if r1 >= r2 {
        r1
    } else {
        r2
    };
    let repeat = if rep_raw < 1 {
        1
    } else if rep_raw > 20 {
        20
    } else {
        rep_raw
    };
    Some(
        RollParams {
            num_dice: if forced {
                1
            } else {
                nd0
            },
            dice_size,
            advantage: f.advantage,
            disadvantage: f.disadvantage,
            reroll: cap_or_ex(f.reroll, 0),
            modifier: cap_or_ex(f.modifier, 0),
            repeat,
            selection: pick_selection(f, nd0),
        },
    )
}

/// Resolve a raw expression end to end: normalize its text, match it against
/// the grammar, and validate the captures.
pub fn resolve_expression(expression: &str) -> (r: Option<RollParams>)
    ensures
        r == spec_params(expression.spec_bytes()),
{
    let bytes = expression.as_bytes_vec();
    let norm = normalize(&bytes);
    match parse_fields(&norm) {
        None => None,
        Some(f) => resolve(&f),
    }
}

} // verus!
