//! Evaluation of a whole dice expression: roll the dice the resolved
//! parameters ask for, and render the annotated result text.
//!
//! The output markup is fixed: `**text**` for emphasis (the winning side of
//! advantage or disadvantage, and sums), `~~text~~` for struck-through rolls
//! (dropped by a selection rule, or a discarded reroll), one glyph per die
//! value, rolls joined by `" + "`, one line per repetition, and a final
//! `Total:` line when the expression repeats.

use crate::digits::dec_int;
use crate::digits::dec_nat;
use crate::digits::i64_dec_string;
use crate::digits::u64_dec_string;
use crate::parse::params_wf;
use crate::parse::resolve_expression;
use crate::parse::spec_params;
use crate::parse::DropOrKeep;
use crate::parse::RollParams;
use crate::util::format_roll;
use crate::util::mark_rolls;
use crate::util::roll;
use crate::util::roll_wf;
use crate::util::spec_format_roll;
use crate::util::spec_mark;
use crate::util::Roll;
use vstd::prelude::*;
use vstd::string::StrSliceExecFns;
use vstd::string::StringExecFns;
use vstd::string::StringSliceAdditionalSpecFns;

verus! {

/// Emphasis markup around a piece of text.
pub open spec fn emph(x: Seq<char>) -> Seq<char> {
    "**"@ + x + "**"@
}

/// The larger of two values.
pub open spec fn max2(a: int, b: int) -> int {
    if a >= b {
        a
    } else {
        b
    }
}

/// The smaller of two values.
pub open spec fn min2(a: int, b: int) -> int {
    if a <= b {
        a
    } else {
        b
    }
}

/// The suffix restating the modifier: nothing at zero, the signed amount
/// otherwise.
pub open spec fn modifier_suffix(m: int) -> Seq<char> {
    if m > 0 {
        " + "@ + dec_nat(m)
    } else if m < 0 {
        " − "@ + dec_nat(-m)
    } else {
        Seq::empty()
    }
}

/// How many dice one repetition rolls: always exactly two under advantage or
/// disadvantage, the resolved dice count otherwise.
pub open spec fn rolls_per_iter(p: RollParams) -> int {
    if p.advantage || p.disadvantage {
        2
    } else {
        p.num_dice as int
    }
}

/// The values of a roll group, in rolled order.
pub open spec fn values_of(rs: Seq<Roll>) -> Seq<i32> {
    rs.map_values(|r: Roll| r.value)
}

/// Which rolls of a group are displayed struck through and left out of the
/// sum: under a drop selection the marked ones, under a keep selection the
/// unmarked ones, and none without a selection.
pub open spec fn struck_flags(p: RollParams, rs: Seq<Roll>) -> Seq<bool> {
    match p.selection {
        Some(sel) => {
            let marks = spec_mark(values_of(rs), sel.amount as int, sel.condition);
            Seq::new(rs.len(), |i: int| if sel.action is Drop {
                marks[i]
            } else {
                !marks[i]
            })
        },
        None => Seq::new(rs.len(), |i: int| false),
    }
}

/// All rolls of a group rendered in rolled order, joined by `" + "`.
pub open spec fn join_rolls(rs: Seq<Roll>, flags: Seq<bool>) -> Seq<char>
    decreases rs.len(),
{
    if rs.len() == 0 {
        Seq::empty()
    } else if rs.len() == 1 {
        spec_format_roll(rs[0], flags[0])
    } else {
        join_rolls(rs.drop_last(), flags.drop_last()) + " + "@ + spec_format_roll(
            rs.last(),
            flags[rs.len() - 1],
        )
    }
}

/// The sum of the values of the rolls not struck through.
pub open spec fn sum_unstruck(rs: Seq<Roll>, flags: Seq<bool>) -> int
    decreases rs.len(),
{
    if rs.len() == 0 {
        0
    } else {
        sum_unstruck(rs.drop_last(), flags.drop_last()) + if flags[rs.len() - 1] {
            0
        } else {
            rs.last().value as int
        }
    }
}

/// What one repetition adds to the grand total: the chosen die under
/// advantage or disadvantage, the lone die's value for a plain single roll,
/// and the modifier plus the unstruck values otherwise.
pub open spec fn iter_sum(p: RollParams, rs: Seq<Roll>) -> int {
    if p.advantage || p.disadvantage {
        p.modifier + if p.advantage {
            max2(rs[0].value as int, rs[1].value as int)
        } else {
            min2(rs[0].value as int, rs[1].value as int)
        }
    } else if p.modifier == 0 && p.num_dice == 1 {
        rs[0].value as int
    } else {
        p.modifier + sum_unstruck(rs, struck_flags(p, rs))
    }
}

/// The two rolls of an advantage or disadvantage repetition side by side,
/// the chosen one emphasized; neither is emphasized on an exact tie.
pub open spec fn adv_pair(p: RollParams, rs: Seq<Roll>) -> Seq<char> {
    let s1 = spec_format_roll(rs[0], false);
    let s2 = spec_format_roll(rs[1], false);
    if rs[0].value == rs[1].value {
        s1 + " / "@ + s2
    } else if (p.advantage && rs[0].value > rs[1].value) || (p.disadvantage
        && rs[0].value < rs[1].value) {
        emph(s1) + " / "@ + s2
    } else {
        s1 + " / "@ + emph(s2)
    }
}

/// One repetition's rendered line.  Under advantage or disadvantage the two
/// dice are shown side by side and any selection goes unapplied; a lone
/// unmodified die shows just its glyph; otherwise the rolls are joined, the
/// selection's strikes applied, and the sum appended.
pub open spec fn iter_render(p: RollParams, rs: Seq<Roll>) -> Seq<char> {
    if p.advantage || p.disadvantage {
        adv_pair(p, rs) + modifier_suffix(p.modifier as int) + " → "@ + emph(dec_int(iter_sum(p, rs)))
    } else if p.modifier == 0 && p.num_dice == 1 {
        spec_format_roll(rs[0], false)
    } else {
        join_rolls(rs, struck_flags(p, rs)) + modifier_suffix(p.modifier as int) + " → "@ + emph(
            dec_int(iter_sum(p, rs)),
        )
    }
}

/// All repetition lines, joined by newlines.
pub open spec fn iters_render(p: RollParams, its: Seq<Seq<Roll>>) -> Seq<char>
    decreases its.len(),
{
    if its.len() == 0 {
        Seq::empty()
    } else if its.len() == 1 {
        iter_render(p, its[0])
    } else {
        iters_render(p, its.drop_last()) + "\n"@ + iter_render(p, its.last())
    }
}

/// The grand total over all repetitions.
pub open spec fn iters_sum(p: RollParams, its: Seq<Seq<Roll>>) -> int
    decreases its.len(),
{
    if its.len() == 0 {
        0
    } else {
        iters_sum(p, its.drop_last()) + iter_sum(p, its.last())
    }
}

/// The readable restatement of the parameters an expression resolved to,
/// such as `4d6 + 2 with advantage, rerolling 1s, dropping lowest roll,
/// repeating 6 times`.
pub open spec fn normalized(p: RollParams) -> Seq<char> {
    dec_nat(p.num_dice as int) + "d"@ + dec_nat(p.dice_size as int) + modifier_suffix(
        p.modifier as int,
    ) + adv_str(p) + reroll_str(p.reroll as int) + dropkeep_str(p) + repeat_str(p.repeat as int)
}

/// `" with advantage"` or `" with disadvantage"`, disadvantage winning when
/// both keywords occurred.
pub open spec fn adv_str(p: RollParams) -> Seq<char> {
    if p.disadvantage {
        " with disadvantage"@
    } else if p.advantage {
        " with advantage"@
    } else {
        Seq::empty()
    }
}

/// The face list a reroll threshold restates: `1s/2s/.../ks`.
pub open spec fn reroll_list(k: int) -> Seq<char>
    decreases k,
{
    if k <= 1 {
        dec_nat(1) + "s"@
    } else {
        reroll_list(k - 1) + "/"@ + dec_nat(k) + "s"@
    }
}

/// The reroll clause of the restatement, when a threshold is set.
pub open spec fn reroll_str(k: int) -> Seq<char> {
    if k > 0 {
        ", rerolling "@ + reroll_list(k)
    } else {
        Seq::empty()
    }
}

/// The drop/keep clause of the restatement, when a selection is active.
pub open spec fn dropkeep_str(p: RollParams) -> Seq<char> {
    match p.selection {
        Some(sel) => {
            let action = if sel.action is Drop {
                "dropping"@
            } else {
                "keeping"@
            };
            let cond = match sel.condition {
                crate::util::MarkCondition::Highest => "highest"@,
                crate::util::MarkCondition::Lowest => "lowest"@,
            };
            ", "@ + action + " "@ + cond + (if sel.amount == 1 {
                " roll"@
            } else {
                " "@ + dec_nat(sel.amount as int) + " rolls"@
            })
        },
        None => Seq::empty(),
    }
}

/// The repeat clause of the restatement, when the expression repeats.
pub open spec fn repeat_str(k: int) -> Seq<char> {
    if k > 1 {
        ", repeating "@ + dec_nat(k) + " times"@
    } else {
        Seq::empty()
    }
}

/// The whole output for parameters `p` and the dice that came up: the
/// restatement header, one line per repetition, and a grand total when the
/// expression repeats.
pub open spec fn spec_output(p: RollParams, its: Seq<Seq<Roll>>) -> Seq<char> {
    "Rolling "@ + normalized(p) + ":\n"@ + iters_render(p, its) + (if p.repeat > 1 {
        "\nTotal: "@ + emph(dec_int(iters_sum(p, its)))
    } else {
        Seq::empty()
    })
}

/// One repetition's rolls are the right count of well-formed dice.
pub open spec fn iteration_wf(p: RollParams, rs: Seq<Roll>) -> bool {
    &&& rs.len() == rolls_per_iter(p)
    &&& forall|j: int| 0 <= j < rs.len() ==> roll_wf(#[trigger] rs[j], p.dice_size as int, p.reroll as int)
}

/// The collected repetitions of one evaluation: `repeat` of them, each
/// well-formed.
pub open spec fn iterations_wf(p: RollParams, its: Seq<Seq<Roll>>) -> bool {
    &&& its.len() == p.repeat as int
    &&& forall|q: int| 0 <= q < its.len() ==> iteration_wf(p, #[trigger] its[q])
}

/// The modifier suffix as a string.
fn modifier_suffix_ex(m: i32) -> (s: String)
    ensures
        s@ == modifier_suffix(m as int),
{
    if m > 0 {
        let mut s = String::from_str(" + ");
        s.append(u64_dec_string(m as u64).as_str());
        s
    } else if m < 0 {
        let mag: i64 = -(m as i64);
        let mut s = String::from_str(" − ");
        s.append(u64_dec_string(mag as u64).as_str());
        s
    } else {
        String::new()
    }
}

/// Roll the dice of one repetition: two under advantage or disadvantage, the
/// resolved count otherwise.
fn make_rolls(p: &RollParams) -> (v: Vec<Roll>)
    requires
        params_wf(*p),
    ensures
        iteration_wf(*p, v@),
{
    let count: i32 = if p.advantage || p.disadvantage {
        2
    } else {
        p.num_dice
    };
    let mut v: Vec<Roll> = Vec::new();
    let mut i: i32 = 0;
    while i < count
        invariant
            0 <= i <= count,
            count as int == rolls_per_iter(*p),
            params_wf(*p),
            v@.len() == i as int,
            forall|j: int|
                0 <= j < v@.len() ==> roll_wf(#[trigger] v@[j], p.dice_size as int, p.reroll as int),
        decreases count - i,
    {
        v.push(roll(p.dice_size, p.reroll));
        i = i + 1;
    }
    v
}

/// Render one repetition: its line of text and what it adds to the total.
fn render_iteration(p: &RollParams, rolls: &Vec<Roll>) -> (out: (String, i64))
    requires
        params_wf(*p),
        rolls@.len() == rolls_per_iter(*p),
    ensures
        out.0@ == iter_render(*p, rolls@),
        out.1 == iter_sum(*p, rolls@),
        -250_000_000_000 <= out.1 <= 250_000_000_000,
{
    if p.advantage || p.disadvantage {
        let r1 = rolls[0].value;
        let r2 = rolls[1].value;
        let s1 = format_roll(&rolls[0], false);
        let s2 = format_roll(&rolls[1], false);
        let chosen: i32 = if p.advantage {
            if r1 >= r2 {
                r1
            } else {
                r2
            }
        } else {
            if r1 <= r2 {
                r1
            } else {
                r2
            }
        };
        let sum: i64 = p.modifier as i64 + chosen as i64;
        let mut line = String::new();
        if r1 == r2 {
            line.append(s1.as_str());
            line.append(" / ");
            line.append(s2.as_str());
        } else if (p.advantage && r1 > r2) || (p.disadvantage && r1 < r2) {
            line.append("**");
            line.append(s1.as_str());
            line.append("**");
            line.append(" / ");
            line.append(s2.as_str());
        } else {
            line.append(s1.as_str());
            line.append(" / ");
            line.append("**");
            line.append(s2.as_str());
            line.append("**");
        }
        line.append(modifier_suffix_ex(p.modifier).as_str());
        line.append(" → ");
        line.append("**");
        line.append(i64_dec_string(sum).as_str());
        line.append("**");
        proof {
            assert(line@ =~= iter_render(*p, rolls@));
        }
        (line, sum)
    } else if p.modifier == 0 && p.num_dice == 1 {
        (format_roll(&rolls[0], false), rolls[0].value as i64)
    } else {
        let n = rolls.len();
        let mut values: Vec<i32> = Vec::new();
        let mut i: usize = 0;
        while i < n
            invariant
                i <= n,
                n == rolls@.len(),
                values@.len() == i as int,
                forall|j: int| 0 <= j < i ==> values@[j] == (#[trigger] rolls@[j]).value,
            decreases n - i,
        {
            values.push(rolls[i].value);
            i = i + 1;
        }
        proof {
            assert(values@ =~= values_of(rolls@));
        }
        let mut flags: Vec<bool> = Vec::new();
        match p.selection {
            Some(sel) => {
                let marks = mark_rolls(&values, sel.amount, sel.condition);
                let mut j: usize = 0;
                while j < n
                    invariant
                        j <= n,
                        n == rolls@.len(),
                        marks@ == spec_mark(values_of(rolls@), sel.amount as int, sel.condition),
                        marks@.len() == n,
                        p.selection == Some(sel),
                        flags@.len() == j as int,
                        forall|x: int|
                            0 <= x < j ==> flags@[x] == (if sel.action is Drop {
                                marks@[x]
                            } else {
                                !marks@[x]
                            }),
                    decreases n - j,
                {
                    let fl = match sel.action {
                        DropOrKeep::Drop => marks[j],
                        DropOrKeep::Keep => !marks[j],
                    };
                    flags.push(fl);
                    j = j + 1;
                }
            },
            None => {
                let mut j: usize = 0;
                while j < n
                    invariant
                        j <= n,
                        flags@.len() == j as int,
                        forall|x: int| 0 <= x < j ==> !(#[trigger] flags@[x]),
                    decreases n - j,
                {
                    flags.push(false);
                    j = j + 1;
                }
            },
        }
        proof {
            assert(flags@ =~= struck_flags(*p, rolls@));
        }
        let ghost sf = struck_flags(*p, rolls@);
        let mut text = String::new();
        let mut sum: i64 = p.modifier as i64;
        let mut i2: usize = 0;
        while i2 < n
            invariant
                i2 <= n,
                n == rolls@.len(),
                n <= 100,
                flags@ == sf,
                flags@.len() == n,
                text@ == join_rolls(rolls@.take(i2 as int), sf.take(i2 as int)),
                sum == p.modifier + sum_unstruck(rolls@.take(i2 as int), sf.take(i2 as int)),
                p.modifier - i2 * 0x8000_0000 <= sum <= p.modifier + i2 * 0x7fff_ffff,
            decreases n - i2,
        {
            proof {
                assert(rolls@.take(i2 as int + 1).drop_last() =~= rolls@.take(i2 as int));
                assert(sf.take(i2 as int + 1).drop_last() =~= sf.take(i2 as int));
                assert(rolls@.take(i2 as int + 1).last() == rolls@[i2 as int]);
                assert(sf.take(i2 as int + 1).last() == sf[i2 as int]);
            }
            if i2 > 0 {
                text.append(" + ");
            }
            let fr = format_roll(&rolls[i2], flags[i2]);
            text.append(fr.as_str());
            if !flags[i2] {
                sum = sum + rolls[i2].value as i64;
            }
            proof {
                assert(text@ =~= join_rolls(rolls@.take(i2 as int + 1), sf.take(i2 as int + 1)));
            }
            i2 = i2 + 1;
        }
        proof {
            assert(rolls@.take(n as int) == rolls@);
            assert(sf.take(n as int) == sf);
        }
        let mut line = text;
        line.append(modifier_suffix_ex(p.modifier).as_str());
        line.append(" → ");
        line.append("**");
        line.append(i64_dec_string(sum).as_str());
        line.append("**");
        proof {
            assert(line@ =~= iter_render(*p, rolls@));
        }
        (line, sum)
    }
}

/// The readable restatement of the resolved parameters, as a string.
#[verifier::rlimit(100)]
fn normalized_ex(p: &RollParams) -> (s: String)
    requires
        params_wf(*p),
    ensures
        s@ == normalized(*p),
{
    let mut s = u64_dec_string(p.num_dice as u64);
    s.append("d");
    s.append(u64_dec_string(p.dice_size as u64).as_str());
    s.append(modifier_suffix_ex(p.modifier).as_str());
    proof {
        assert(s@ =~= dec_nat(p.num_dice as int) + "d"@ + dec_nat(p.dice_size as int)
            + modifier_suffix(p.modifier as int));
    }
    if p.disadvantage {
        s.append(" with disadvantage");
    } else if p.advantage {
        s.append(" with advantage");
    }
    proof {
        assert(s@ =~= dec_nat(p.num_dice as int) + "d"@ + dec_nat(p.dice_size as int)
            + modifier_suffix(p.modifier as int) + adv_str(*p));
    }
    if p.reroll > 0 {
        s.append(", rerolling ");
        let mut lst = u64_dec_string(1);
        lst.append("s");
        let mut k: i32 = 1;
        while k < p.reroll
            invariant
                1 <= k <= p.reroll,
                lst@ == reroll_list(k as int),
            decreases p.reroll - k,
        {
            k = k + 1;
            lst.append("/");
            lst.append(u64_dec_string(k as u64).as_str());
            lst.append("s");
            proof {
                assert(lst@ =~= reroll_list(k as int));
            }
        }
        s.append(lst.as_str());
    }
    proof {
        assert(s@ =~= dec_nat(p.num_dice as int) + "d"@ + dec_nat(p.dice_size as int)
            + modifier_suffix(p.modifier as int) + adv_str(*p) + reroll_str(p.reroll as int));
    }
    if let Some(sel) = p.selection {
        s.append(", ");
        match sel.action {
            DropOrKeep::Drop => s.append("dropping"),
            DropOrKeep::Keep => s.append("keeping"),
        }
        s.append(" ");
        match sel.condition {
            crate::util::MarkCondition::Highest => s.append("highest"),
            crate::util::MarkCondition::Lowest => s.append("lowest"),
        }
        if sel.amount == 1 {
            s.append(" roll");
        } else {
            s.append(" ");
            s.append(u64_dec_string(sel.amount as u64).as_str());
            s.append(" rolls");
        }
    }
    proof {
        assert(s@ =~= dec_nat(p.num_dice as int) + "d"@ + dec_nat(p.dice_size as int)
            + modifier_suffix(p.modifier as int) + adv_str(*p) + reroll_str(p.reroll as int)
            + dropkeep_str(*p));
    }
    if p.repeat > 1 {
        s.append(", repeating ");
        s.append(u64_dec_string(p.repeat as u64).as_str());
        s.append(" times");
    }
    proof {
        assert(s@ =~= normalized(*p));
    }
    s
}

/// Evaluate one line of text as a dice expression.  The result is the
/// rendered roll report when the text is one, and nothing at all otherwise —
/// whatever dice come up, the output is the exact rendering of some
/// well-formed set of rolls for the resolved parameters.
pub fn eval_dice_expression(expression: &str) -> (r: Option<String>)
    ensures
        match spec_params(expression.spec_bytes()) {
            None => r is None,
            Some(p) => match r {
                Some(out) => exists|its: Seq<Seq<Roll>>|
                    iterations_wf(p, its) && out@ == spec_output(p, its),
                None => false,
            },
        },
{
    let params = resolve_expression(expression);
    match params {
        None => None,
        Some(p) => {
            proof {
                crate::parse::lemma_resolved_params_in_range(expression.spec_bytes());
            }
            let ghost mut its: Seq<Seq<Roll>> = Seq::empty();
            let mut body = String::new();
            let mut total: i64 = 0;
            let mut q: i32 = 0;
            while q < p.repeat
                invariant
                    0 <= q <= p.repeat,
                    params_wf(p),
                    its.len() == q as int,
                    forall|x: int| 0 <= x < its.len() ==> iteration_wf(p, #[trigger] its[x]),
                    body@ == iters_render(p, its),
                    total == iters_sum(p, its),
                    -250_000_000_000 * its.len() <= total <= 250_000_000_000 * its.len(),
                decreases p.repeat - q,
            {
                let rolls = make_rolls(&p);
                let out = render_iteration(&p, &rolls);
                if q > 0 {
                    body.append("\n");
                }
                body.append(out.0.as_str());
                total = total + out.1;
                proof {
                    let its2 = its.push(rolls@);
                    assert(its2.drop_last() =~= its);
                    assert(its2.last() == rolls@);
                    its = its2;
                    assert(body@ =~= iters_render(p, its));
                }
                q = q + 1;
            }
            let mut s = String::from_str("Rolling ");
            s.append(normalized_ex(&p).as_str());
            s.append(":\n");
            s.append(body.as_str());
            if p.repeat > 1 {
                s.append("\nTotal: ");
                s.append("**");
                s.append(i64_dec_string(total).as_str());
                s.append("**");
            }
            proof {
                assert(iterations_wf(p, its));
                assert(s@ =~= spec_output(p, its));
            }
            Some(s)
        },
    }
}

} // verus!
