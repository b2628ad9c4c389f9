//! Dice rolls and extremal selection.
//!
//! A [`Roll`] is one die result together with the discarded first draw when a
//! reroll happened.  [`roll`] produces one, [`mark_rolls`] selects the highest
//! or lowest few of a group, and [`format_roll`] renders one as text.

use rand::Rng;
use vstd::prelude::*;
use vstd::string::StrSliceExecFns;
use vstd::string::StringExecFns;

verus! {

/// One die result.
#[derive(Clone, PartialEq, Eq)]
pub struct Roll {
    /// The value that counts toward scoring: the replacement draw if the die
    /// was rerolled, otherwise the first draw.
    pub value: i32,
    /// The discarded first draw; `Some` exactly when the die was rerolled.
    pub old_value: Option<i32>,
}

/// What a roll produced by `roll(dice_size, reroll)` looks like: the scoring
/// value is a die face, and the discarded draw, when present, is a die face
/// at or below the reroll threshold; when absent, the scoring value itself
/// was above the threshold.
pub open spec fn roll_wf(r: Roll, dice_size: int, reroll: int) -> bool {
    &&& 1 <= r.value <= dice_size
    &&& match r.old_value {
        Some(ov) => 1 <= ov <= dice_size && ov <= reroll,
        None => r.value > reroll,
    }
}

/// Relies on `rand::Rng::gen_range` on `rand::thread_rng()`: a uniform value
/// in `1..=dice_size`; it panics only on an empty range, which the
/// precondition rules out.
#[verifier::external_body]
fn draw(dice_size: i32) -> (r: i32)
    requires
        dice_size >= 1,
    ensures
        1 <= r <= dice_size,
{
    rand::thread_rng().gen_range(1..=dice_size)
}

/// Roll one die of `dice_size` faces.  If the first draw is at or below
/// `reroll_if_less_than_or_equal_to`, draw exactly once more and score the
/// replacement, keeping the first draw as `old_value`; no cascading rerolls.
pub fn roll(dice_size: i32, reroll_if_less_than_or_equal_to: i32) -> (r: Roll)
    requires
        dice_size >= 1,
    ensures
        roll_wf(r, dice_size as int, reroll_if_less_than_or_equal_to as int),
{
    let roll1 = draw(dice_size);
    if roll1 <= reroll_if_less_than_or_equal_to {
        let replacement_roll = draw(dice_size);
        Roll { value: replacement_roll, old_value: Some(roll1) }
    } else {
        Roll { value: roll1, old_value: None }
    }
}

/// Whether the highest or the lowest rolls of a group are the ones marked.
#[derive(Copy, Clone, PartialEq, Eq, Structural, Debug)]
pub enum MarkCondition {
    Highest,
    Lowest,
}

/// Under `cond`, value `a` beats value `b` strictly: greater for `Highest`,
/// smaller for `Lowest`.  Ties never count as better.
pub open spec fn strictly_better(cond: MarkCondition, a: int, b: int) -> bool {
    match cond {
        MarkCondition::Highest => a > b,
        MarkCondition::Lowest => a < b,
    }
}

/// The frontier is the working set of currently selected rolls, kept as a
/// sequence of slots `(index, value)`.  `worst_upto(f, cond, n)` is the slot,
/// among the first `n`, of the frontier's weakest member: the minimum value
/// for `Highest`, the maximum for `Lowest`.  Among equal-valued weakest
/// members the one holding the largest roll index is chosen, so that
/// eviction always discards the latest-rolled of them and earlier rolls win
/// ties.
pub open spec fn worst_upto(f: Seq<(int, int)>, cond: MarkCondition, n: int) -> int
    decreases n,
{
    if n <= 1 {
        0
    } else {
        let w = worst_upto(f, cond, n - 1);
        let weaker = match cond {
            MarkCondition::Highest => f[n - 1].1 < f[w].1,
            MarkCondition::Lowest => f[n - 1].1 > f[w].1,
        };
        if weaker || (f[n - 1].1 == f[w].1 && f[n - 1].0 > f[w].0) {
            n - 1
        } else {
            w
        }
    }
}

/// The weakest slot lies among the first `n`, no slot there beats it
/// downward — every other member is at least as good — and among the members
/// that share its value it holds the largest roll index.
proof fn lemma_worst_upto(f: Seq<(int, int)>, cond: MarkCondition, n: int)
    requires
        1 <= n <= f.len(),
    ensures
        0 <= worst_upto(f, cond, n) < n,
        forall|s: int|
            0 <= s < n ==> !strictly_better(cond, f[worst_upto(f, cond, n)].1, #[trigger] f[s].1),
        forall|s: int|
            0 <= s < n && (#[trigger] f[s]).1 == f[worst_upto(f, cond, n)].1 ==> f[s].0 <= f[
                worst_upto(f, cond, n)
            ].0,
    decreases n,
{
    if n > 1 {
        lemma_worst_upto(f, cond, n - 1);
    }
}

/// The frontier is seeded with the first `k` rolls, one per slot.
pub open spec fn init_frontier(values: Seq<i32>, k: int) -> Seq<(int, int)> {
    Seq::new(k as nat, |s: int| (s, values[s] as int))
}

/// One scan step: if the incoming roll `(i, v)` strictly beats the weakest
/// frontier member, that member — the latest-rolled among equal-valued
/// weakest ones — is evicted and the incoming roll takes its slot; on a tie
/// or worse the frontier is unchanged.
pub open spec fn step_frontier(f: Seq<(int, int)>, cond: MarkCondition, i: int, v: int) -> Seq<
    (int, int),
> {
    let w = worst_upto(f, cond, f.len() as int);
    if strictly_better(cond, v, f[w].1) {
        f.update(w, (i, v))
    } else {
        f
    }
}

/// The frontier after the first `t` rolls have been considered.
pub open spec fn frontier(values: Seq<i32>, k: int, cond: MarkCondition, t: int) -> Seq<(int, int)>
    decreases t,
        when 0 <= k
{
    if t <= k {
        init_frontier(values, k)
    } else {
        step_frontier(frontier(values, k, cond, t - 1), cond, t - 1, values[t - 1] as int)
    }
}

/// Whether roll index `i` sits in some slot of the frontier.
pub open spec fn in_frontier(f: Seq<(int, int)>, i: int) -> bool {
    exists|s: int| 0 <= s < f.len() && f[s].0 == i
}

/// The mark vector: one boolean per roll, true exactly for the rolls that end
/// up in the frontier after the whole group has been scanned.
pub open spec fn spec_mark(values: Seq<i32>, k: int, cond: MarkCondition) -> Seq<bool> {
    Seq::new(values.len(), |i: int| in_frontier(frontier(values, k, cond, values.len() as int), i))
}

/// What always holds of the frontier after `t` rolls: it has `k` slots filled
/// with distinct roll indices seen so far, each slot carries that roll's
/// value, no roll left outside strictly beats any member, and a roll left
/// outside with a member's exact value was rolled after that member —
/// earlier rolls win ties.
pub open spec fn frontier_inv(values: Seq<i32>, k: int, cond: MarkCondition, t: int) -> bool {
    let f = frontier(values, k, cond, t);
    &&& f.len() == k
    &&& (forall|s: int| 0 <= s < k ==> 0 <= (#[trigger] f[s]).0 < t && f[s].1 == values[f[s].0] as int)
    &&& (forall|s1: int, s2: int| 0 <= s1 < k && 0 <= s2 < k && s1 != s2 ==> (#[trigger] f[s1]).0 != (#[trigger] f[s2]).0)
    &&& (forall|j: int, s: int|
        #![trigger values[j], f[s]]
        0 <= j < t && 0 <= s < k && !in_frontier(f, j) ==> !strictly_better(
            cond,
            values[j] as int,
            f[s].1,
        ))
    &&& (forall|j: int, s: int|
        #![trigger values[j], f[s]]
        0 <= j < t && 0 <= s < k && !in_frontier(f, j) && values[j] as int == f[s].1 ==> f[s].0
            < j)
}

proof fn lemma_frontier_inv(values: Seq<i32>, k: int, cond: MarkCondition, t: int)
    requires
        1 <= k <= t <= values.len(),
    ensures
        frontier_inv(values, k, cond, t),
    decreases t,
{
    if t == k {
        let f = frontier(values, k, cond, t);
        assert(f =~= init_frontier(values, k));
        assert forall|j: int| 0 <= j < t implies in_frontier(f, j) by {
            assert(f[j].0 == j);
        }
    } else {
        lemma_frontier_inv(values, k, cond, t - 1);
        let f0 = frontier(values, k, cond, t - 1);
        lemma_worst_upto(f0, cond, k);
        let w = worst_upto(f0, cond, f0.len() as int);
        let v = values[t - 1] as int;
        let f1 = frontier(values, k, cond, t);
        if strictly_better(cond, v, f0[w].1) {
            assert(f1 =~= f0.update(w, (t - 1, v)));
            assert forall|j: int, s: int|
                0 <= j < t && 0 <= s < k && !in_frontier(f1, j) implies !strictly_better(
                cond,
                values[j] as int,
                f1[s].1,
            ) by {
                assert(f1[w].0 == t - 1);
                if j == f0[w].0 {
                    // The evicted member: the rest of the frontier was at
                    // least as good as it, and the newcomer strictly beats it.
                    assert(f1[s].1 == if s == w {
                        v
                    } else {
                        f0[s].1
                    });
                } else {
                    // A roll that already sat outside the frontier.
                    assert(!in_frontier(f0, j)) by {
                        if in_frontier(f0, j) {
                            let s0 = choose|s0: int| 0 <= s0 < f0.len() && f0[s0].0 == j;
                            assert(s0 != w);
                            assert(f1[s0].0 == j);
                        }
                    }
                    assert(!strictly_better(cond, values[j] as int, f0[s].1));
                    assert(!strictly_better(cond, values[j] as int, f0[w].1));
                }
            }
            assert forall|j: int, s: int|
                0 <= j < t && 0 <= s < k && !in_frontier(f1, j) && values[j] as int == f1[s].1
                implies f1[s].0 < j by {
                assert(f1[w].0 == t - 1);
                if j == f0[w].0 {
                    // The evicted member: every kept member sharing its value
                    // was rolled earlier, since the weakest slot carried the
                    // largest roll index among them, and the newcomer's value
                    // differs strictly.
                    assert(values[j] as int == f0[w].1);
                    if s == w {
                        assert(strictly_better(cond, v, f0[w].1));
                    } else {
                        assert(f0[s].1 == f0[w].1);
                        assert(f0[s].0 <= f0[w].0);
                        assert(f0[s].0 != f0[w].0);
                    }
                } else {
                    assert(!in_frontier(f0, j)) by {
                        if in_frontier(f0, j) {
                            let s0 = choose|s0: int| 0 <= s0 < f0.len() && f0[s0].0 == j;
                            assert(s0 != w);
                            assert(f1[s0].0 == j);
                        }
                    }
                    if s == w {
                        // An old outsider cannot share the newcomer's value:
                        // it does not even beat the old weakest member.
                        assert(!strictly_better(cond, values[j] as int, f0[w].1));
                        assert(strictly_better(cond, v, f0[w].1));
                    } else {
                        assert(values[j] as int == f0[s].1 ==> f0[s].0 < j);
                    }
                }
            }
        } else {
            assert(f1 =~= f0);
            assert forall|j: int, s: int|
                0 <= j < t && 0 <= s < k && !in_frontier(f1, j) implies !strictly_better(
                cond,
                values[j] as int,
                f1[s].1,
            ) by {
                if j == t - 1 {
                    assert(!strictly_better(cond, v, f0[w].1));
                    assert(!strictly_better(cond, f0[w].1, f0[s].1));
                }
            }
            assert forall|j: int, s: int|
                0 <= j < t && 0 <= s < k && !in_frontier(f1, j) && values[j] as int == f1[s].1
                implies f1[s].0 < j by {
                if j == t - 1 {
                    assert(f0[s].0 < t - 1);
                } else {
                    assert(values[j] as int == f0[s].1 ==> f0[s].0 < j);
                }
            }
        }
    }
}

/// The set of indices a mark vector marks true.
pub open spec fn marked_set(m: Seq<bool>) -> Set<int> {
    Set::new(|i: int| 0 <= i < m.len() && m[i])
}

/// Marking a group selects exactly `k` of its rolls: the mark vector has one
/// entry per roll and the indices marked true form a finite set of
/// cardinality `k`, under either condition.
pub proof fn lemma_mark_count(values: Seq<i32>, k: int, cond: MarkCondition)
    requires
        1 <= k < values.len(),
    ensures
        spec_mark(values, k, cond).len() == values.len(),
        marked_set(spec_mark(values, k, cond)).finite(),
        marked_set(spec_mark(values, k, cond)).len() == k,
{
    broadcast use vstd::seq_lib::seq_to_set_is_finite;

    let n = values.len() as int;
    lemma_frontier_inv(values, k, cond, n);
    let f = frontier(values, k, cond, n);
    let idxs = Seq::new(k as nat, |s: int| f[s].0);
    assert(idxs.no_duplicates()) by {
        assert forall|s1: int, s2: int|
            0 <= s1 < idxs.len() && 0 <= s2 < idxs.len() && s1 != s2 implies idxs[s1] != idxs[s2] by {
            assert(f[s1].0 != f[s2].0);
        }
    }
    idxs.unique_seq_to_set();
    assert(marked_set(spec_mark(values, k, cond)) =~= idxs.to_set()) by {
        assert forall|i: int| #[trigger]
            marked_set(spec_mark(values, k, cond)).contains(i) implies idxs.to_set().contains(
            i,
        ) by {
            let s = choose|s: int| 0 <= s < f.len() && f[s].0 == i;
            assert(idxs[s] == i);
        }
        assert forall|i: int| #[trigger] idxs.to_set().contains(i) implies marked_set(
            spec_mark(values, k, cond),
        ).contains(i) by {
            let s = choose|s: int| 0 <= s < idxs.len() && idxs[s] == i;
            assert(f[s].0 == i);
            assert(0 <= i < n);
            assert(in_frontier(f, i));
        }
    }
}

/// Earlier rolls always win ties: whenever a roll is marked and an
/// equal-valued roll is not, the marked one came first, under either
/// condition.  An incoming equal never displaces a held member, and when a
/// strictly better roll forces an eviction, the latest-rolled of the
/// equal-valued weakest members is the one discarded.
pub proof fn lemma_mark_earlier_wins_ties(values: Seq<i32>, k: int, cond: MarkCondition)
    requires
        1 <= k < values.len(),
    ensures
        forall|i: int, j: int|
            #![trigger spec_mark(values, k, cond)[i], spec_mark(values, k, cond)[j]]
            0 <= i < values.len() && 0 <= j < values.len() && spec_mark(values, k, cond)[i]
                && !spec_mark(values, k, cond)[j] && values[i] == values[j] ==> i < j,
{
    let n = values.len() as int;
    lemma_frontier_inv(values, k, cond, n);
    let f = frontier(values, k, cond, n);
    assert forall|i: int, j: int|
        0 <= i < n && 0 <= j < n && spec_mark(values, k, cond)[i] && !spec_mark(values, k, cond)[j]
            && values[i] == values[j] implies i < j by {
        let s = choose|s: int| 0 <= s < f.len() && f[s].0 == i;
        assert(f[s].1 == values[i] as int);
        assert(values[j] as int == f[s].1);
        assert(f[s].0 < j);
    }
}

/// Marking the `k` highest and the `k` lowest of the same group never marks a
/// common roll, provided the values are pairwise distinct and the two marked
/// groups fit side by side (`2 * k` no more than the group size).  With ties,
/// or with `2 * k` above the group size, the two marked sets can overlap.
pub proof fn lemma_mark_disjoint(values: Seq<i32>, k: int)
    requires
        1 <= k,
        2 * k <= values.len(),
        forall|a: int, b: int| 0 <= a < b < values.len() ==> values[a] != values[b],
    ensures
        forall|i: int|
            0 <= i < values.len() ==> !((#[trigger] spec_mark(values, k, MarkCondition::Highest)[i])
                && spec_mark(values, k, MarkCondition::Lowest)[i]),
{
    let n = values.len() as int;
    let mh = spec_mark(values, k, MarkCondition::Highest);
    let ml = spec_mark(values, k, MarkCondition::Lowest);
    let fh = frontier(values, k, MarkCondition::Highest, n);
    let fl = frontier(values, k, MarkCondition::Lowest, n);
    lemma_frontier_inv(values, k, MarkCondition::Highest, n);
    lemma_frontier_inv(values, k, MarkCondition::Lowest, n);
    lemma_mark_count(values, k, MarkCondition::Highest);
    lemma_mark_count(values, k, MarkCondition::Lowest);
    let hs = marked_set(mh);
    let ls = marked_set(ml);
    assert forall|i: int| 0 <= i < n && mh[i] implies !ml[i] by {
        if ml[i] {
            // The two marked sets together cover at most 2k - 1 indices, so
            // some roll j is marked by neither call.
            let u = hs.union(ls.remove(i));
            vstd::set_lib::lemma_len_union(hs, ls.remove(i));
            vstd::set_lib::lemma_int_range(0, n);
            assert(hs.contains(i) && ls.contains(i));
            assert(u.len() <= 2 * k - 1);
            assert(!vstd::set_lib::set_int_range(0, n).subset_of(u)) by {
                if vstd::set_lib::set_int_range(0, n).subset_of(u) {
                    vstd::set_lib::lemma_len_subset(vstd::set_lib::set_int_range(0, n), u);
                }
            }
            let j = choose|j: int|
                vstd::set_lib::set_int_range(0, n).contains(j) && !u.contains(j);
            assert(0 <= j < n && !hs.contains(j) && !ls.contains(j) && j != i);
            assert(!in_frontier(fh, j) && !in_frontier(fl, j));
            // j beats no member of either frontier, while i is a member of
            // both, so j's value is squeezed to equal i's.
            let sh = choose|s: int| 0 <= s < fh.len() && fh[s].0 == i;
            let sl = choose|s: int| 0 <= s < fl.len() && fl[s].0 == i;
            assert(!strictly_better(MarkCondition::Highest, values[j] as int, fh[sh].1));
            assert(!strictly_better(MarkCondition::Lowest, values[j] as int, fl[sl].1));
            assert(values[j] == values[i]);
            if j < i {
                assert(values[j] != values[i]);
            } else {
                assert(values[i] != values[j]);
            }
        }
    }
}

/// The slot of the weakest current frontier member — the latest-rolled among
/// equal-valued weakest ones — computed by one pass over the slots; `f` is
/// the frontier the two vectors stand for.
fn find_worst(
    best_i: &Vec<usize>,
    best_v: &Vec<i32>,
    condition: MarkCondition,
    Ghost(f): Ghost<Seq<(int, int)>>,
) -> (w: usize)
    requires
        best_v@.len() >= 1,
        f.len() == best_v@.len(),
        best_i@.len() == best_v@.len(),
        forall|s: int|
            0 <= s < f.len() ==> best_v@[s] as int == (#[trigger] f[s]).1 && best_i@[s] as int
                == f[s].0,
    ensures
        w < best_v@.len(),
        w as int == worst_upto(f, condition, f.len() as int),
{
    let mut w: usize = 0;
    let mut s: usize = 1;
    while s < best_v.len()
        invariant
            1 <= s <= best_v@.len(),
            w < s,
            f.len() == best_v@.len(),
            best_i@.len() == best_v@.len(),
            forall|j: int|
                0 <= j < f.len() ==> best_v@[j] as int == (#[trigger] f[j]).1 && best_i@[j] as int
                    == f[j].0,
            w as int == worst_upto(f, condition, s as int),
        decreases best_v@.len() - s,
    {
        let weaker = match condition {
            MarkCondition::Highest => best_v[s] < best_v[w],
            MarkCondition::Lowest => best_v[s] > best_v[w],
        };
        if weaker || (best_v[s] == best_v[w] && best_i[s] > best_i[w]) {
            w = s;
        }
        s = s + 1;
    }
    w
}

/// Mark the `num_to_mark` highest or lowest entries of `rolls`, depending on
/// `condition`: the result has one boolean per entry, true for the marked
/// ones.  An incoming entry displaces a marked one only when it is strictly
/// better than the weakest of them, and the displaced one is the
/// latest-rolled of the equal-valued weakest, so earlier entries always win
/// ties over later ones.
pub fn mark_rolls(rolls: &Vec<i32>, num_to_mark: i32, condition: MarkCondition) -> (marked: Vec<
    bool,
>)
    requires
        1 <= num_to_mark,
        num_to_mark < rolls@.len(),
    ensures
        marked@ == spec_mark(rolls@, num_to_mark as int, condition),
        marked@.len() == rolls@.len(),
        marked_set(marked@).finite(),
        marked_set(marked@).len() == num_to_mark as int,
{
    proof {
        lemma_mark_count(rolls@, num_to_mark as int, condition);
    }
    let ghost vals = rolls@;
    let ghost kk = num_to_mark as int;
    let k = num_to_mark as usize;
    let n = rolls.len();

    let mut best_i: Vec<usize> = Vec::new();
    let mut best_v: Vec<i32> = Vec::new();
    let mut s: usize = 0;
    while s < k
        invariant
            s <= k,
            k < n,
            n == vals.len(),
            vals == rolls@,
            best_i@.len() == s,
            best_v@.len() == s,
            forall|j: int| 0 <= j < s ==> (#[trigger] best_i@[j]) as int == j,
            forall|j: int| 0 <= j < s ==> (#[trigger] best_v@[j]) == vals[j],
        decreases k - s,
    {
        best_i.push(s);
        best_v.push(rolls[s]);
        s = s + 1;
    }

    proof {
        lemma_frontier_inv(vals, kk, condition, kk);
        assert forall|j: int| 0 <= j < kk implies best_i@[j] as int == (
        #[trigger] frontier(vals, kk, condition, kk)[j]).0 && best_v@[j] as int == frontier(
            vals,
            kk,
            condition,
            kk,
        )[j].1 by {
            assert(frontier(vals, kk, condition, kk) =~= init_frontier(vals, kk));
        }
    }

    let mut i: usize = k;
    while i < n
        invariant
            k <= i <= n,
            1 <= k < n,
            n == vals.len(),
            vals == rolls@,
            best_i@.len() == k,
            best_v@.len() == k,
            frontier_inv(vals, kk, condition, i as int),
            kk == k as int,
            forall|j: int|
                0 <= j < kk ==> best_i@[j] as int == (#[trigger] frontier(
                    vals,
                    kk,
                    condition,
                    i as int,
                )[j]).0 && best_v@[j] as int == frontier(vals, kk, condition, i as int)[j].1,
        decreases n - i,
    {
        let ghost f0 = frontier(vals, kk, condition, i as int);
        let w = find_worst(&best_i, &best_v, condition, Ghost(f0));
        proof {
            lemma_worst_upto(f0, condition, kk);
        }
        let replace = match condition {
            MarkCondition::Highest => rolls[i] > best_v[w],
            MarkCondition::Lowest => rolls[i] < best_v[w],
        };
        if replace {
            best_i[w] = i;
            best_v[w] = rolls[i];
        }
        proof {
            let f1 = frontier(vals, kk, condition, i as int + 1);
            assert(f1 == step_frontier(f0, condition, i as int, vals[i as int] as int));
            lemma_frontier_inv(vals, kk, condition, i as int + 1);
            if replace {
                assert(f1 =~= f0.update(w as int, (i as int, vals[i as int] as int)));
            } else {
                assert(f1 =~= f0);
            }
        }
        i = i + 1;
    }

    let ghost fin = frontier(vals, kk, condition, n as int);
    let mut marked: Vec<bool> = Vec::new();
    let mut j: usize = 0;
    while j < n
        invariant
            j <= n,
            marked@.len() == j,
            forall|i2: int| 0 <= i2 < j ==> !(#[trigger] marked@[i2]),
        decreases n - j,
    {
        marked.push(false);
        j = j + 1;
    }

    let mut s2: usize = 0;
    while s2 < k
        invariant
            s2 <= k,
            k < n,
            n == vals.len(),
            marked@.len() == n,
            best_i@.len() == k,
            kk == k as int,
            frontier_inv(vals, kk, condition, n as int),
            fin == frontier(vals, kk, condition, n as int),
            forall|j2: int| 0 <= j2 < kk ==> best_i@[j2] as int == (#[trigger] fin[j2]).0,
            forall|i2: int|
                0 <= i2 < n ==> #[trigger] marked@[i2] == (exists|s3: int|
                    0 <= s3 < s2 && fin[s3].0 == i2),
        decreases k - s2,
    {
        let ghost old_marked = marked@;
        let idx = best_i[s2];
        assert(fin[s2 as int].0 == idx as int);
        assert(0 <= fin[s2 as int].0 < n);
        marked[idx] = true;
        proof {
            assert forall|i2: int|
                0 <= i2 < n implies #[trigger] marked@[i2] == (exists|s3: int|
                0 <= s3 < s2 as int + 1 && fin[s3].0 == i2) by {
                if i2 == idx as int {
                    assert(fin[s2 as int].0 == i2);
                } else {
                    assert(marked@[i2] == old_marked[i2]);
                    assert forall|s3: int| 0 <= s3 < s2 as int + 1 && fin[s3].0 == i2 implies s3
                        < s2 as int by {}
                }
            }
        }
        s2 = s2 + 1;
    }

    proof {
        assert forall|i2: int| 0 <= i2 < n implies #[trigger] marked@[i2] == in_frontier(fin, i2) by {
            if in_frontier(fin, i2) {
                let s3 = choose|s3: int| 0 <= s3 < fin.len() && fin[s3].0 == i2;
                assert(0 <= s3 < kk && fin[s3].0 == i2);
            }
        }
        assert(marked@ =~= spec_mark(vals, kk, condition));
    }
    marked
}

/// The display glyph for a die value between 1 and 50.
pub open spec fn circled_char(n: int) -> char {
    if n == 1 {
        '①'
    } else     if n == 2 {
        '②'
    } else     if n == 3 {
        '③'
    } else     if n == 4 {
        '④'
    } else     if n == 5 {
        '⑤'
    } else     if n == 6 {
        '⑥'
    } else     if n == 7 {
        '⑦'
    } else     if n == 8 {
        '⑧'
    } else     if n == 9 {
        '⑨'
    } else     if n == 10 {
        '⑩'
    } else     if n == 11 {
        '⑪'
    } else     if n == 12 {
        '⑫'
    } else     if n == 13 {
        '⑬'
    } else     if n == 14 {
        '⑭'
    } else     if n == 15 {
        '⑮'
    } else     if n == 16 {
        '⑯'
    } else     if n == 17 {
        '⑰'
    } else     if n == 18 {
        '⑱'
    } else     if n == 19 {
        '⑲'
    } else     if n == 20 {
        '⑳'
    } else     if n == 21 {
        '㉑'
    } else     if n == 22 {
        '㉒'
    } else     if n == 23 {
        '㉓'
    } else     if n == 24 {
        '㉔'
    } else     if n == 25 {
        '㉕'
    } else     if n == 26 {
        '㉖'
    } else     if n == 27 {
        '㉗'
    } else     if n == 28 {
        '㉘'
    } else     if n == 29 {
        '㉙'
    } else     if n == 30 {
        '㉚'
    } else     if n == 31 {
        '㉛'
    } else     if n == 32 {
        '㉜'
    } else     if n == 33 {
        '㉝'
    } else     if n == 34 {
        '㉞'
    } else     if n == 35 {
        '㉟'
    } else     if n == 36 {
        '㊱'
    } else     if n == 37 {
        '㊲'
    } else     if n == 38 {
        '㊳'
    } else     if n == 39 {
        '㊴'
    } else     if n == 40 {
        '㊵'
    } else     if n == 41 {
        '㊶'
    } else     if n == 42 {
        '㊷'
    } else     if n == 43 {
        '㊸'
    } else     if n == 44 {
        '㊹'
    } else     if n == 45 {
        '㊺'
    } else     if n == 46 {
        '㊻'
    } else     if n == 47 {
        '㊼'
    } else     if n == 48 {
        '㊽'
    } else     if n == 49 {
        '㊾'
    } else {
        '㊿'
    }
}

/// How a die value is displayed: its circled-number glyph for 1 through 50,
/// the value in parentheses above 50, and `X` at zero or below.
pub open spec fn spec_glyph(v: int) -> Seq<char> {
    if v <= 0 {
        seq!['X']
    } else if v > 50 {
        seq!['('] + crate::digits::dec_nat(v) + seq![')']
    } else {
        seq![circled_char(v)]
    }
}

/// The display glyph of one die value, as a string.
fn get_circled_number(num: i32) -> (s: String)
    ensures
        s@ == spec_glyph(num as int),
{
    if num <= 0 {
        let s = String::from_str("X");
        proof {
            reveal_strlit("X");
            assert(s@ =~= spec_glyph(num as int));
        }
        return s;
    }
    if num > 50 {
        let mut s = String::from_str("(");
        s.append(crate::digits::u64_dec_string(num as u64).as_str());
        s.append(")");
        proof {
            reveal_strlit("(");
            reveal_strlit(")");
            assert(s@ =~= spec_glyph(num as int));
        }
        return s;
    }
    if num == 1 {
        let s = String::from_str("①");
        proof {
            reveal_strlit("①");
            assert(s@ =~= spec_glyph(num as int));
        }
        return s;
    }
    if num == 2 {
        let s = String::from_str("②");
        proof {
            reveal_strlit("②");
            assert(s@ =~= spec_glyph(num as int));
        }
        return s;
    }
    if num == 3 {
        let s = String::from_str("③");
        proof {
            reveal_strlit("③");
            assert(s@ =~= spec_glyph(num as int));
        }
        return s;
    }
    if num == 4 {
        let s = String::from_str("④");
        proof {
            reveal_strlit("④");
            assert(s@ =~= spec_glyph(num as int));
        }
        return s;
    }
    if num == 5 {
        let s = String::from_str("⑤");
        proof {
            reveal_strlit("⑤");
            assert(s@ =~= spec_glyph(num as int));
        }
        return s;
    }
    if num == 6 {
        let s = String::from_str("⑥");
        proof {
            reveal_strlit("⑥");
            assert(s@ =~= spec_glyph(num as int));
        }
        return s;
    }
    if num == 7 {
        let s = String::from_str("⑦");
        proof {
            reveal_strlit("⑦");
            assert(s@ =~= spec_glyph(num as int));
        }
        return s;
    }
    if num == 8 {
        let s = String::from_str("⑧");
        proof {
            reveal_strlit("⑧");
            assert(s@ =~= spec_glyph(num as int));
        }
        return s;
    }
    if num == 9 {
        let s = String::from_str("⑨");
        proof {
            reveal_strlit("⑨");
            assert(s@ =~= spec_glyph(num as int));
        }
        return s;
    }
    if num == 10 {
        let s = String::from_str("⑩");
        proof {
            reveal_strlit("⑩");
            assert(s@ =~= spec_glyph(num as int));
        }
        return s;
    }
    if num == 11 {
        let s = String::from_str("⑪");
        proof {
            reveal_strlit("⑪");
            assert(s@ =~= spec_glyph(num as int));
        }
        return s;
    }
    if num == 12 {
        let s = String::from_str("⑫");
        proof {
            reveal_strlit("⑫");
            assert(s@ =~= spec_glyph(num as int));
        }
        return s;
    }
    if num == 13 {
        let s = String::from_str("⑬");
        proof {
            reveal_strlit("⑬");
            assert(s@ =~= spec_glyph(num as int));
        }
        return s;
    }
    if num == 14 {
        let s = String::from_str("⑭");
        proof {
            reveal_strlit("⑭");
            assert(s@ =~= spec_glyph(num as int));
        }
        return s;
    }
    if num == 15 {
        let s = String::from_str("⑮");
        proof {
            reveal_strlit("⑮");
            assert(s@ =~= spec_glyph(num as int));
        }
        return s;
    }
    if num == 16 {
        let s = String::from_str("⑯");
        proof {
            reveal_strlit("⑯");
            assert(s@ =~= spec_glyph(num as int));
        }
        return s;
    }
    if num == 17 {
        let s = String::from_str("⑰");
        proof {
            reveal_strlit("⑰");
            assert(s@ =~= spec_glyph(num as int));
        }
        return s;
    }
    if num == 18 {
        let s = String::from_str("⑱");
        proof {
            reveal_strlit("⑱");
            assert(s@ =~= spec_glyph(num as int));
        }
        return s;
    }
    if num == 19 {
        let s = String::from_str("⑲");
        proof {
            reveal_strlit("⑲");
            assert(s@ =~= spec_glyph(num as int));
        }
        return s;
    }
    if num == 20 {
        let s = String::from_str("⑳");
        proof {
            reveal_strlit("⑳");
            assert(s@ =~= spec_glyph(num as int));
        }
        return s;
    }
    if num == 21 {
        let s = String::from_str("㉑");
        proof {
            reveal_strlit("㉑");
            assert(s@ =~= spec_glyph(num as int));
        }
        return s;
    }
    if num == 22 {
        let s = String::from_str("㉒");
        proof {
            reveal_strlit("㉒");
            assert(s@ =~= spec_glyph(num as int));
        }
        return s;
    }
    if num == 23 {
        let s = String::from_str("㉓");
        proof {
            reveal_strlit("㉓");
            assert(s@ =~= spec_glyph(num as int));
        }
        return s;
    }
    if num == 24 {
        let s = String::from_str("㉔");
        proof {
            reveal_strlit("㉔");
            assert(s@ =~= spec_glyph(num as int));
        }
        return s;
    }
    if num == 25 {
        let s = String::from_str("㉕");
        proof {
            reveal_strlit("㉕");
            assert(s@ =~= spec_glyph(num as int));
        }
        return s;
    }
    if num == 26 {
        let s = String::from_str("㉖");
        proof {
            reveal_strlit("㉖");
            assert(s@ =~= spec_glyph(num as int));
        }
        return s;
    }
    if num == 27 {
        let s = String::from_str("㉗");
        proof {
            reveal_strlit("㉗");
            assert(s@ =~= spec_glyph(num as int));
        }
        return s;
    }
    if num == 28 {
        let s = String::from_str("㉘");
        proof {
            reveal_strlit("㉘");
            assert(s@ =~= spec_glyph(num as int));
        }
        return s;
    }
    if num == 29 {
        let s = String::from_str("㉙");
        proof {
            reveal_strlit("㉙");
            assert(s@ =~= spec_glyph(num as int));
        }
        return s;
    }
    if num == 30 {
        let s = String::from_str("㉚");
        proof {
            reveal_strlit("㉚");
            assert(s@ =~= spec_glyph(num as int));
        }
        return s;
    }
    if num == 31 {
        let s = String::from_str("㉛");
        proof {
            reveal_strlit("㉛");
            assert(s@ =~= spec_glyph(num as int));
        }
        return s;
    }
    if num == 32 {
        let s = String::from_str("㉜");
        proof {
            reveal_strlit("㉜");
            assert(s@ =~= spec_glyph(num as int));
        }
        return s;
    }
    if num == 33 {
        let s = String::from_str("㉝");
        proof {
            reveal_strlit("㉝");
            assert(s@ =~= spec_glyph(num as int));
        }
        return s;
    }
    if num == 34 {
        let s = String::from_str("㉞");
        proof {
            reveal_strlit("㉞");
            assert(s@ =~= spec_glyph(num as int));
        }
        return s;
    }
    if num == 35 {
        let s = String::from_str("㉟");
        proof {
            reveal_strlit("㉟");
            assert(s@ =~= spec_glyph(num as int));
        }
        return s;
    }
    if num == 36 {
        let s = String::from_str("㊱");
        proof {
            reveal_strlit("㊱");
            assert(s@ =~= spec_glyph(num as int));
        }
        return s;
    }
    if num == 37 {
        let s = String::from_str("㊲");
        proof {
            reveal_strlit("㊲");
            assert(s@ =~= spec_glyph(num as int));
        }
        return s;
    }
    if num == 38 {
        let s = String::from_str("㊳");
        proof {
            reveal_strlit("㊳");
            assert(s@ =~= spec_glyph(num as int));
        }
        return s;
    }
    if num == 39 {
        let s = String::from_str("㊴");
        proof {
            reveal_strlit("㊴");
            assert(s@ =~= spec_glyph(num as int));
        }
        return s;
    }
    if num == 40 {
        let s = String::from_str("㊵");
        proof {
            reveal_strlit("㊵");
            assert(s@ =~= spec_glyph(num as int));
        }
        return s;
    }
    if num == 41 {
        let s = String::from_str("㊶");
        proof {
            reveal_strlit("㊶");
            assert(s@ =~= spec_glyph(num as int));
        }
        return s;
    }
    if num == 42 {
        let s = String::from_str("㊷");
        proof {
            reveal_strlit("㊷");
            assert(s@ =~= spec_glyph(num as int));
        }
        return s;
    }
    if num == 43 {
        let s = String::from_str("㊸");
        proof {
            reveal_strlit("㊸");
            assert(s@ =~= spec_glyph(num as int));
        }
        return s;
    }
    if num == 44 {
        let s = String::from_str("㊹");
        proof {
            reveal_strlit("㊹");
            assert(s@ =~= spec_glyph(num as int));
        }
        return s;
    }
    if num == 45 {
        let s = String::from_str("㊺");
        proof {
            reveal_strlit("㊺");
            assert(s@ =~= spec_glyph(num as int));
        }
        return s;
    }
    if num == 46 {
        let s = String::from_str("㊻");
        proof {
            reveal_strlit("㊻");
            assert(s@ =~= spec_glyph(num as int));
        }
        return s;
    }
    if num == 47 {
        let s = String::from_str("㊼");
        proof {
            reveal_strlit("㊼");
            assert(s@ =~= spec_glyph(num as int));
        }
        return s;
    }
    if num == 48 {
        let s = String::from_str("㊽");
        proof {
            reveal_strlit("㊽");
            assert(s@ =~= spec_glyph(num as int));
        }
        return s;
    }
    if num == 49 {
        let s = String::from_str("㊾");
        proof {
            reveal_strlit("㊾");
            assert(s@ =~= spec_glyph(num as int));
        }
        return s;
    }
    {
        let s = String::from_str("㊿");
        proof {
            reveal_strlit("㊿");
            assert(s@ =~= spec_glyph(num as int));
        }
        return s;
    }
}

/// Strike-through markup around a piece of text.
pub open spec fn struck(x: Seq<char>) -> Seq<char> {
    seq!['~', '~'] + x + seq!['~', '~']
}

/// How one roll is rendered.  A rerolled die always shows the discarded
/// first draw struck through before the scoring value; when the roll as a
/// whole is struck (dropped by a selection rule), the pair is struck as a
/// unit, and a plain roll is struck alone.
pub open spec fn spec_format_roll(roll: Roll, strikethrough: bool) -> Seq<char> {
    match roll.old_value {
        Some(ov) => if strikethrough {
            struck(spec_glyph(ov as int) + spec_glyph(roll.value as int))
        } else {
            struck(spec_glyph(ov as int)) + spec_glyph(roll.value as int)
        },
        None => if strikethrough {
            struck(spec_glyph(roll.value as int))
        } else {
            spec_glyph(roll.value as int)
        },
    }
}

/// Render one roll, struck through when `strikethrough` asks for it.
pub fn format_roll(roll: &Roll, strikethrough: bool) -> (s: String)
    ensures
        s@ == spec_format_roll(*roll, strikethrough),
{
    let value = get_circled_number(roll.value);
    match roll.old_value {
        Some(old_value) => {
            let old_value = get_circled_number(old_value);
            let mut s = String::from_str("~~");
            if strikethrough {
                s.append(old_value.as_str());
                s.append(value.as_str());
                s.append("~~");
            } else {
                s.append(old_value.as_str());
                s.append("~~");
                s.append(value.as_str());
            }
            proof {
                reveal_strlit("~~");
                assert(s@ =~= spec_format_roll(*roll, strikethrough));
            }
            s
        },
        None => {
            if strikethrough {
                let mut s = String::from_str("~~");
                s.append(value.as_str());
                s.append("~~");
                proof {
                    reveal_strlit("~~");
                    assert(s@ =~= spec_format_roll(*roll, strikethrough));
                }
                s
            } else {
                value
            }
        },
    }
}

} // verus!
