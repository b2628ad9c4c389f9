use dicebot::util::mark_rolls;
use dicebot::util::MarkCondition;

#[test]
fn highest_3() {
    let input = vec![4, 7, 8, 1, 2, 6, 3, 5];
    assert_eq!(
        mark_rolls(&input, 3, MarkCondition::Highest),
        vec![false, true, true, false, false, true, false, false]
    );
}

#[test]
fn highest_3b() {
    let input = vec![4, 5, 8, 1, 2, 6, 3, 7];
    assert_eq!(
        mark_rolls(&input, 3, MarkCondition::Highest),
        vec![false, false, true, false, false, true, false, true]
    );
}

#[test]
fn highest_3c() {
    let input = vec![5, 5, 1, 6, 4, 6];
    assert_eq!(
        mark_rolls(&input, 5, MarkCondition::Highest),
        vec![true, true, false, true, true, true]
    );
}

#[test]
fn highest_3_ascending() {
    let input = vec![1, 2, 3, 4, 5, 6, 7, 8];
    assert_eq!(
        mark_rolls(&input, 3, MarkCondition::Highest),
        vec![false, false, false, false, false, true, true, true]
    );
}

#[test]
fn highest_3_descending() {
    let input = vec![8, 7, 6, 5, 4, 3, 2, 1];
    assert_eq!(
        mark_rolls(&input, 3, MarkCondition::Highest),
        vec![true, true, true, false, false, false, false, false]
    );
}

#[test]
fn lowest_3() {
    let input = vec![6, 2, 3, 4, 1, 6];
    assert_eq!(
        mark_rolls(&input, 3, MarkCondition::Lowest),
        vec![false, true, true, false, true, false]
    );
}

#[test]
fn lowest_3b() {
    let input = vec![2, 4, 1, 5, 3, 4];
    assert_eq!(
        mark_rolls(&input, 2, MarkCondition::Lowest),
        vec![true, false, true, false, false, false]
    );
}

#[test]
fn lowest_3c() {
    let input = vec![3, 6, 1, 5];
    assert_eq!(
        mark_rolls(&input, 2, MarkCondition::Lowest),
        vec![true, false, true, false]
    );
}

#[test]
fn lowest_3_ascending() {
    let input = vec![1, 2, 3, 4, 5, 6, 7, 8];
    assert_eq!(
        mark_rolls(&input, 3, MarkCondition::Lowest),
        vec![true, true, true, false, false, false, false, false]
    );
}

#[test]
fn lowest_3_descending() {
    let input = vec![8, 7, 6, 5, 4, 3, 2, 1];
    assert_eq!(
        mark_rolls(&input, 3, MarkCondition::Lowest),
        vec![false, false, false, false, false, true, true, true]
    );
}

// Marking under either condition always marks exactly the requested count.
#[test]
fn mark_counts_are_exact() {
    let input = vec![9, 3, 3, 7, 2, 8, 1, 5];
    for amount in 1..8 {
        let high = mark_rolls(&input, amount, MarkCondition::Highest);
        let low = mark_rolls(&input, amount, MarkCondition::Lowest);
        assert_eq!(high.iter().filter(|&&m| m).count(), amount as usize);
        assert_eq!(low.iter().filter(|&&m| m).count(), amount as usize);
    }
}

// With pairwise-distinct values and the two marked groups fitting side by
// side, the highest and the lowest marks never land on the same index.
#[test]
fn mark_highest_lowest_disjoint() {
    let input = vec![10, 4, 25, 1, 17, 6];
    for amount in 1..=3 {
        let high = mark_rolls(&input, amount, MarkCondition::Highest);
        let low = mark_rolls(&input, amount, MarkCondition::Lowest);
        for i in 0..input.len() {
            assert!(!(high[i] && low[i]));
        }
    }
}

// When an eviction chooses among equal-valued weakest entries, the
// latest-rolled leaves, so the earlier equal entry stays marked.
#[test]
fn mark_earlier_wins_ties_on_eviction() {
    let input = vec![2, 2, 3];
    assert_eq!(
        mark_rolls(&input, 2, MarkCondition::Highest),
        vec![true, false, true]
    );
    let input2 = vec![1, 2, 2, 3];
    assert_eq!(
        mark_rolls(&input2, 2, MarkCondition::Highest),
        vec![false, true, false, true]
    );
    let input3 = vec![3, 2, 2, 1];
    assert_eq!(
        mark_rolls(&input3, 2, MarkCondition::Lowest),
        vec![false, true, false, true]
    );
}

// Ties are never swapped in: the entry already held wins against an equal
// newcomer.
#[test]
fn mark_keeps_earlier_on_tie_with_incoming() {
    let input = vec![5, 3, 5];
    assert_eq!(
        mark_rolls(&input, 1, MarkCondition::Highest),
        vec![true, false, false]
    );
    let input2 = vec![2, 4, 2];
    assert_eq!(
        mark_rolls(&input2, 1, MarkCondition::Lowest),
        vec![true, false, false]
    );
}
