use genre_graph::ranking::{less_ratio, rank_descending, rank_ratios};

#[test]
fn ranking_is_descending() {
    let keys: Vec<u128> = vec![3, 10, 7, 1];
    let order = rank_descending(&keys);
    assert_eq!(order, vec![1, 2, 0, 3]);
    for i in 1..order.len() {
        assert!(keys[order[i - 1]] >= keys[order[i]]);
    }
}

#[test]
fn ranking_is_stable_on_ties() {
    assert_eq!(rank_descending(&vec![5, 9, 5, 1, 9]), vec![1, 4, 0, 2, 3]);
}

#[test]
fn ranking_of_nothing_is_empty() {
    assert!(rank_descending(&Vec::new()).is_empty());
    assert_eq!(rank_descending(&vec![u128::MAX]), vec![0]);
}

#[test]
fn quotients_are_compared_exactly() {
    assert!(less_ratio((1, 3), (1, 2)));
    assert!(!less_ratio((1, 2), (1, 3)));
    assert!(!less_ratio((2, 4), (1, 2)));
    assert!(!less_ratio((1, 2), (2, 4)));
    assert!(less_ratio((0, 5), (1, usize::MAX)));
    // Both quotients are a little above u64::MAX; they differ in the last digit only.
    let big = u64::MAX as u128;
    assert!(less_ratio((big * 7 + 3, 7), (big * 5 + 3, 5)));
    assert!(!less_ratio((big * 5 + 3, 5), (big * 7 + 3, 7)));
    assert!(less_ratio((u128::MAX - 1, usize::MAX), (u128::MAX, usize::MAX)));
    assert!(!less_ratio((u128::MAX, 1), (u128::MAX, 1)));
}

#[test]
fn quotients_are_ranked_either_way() {
    let items: Vec<(u128, usize)> = vec![(1, 2), (3, 4), (2, 4), (1, 4), (9, 12)];
    assert_eq!(rank_ratios(&items, true), vec![1, 4, 0, 2, 3]);
    assert_eq!(rank_ratios(&items, false), vec![3, 0, 2, 1, 4]);
    assert!(rank_ratios(&Vec::new(), true).is_empty());
}
