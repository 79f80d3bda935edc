use cargo_lock_fetch::batches::into_batches;
use itertools::Itertools;

#[test]
fn into_batches_empty() {
    let e: Vec<((), ())> = vec![];
    let batches = into_batches(e).into_iter().collect_vec();
    assert!(batches.is_empty());
}

#[test]
fn into_batches_one() {
    let batches = into_batches(vec![(1, "x")]).into_iter().collect_vec();
    assert_eq!(batches.len(), 1);
    assert_eq!(batches[0].len(), 1);
    assert_eq!(batches[0][0], "x");
}

#[test]
fn into_batches_no_conflicts() {
    let batches = into_batches(vec![
        (1, "a"),
        (2, "b"),
        (1, "c"),
        (3, "d"),
        (2, "e"),
        (4, "f"),
        (2, "g"),
    ])
    .into_iter()
    .collect_vec();
    assert_eq!(batches.len(), 3);
    batches.iter().all(|batch| {
        ["a", "c"]
            .iter()
            .filter(|x| batch.contains(x))
            .exactly_one()
            .is_ok()
    });
    batches.iter().all(|batch| {
        ["b", "e", "g"]
            .iter()
            .filter(|x| batch.contains(x))
            .exactly_one()
            .is_ok()
    });
}

#[test]
fn batches_of_the_documented_example() {
    let batches = into_batches(vec![
        (1, "a"),
        (2, "b"),
        (1, "c"),
        (3, "d"),
        (2, "e"),
        (4, "f"),
        (2, "g"),
    ]);
    assert_eq!(batches, vec![vec!["a", "b", "d", "f"], vec!["c", "e"], vec!["g"]]);
}

#[test]
fn batches_partition_the_input() {
    let input: Vec<(u64, u64)> = vec![(5, 0), (5, 1), (7, 2), (5, 3), (9, 4), (7, 5), (5, 6), (1, 7)];
    let keys: Vec<u64> = input.iter().map(|(k, _)| *k).collect();
    let batches = into_batches(input.clone());
    // Each item appears exactly once over all batches.
    let mut all: Vec<u64> = batches.iter().flatten().copied().collect();
    all.sort();
    assert_eq!(all, (0..8).collect::<Vec<u64>>());
    // No batch holds two items of one key.
    for batch in &batches {
        let mut batch_keys: Vec<u64> = batch.iter().map(|i| keys[*i as usize]).collect();
        let n = batch_keys.len();
        batch_keys.sort();
        batch_keys.dedup();
        assert_eq!(batch_keys.len(), n);
        assert!(!batch.is_empty());
    }
    // As many batches as the most frequent key has items (key 5: four).
    assert_eq!(batches.len(), 4);
}

#[test]
fn batches_keep_the_order_of_duplicates() {
    let batches = into_batches(vec![
        ("x".to_string(), 1),
        ("x".to_string(), 2),
        ("x".to_string(), 3),
        ("y".to_string(), 4),
    ]);
    assert_eq!(batches, vec![vec![1, 4], vec![2], vec![3]]);
}

#[test]
fn batches_without_conflicts_are_one_batch() {
    let batches = into_batches(vec![(3i64, 'a'), (1, 'b'), (2, 'c')]);
    assert_eq!(batches, vec![vec!['b', 'c', 'a']]);
}

#[test]
fn batch_items_are_listed_in_key_order() {
    assert_eq!(into_batches(vec![(2, "x"), (1, "y")]), vec![vec!["y", "x"]]);
    let batches = into_batches(vec![
        ("serde".to_string(), 1),
        ("serde".to_string(), 2),
        ("left-pad".to_string(), 3),
        ("ab".to_string(), 4),
        ("a".to_string(), 5),
        ("é".to_string(), 6),
        ("z".to_string(), 7),
    ]);
    assert_eq!(batches, vec![vec![5, 4, 3, 1, 7, 6], vec![2]]);
}
