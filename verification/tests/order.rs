use tree_map_base::order::rank;

#[test]
fn rank_puts_keys_in_ascending_order() {
    let mut keys: Vec<(u64, usize)> = vec![(5, 0), (1, 1), (5, 2), (0, 3), (1, 4)];
    rank(&mut keys);
    assert_eq!(keys, vec![(0, 3), (1, 1), (1, 4), (5, 0), (5, 2)]);
}

#[test]
fn rank_keeps_every_key() {
    let mut keys: Vec<(u64, usize)> = (0..100usize).map(|i| (((i * 37) % 11) as u64, i)).collect();
    let mut expected = keys.clone();
    rank(&mut keys);
    expected.sort();
    assert_eq!(keys, expected);
    assert_eq!(keys.len(), 100);
    let mut empty: Vec<(u64, usize)> = Vec::new();
    rank(&mut empty);
    assert!(empty.is_empty());
}
