use erasure_engine::shards::{
    count_absent, make_blank_shards, same_lengths, same_present_lengths,
    shards_into_option_shards,
};

#[test]
fn blank_shards_are_zero() {
    let shards = make_blank_shards(4, 3);
    assert_eq!(shards, vec![vec![0u8; 4], vec![0u8; 4], vec![0u8; 4]]);
    assert_eq!(make_blank_shards(0, 2), vec![Vec::<u8>::new(), Vec::<u8>::new()]);
    assert!(make_blank_shards(10, 0).is_empty());
}

#[test]
fn option_shards_keep_order_and_content() {
    let shards = vec![vec![1u8, 2], vec![3u8, 4], vec![5u8, 6]];
    let out = shards_into_option_shards(shards.clone());
    assert_eq!(out, vec![Some(vec![1u8, 2]), Some(vec![3u8, 4]), Some(vec![5u8, 6])]);
    assert!(shards_into_option_shards(Vec::new()).is_empty());
}

#[test]
fn same_lengths_detects_a_short_shard() {
    assert!(same_lengths(&vec![vec![0u8; 100], vec![0u8; 100], vec![0u8; 100]]));
    assert!(!same_lengths(&vec![vec![0u8; 100], vec![0u8; 100], vec![0u8; 99]]));
    assert!(!same_lengths(&vec![vec![0u8; 99], vec![0u8; 100]]));
    assert!(same_lengths(&Vec::new()));
}

#[test]
fn absent_shards_are_counted() {
    let shards = vec![Some(vec![1u8]), None, Some(vec![2u8]), None, None];
    assert_eq!(count_absent(&shards), 3);
    assert_eq!(count_absent(&Vec::new()), 0);
}

#[test]
fn present_lengths_ignore_absent_shards() {
    assert!(same_present_lengths(&vec![None, Some(vec![1u8, 2]), None, Some(vec![3u8, 4])]));
    assert!(!same_present_lengths(&vec![Some(vec![1u8]), None, Some(vec![3u8, 4])]));
    assert!(same_present_lengths(&vec![None, None]));
}
