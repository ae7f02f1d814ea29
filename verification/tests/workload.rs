use erasure_engine::engine::CodingEngine;
use erasure_engine::error::Error;
use erasure_engine::shards::{make_blank_shards, shards_into_option_shards};
use erasure_engine::workload::{byte_count, run_encode, run_reconstruct, run_verify};

fn patterned(count: usize, len: usize) -> Vec<Vec<u8>> {
    let mut shards = make_blank_shards(len, count);
    for (i, shard) in shards.iter_mut().enumerate() {
        for (j, byte) in shard.iter_mut().enumerate() {
            *byte = (i * 31 + j * 7 + 3) as u8;
        }
    }
    shards
}

#[test]
fn byte_count_is_the_product() {
    assert_eq!(byte_count(500, 1_000_000, 5), Some(2_500_000_000));
    assert_eq!(byte_count(500, 1_000_000, 14), Some(7_000_000_000));
    assert_eq!(byte_count(500, 1_000_000, 1), Some(500_000_000));
    assert_eq!(byte_count(0, 1_000_000, 5), Some(0));
    assert_eq!(byte_count(7, 0, 5), Some(0));
}

#[test]
fn byte_count_reports_overflow() {
    assert_eq!(byte_count(usize::MAX, 2, 1), None);
    assert_eq!(byte_count(usize::MAX, 1, 2), None);
    assert_eq!(byte_count(usize::MAX, 1, 1), Some(usize::MAX));
    assert_eq!(byte_count(usize::MAX, 2, 0), Some(0));
    assert_eq!(byte_count(1 << 40, 1 << 40, 1), None);
}

#[test]
fn run_encode_equals_one_encode() {
    let e = CodingEngine::new(5, 2, 64).unwrap();
    let given = patterned(7, 200);
    let mut once = given.clone();
    e.encode(&mut once).unwrap();
    for iterations in [1usize, 2, 5] {
        let mut shards = given.clone();
        assert_eq!(run_encode(&e, &mut shards, iterations), Ok(()));
        assert_eq!(shards, once);
    }
}

#[test]
fn run_encode_zero_times_changes_nothing() {
    let e = CodingEngine::new(2, 1, 64).unwrap();
    let given = vec![vec![1u8; 100], vec![2u8; 100], vec![3u8; 99]];
    let mut shards = given.clone();
    assert_eq!(run_encode(&e, &mut shards, 0), Ok(()));
    assert_eq!(shards, given);
    assert_eq!(run_encode(&e, &mut shards, 3), Err(Error::InconsistentShardLength));
    assert_eq!(shards, given);
}

#[test]
fn run_verify_reports_the_parity() {
    let e = CodingEngine::new(3, 2, 64).unwrap();
    let mut shards = patterned(5, 50);
    assert_eq!(run_verify(&e, &shards, 3), Ok(false));
    assert_eq!(run_verify(&e, &shards, 0), Ok(true));
    e.encode(&mut shards).unwrap();
    assert_eq!(run_verify(&e, &shards, 1), Ok(true));
    assert_eq!(run_verify(&e, &shards, 4), Ok(true));
    shards[4].pop();
    assert_eq!(run_verify(&e, &shards, 2), Err(Error::InconsistentShardLength));
    assert_eq!(run_verify(&e, &shards, 0), Ok(true));
}

#[test]
fn run_reconstruct_restores_the_first_shard_each_round() {
    let e = CodingEngine::new(5, 2, 64).unwrap();
    let mut shards = patterned(7, 120);
    e.encode(&mut shards).unwrap();
    for iterations in [0usize, 1, 2, 6] {
        let mut slots = shards_into_option_shards(shards.clone());
        assert_eq!(run_reconstruct(&e, &mut slots, iterations), Ok(()));
        assert_eq!(slots, shards_into_option_shards(shards.clone()));
    }
}

#[test]
fn run_reconstruct_fails_in_the_first_round_only() {
    let e = CodingEngine::new(3, 1, 64).unwrap();
    let mut shards = patterned(4, 30);
    e.encode(&mut shards).unwrap();
    let mut slots = shards_into_option_shards(shards.clone());
    slots[2] = None;
    let mut want = slots.clone();
    want[0] = None;
    assert_eq!(run_reconstruct(&e, &mut slots, 3), Err(Error::TooManyMissingShards));
    assert_eq!(slots, want);
    let mut slots = shards_into_option_shards(shards.clone());
    slots[3] = Some(vec![0u8; 29]);
    let mut want = slots.clone();
    want[0] = None;
    assert_eq!(run_reconstruct(&e, &mut slots, 3), Err(Error::InconsistentShardLength));
    assert_eq!(slots, want);
}

#[test]
fn run_reconstruct_with_every_shard_lost_fails() {
    let e = CodingEngine::new(1, 1, 64).unwrap();
    let mut slots: Vec<Option<Vec<u8>>> = vec![None, None];
    assert_eq!(run_reconstruct(&e, &mut slots, 1), Err(Error::TooManyMissingShards));
    assert_eq!(slots, vec![None, None]);
    assert_eq!(run_reconstruct(&e, &mut slots, 0), Ok(()));
}
