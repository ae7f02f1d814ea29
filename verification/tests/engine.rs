use erasure_engine::engine::CodingEngine;
use erasure_engine::error::Error;
use erasure_engine::galois::Gf256;
use erasure_engine::shards::{make_blank_shards, shards_into_option_shards};

fn filled(seed: u64, count: usize, len: usize) -> Vec<Vec<u8>> {
    let mut state = seed | 1;
    let mut shards = make_blank_shards(len, count);
    for shard in shards.iter_mut() {
        for byte in shard.iter_mut() {
            state ^= state << 13;
            state ^= state >> 7;
            state ^= state << 17;
            *byte = (state >> 24) as u8;
        }
    }
    shards
}

#[test]
fn new_rejects_invalid_counts() {
    assert!(matches!(CodingEngine::new(0, 2, 1024), Err(Error::InvalidShardCount)));
    assert!(matches!(CodingEngine::new(5, 0, 1024), Err(Error::InvalidShardCount)));
    assert!(matches!(CodingEngine::new(250, 7, 1024), Err(Error::InvalidShardCount)));
    assert!(matches!(CodingEngine::new(usize::MAX, 2, 1024), Err(Error::InvalidShardCount)));
    assert!(CodingEngine::new(250, 6, 1024).is_ok());
}

#[test]
fn new_keeps_its_parameters() {
    let e = CodingEngine::new(10, 4, 8192).unwrap();
    assert_eq!(e.data_shard_count(), 10);
    assert_eq!(e.parity_shard_count(), 4);
    assert_eq!(e.total_shard_count(), 14);
    assert_eq!(e.parallelism_threshold(), 8192);
    assert_eq!(e.matrix().row_count(), 14);
    assert_eq!(e.matrix().col_count(), 10);
}

#[test]
fn chunk_len_follows_the_threshold() {
    let e = CodingEngine::new(5, 2, 1024).unwrap();
    // work below the threshold: one range
    assert_eq!(e.chunk_len(100), 100);
    assert_eq!(e.chunk_len(204), 204);
    // 205 * 5 = 1025 bytes of work: ranges of 1024 / 5 bytes
    assert_eq!(e.chunk_len(205), 204);
    assert_eq!(e.chunk_len(1_000_000), 204);
    assert_eq!(e.chunk_len(0), 0);
    let e = CodingEngine::new(5, 2, 1).unwrap();
    assert_eq!(e.chunk_len(1_000_000), 1);
    let e = CodingEngine::new(5, 2, 0).unwrap();
    assert_eq!(e.chunk_len(0), 1);
    assert_eq!(e.chunk_len(7), 1);
    let e = CodingEngine::new(5, 2, 10_485_760).unwrap();
    assert_eq!(e.chunk_len(1_000_000), 1_000_000);
    let e = CodingEngine::new(4, 2, 1024).unwrap();
    // 256 * 4 = 1024 is not below the threshold
    assert_eq!(e.chunk_len(255), 255);
    assert_eq!(e.chunk_len(256), 256);
    assert_eq!(e.chunk_len(257), 256);
}

#[test]
fn encode_known_parity() {
    // Rows two and three of the coding matrix for two data shards are
    // (3, 2) and (2, 3).
    let f = Gf256::new();
    let e = CodingEngine::new(2, 2, 1024).unwrap();
    let mut shards = vec![vec![1u8, 0, 7], vec![0u8, 1, 9], vec![0u8; 3], vec![0u8; 3]];
    assert_eq!(e.encode(&mut shards), Ok(()));
    assert_eq!(shards[0], vec![1u8, 0, 7]);
    assert_eq!(shards[1], vec![0u8, 1, 9]);
    assert_eq!(shards[2], vec![3u8, 2, f.add(f.mul(3, 7), f.mul(2, 9))]);
    assert_eq!(shards[3], vec![2u8, 3, f.add(f.mul(2, 7), f.mul(3, 9))]);
    assert_eq!(shards[2][2], 27);
    assert_eq!(shards[3][2], 21);
}

#[test]
fn encode_overwrites_old_parity() {
    let e = CodingEngine::new(3, 2, 1024).unwrap();
    let mut a = filled(1, 5, 64);
    let mut b = a.clone();
    b[3] = vec![0xff; 64];
    b[4] = vec![0x55; 64];
    e.encode(&mut a).unwrap();
    e.encode(&mut b).unwrap();
    assert_eq!(a, b);
}

#[test]
fn encode_leaves_data_shards_alone() {
    let e = CodingEngine::new(4, 3, 16).unwrap();
    let given = filled(2, 7, 100);
    let mut shards = given.clone();
    e.encode(&mut shards).unwrap();
    for i in 0..4 {
        assert_eq!(shards[i], given[i]);
    }
}

#[test]
fn encode_of_empty_shards() {
    let e = CodingEngine::new(3, 2, 1024).unwrap();
    let mut shards = make_blank_shards(0, 5);
    assert_eq!(e.encode(&mut shards), Ok(()));
    assert_eq!(shards, make_blank_shards(0, 5));
    assert_eq!(e.verify(&shards), Ok(true));
}

#[test]
fn encode_of_zero_data_is_zero() {
    let e = CodingEngine::new(5, 2, 8).unwrap();
    let mut shards = make_blank_shards(33, 7);
    shards[5] = vec![9; 33];
    e.encode(&mut shards).unwrap();
    assert_eq!(shards, make_blank_shards(33, 7));
}

#[test]
fn encode_rejects_unequal_lengths() {
    let e = CodingEngine::new(2, 1, 1024).unwrap();
    let mut shards = vec![vec![1u8; 100], vec![2u8; 100], vec![3u8; 99]];
    let given = shards.clone();
    assert_eq!(e.encode(&mut shards), Err(Error::InconsistentShardLength));
    assert_eq!(shards, given);
    let mut shards = vec![vec![1u8; 99], vec![2u8; 100], vec![3u8; 100]];
    assert_eq!(e.encode(&mut shards), Err(Error::InconsistentShardLength));
}

#[test]
fn verify_rejects_unequal_lengths() {
    let e = CodingEngine::new(2, 1, 1024).unwrap();
    let shards = vec![vec![1u8; 100], vec![2u8; 100], vec![3u8; 99]];
    assert_eq!(e.verify(&shards), Err(Error::InconsistentShardLength));
}

#[test]
fn verify_after_encode_is_true() {
    for threshold in [0usize, 1, 7, 64, 1024, 1 << 20] {
        let e = CodingEngine::new(5, 2, threshold).unwrap();
        let mut shards = filled(3, 7, 257);
        e.encode(&mut shards).unwrap();
        let given = shards.clone();
        assert_eq!(e.verify(&shards), Ok(true));
        assert_eq!(shards, given);
    }
}

#[test]
fn verify_detects_any_changed_byte() {
    let e = CodingEngine::new(4, 2, 32).unwrap();
    let mut shards = filled(4, 6, 19);
    e.encode(&mut shards).unwrap();
    for i in 0..6 {
        for j in 0..19 {
            for flip in [1u8, 0x80, 0xff] {
                let mut changed = shards.clone();
                changed[i][j] ^= flip;
                assert_eq!(e.verify(&changed), Ok(false));
            }
        }
    }
}

#[test]
fn verify_of_unencoded_shards_is_false() {
    let e = CodingEngine::new(3, 2, 1024).unwrap();
    let mut shards = make_blank_shards(8, 5);
    shards[0][0] = 1;
    assert_eq!(e.verify(&shards), Ok(false));
}

#[test]
fn threshold_does_not_change_the_result() {
    let given = filled(5, 14, 1000);
    let mut want = given.clone();
    CodingEngine::new(10, 4, usize::MAX).unwrap().encode(&mut want).unwrap();
    for threshold in [0usize, 1, 2, 9, 10, 11, 999, 1000, 1001, 9_999, 10_000, 10_001, 65_536] {
        let e = CodingEngine::new(10, 4, threshold).unwrap();
        let mut shards = given.clone();
        e.encode(&mut shards).unwrap();
        assert_eq!(shards, want);
        assert_eq!(e.verify(&shards), Ok(true));
    }
}

#[test]
fn parity_range_is_a_slice_of_the_parity() {
    let e = CodingEngine::new(5, 3, 1024).unwrap();
    let mut shards = filled(6, 8, 100);
    e.encode(&mut shards).unwrap();
    let part = e.parity_range(&shards, 10, 35);
    assert_eq!(part.len(), 3);
    for q in 0..3 {
        assert_eq!(part[q], shards[5 + q][10..35].to_vec());
    }
    let none = e.parity_range(&shards, 40, 40);
    assert_eq!(none, vec![Vec::<u8>::new(); 3]);
}

#[test]
fn reconstruct_rejects_too_many_missing() {
    let e = CodingEngine::new(5, 2, 1024).unwrap();
    let mut shards = filled(7, 7, 50);
    e.encode(&mut shards).unwrap();
    let mut slots = shards_into_option_shards(shards);
    slots[0] = None;
    slots[3] = None;
    slots[6] = None;
    let given = slots.clone();
    assert_eq!(e.reconstruct(&mut slots), Err(Error::TooManyMissingShards));
    assert_eq!(slots, given);
}

#[test]
fn reconstruct_rejects_unequal_lengths() {
    let e = CodingEngine::new(3, 2, 1024).unwrap();
    let mut shards = filled(8, 5, 50);
    e.encode(&mut shards).unwrap();
    let mut slots = shards_into_option_shards(shards);
    slots[1] = None;
    slots[4] = Some(vec![0u8; 49]);
    let given = slots.clone();
    assert_eq!(e.reconstruct(&mut slots), Err(Error::InconsistentShardLength));
    assert_eq!(slots, given);
}

#[test]
fn too_many_missing_comes_before_unequal_lengths() {
    let e = CodingEngine::new(2, 1, 1024).unwrap();
    let mut slots = vec![None, None, Some(vec![1u8, 2, 3])];
    assert_eq!(e.reconstruct(&mut slots), Err(Error::TooManyMissingShards));
    let mut slots = vec![None, Some(vec![1u8, 2]), Some(vec![1u8, 2, 3])];
    assert_eq!(e.reconstruct(&mut slots), Err(Error::InconsistentShardLength));
}

#[test]
fn reconstruct_with_nothing_missing_changes_nothing() {
    let e = CodingEngine::new(3, 2, 1024).unwrap();
    let mut shards = filled(9, 5, 40);
    e.encode(&mut shards).unwrap();
    let mut slots = shards_into_option_shards(shards.clone());
    assert_eq!(e.reconstruct(&mut slots), Ok(()));
    assert_eq!(slots, shards_into_option_shards(shards));
}

#[test]
fn reconstruct_restores_every_loss_pattern() {
    for (d, p) in [(1usize, 1usize), (2, 1), (3, 2), (4, 3), (5, 2)] {
        let e = CodingEngine::new(d, p, 16).unwrap();
        let mut shards = filled(10 + d as u64, d + p, 37);
        e.encode(&mut shards).unwrap();
        let total = d + p;
        for mask in 0u32..(1 << total) {
            if mask.count_ones() as usize > p {
                continue;
            }
            let mut slots = shards_into_option_shards(shards.clone());
            for i in 0..total {
                if mask & (1 << i) != 0 {
                    slots[i] = None;
                }
            }
            assert_eq!(e.reconstruct(&mut slots), Ok(()));
            assert_eq!(slots, shards_into_option_shards(shards.clone()));
        }
    }
}

#[test]
fn reconstruct_restores_the_first_shard() {
    let e = CodingEngine::new(5, 2, 8192).unwrap();
    let mut shards = filled(11, 7, 10_000);
    e.encode(&mut shards).unwrap();
    let mut slots = shards_into_option_shards(shards.clone());
    for _ in 0..3 {
        slots[0] = None;
        assert_eq!(e.reconstruct(&mut slots), Ok(()));
        assert_eq!(slots[0], Some(shards[0].clone()));
    }
}

#[test]
fn reconstruct_leaves_present_shards_alone() {
    // A present parity shard that does not fit the data is not repaired.
    let e = CodingEngine::new(2, 2, 1024).unwrap();
    let mut shards = filled(12, 4, 16);
    e.encode(&mut shards).unwrap();
    let mut slots = shards_into_option_shards(shards.clone());
    slots[2] = None;
    slots[3] = Some(vec![0xaa; 16]);
    assert_eq!(e.reconstruct(&mut slots), Ok(()));
    assert_eq!(slots[0], Some(shards[0].clone()));
    assert_eq!(slots[1], Some(shards[1].clone()));
    assert_eq!(slots[2], Some(shards[2].clone()));
    assert_eq!(slots[3], Some(vec![0xaa; 16]));
}

#[test]
fn reconstruct_of_a_large_code() {
    let e = CodingEngine::new(100, 20, 8192).unwrap();
    let mut shards = filled(13, 120, 64);
    e.encode(&mut shards).unwrap();
    let mut slots = shards_into_option_shards(shards.clone());
    for i in 0..20 {
        slots[i * 5] = None;
    }
    assert_eq!(e.reconstruct(&mut slots), Ok(()));
    assert_eq!(slots, shards_into_option_shards(shards));
}

#[test]
fn ranges_split_the_shard_in_order() {
    let e = CodingEngine::new(5, 2, 1024).unwrap();
    assert_eq!(e.ranges(0), Vec::<(usize, usize)>::new());
    assert_eq!(e.ranges(100), vec![(0, 100)]);
    assert_eq!(e.ranges(204), vec![(0, 204)]);
    assert_eq!(e.ranges(205), vec![(0, 204), (204, 205)]);
    assert_eq!(e.ranges(500), vec![(0, 204), (204, 408), (408, 500)]);
    assert_eq!(e.ranges(408), vec![(0, 204), (204, 408)]);
    let e = CodingEngine::new(5, 2, 0).unwrap();
    assert_eq!(e.ranges(3), vec![(0, 1), (1, 2), (2, 3)]);
    assert_eq!(e.ranges(0), Vec::<(usize, usize)>::new());
    let e = CodingEngine::new(5, 2, 10_485_760).unwrap();
    assert_eq!(e.ranges(1_000_000), vec![(0, 1_000_000)]);
}

#[test]
fn parity_of_the_ranges_is_the_parity() {
    let e = CodingEngine::new(6, 3, 100).unwrap();
    let mut shards = filled(21, 9, 333);
    let given = shards.clone();
    e.encode(&mut shards).unwrap();
    let mut pieced = given.clone();
    for (start, end) in e.ranges(333) {
        let part = e.parity_range(&given, start, end);
        e.store_parity(&mut pieced, start, &part);
    }
    assert_eq!(pieced, shards);
}

#[test]
fn parity_rows_have_no_zero() {
    for (d, p) in [(1usize, 1usize), (2, 2), (5, 2), (10, 4), (17, 3), (100, 20), (128, 128)] {
        let e = CodingEngine::new(d, p, 1024).unwrap();
        for r in d..d + p {
            for c in 0..d {
                assert_ne!(e.matrix().get(r, c), 0);
            }
        }
    }
}

#[test]
fn store_parity_writes_one_range_of_each_parity_shard() {
    let e = CodingEngine::new(2, 2, 1024).unwrap();
    let mut shards = vec![vec![1u8; 6], vec![2u8; 6], vec![3u8; 6], vec![4u8; 6]];
    e.store_parity(&mut shards, 2, &vec![vec![7u8, 8, 9], vec![10u8, 11, 12]]);
    assert_eq!(shards[0], vec![1u8; 6]);
    assert_eq!(shards[1], vec![2u8; 6]);
    assert_eq!(shards[2], vec![3u8, 3, 7, 8, 9, 3]);
    assert_eq!(shards[3], vec![4u8, 4, 10, 11, 12, 4]);
}

#[test]
fn store_parity_of_empty_rows_changes_nothing() {
    let e = CodingEngine::new(2, 1, 1024).unwrap();
    let given = vec![vec![1u8; 4], vec![2u8; 4], vec![3u8; 4]];
    let mut shards = given.clone();
    e.store_parity(&mut shards, 4, &vec![Vec::new()]);
    assert_eq!(shards, given);
    e.store_parity(&mut shards, 0, &vec![Vec::new()]);
    assert_eq!(shards, given);
}

#[test]
fn store_parity_rows_may_differ_in_length() {
    let e = CodingEngine::new(1, 2, 1024).unwrap();
    let mut shards = vec![vec![1u8; 3], vec![0u8; 3], vec![0u8; 3]];
    e.store_parity(&mut shards, 1, &vec![vec![5u8, 6], vec![7u8]]);
    assert_eq!(shards, vec![vec![1u8; 3], vec![0u8, 5, 6], vec![0u8, 7, 0]]);
}
