use erasure_engine::bench::{
    benchmark_encode, benchmark_encode_inplace, benchmark_reconstruct, benchmark_verify,
    elapsed, fill_from, fill_random, make_random_shards, Measurement,
};
use erasure_engine::error::Error;

#[test]
fn elapsed_is_the_difference() {
    assert_eq!(elapsed(1_000, 4_500), 3_500);
    assert_eq!(elapsed(7, 7), 0);
    assert_eq!(elapsed(0, u64::MAX), u64::MAX);
}

#[test]
fn elapsed_of_readings_out_of_order_is_zero() {
    assert_eq!(elapsed(4_500, 1_000), 0);
    assert_eq!(elapsed(u64::MAX, 0), 0);
}

#[test]
fn fill_random_keeps_the_length() {
    let mut shard = vec![0u8; 4096];
    fill_random(&mut shard);
    assert_eq!(shard.len(), 4096);
    assert!(shard.iter().any(|&b| b != 0));
    let mut empty: Vec<u8> = Vec::new();
    fill_random(&mut empty);
    assert!(empty.is_empty());
}

#[test]
fn random_shards_have_the_asked_shape() {
    let shards = make_random_shards(1000, 7);
    assert_eq!(shards.len(), 7);
    for shard in shards.iter() {
        assert_eq!(shard.len(), 1000);
    }
    assert_ne!(shards[0], shards[1]);
    assert!(make_random_shards(10, 0).is_empty());
}

#[test]
fn benchmark_encode_counts_the_data_bytes() {
    let m = benchmark_encode(3, 5, 2, 10_000, 8192).unwrap();
    assert_eq!(m.byte_count, 150_000);
    let m = benchmark_encode(0, 5, 2, 10_000, 8192).unwrap();
    assert_eq!(m.byte_count, 0);
}

#[test]
fn benchmark_encode_inplace_counts_five_million_bytes_a_pass() {
    let m = benchmark_encode_inplace(2, 10_485_760);
    assert_eq!(m.byte_count, 10_000_000);
}

#[test]
fn benchmark_verify_counts_all_bytes() {
    let m = benchmark_verify(3, 10, 4, 4096, 1024).unwrap();
    assert_eq!(m.byte_count, 3 * 4096 * 14);
}

#[test]
fn benchmark_reconstruct_counts_one_shard() {
    let m = benchmark_reconstruct(4, 10, 4, 4096, 1024).unwrap();
    assert_eq!(m.byte_count, 4 * 4096);
}

#[test]
fn benchmarks_reject_invalid_counts() {
    assert_eq!(benchmark_encode(1, 0, 2, 10, 1024), Err(Error::InvalidShardCount));
    assert_eq!(benchmark_encode(1, 200, 57, 10, 1024), Err(Error::InvalidShardCount));
    assert_eq!(benchmark_verify(1, 3, 0, 10, 1024), Err(Error::InvalidShardCount));
    assert_eq!(benchmark_reconstruct(1, 0, 0, 10, 1024), Err(Error::InvalidShardCount));
}

#[test]
fn measurement_is_plain_data() {
    let m = Measurement { nanoseconds: 5, byte_count: 9 };
    let n = m;
    assert_eq!(m, n);
    assert_eq!(format!("{:?}", m), "Measurement { nanoseconds: 5, byte_count: 9 }");
}

#[test]
fn fill_from_stores_the_bytes_in_order() {
    let mut shard = vec![0u8, 0, 0];
    fill_from(&mut shard, &vec![7u8, 8, 9]);
    assert_eq!(shard, vec![7u8, 8, 9]);
}

#[test]
fn fill_from_keeps_nothing_of_the_old_content() {
    let bytes: Vec<u8> = (0..200u32).map(|i| (i * 13 + 5) as u8).collect();
    let mut blank = vec![0u8; 200];
    let mut used = vec![0xeeu8; 200];
    fill_from(&mut blank, &bytes);
    fill_from(&mut used, &bytes);
    assert_eq!(blank, bytes);
    assert_eq!(used, bytes);
}

#[test]
fn fill_from_of_an_empty_shard() {
    let mut shard: Vec<u8> = Vec::new();
    fill_from(&mut shard, &Vec::new());
    assert!(shard.is_empty());
}
