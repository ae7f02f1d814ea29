use erasure_engine::engine::CodingEngine;
use erasure_engine::shards::{make_blank_shards, shards_into_option_shards};
use rand::{Rng, SeedableRng, StdRng};
use reed_solomon_erasure::galois_8::ReedSolomon;

fn random_shards(seed: usize, count: usize, len: usize) -> Vec<Vec<u8>> {
    let seed: &[usize] = &[seed, 2, 3, 4];
    let mut rng: StdRng = SeedableRng::from_seed(seed);
    let mut shards = make_blank_shards(len, count);
    for shard in shards.iter_mut() {
        rng.fill_bytes(shard);
    }
    shards
}

#[test]
fn encode_matches_reed_solomon_erasure_at_both_thresholds() {
    let given = random_shards(1, 7, 1_000_000);
    let mut want = given.clone();
    ReedSolomon::new(5, 2).unwrap().encode(&mut want).unwrap();
    for threshold in [1usize, 10_485_760] {
        let e = CodingEngine::new(5, 2, threshold).unwrap();
        let mut shards = given.clone();
        e.encode(&mut shards).unwrap();
        assert!(shards == want);
    }
}

#[test]
fn encode_matches_reed_solomon_erasure_for_many_codes() {
    for (d, p, len, threshold) in [
        (1usize, 1usize, 17usize, 1024usize),
        (3, 1, 496, 1024),
        (5, 2, 496, 500),
        (10, 4, 4096, 8192),
        (17, 3, 1000, 8192),
        (100, 20, 300, 8192),
        (50, 20, 100, 1024),
        (200, 56, 10, 16384),
    ] {
        let given = random_shards(d + p, d + p, len);
        let mut want = given.clone();
        ReedSolomon::new(d, p).unwrap().encode(&mut want).unwrap();
        let e = CodingEngine::new(d, p, threshold).unwrap();
        let mut shards = given.clone();
        e.encode(&mut shards).unwrap();
        assert!(shards == want);
        assert_eq!(e.verify(&shards), Ok(true));
        assert_eq!(ReedSolomon::new(d, p).unwrap().verify(&shards), Ok(true));
    }
}

#[test]
fn reconstruct_matches_reed_solomon_erasure() {
    let e = CodingEngine::new(10, 4, 8192).unwrap();
    let r = ReedSolomon::new(10, 4).unwrap();
    let mut shards = random_shards(9, 14, 2000);
    e.encode(&mut shards).unwrap();
    for lost in [vec![0usize], vec![0, 1, 2, 3], vec![13], vec![3, 9, 11, 12], vec![5, 6, 7, 8]] {
        let mut mine = shards_into_option_shards(shards.clone());
        let mut theirs = shards_into_option_shards(shards.clone());
        for &i in lost.iter() {
            mine[i] = None;
            theirs[i] = None;
        }
        e.reconstruct(&mut mine).unwrap();
        r.reconstruct(&mut theirs).unwrap();
        assert!(mine == theirs);
        assert!(mine == shards_into_option_shards(shards.clone()));
    }
}
