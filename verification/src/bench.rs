//! Throughput measurements: one operation of the engine, run many
//! times over on shards of random content, between two readings of
//! the clock.

use crate::code::{absent_count, equal_lengths, present_equal_lengths};
use crate::code_proofs::lemma_only_first_absent;
use crate::coding_matrix::valid_counts;
use crate::engine::CodingEngine;
use crate::error::Error;
use crate::laws::lemma_encoded_verifies;
use crate::linalg::{grid, width};
use crate::shards::{make_blank_shards, shards_into_option_shards, slots, Shard, ShardSet};
use crate::workload::{byte_count, run_encode, run_reconstruct, run_verify};
use vstd::prelude::*;

verus! {

/// What one measurement found: the time that the runs took, in
/// nanoseconds, and the number of bytes that they handled.
#[derive(Clone, Copy, Debug, PartialEq, Eq)]
pub struct Measurement {
    pub nanoseconds: u64,
    pub byte_count: usize,
}

/// A byte from `rand::random`. Nothing is claimed of its value.
#[verifier::external_body]
fn random_byte() -> u8 {
    rand::random::<u8>()
}

/// The reading of `time::precise_time_ns`, in nanoseconds. Nothing is
/// claimed of its value: two readings need not even be in order.
#[verifier::external_body]
fn clock_ns() -> u64 {
    time::precise_time_ns()
}

/// The time from one reading of the clock to a later one, and zero if
/// the second reading is the smaller.
pub fn elapsed(start: u64, end: u64) -> (ns: u64)
    ensures
        ns == (if end >= start { end - start } else { 0 }),
{
    if end >= start {
        end - start
    } else {
        0
    }
}

/// Overwrites the shard with as many random bytes as it is long, in the order drawn.
pub fn fill_random(arr: &mut Shard)
    ensures
        final(arr).len() == old(arr).len(),
{
    let bytes = random_bytes(arr.len());
    fill_from(arr, &bytes);
}

/// `count` bytes, drawn one after the other. Nothing is claimed of their values.
fn random_bytes(count: usize) -> (bytes: Vec<u8>)
    ensures
        bytes.len() == count,
{
    let mut bytes: Vec<u8> = Vec::new();
    let mut i: usize = 0;
    while i < count
        invariant
            i <= count,
            bytes.len() == i,
        decreases count - i,
    {
        bytes.push(random_byte());
        i += 1;
    }
    bytes
}

/// Overwrites the shard with the given bytes: byte `i` of the shard
/// becomes byte `i` of `bytes`, and nothing of what the shard held remains.
pub fn fill_from(arr: &mut Shard, bytes: &Vec<u8>)
    requires
        bytes.len() == old(arr).len(),
    ensures
        final(arr)@ == bytes@,
{
    let mut i: usize = 0;
    while i < arr.len()
        invariant
            i <= arr.len(),
            arr.len() == bytes.len(),
            forall|k: int| 0 <= k < i ==> arr[k] == bytes[k],
        decreases arr.len() - i,
    {
        arr.set(i, bytes[i]);
        i += 1;
    }
    assert(arr@ =~= bytes@);
}

/// `count` shards of `per_shard` random bytes each.
pub fn make_random_shards(per_shard: usize, count: usize) -> (shards: ShardSet)
    ensures
        shards.len() == count,
        forall|i: int| 0 <= i < count ==> (#[trigger] shards[i]).len() == per_shard,
{
    let mut shards = make_blank_shards(per_shard, count);
    let mut i: usize = 0;
    while i < count
        invariant
            shards.len() == count,
            forall|k: int| 0 <= k < count ==> (#[trigger] shards[k]).len() == per_shard,
        decreases count - i,
    {
        let shard = &mut shards[i];
        fill_random(shard);
        i += 1;
    }
    shards
}

/// Shards of one length make a shard set of equal lengths.
proof fn lemma_equal(shards: ShardSet, per_shard: nat)
    requires
        forall|i: int| 0 <= i < shards.len() ==> (#[trigger] shards[i]).len() == per_shard,
    ensures
        equal_lengths(grid(shards)),
        shards.len() > 0 ==> width(grid(shards)) == per_shard,
{
    let g = grid(shards);
    assert forall|i: int| 0 <= i < g.len() implies (#[trigger] g[i]).len() == width(g) by {
        assert(g[i] == shards[i]@);
        assert(g[0] == shards[0]@);
    }
    if shards.len() > 0 {
        assert(g[0] == shards[0]@);
    }
}

/// Measures `iterations` encodings of one set of random shards.
/// Fails exactly when the shard counts are no counts of a code.
pub fn benchmark_encode(
    iterations: usize,
    data_shards: usize,
    parity_shards: usize,
    per_shard: usize,
    bytes_per_encode: usize,
) -> (r: Result<Measurement, Error>)
    requires
        iterations * per_shard * data_shards <= usize::MAX,
    ensures
        match r {
            Ok(m) => valid_counts(data_shards as nat, parity_shards as nat) && m.byte_count
                == iterations * per_shard * data_shards,
            Err(e) => e == Error::InvalidShardCount && !valid_counts(
                data_shards as nat,
                parity_shards as nat,
            ),
        },
{
    let engine = match CodingEngine::new(data_shards, parity_shards, bytes_per_encode) {
        Ok(engine) => engine,
        Err(e) => {
            return Err(e);
        },
    };
    let mut shards = make_random_shards(per_shard, data_shards + parity_shards);
    proof {
        lemma_equal(shards, per_shard as nat);
    }
    let start = clock_ns();
    let ran = run_encode(&engine, &mut shards, iterations);
    let end = clock_ns();
    assert(ran is Ok);
    let byte_count = byte_count(iterations, per_shard, data_shards).unwrap();
    Ok(Measurement { nanoseconds: elapsed(start, end), byte_count })
}

/// Measures `iterations` encodings of five blank data shards of one
/// million bytes each, with two parity shards: no time goes into
/// filling them.
pub fn benchmark_encode_inplace(iterations: usize, bytes_per_encode: usize) -> (m: Measurement)
    requires
        iterations * 1_000_000 * 5 <= usize::MAX,
    ensures
        m.byte_count == iterations * 1_000_000 * 5,
{
    let data_shards: usize = 5;
    let parity_shards: usize = 2;
    let per_shard: usize = 1_000_000;
    let engine = CodingEngine::new(data_shards, parity_shards, bytes_per_encode).unwrap();
    let mut shards = make_blank_shards(per_shard, data_shards + parity_shards);
    proof {
        lemma_equal(shards, per_shard as nat);
    }
    let start = clock_ns();
    let ran = run_encode(&engine, &mut shards, iterations);
    let end = clock_ns();
    assert(ran is Ok);
    let byte_count = byte_count(iterations, per_shard, data_shards).unwrap();
    Measurement { nanoseconds: elapsed(start, end), byte_count }
}

/// Measures `iterations` verifications of one encoded set of random
/// shards. Fails exactly when the shard counts are no counts of a code.
pub fn benchmark_verify(
    iterations: usize,
    data_shards: usize,
    parity_shards: usize,
    per_shard: usize,
    bytes_per_encode: usize,
) -> (r: Result<Measurement, Error>)
    requires
        iterations * per_shard * (data_shards + parity_shards) <= usize::MAX,
    ensures
        match r {
            Ok(m) => valid_counts(data_shards as nat, parity_shards as nat) && m.byte_count
                == iterations * per_shard * (data_shards + parity_shards),
            Err(e) => e == Error::InvalidShardCount && !valid_counts(
                data_shards as nat,
                parity_shards as nat,
            ),
        },
{
    let engine = match CodingEngine::new(data_shards, parity_shards, bytes_per_encode) {
        Ok(engine) => engine,
        Err(e) => {
            return Err(e);
        },
    };
    let total = data_shards + parity_shards;
    let mut shards = make_random_shards(per_shard, total);
    proof {
        lemma_equal(shards, per_shard as nat);
    }
    let encoded = engine.encode(&mut shards);
    assert(encoded is Ok);
    let start = clock_ns();
    let ran = run_verify(&engine, &shards, iterations);
    let end = clock_ns();
    let byte_count = byte_count(iterations, per_shard, total).unwrap();
    Ok(Measurement { nanoseconds: elapsed(start, end), byte_count })
}

/// Measures `iterations` rounds of losing the first shard of one
/// encoded set of random shards and reconstructing it. Fails exactly
/// when the shard counts are no counts of a code.
pub fn benchmark_reconstruct(
    iterations: usize,
    data_shards: usize,
    parity_shards: usize,
    per_shard: usize,
    bytes_per_encode: usize,
) -> (r: Result<Measurement, Error>)
    requires
        iterations * per_shard <= usize::MAX,
    ensures
        match r {
            Ok(m) => valid_counts(data_shards as nat, parity_shards as nat) && m.byte_count
                == iterations * per_shard,
            Err(e) => e == Error::InvalidShardCount && !valid_counts(
                data_shards as nat,
                parity_shards as nat,
            ),
        },
{
    let engine = match CodingEngine::new(data_shards, parity_shards, bytes_per_encode) {
        Ok(engine) => engine,
        Err(e) => {
            return Err(e);
        },
    };
    let total = data_shards + parity_shards;
    let mut shards = make_random_shards(per_shard, total);
    proof {
        lemma_equal(shards, per_shard as nat);
    }
    let ghost given = grid(shards);
    let encoded = engine.encode(&mut shards);
    assert(encoded is Ok);
    let ghost coded = grid(shards);
    proof {
        lemma_encoded_verifies(data_shards as nat, parity_shards as nat, given);
    }
    let mut shards = shards_into_option_shards(shards);
    proof {
        let lost = slots(shards).update(0, None);
        assert forall|i: int| 1 <= i < lost.len() implies (#[trigger] lost[i]) is Some
            && lost[i]->0.len() == width(coded) by {
            assert(shards[i] is Some);
            assert(coded[i].len() == width(coded));
        }
        lemma_only_first_absent(lost, lost.len());
        assert(absent_count(lost) <= 1);
        assert(present_equal_lengths(lost));
    }
    let start = clock_ns();
    let ran = run_reconstruct(&engine, &mut shards, iterations);
    let end = clock_ns();
    assert(ran is Ok);
    let byte_count = byte_count(iterations, per_shard, 1).unwrap();
    Ok(Measurement { nanoseconds: elapsed(start, end), byte_count })
}

} // verus!
