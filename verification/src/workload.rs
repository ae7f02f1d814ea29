//! Repeated runs of one operation on one shard set, as a throughput
//! measurement makes them, and the number of bytes such a run handles.

use crate::code::{
    absent_count, absent_upto, chosen, completed, encoded, equal_lengths, is_code_word, parity_of,
    picked, present_equal_lengths, reconstructed,
};
use crate::code_proofs::{lemma_chosen, lemma_only_first_absent};
use crate::coding_matrix::valid_counts;
use crate::engine::CodingEngine;
use crate::error::Error;
use crate::laws::lemma_encoded_verifies;
use crate::linalg::{grid, width};
use crate::shards::{slots, OptionShardSet, ShardSet};
use vstd::prelude::*;

verus! {

/// The number of bytes that `iterations` passes over `shard_count`
/// shards of `shard_len` bytes handle, if it fits the machine word.
pub fn byte_count(iterations: usize, shard_len: usize, shard_count: usize) -> (n: Option<usize>)
    ensures
        match n {
            Some(n) => n == iterations * shard_len * shard_count,
            None => iterations * shard_len * shard_count > usize::MAX,
        },
{
    match iterations.checked_mul(shard_len) {
        Some(m) => {
            match m.checked_mul(shard_count) {
                Some(n) => Some(n),
                None => None,
            }
        },
        None => {
            if shard_count == 0 {
                assert(iterations * shard_len * shard_count == 0) by (nonlinear_arith)
                    requires
                        shard_count == 0,
                ;
                Some(0)
            } else {
                assert(iterations * shard_len * shard_count >= iterations * shard_len)
                    by (nonlinear_arith)
                    requires
                        shard_count >= 1,
                        iterations * shard_len >= 0,
                ;
                None
            }
        },
    }
}

/// Encodes the same shard set `iterations` times. Every pass after
/// the first finds the parity already in place and writes it again.
pub fn run_encode(engine: &CodingEngine, shards: &mut ShardSet, iterations: usize) -> (r: Result<
    (),
    Error,
>)
    requires
        old(shards).len() == engine.data() + engine.parity(),
    ensures
        match r {
            Ok(_) => if iterations == 0 {
                *final(shards) == *old(shards)
            } else {
                equal_lengths(grid(*old(shards))) && grid(*final(shards)) == engine.encoding(
                    grid(*old(shards)),
                )
            },
            Err(e) => e == Error::InconsistentShardLength && iterations > 0 && !equal_lengths(
                grid(*old(shards)),
            ) && *final(shards) == *old(shards),
        },
{
    let total = engine.total_shard_count();
    let ghost d = engine.data();
    let ghost p = engine.parity();
    let ghost given = grid(*shards);
    let mut k: usize = 0;
    while k < iterations
        invariant
            k <= iterations,
            d == engine.data(),
            p == engine.parity(),
            valid_counts(d, p),
            shards.len() == d + p,
            given == grid(*old(shards)),
            given.len() == d + p,
            k == 0 ==> *shards == *old(shards),
            k > 0 ==> equal_lengths(given) && grid(*shards) == encoded(d, p, given),
        decreases iterations - k,
    {
        proof {
            if k > 0 {
                lemma_encoded_verifies(d, p, given);
            }
        }
        match engine.encode(shards) {
            Ok(_) => {},
            Err(e) => {
                return Err(e);
            },
        }
        k += 1;
    }
    Ok(())
}

/// Verifies the same shard set `iterations` times, and says whether
/// every pass found the parity right.
pub fn run_verify(engine: &CodingEngine, shards: &ShardSet, iterations: usize) -> (r: Result<
    bool,
    Error,
>)
    requires
        shards.len() == engine.data() + engine.parity(),
    ensures
        match r {
            Ok(same) => if iterations == 0 {
                same
            } else {
                equal_lengths(grid(*shards)) && same == is_code_word(
                    engine.data(),
                    engine.parity(),
                    grid(*shards),
                )
            },
            Err(e) => e == Error::InconsistentShardLength && iterations > 0 && !equal_lengths(
                grid(*shards),
            ),
        },
{
    let mut all: bool = true;
    let mut k: usize = 0;
    while k < iterations
        invariant
            k <= iterations,
            shards.len() == engine.data() + engine.parity(),
            k == 0 ==> all,
            k > 0 ==> equal_lengths(grid(*shards)) && all == is_code_word(
                engine.data(),
                engine.parity(),
                grid(*shards),
            ),
        decreases iterations - k,
    {
        match engine.verify(shards) {
            Ok(same) => {
                all = all && same;
            },
            Err(e) => {
                return Err(e);
            },
        }
        k += 1;
    }
    Ok(all)
}

/// The shard set after `n` rounds of losing the first shard and reconstructing.
pub open spec fn rebuilt(d: nat, p: nat, given: Seq<Option<Seq<u8>>>, n: nat) -> Seq<
    Option<Seq<u8>>,
>
    decreases n,
{
    if n == 0 {
        given
    } else {
        reconstructed(d, p, rebuilt(d, p, given, (n - 1) as nat).update(0, None))
    }
}

/// A reconstructed shard set has every shard present, all of one length.
pub proof fn lemma_reconstructed_shape(d: nat, p: nat, s: Seq<Option<Seq<u8>>>)
    requires
        valid_counts(d, p),
        s.len() == d + p,
        absent_count(s) <= p,
        present_equal_lengths(s),
    ensures
        reconstructed(d, p, s).len() == d + p,
        forall|i: int| 0 <= i < d + p ==> (#[trigger] reconstructed(d, p, s)[i]) is Some,
        present_equal_lengths(reconstructed(d, p, s)),
{
    let r = reconstructed(d, p, s);
    let c = chosen(s, d);
    lemma_chosen(s, d, p);
    assert(s[c[0]] is Some);
    let len = width(picked(s, d));
    assert(picked(s, d)[0] == s[c[0]]->0);
    let full = completed(d, p, s);
    assert(full[0].len() == len) by {
        if s[0] is Some {
            assert(s[0]->0.len() == s[c[0]]->0.len());
        }
    }
    assert forall|i: int| 0 <= i < d + p implies (#[trigger] r[i]) is Some && r[i]->0.len()
        == len by {
        if s[i] is Some {
            assert(s[i]->0.len() == s[c[0]]->0.len());
        } else if i < d {
        } else {
            assert(parity_of(d, p, full)[i - d].len() == width(full));
        }
    }
}

/// Loses the first shard and reconstructs the set, `iterations` times
/// over. Only the first round can fail: it leaves the set without its
/// first shard and otherwise as it was. It fails when, the first
/// shard lost, more shards are absent than there are parity shards, or
/// else when the shards then present differ in length.
pub fn run_reconstruct(engine: &CodingEngine, shards: &mut OptionShardSet, iterations: usize) -> (r:
    Result<(), Error>)
    requires
        old(shards).len() == engine.data() + engine.parity(),
    ensures
        match r {
            Ok(_) => slots(*final(shards)) == rebuilt(
                engine.data(),
                engine.parity(),
                slots(*old(shards)),
                iterations as nat,
            ) && (iterations > 0 ==> absent_count(slots(*old(shards)).update(0, None))
                <= engine.parity() && present_equal_lengths(
                slots(*old(shards)).update(0, None),
            )),
            Err(e) => iterations > 0 && slots(*final(shards)) == slots(*old(shards)).update(0, None)
                && (if absent_count(slots(*old(shards)).update(0, None)) > engine.parity() {
                e == Error::TooManyMissingShards
            } else {
                e == Error::InconsistentShardLength && !present_equal_lengths(
                    slots(*old(shards)).update(0, None),
                )
            }),
        },
{
    let total = engine.total_shard_count();
    let ghost d = engine.data();
    let ghost p = engine.parity();
    let ghost given = slots(*shards);
    let mut k: usize = 0;
    while k < iterations
        invariant
            k <= iterations,
            d == engine.data(),
            p == engine.parity(),
            valid_counts(d, p),
            shards.len() == d + p,
            given == slots(*old(shards)),
            slots(*shards) == rebuilt(d, p, given, k as nat),
            k > 0 ==> absent_count(given.update(0, None)) <= p && present_equal_lengths(
                given.update(0, None),
            ),
            k > 0 ==> present_equal_lengths(slots(*shards)) && forall|i: int|
                0 <= i < d + p ==> (#[trigger] slots(*shards)[i]) is Some,
        decreases iterations - k,
    {
        let ghost before = slots(*shards);
        shards.set(0, None);
        proof {
            assert(slots(*shards) =~= before.update(0, None));
            if k > 0 {
                let s = slots(*shards);
                lemma_only_first_absent(s, s.len());
                assert forall|i: int, j: int|
                    0 <= i < s.len() && 0 <= j < s.len() && s[i] is Some && s[j] is Some implies (
                #[trigger] s[i])->0.len() == (#[trigger] s[j])->0.len() by {
                    assert(before[i] == s[i]);
                    assert(before[j] == s[j]);
                }
            }
        }
        match engine.reconstruct(shards) {
            Ok(_) => {
                proof {
                    lemma_reconstructed_shape(d, p, before.update(0, None));
                }
            },
            Err(e) => {
                return Err(e);
            },
        }
        k += 1;
    }
    Ok(())
}

} // verus!
