//! Shard sets: equal-length byte buffers, the first of them data, the
//! rest parity, and the form in which some of them may be absent.

use crate::code::{absent_count, absent_upto, equal_lengths, present_equal_lengths};
use crate::linalg::{grid, width, zeros};
use vstd::prelude::*;

verus! {

/// One buffer of a coded set: data or parity, by its place in the set.
pub type Shard = Vec<u8>;

/// The shards of one coded set, data shards first, all of one length.
pub type ShardSet = Vec<Shard>;

/// A shard set in which each shard is present or marked absent.
pub type OptionShardSet = Vec<Option<Shard>>;

/// A shard set in which a shard may be absent, slot by slot.
pub open spec fn slots(v: Vec<Option<Vec<u8>>>) -> Seq<Option<Seq<u8>>> {
    Seq::new(
        v.len() as nat,
        |i: int|
            match v[i] {
                Some(s) => Some(s@),
                None => None,
            },
    )
}

/// `count` shards of `shard_len` zero bytes each.
pub fn make_blank_shards(shard_len: usize, count: usize) -> (shards: ShardSet)
    ensures
        shards.len() == count,
        forall|i: int| 0 <= i < count ==> (#[trigger] shards[i])@ == zeros(shard_len as nat),
{
    let mut shards: Vec<Vec<u8>> = Vec::new();
    let mut i: usize = 0;
    while i < count
        invariant
            i <= count,
            shards.len() == i,
            forall|k: int| 0 <= k < i ==> (#[trigger] shards[k])@ == zeros(shard_len as nat),
        decreases count - i,
    {
        let shard: Vec<u8> = vec![0u8; shard_len];
        assert(shard@ =~= zeros(shard_len as nat));
        shards.push(shard);
        i += 1;
    }
    shards
}

/// The same shards, in the same order, each marked present.
pub fn shards_into_option_shards(shards: ShardSet) -> (out: OptionShardSet)
    ensures
        out.len() == shards.len(),
        forall|i: int| 0 <= i < shards.len() ==> (#[trigger] out[i]) == Some(shards[i]),
{
    let ghost given = shards@;
    let n = shards.len();
    let mut shards = shards;
    let mut reversed: Vec<Option<Vec<u8>>> = Vec::new();
    while shards.len() > 0
        invariant
            shards.len() + reversed.len() == n,
            n == given.len(),
            forall|i: int| 0 <= i < shards.len() ==> shards[i] == given[i],
            forall|k: int|
                0 <= k < reversed.len() ==> (#[trigger] reversed[k]) == Some(given[n - 1 - k]),
        decreases shards.len(),
    {
        let shard = shards.pop();
        reversed.push(shard);
    }
    let mut out: Vec<Option<Vec<u8>>> = Vec::new();
    while reversed.len() > 0
        invariant
            out.len() + reversed.len() == n,
            n == given.len(),
            forall|k: int|
                0 <= k < reversed.len() ==> (#[trigger] reversed[k]) == Some(given[n - 1 - k]),
            forall|i: int| 0 <= i < out.len() ==> (#[trigger] out[i]) == Some(given[i]),
        decreases reversed.len(),
    {
        match reversed.pop() {
            Some(slot) => {
                out.push(slot);
            },
            None => {},
        }
    }
    out
}

/// Whether all shards of the set have the same length.
pub fn same_lengths(shards: &ShardSet) -> (r: bool)
    ensures
        r == equal_lengths(grid(*shards)),
{
    if shards.len() == 0 {
        return true;
    }
    let len = shards[0].len();
    assert(grid(*shards)[0] == shards[0]@);
    let mut i: usize = 0;
    while i < shards.len()
        invariant
            i <= shards.len(),
            len == width(grid(*shards)),
            forall|k: int| 0 <= k < i ==> (#[trigger] grid(*shards)[k]).len() == len,
        decreases shards.len() - i,
    {
        assert(grid(*shards)[i as int] == shards[i as int]@);
        if shards[i].len() != len {
            return false;
        }
        i += 1;
    }
    true
}

/// The number of absent shards.
pub fn count_absent(shards: &OptionShardSet) -> (n: usize)
    ensures
        n == absent_count(slots(*shards)),
{
    let mut n: usize = 0;
    let mut i: usize = 0;
    while i < shards.len()
        invariant
            i <= shards.len(),
            n <= i,
            n == absent_upto(slots(*shards), i as nat),
        decreases shards.len() - i,
    {
        if shards[i].is_none() {
            n += 1;
        }
        i += 1;
    }
    n
}

/// Whether all present shards have the same length.
pub fn same_present_lengths(shards: &OptionShardSet) -> (r: bool)
    ensures
        r == present_equal_lengths(slots(*shards)),
{
    let mut first: Option<usize> = None;
    let mut i: usize = 0;
    while i < shards.len()
        invariant
            i <= shards.len(),
            first is None ==> forall|k: int| 0 <= k < i ==> (#[trigger] slots(*shards)[k]) is None,
            first is Some ==> forall|k: int|
                0 <= k < i && (#[trigger] slots(*shards)[k]) is Some ==> slots(*shards)[k]->0.len()
                    == first->0,
            first is Some ==> exists|k: int|
                0 <= k < i && (#[trigger] slots(*shards)[k]) is Some && slots(*shards)[k]->0.len()
                    == first->0,
        decreases shards.len() - i,
    {
        match &shards[i] {
            Some(shard) => {
                match first {
                    Some(len) => {
                        if shard.len() != len {
                            proof {
                                let k = choose|k: int|
                                    0 <= k < i && (#[trigger] slots(*shards)[k]) is Some && slots(
                                        *shards,
                                    )[k]->0.len() == len;
                                assert(slots(*shards)[i as int] is Some);
                                assert(slots(*shards)[i as int]->0.len() != slots(
                                    *shards,
                                )[k]->0.len());
                            }
                            return false;
                        }
                    },
                    None => {
                        first = Some(shard.len());
                    },
                }
                assert(slots(*shards)[i as int]->0.len() == first->0);
            },
            None => {},
        }
        i += 1;
    }
    true
}

} // verus!
