//! Facts about shard sets with absent shards.

use crate::code::{absent_count, absent_upto, chosen, present_upto};
use crate::vandermonde::distinct_rows;
use vstd::prelude::*;

verus! {

/// Among the first `n` slots every slot is absent or present; the
/// present ones are listed in increasing order.
pub proof fn lemma_present_upto(slots: Seq<Option<Seq<u8>>>, n: nat)
    requires
        n <= slots.len(),
    ensures
        present_upto(slots, n).len() + absent_upto(slots, n) == n,
        forall|k: int|
            0 <= k < present_upto(slots, n).len() ==> 0 <= #[trigger] present_upto(slots, n)[k] < n
                && slots[present_upto(slots, n)[k]] is Some,
        forall|k: int, l: int|
            0 <= k < l < present_upto(slots, n).len() ==> present_upto(slots, n)[k] < present_upto(
                slots,
                n,
            )[l],
    decreases n,
{
    if n > 0 {
        lemma_present_upto(slots, (n - 1) as nat);
    }
}

/// When no more shards are absent than there are parity shards, the
/// chosen shards are `d` different present shards.
pub proof fn lemma_chosen(slots: Seq<Option<Seq<u8>>>, d: nat, p: nat)
    requires
        slots.len() == d + p,
        absent_count(slots) <= p,
    ensures
        distinct_rows(chosen(slots, d), d, d + p),
        forall|k: int| 0 <= k < d ==> slots[#[trigger] chosen(slots, d)[k]] is Some,
{
    lemma_present_upto(slots, slots.len());
    let all = present_upto(slots, slots.len());
    let c = chosen(slots, d);
    assert forall|k: int| 0 <= k < d implies 0 <= #[trigger] c[k] < d + p
        && slots[c[k]] is Some by {
        assert(c[k] == all[k]);
    }
    assert forall|k: int, l: int| 0 <= k < l < d implies c[k] != c[l] by {
        assert(all[k] < all[l]);
    }
}

/// A set in which only the first shard may be absent has at most one absent shard.
pub proof fn lemma_only_first_absent(slots: Seq<Option<Seq<u8>>>, n: nat)
    requires
        1 <= n <= slots.len(),
        forall|i: int| 1 <= i < slots.len() ==> (#[trigger] slots[i]) is Some,
    ensures
        absent_upto(slots, n) == absent_upto(slots, 1),
        absent_upto(slots, 1) <= 1,
    decreases n,
{
    if n > 1 {
        lemma_only_first_absent(slots, (n - 1) as nat);
        assert(slots[n - 1] is Some);
    } else {
        assert(absent_upto(slots, 0) == 0);
    }
}

} // verus!
