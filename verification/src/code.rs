//! What encoding, verification and reconstruction compute, stated
//! over sequences of bytes.

use crate::coding_matrix::coding_matrix;
use crate::linalg::{column, dot, inverse_of, select_rows, width};
use vstd::prelude::*;

verus! {

/// Whether all shards have the same length.
pub open spec fn equal_lengths(shards: Seq<Seq<u8>>) -> bool {
    forall|i: int| 0 <= i < shards.len() ==> (#[trigger] shards[i]).len() == width(shards)
}

/// Byte `j` of parity shard `q`: the inner product of row `d + q` of
/// the coding matrix with the bytes `j` of the `d` data shards.
pub open spec fn parity_byte(d: nat, p: nat, shards: Seq<Seq<u8>>, q: int, j: int) -> u8 {
    dot(coding_matrix(d, p)[d + q], column(shards.take(d as int), j))
}

/// The `p` parity shards that belong to the first `d` of `shards`.
pub open spec fn parity_of(d: nat, p: nat, shards: Seq<Seq<u8>>) -> Seq<Seq<u8>> {
    Seq::new(p, |q: int| Seq::new(width(shards), |j: int| parity_byte(d, p, shards, q, j)))
}

/// The shard set after encoding: the data shards as they were,
/// followed by their parity shards.
pub open spec fn encoded(d: nat, p: nat, shards: Seq<Seq<u8>>) -> Seq<Seq<u8>> {
    shards.take(d as int) + parity_of(d, p, shards)
}

/// Whether the parity shards of the set are those of its data shards.
pub open spec fn is_code_word(d: nat, p: nat, shards: Seq<Seq<u8>>) -> bool {
    shards == encoded(d, p, shards)
}

/// The number of absent slots among the first `n`.
pub open spec fn absent_upto(slots: Seq<Option<Seq<u8>>>, n: nat) -> nat
    decreases n,
{
    if n == 0 {
        0
    } else {
        absent_upto(slots, (n - 1) as nat) + (if slots[n - 1] is None { 1nat } else { 0nat })
    }
}

/// The number of absent slots.
pub open spec fn absent_count(slots: Seq<Option<Seq<u8>>>) -> nat {
    absent_upto(slots, slots.len())
}

/// The indices of the present slots among the first `n`, in increasing order.
pub open spec fn present_upto(slots: Seq<Option<Seq<u8>>>, n: nat) -> Seq<int>
    decreases n,
{
    if n == 0 {
        Seq::empty()
    } else if slots[n - 1] is Some {
        present_upto(slots, (n - 1) as nat).push(n - 1)
    } else {
        present_upto(slots, (n - 1) as nat)
    }
}

/// The shards from which missing data is recovered: the first `d` present ones.
pub open spec fn chosen(slots: Seq<Option<Seq<u8>>>, d: nat) -> Seq<int> {
    present_upto(slots, slots.len()).take(d as int)
}

/// Whether all present shards have the same length.
pub open spec fn present_equal_lengths(slots: Seq<Option<Seq<u8>>>) -> bool {
    forall|i: int, k: int|
        0 <= i < slots.len() && 0 <= k < slots.len() && slots[i] is Some && slots[k] is Some
            ==> (#[trigger] slots[i])->0.len() == (#[trigger] slots[k])->0.len()
}

/// The contents of the chosen shards.
pub open spec fn picked(slots: Seq<Option<Seq<u8>>>, d: nat) -> Seq<Seq<u8>> {
    Seq::new(d, |k: int| slots[chosen(slots, d)[k]]->0)
}

/// Data shard `i` as recovered from the chosen shards: byte by byte the
/// inner product of row `i` of the inverse of the chosen rows of the
/// coding matrix with the bytes of the chosen shards.
pub open spec fn recovered(d: nat, p: nat, slots: Seq<Option<Seq<u8>>>, i: int) -> Seq<u8> {
    let rows = select_rows(coding_matrix(d, p), chosen(slots, d));
    Seq::new(
        width(picked(slots, d)),
        |j: int| dot(inverse_of(rows, d)[i], column(picked(slots, d), j)),
    )
}

/// The data shards after reconstruction: those present as they are,
/// the others recovered.
pub open spec fn completed(d: nat, p: nat, slots: Seq<Option<Seq<u8>>>) -> Seq<Seq<u8>> {
    Seq::new(
        d,
        |i: int|
            if slots[i] is Some {
                slots[i]->0
            } else {
                recovered(d, p, slots, i)
            },
    )
}

/// The shard set after reconstruction: every present shard as it is,
/// every absent data shard recovered from the chosen shards, every
/// absent parity shard computed anew from the completed data shards.
pub open spec fn reconstructed(d: nat, p: nat, slots: Seq<Option<Seq<u8>>>) -> Seq<
    Option<Seq<u8>>,
> {
    Seq::new(
        slots.len(),
        |i: int|
            if slots[i] is Some {
                slots[i]
            } else if i < d {
                Some(recovered(d, p, slots, i))
            } else {
                Some(parity_of(d, p, completed(d, p, slots))[i - d])
            },
    )
}

} // verus!
