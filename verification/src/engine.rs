//! The coding engine: a code with fixed shard counts that encodes,
//! verifies and reconstructs shard sets.

use crate::code::{
    absent_count, chosen, completed, encoded, equal_lengths, is_code_word, parity_byte, parity_of,
    picked, present_equal_lengths, present_upto, reconstructed, recovered,
};
use crate::code_proofs::{lemma_chosen, lemma_present_upto};
use crate::coding_matrix::{
    coding_matrix, lemma_any_rows_invertible, lemma_inverse_unique, valid_counts,
};
use crate::error::Error;
use crate::galois::Gf256;
use crate::linalg::{column, dot, dot_upto, grid, inverse_of, ref_grid, select_rows, width};
use crate::matrix::{build_with, indices, invert_with, Matrix};
use crate::shards::{
    count_absent, same_lengths, same_present_lengths, slots, OptionShardSet, ShardSet,
};
use vstd::prelude::*;

verus! {

/// A Reed-Solomon code for a fixed number of data and parity shards,
/// with its field tables and its coding matrix, both built once.
pub struct CodingEngine {
    data_count: usize,
    parity_count: usize,
    threshold: usize,
    field: Gf256,
    matrix: Matrix,
}

/// The width in bytes of the ranges into which the work on shards of
/// `shard_len` bytes is split. Work of fewer bytes than the threshold
/// is one range; other work is split into ranges of about
/// `threshold / d` bytes, and of one byte at least.
pub open spec fn chunk_width(threshold: nat, d: nat, shard_len: nat) -> nat {
    if shard_len * d < threshold {
        shard_len
    } else if threshold / d == 0 {
        1
    } else {
        threshold / d
    }
}

/// Whether `ranges` splits the bytes `0..len` into consecutive ranges
/// of `w` bytes each, the last of which may be shorter. Shards
/// without bytes have no range.
pub open spec fn splits(ranges: Seq<(usize, usize)>, w: nat, len: nat) -> bool {
    &&& ranges.len() == 0 <==> len == 0
    &&& forall|i: int|
        0 <= i < ranges.len() ==> (#[trigger] ranges[i]).0 < ranges[i].1 <= len && ranges[i].1
            - ranges[i].0 <= w
    &&& forall|i: int|
        0 <= i < ranges.len() ==> (#[trigger] ranges[i]).0 == (if i == 0 {
            0
        } else {
            ranges[i - 1].1 as int
        })
    &&& forall|i: int|
        0 <= i < ranges.len() ==> (#[trigger] ranges[i]).1 == (if i == ranges.len() - 1 {
            len as int
        } else {
            ranges[i].0 + w
        })
}

/// The end of the range of at most `step` bytes that starts at `start`.
fn range_end(start: usize, step: usize, len: usize) -> (end: usize)
    requires
        start < len,
        step > 0,
    ensures
        start < end <= len,
        end == (if start + step <= len { start + step } else { len as int }),
{
    if step >= len - start {
        len
    } else {
        start + step
    }
}

/// The bytes `start..end` of the combination of the inputs with the weights `coeffs`.
fn combine_range(
    field: &Gf256,
    coeffs: &Vec<u8>,
    inputs: &Vec<&Vec<u8>>,
    start: usize,
    end: usize,
) -> (out: Vec<u8>)
    requires
        coeffs.len() == inputs.len(),
        start <= end,
        forall|k: int| 0 <= k < inputs.len() ==> end <= (#[trigger] inputs[k]).len(),
    ensures
        out.len() == end - start,
        forall|j: int|
            0 <= j < end - start ==> #[trigger] out[j] == dot(
                coeffs@,
                column(ref_grid(*inputs), start + j),
            ),
{
    let count = end - start;
    let mut out: Vec<u8> = vec![0u8; count];
    let mut k: usize = 0;
    while k < coeffs.len()
        invariant
            k <= coeffs.len(),
            coeffs.len() == inputs.len(),
            count == end - start,
            forall|k: int| 0 <= k < inputs.len() ==> end <= (#[trigger] inputs[k]).len(),
            out.len() == count,
            forall|j: int|
                0 <= j < count ==> #[trigger] out[j] == dot_upto(
                    coeffs@,
                    column(ref_grid(*inputs), start + j),
                    k as nat,
                ),
        decreases coeffs.len() - k,
    {
        let c = coeffs[k];
        let input = inputs[k];
        let mut j: usize = 0;
        while j < count
            invariant
                j <= count,
                k < coeffs.len(),
                coeffs.len() == inputs.len(),
                count == end - start,
                end <= input.len(),
                input == inputs[k as int],
                c == coeffs[k as int],
                out.len() == count,
                forall|i: int|
                    0 <= i < j ==> #[trigger] out[i] == dot_upto(
                        coeffs@,
                        column(ref_grid(*inputs), start + i),
                        (k + 1) as nat,
                    ),
                forall|i: int|
                    j <= i < count ==> #[trigger] out[i] == dot_upto(
                        coeffs@,
                        column(ref_grid(*inputs), start + i),
                        k as nat,
                    ),
            decreases count - j,
        {
            let t = field.mul(c, input[start + j]);
            let v = field.add(out[j], t);
            out.set(j, v);
            j += 1;
        }
        k += 1;
    }
    out
}

/// Writes `bytes` over the bytes of `shard` from `start` on.
fn store_range(shard: &mut Vec<u8>, start: usize, bytes: &Vec<u8>)
    requires
        start + bytes.len() <= old(shard).len(),
    ensures
        final(shard).len() == old(shard).len(),
        forall|j: int| 0 <= j < bytes.len() ==> final(shard)[start + j] == bytes[j],
        forall|j: int|
            0 <= j < old(shard).len() && !(start <= j < start + bytes.len()) ==> final(shard)[j]
                == old(shard)[j],
{
    let mut j: usize = 0;
    while j < bytes.len()
        invariant
            j <= bytes.len(),
            shard.len() == old(shard).len(),
            start + bytes.len() <= shard.len(),
            forall|i: int| 0 <= i < j ==> shard[start + i] == bytes[i],
            forall|i: int|
                0 <= i < shard.len() && !(start <= i < start + j) ==> shard[i] == old(shard)[i],
        decreases bytes.len() - j,
    {
        shard.set(start + j, bytes[j]);
        j += 1;
    }
}

impl CodingEngine {
    #[verifier::type_invariant]
    spec fn wf(&self) -> bool {
        &&& valid_counts(self.data_count as nat, self.parity_count as nat)
        &&& self.matrix@ == coding_matrix(self.data_count as nat, self.parity_count as nat)
        &&& self.matrix.height() == self.data_count + self.parity_count
        &&& self.matrix.width() == self.data_count
    }

    /// The number of data shards.
    pub closed spec fn data(&self) -> nat {
        self.data_count as nat
    }

    /// The number of parity shards.
    pub closed spec fn parity(&self) -> nat {
        self.parity_count as nat
    }

    /// The parallelism threshold, in bytes.
    pub closed spec fn threshold(&self) -> nat {
        self.threshold as nat
    }

    /// What `encode` makes of a shard set. The threshold has no part in it.
    pub open spec fn encoding(&self, shards: Seq<Seq<u8>>) -> Seq<Seq<u8>> {
        encoded(self.data(), self.parity(), shards)
    }

    /// An engine for `data_count` data shards and `parity_count` parity
    /// shards. Fails exactly when a count is zero or the counts
    /// together exceed 256.
    pub fn new(data_count: usize, parity_count: usize, parallelism_threshold: usize) -> (r: Result<
        CodingEngine,
        Error,
    >)
        ensures
            match r {
                Ok(engine) => valid_counts(data_count as nat, parity_count as nat) && engine.data()
                    == data_count && engine.parity() == parity_count && engine.threshold()
                    == parallelism_threshold,
                Err(e) => e == Error::InvalidShardCount && !valid_counts(
                    data_count as nat,
                    parity_count as nat,
                ),
            },
    {
        if data_count == 0 || parity_count == 0 || data_count > 256 || parity_count > 256
            - data_count {
            return Err(Error::InvalidShardCount);
        }
        let field = Gf256::new();
        let matrix = build_with(&field, data_count, parity_count);
        let threshold = parallelism_threshold;
        Ok(CodingEngine { data_count, parity_count, threshold, field, matrix })
    }

    /// The number of data shards.
    pub fn data_shard_count(&self) -> (n: usize)
        ensures
            n == self.data(),
            valid_counts(self.data(), self.parity()),
    {
        proof {
            use_type_invariant(self);
        }
        self.data_count
    }

    /// The number of parity shards.
    pub fn parity_shard_count(&self) -> (n: usize)
        ensures
            n == self.parity(),
            valid_counts(self.data(), self.parity()),
    {
        proof {
            use_type_invariant(self);
        }
        self.parity_count
    }

    /// The number of shards in a set.
    pub fn total_shard_count(&self) -> (n: usize)
        ensures
            n == self.data() + self.parity(),
            valid_counts(self.data(), self.parity()),
    {
        proof {
            use_type_invariant(self);
        }
        self.data_count + self.parity_count
    }

    /// The parallelism threshold, in bytes.
    pub fn parallelism_threshold(&self) -> (n: usize)
        ensures
            n == self.threshold(),
    {
        self.threshold
    }

    /// The coding matrix of the engine.
    pub fn matrix(&self) -> (m: &Matrix)
        ensures
            m@ == coding_matrix(self.data(), self.parity()),
            m.height() == self.data() + self.parity(),
            m.width() == self.data(),
    {
        proof {
            use_type_invariant(self);
        }
        &self.matrix
    }

    /// The width of the byte ranges into which the work on shards of
    /// `shard_len` bytes is split: the whole shard when the work is
    /// below the threshold.
    pub fn chunk_len(&self, shard_len: usize) -> (w: usize)
        ensures
            w == chunk_width(self.threshold(), self.data(), shard_len as nat),
            shard_len > 0 ==> w > 0,
    {
        proof {
            use_type_invariant(self);
        }
        let d = self.data_count;
        let quot = self.threshold / d;
        let rem = self.threshold % d;
        assert((shard_len * d < self.threshold) <==> (shard_len < quot || (shard_len == quot && rem
            > 0))) by (nonlinear_arith)
            requires
                d > 0,
                quot == self.threshold / d,
                rem == self.threshold % d,
        ;
        if shard_len < quot || (shard_len == quot && rem > 0) {
            shard_len
        } else if quot == 0 {
            1
        } else {
            quot
        }
    }

    /// The byte ranges into which `encode` and `verify` split their work
    /// on shards of `shard_len` bytes, in order: one range when the
    /// work is below the threshold. No two of them overlap, so that
    /// each can be given to a worker of its own.
    pub fn ranges(&self, shard_len: usize) -> (out: Vec<(usize, usize)>)
        ensures
            splits(
                out@,
                chunk_width(self.threshold(), self.data(), shard_len as nat),
                shard_len as nat,
            ),
    {
        let step = self.chunk_len(shard_len);
        let mut out: Vec<(usize, usize)> = Vec::new();
        let mut start: usize = 0;
        while start < shard_len
            invariant
                start <= shard_len,
                shard_len > 0 ==> step > 0,
                out.len() == 0 <==> start == 0,
                out.len() > 0 ==> out[out.len() - 1].1 == start,
                forall|i: int|
                    0 <= i < out.len() ==> (#[trigger] out[i]).0 < out[i].1 <= start && out[i].1
                        - out[i].0 <= step,
                forall|i: int|
                    0 <= i < out.len() ==> (#[trigger] out[i]).0 == (if i == 0 {
                        0
                    } else {
                        out[i - 1].1 as int
                    }),
                forall|i: int|
                    0 <= i < out.len() ==> (#[trigger] out[i]).1 == out[i].0 + step || (i
                        == out.len() - 1 && start == shard_len),
            decreases shard_len - start,
        {
            let end = range_end(start, step, shard_len);
            out.push((start, end));
            start = end;
        }
        out
    }

    /// The bytes `start..end` of every parity shard, computed from the
    /// data shards. The shards are only read: ranges that do not
    /// overlap can be computed side by side.
    pub fn parity_range(&self, shards: &ShardSet, start: usize, end: usize) -> (out: Vec<Vec<u8>>)
        requires
            shards.len() == self.data() + self.parity(),
            equal_lengths(grid(*shards)),
            start <= end <= width(grid(*shards)),
        ensures
            out.len() == self.parity(),
            forall|q: int| 0 <= q < self.parity() ==> (#[trigger] out[q]).len() == end - start,
            forall|q: int, j: int|
                0 <= q < self.parity() && 0 <= j < end - start ==> (#[trigger] out[q][j])
                    == parity_byte(self.data(), self.parity(), grid(*shards), q, start + j),
    {
        proof {
            use_type_invariant(self);
        }
        let d = self.data_count;
        let p = self.parity_count;
        let ghost g = grid(*shards);
        let mut inputs: Vec<&Vec<u8>> = Vec::new();
        let mut i: usize = 0;
        while i < d
            invariant
                i <= d,
                d + p == shards.len(),
                g == grid(*shards),
                equal_lengths(g),
                end <= width(g),
                inputs.len() == i,
                forall|k: int| 0 <= k < i ==> (#[trigger] inputs[k])@ == shards[k]@,
                forall|k: int| 0 <= k < i ==> end <= (#[trigger] inputs[k]).len(),
            decreases d - i,
        {
            assert(g[i as int] == shards[i as int]@);
            inputs.push(&shards[i]);
            i += 1;
        }
        assert(ref_grid(inputs) =~~= g.take(d as int));
        let mut out: Vec<Vec<u8>> = Vec::new();
        let mut q: usize = 0;
        while q < p
            invariant
                q <= p,
                d == self.data(),
                p == self.parity(),
                d + p == shards.len(),
                self.matrix@ == coding_matrix(d as nat, p as nat),
                self.matrix.height() == d + p,
                self.matrix.width() == d,
                start <= end,
                inputs.len() == d,
                ref_grid(inputs) == g.take(d as int),
                g == grid(*shards),
                forall|k: int| 0 <= k < inputs.len() ==> end <= (#[trigger] inputs[k]).len(),
                out.len() == q,
                forall|t: int| 0 <= t < q ==> (#[trigger] out[t]).len() == end - start,
                forall|t: int, j: int|
                    0 <= t < q && 0 <= j < end - start ==> (#[trigger] out[t][j]) == parity_byte(
                        d as nat,
                        p as nat,
                        g,
                        t,
                        start + j,
                    ),
            decreases p - q,
        {
            let row = self.matrix.row(d + q);
            let bytes = combine_range(&self.field, row, &inputs, start, end);
            out.push(bytes);
            q += 1;
        }
        out
    }

    /// Writes `rows`, the bytes of one range of every parity shard, over
    /// the bytes of the parity shards of the set from `start` on. The
    /// data shards and all other bytes of the parity shards stay as
    /// they are.
    pub fn store_parity(&self, shards: &mut ShardSet, start: usize, rows: &Vec<Vec<u8>>)
        requires
            old(shards).len() == self.data() + self.parity(),
            rows.len() == self.parity(),
            forall|q: int|
                0 <= q < self.parity() ==> start + (#[trigger] rows[q]).len() <= old(
                    shards,
                )[self.data() + q].len(),
        ensures
            final(shards).len() == old(shards).len(),
            forall|i: int| 0 <= i < self.data() ==> (#[trigger] final(shards)[i]) == old(shards)[i],
            forall|q: int|
                0 <= q < self.parity() ==> (#[trigger] final(shards)[self.data() + q]).len() == old(
                    shards,
                )[self.data() + q].len(),
            forall|q: int, j: int|
                0 <= q < self.parity() && 0 <= j < rows[q].len() ==> final(shards)[self.data()
                    + q][start + j] == (#[trigger] rows[q][j]),
            forall|q: int, j: int|
                0 <= q < self.parity() && 0 <= j < old(shards)[self.data() + q].len() && !(start
                    <= j < start + rows[q].len()) ==> (#[trigger] final(shards)[self.data()
                    + q][j]) == old(shards)[self.data() + q][j],
    {
        proof {
            use_type_invariant(self);
        }
        let d = self.data_count;
        let p = self.parity_count;
        let mut q: usize = 0;
        while q < p
            invariant
                q <= p,
                d == self.data(),
                p == self.parity(),
                shards.len() == d + p,
                shards.len() == old(shards).len(),
                rows.len() == p,
                forall|t: int|
                    0 <= t < p ==> start + (#[trigger] rows[t]).len() <= old(shards)[d + t].len(),
                forall|i: int| 0 <= i < d ==> (#[trigger] shards[i]) == old(shards)[i],
                forall|t: int| q <= t < p ==> (#[trigger] shards[d + t]) == old(shards)[d + t],
                forall|t: int|
                    0 <= t < q ==> (#[trigger] shards[d + t]).len() == old(shards)[d + t].len(),
                forall|t: int, j: int|
                    0 <= t < q && 0 <= j < rows[t].len() ==> shards[d + t][start + j] == (
                    #[trigger] rows[t][j]),
                forall|t: int, j: int|
                    0 <= t < q && 0 <= j < old(shards)[d + t].len() && !(start <= j < start
                        + rows[t].len()) ==> (#[trigger] shards[d + t][j]) == old(shards)[d + t][j],
            decreases p - q,
        {
            let ghost before = *shards;
            assert(before[d + q] == old(shards)[d + q]);
            let shard = &mut shards[d + q];
            store_range(shard, start, &rows[q]);
            proof {
                assert forall|i: int| 0 <= i < d implies (#[trigger] shards[i]) == old(
                    shards,
                )[i] by {
                    assert(shards[i] == before[i]);
                }
                assert forall|t: int| q + 1 <= t < p implies (#[trigger] shards[d + t]) == old(
                    shards,
                )[d + t] by {
                    assert(shards[d + t] == before[d + t]);
                }
                assert forall|t: int| 0 <= t < q + 1 implies (#[trigger] shards[d + t]).len()
                    == old(shards)[d + t].len() by {
                    if t < q {
                        assert(shards[d + t] == before[d + t]);
                    }
                }
                assert forall|t: int, j: int|
                    0 <= t < q + 1 && 0 <= j < rows[t].len() implies shards[d + t][start + j] == (
                #[trigger] rows[t][j]) by {
                    if t < q {
                        assert(shards[d + t] == before[d + t]);
                    }
                }
                assert forall|t: int, j: int|
                    0 <= t < q + 1 && 0 <= j < old(shards)[d + t].len() && !(start <= j < start
                        + rows[t].len()) implies (#[trigger] shards[d + t][j]) == old(shards)[d
                    + t][j] by {
                    if t < q {
                        assert(shards[d + t] == before[d + t]);
                    }
                }
            }
            q += 1;
        }
    }

    /// Computes the parity shards from the data shards and writes them
    /// over the last shards of the set. The data shards are only read.
    /// Fails, and changes nothing, exactly when the shards differ in length.
    pub fn encode(&self, shards: &mut ShardSet) -> (r: Result<(), Error>)
        requires
            old(shards).len() == self.data() + self.parity(),
        ensures
            final(shards).len() == old(shards).len(),
            match r {
                Ok(_) => equal_lengths(grid(*old(shards))) && grid(*final(shards)) == self.encoding(
                    grid(*old(shards)),
                ),
                Err(e) => e == Error::InconsistentShardLength && !equal_lengths(grid(*old(shards)))
                    && *final(shards) == *old(shards),
            },
    {
        proof {
            use_type_invariant(self);
        }
        if !same_lengths(shards) {
            return Err(Error::InconsistentShardLength);
        }
        let d = self.data_count;
        let p = self.parity_count;
        let ghost g = grid(*shards);
        assert(g[0] == shards[0]@);
        let len = shards[0].len();
        let step = self.chunk_len(len);
        proof {
            assert forall|i: int| 0 <= i < d + p implies (#[trigger] shards[i]).len() == len
                && shards[i]@ == g[i] by {
                assert(g[i] == shards[i]@);
            }
        }
        let mut start: usize = 0;
        while start < len
            invariant
                start <= len,
                len > 0 ==> step > 0,
                d == self.data(),
                p == self.parity(),
                shards.len() == d + p,
                g == grid(*old(shards)),
                g.len() == d + p,
                valid_counts(d as nat, p as nat),
                len == width(g),
                equal_lengths(g),
                forall|i: int| 0 <= i < d + p ==> (#[trigger] shards[i]).len() == len,
                forall|i: int| 0 <= i < d ==> (#[trigger] shards[i])@ == g[i],
                forall|q: int, j: int|
                    0 <= q < p && 0 <= j < start ==> (#[trigger] shards[d + q][j]) == parity_byte(
                        d as nat,
                        p as nat,
                        g,
                        q,
                        j,
                    ),
            decreases len - start,
        {
            let end = range_end(start, step, len);
            proof {
                let now = grid(*shards);
                assert(now[0] == shards[0]@);
                assert forall|i: int| 0 <= i < now.len() implies (#[trigger] now[i]).len() == width(
                    now,
                ) by {
                    assert(shards[i].len() == len);
                }
                assert forall|i: int| 0 <= i < d implies now.take(d as int)[i] == g.take(
                    d as int,
                )[i] by {
                    assert(shards[i]@ == g[i]);
                }
                assert(now.take(d as int) =~= g.take(d as int));
            }
            let scratch = self.parity_range(shards, start, end);
            let ghost before = *shards;
            self.store_parity(shards, start, &scratch);
            proof {
                assert forall|i: int| 0 <= i < d + p implies (#[trigger] shards[i]).len()
                    == len by {
                    assert(before[i].len() == len);
                    if i >= d {
                        assert(shards[d + (i - d)].len() == before[d + (i - d)].len());
                    }
                }
                assert forall|i: int| 0 <= i < d implies (#[trigger] shards[i])@ == g[i] by {
                    assert(before[i]@ == g[i]);
                }
                assert forall|q: int, j: int| 0 <= q < p && 0 <= j < end implies (
                #[trigger] shards[d + q][j]) == parity_byte(d as nat, p as nat, g, q, j) by {
                    assert(before[d + q].len() == len);
                    if j < start {
                        assert(before[d + q][j] == parity_byte(d as nat, p as nat, g, q, j));
                    } else {
                        assert(shards[d + q][start + (j - start)] == scratch[q][j - start]);
                    }
                }
            }
            start = end;
        }
        proof {
            let f = grid(*shards);
            let e = encoded(d as nat, p as nat, g);
            assert(f.len() == e.len());
            assert forall|i: int| 0 <= i < d + p implies f[i] =~= e[i] by {
                if i < d {
                    assert(shards[i]@ == g[i]);
                } else {
                    let q = i - d;
                    assert(e[i] == parity_of(d as nat, p as nat, g)[q]);
                    assert forall|j: int| 0 <= j < len implies f[i][j] == e[i][j] by {
                        assert(shards[d + q][j] == parity_byte(d as nat, p as nat, g, q, j));
                    }
                }
            }
            assert(f =~= e);
        }
        Ok(())
    }

    /// Computes the parity shards anew, range by range as `encode` does,
    /// and compares them with the parity shards of the set, byte for
    /// byte. Changes nothing. Fails exactly when the shards differ in length.
    pub fn verify(&self, shards: &ShardSet) -> (r: Result<bool, Error>)
        requires
            shards.len() == self.data() + self.parity(),
        ensures
            match r {
                Ok(same) => equal_lengths(grid(*shards)) && same == is_code_word(
                    self.data(),
                    self.parity(),
                    grid(*shards),
                ),
                Err(e) => e == Error::InconsistentShardLength && !equal_lengths(grid(*shards)),
            },
    {
        proof {
            use_type_invariant(self);
        }
        if !same_lengths(shards) {
            return Err(Error::InconsistentShardLength);
        }
        let d = self.data_count;
        let p = self.parity_count;
        let ghost g = grid(*shards);
        let ghost e = encoded(d as nat, p as nat, g);
        assert(g[0] == shards[0]@);
        let len = shards[0].len();
        let step = self.chunk_len(len);
        proof {
            assert forall|i: int| 0 <= i < d + p implies (#[trigger] shards[i]).len() == len by {
                assert(g[i] == shards[i]@);
            }
        }
        let mut start: usize = 0;
        while start < len
            invariant
                start <= len,
                len > 0 ==> step > 0,
                d == self.data(),
                p == self.parity(),
                shards.len() == d + p,
                g == grid(*shards),
                e == encoded(d as nat, p as nat, g),
                len == width(g),
                equal_lengths(g),
                valid_counts(d as nat, p as nat),
                forall|i: int| 0 <= i < d + p ==> (#[trigger] shards[i]).len() == len,
                forall|q: int, j: int|
                    0 <= q < p && 0 <= j < start ==> (#[trigger] shards[d + q][j]) == parity_byte(
                        d as nat,
                        p as nat,
                        g,
                        q,
                        j,
                    ),
            decreases len - start,
        {
            let end = range_end(start, step, len);
            let scratch = self.parity_range(shards, start, end);
            let mut q: usize = 0;
            while q < p
                invariant
                    q <= p,
                    start < end <= len,
                    shards.len() == d + p,
                    g == grid(*shards),
                    e == encoded(d as nat, p as nat, g),
                    len == width(g),
                    equal_lengths(g),
                    d == self.data(),
                    p == self.parity(),
                    scratch.len() == p,
                    forall|t: int| 0 <= t < p ==> (#[trigger] scratch[t]).len() == end - start,
                    forall|t: int, j: int|
                        0 <= t < p && 0 <= j < end - start ==> (#[trigger] scratch[t][j])
                            == parity_byte(d as nat, p as nat, g, t, start + j),
                    forall|i: int| 0 <= i < d + p ==> (#[trigger] shards[i]).len() == len,
                    forall|t: int, j: int|
                        0 <= t < q && start <= j < end ==> (#[trigger] shards[d + t][j])
                            == parity_byte(d as nat, p as nat, g, t, j),
                decreases p - q,
            {
                let mut j: usize = start;
                while j < end
                    invariant
                        start <= j <= end,
                        end <= len,
                        q < p,
                        shards.len() == d + p,
                        g == grid(*shards),
                        e == encoded(d as nat, p as nat, g),
                        len == width(g),
                        equal_lengths(g),
                        d == self.data(),
                        p == self.parity(),
                        scratch.len() == p,
                        scratch[q as int].len() == end - start,
                        shards[d + q].len() == len,
                        forall|i: int|
                            0 <= i < end - start ==> (#[trigger] scratch[q as int][i])
                                == parity_byte(d as nat, p as nat, g, q as int, start + i),
                        forall|i: int|
                            start <= i < j ==> (#[trigger] shards[d + q][i]) == parity_byte(
                                d as nat,
                                p as nat,
                                g,
                                q as int,
                                i,
                            ),
                    decreases end - j,
                {
                    if shards[d + q][j] != scratch[q][j - start] {
                        proof {
                            assert(scratch[q as int][j - start] == parity_byte(
                                d as nat,
                                p as nat,
                                g,
                                q as int,
                                start + (j - start),
                            ));
                            assert(g[d + q] == shards[d + q]@);
                            assert(e[d + q] == parity_of(d as nat, p as nat, g)[q as int]);
                            assert(e[d + q][j as int] != g[d + q][j as int]);
                        }
                        return Ok(false);
                    }
                    assert(scratch[q as int][j - start] == parity_byte(
                        d as nat,
                        p as nat,
                        g,
                        q as int,
                        start + (j - start),
                    ));
                    j += 1;
                }
                q += 1;
            }
            start = end;
        }
        proof {
            assert(g.len() == e.len());
            assert forall|i: int| 0 <= i < d + p implies g[i] =~= e[i] by {
                assert(g[i] == shards[i]@);
                if i >= d {
                    let q = i - d;
                    assert(e[i] == parity_of(d as nat, p as nat, g)[q]);
                    assert forall|j: int| 0 <= j < len implies g[i][j] == e[i][j] by {
                        assert(shards[d + q][j] == parity_byte(d as nat, p as nat, g, q, j));
                    }
                }
            }
            assert(g =~= e);
        }
        Ok(true)
    }

    /// The first `data` present shards of the set, by index.
    fn choose_shards(&self, shards: &Vec<Option<Vec<u8>>>) -> (sel: Vec<usize>)
        requires
            shards.len() == self.data() + self.parity(),
            absent_count(slots(*shards)) <= self.parity(),
        ensures
            indices(sel@) == chosen(slots(*shards), self.data()),
            sel.len() == self.data(),
    {
        let d = self.data_count;
        let ghost o = slots(*shards);
        let mut all: Vec<usize> = Vec::new();
        let mut i: usize = 0;
        while i < shards.len()
            invariant
                i <= shards.len(),
                o == slots(*shards),
                indices(all@) == present_upto(o, i as nat),
            decreases shards.len() - i,
        {
            if shards[i].is_some() {
                all.push(i);
                assert(indices(all@) =~= present_upto(o, i as nat).push(i as int));
            }
            i += 1;
        }
        proof {
            lemma_present_upto(o, o.len());
            assert(indices(all@).len() == all.len());
        }
        let mut sel: Vec<usize> = Vec::new();
        let mut k: usize = 0;
        while k < d
            invariant
                k <= d,
                d <= all.len(),
                sel.len() == k,
                forall|t: int| 0 <= t < k ==> sel[t] == all[t],
            decreases d - k,
        {
            sel.push(all[k]);
            k += 1;
        }
        assert(indices(sel@) =~= indices(all@).take(d as int));
        sel
    }

    /// Recovers every absent data shard from the chosen shards.
    fn recover_data(&self, shards: &Vec<Option<Vec<u8>>>) -> (fresh: Vec<Option<Vec<u8>>>)
        requires
            shards.len() == self.data() + self.parity(),
            absent_count(slots(*shards)) <= self.parity(),
            present_equal_lengths(slots(*shards)),
        ensures
            fresh.len() == self.data(),
            forall|i: int|
                0 <= i < self.data() ==> (#[trigger] fresh[i]) is None == (slots(
                    *shards,
                )[i] is Some),
            forall|i: int|
                0 <= i < self.data() && slots(*shards)[i] is None ==> (#[trigger] fresh[i])->0@
                    == recovered(self.data(), self.parity(), slots(*shards), i),
    {
        proof {
            use_type_invariant(self);
        }
        let d = self.data_count;
        let p = self.parity_count;
        let ghost o = slots(*shards);
        let mut fresh: Vec<Option<Vec<u8>>> = Vec::new();
        let mut lost: bool = false;
        let mut i: usize = 0;
        while i < d
            invariant
                i <= d,
                d + p == shards.len(),
                o == slots(*shards),
                !lost ==> forall|t: int| 0 <= t < i ==> (#[trigger] o[t]) is Some,
            decreases d - i,
        {
            if shards[i].is_none() {
                lost = true;
            }
            assert(o[i as int] is Some == shards[i as int] is Some);
            i += 1;
        }
        if !lost {
            let mut i: usize = 0;
            while i < d
                invariant
                    i <= d,
                    fresh.len() == i,
                    forall|t: int| 0 <= t < i ==> (#[trigger] fresh[t]) is None,
                decreases d - i,
            {
                fresh.push(None);
                i += 1;
            }
            return fresh;
        }
        let sel = self.choose_shards(shards);
        let ghost rows = select_rows(coding_matrix(d as nat, p as nat), chosen(o, d as nat));
        proof {
            lemma_chosen(o, d as nat, p as nat);
            lemma_any_rows_invertible(d as nat, p as nat, chosen(o, d as nat));
            assert forall|k: int| 0 <= k < sel.len() implies (#[trigger] sel[k]) < shards.len()
                && o[sel[k] as int] is Some by {
                assert(indices(sel@)[k] == sel[k]);
                assert(o[chosen(o, d as nat)[k]] is Some);
            }
        }
        let inputs = gather(shards, &sel);
        assert(ref_grid(inputs) =~~= picked(o, d as nat));
        let len = inputs[0].len();
        proof {
            assert forall|k: int| 0 <= k < inputs.len() implies len <= (
            #[trigger] inputs[k]).len() by {
                assert(inputs[k]@ == o[sel[k] as int]->0);
                assert(inputs[0]@ == o[sel[0] as int]->0);
                assert(o[chosen(o, d as nat)[k]] is Some);
                assert(o[chosen(o, d as nat)[0]] is Some);
                assert(indices(sel@)[k] == sel[k]);
                assert(indices(sel@)[0] == sel[0]);
            }
        }
        let inverse = invert_with(&self.field, &self.matrix, &sel).unwrap();
        proof {
            lemma_inverse_unique(inverse@, inverse_of(rows, d as nat), rows, d as nat);
        }
        let mut i: usize = 0;
        while i < d
            invariant
                i <= d,
                d == self.data(),
                p == self.parity(),
                d + p == shards.len(),
                o == slots(*shards),
                inverse@ == inverse_of(rows, d as nat),
                rows == select_rows(coding_matrix(d as nat, p as nat), chosen(o, d as nat)),
                inverse.height() == d,
                inverse.width() == d,
                inputs.len() == d,
                ref_grid(inputs) == picked(o, d as nat),
                len == width(picked(o, d as nat)),
                forall|k: int|
                    0 <= k < inputs.len() ==> len <= (#[trigger] inputs[k]).len(),
                fresh.len() == i,
                forall|t: int|
                    0 <= t < i ==> (#[trigger] fresh[t]) is None == (o[t] is Some),
                forall|t: int|
                    0 <= t < i && o[t] is None ==> (#[trigger] fresh[t])->0@ == recovered(
                        d as nat,
                        p as nat,
                        o,
                        t,
                    ),
            decreases d - i,
        {
            assert(o[i as int] is Some == shards[i as int] is Some);
            if shards[i].is_none() {
                let bytes = combine_range(&self.field, inverse.row(i), &inputs, 0, len);
                assert(bytes@ =~= recovered(d as nat, p as nat, o, i as int));
                fresh.push(Some(bytes));
            } else {
                fresh.push(None);
            }
            i += 1;
        }
        fresh
    }

    /// Computes every absent parity shard from the completed data shards.
    fn recover_parity(&self, shards: &Vec<Option<Vec<u8>>>, data: &Vec<Option<Vec<u8>>>) -> (fresh:
        Vec<Option<Vec<u8>>>)
        requires
            shards.len() == self.data() + self.parity(),
            absent_count(slots(*shards)) <= self.parity(),
            present_equal_lengths(slots(*shards)),
            data.len() == self.data(),
            forall|i: int|
                0 <= i < self.data() ==> (#[trigger] data[i]) is None == (slots(
                    *shards,
                )[i] is Some),
            forall|i: int|
                0 <= i < self.data() && slots(*shards)[i] is None ==> (#[trigger] data[i])->0@
                    == recovered(self.data(), self.parity(), slots(*shards), i),
        ensures
            fresh.len() == self.parity(),
            forall|q: int|
                0 <= q < self.parity() ==> (#[trigger] fresh[q]) is None == (slots(
                    *shards,
                )[self.data() + q] is Some),
            forall|q: int|
                0 <= q < self.parity() && slots(*shards)[self.data() + q] is None ==> (
                #[trigger] fresh[q])->0@ == parity_of(
                    self.data(),
                    self.parity(),
                    completed(self.data(), self.parity(), slots(*shards)),
                )[q],
    {
        proof {
            use_type_invariant(self);
        }
        let d = self.data_count;
        let p = self.parity_count;
        let ghost o = slots(*shards);
        let ghost full = completed(d as nat, p as nat, o);
        let mut inputs: Vec<&Vec<u8>> = Vec::new();
        let mut i: usize = 0;
        while i < d
            invariant
                i <= d,
                d == self.data(),
                d + p == shards.len(),
                o == slots(*shards),
                full == completed(d as nat, p as nat, o),
                data.len() == d,
                forall|t: int| 0 <= t < d ==> (#[trigger] data[t]) is None == (o[t] is Some),
                forall|t: int|
                    0 <= t < d && o[t] is None ==> (#[trigger] data[t])->0@ == recovered(
                        d as nat,
                        p as nat,
                        o,
                        t,
                    ),
                inputs.len() == i,
                forall|t: int| 0 <= t < i ==> (#[trigger] inputs[t])@ == full[t],
            decreases d - i,
        {
            assert(o[i as int] is Some == shards[i as int] is Some);
            match &shards[i] {
                Some(shard) => {
                    assert(o[i as int]->0 == shard@);
                    inputs.push(shard);
                },
                None => {
                    inputs.push(data[i].as_ref().unwrap());
                },
            }
            i += 1;
        }
        assert(ref_grid(inputs) =~~= full);
        assert(full.take(d as int) =~= full);
        let len = inputs[0].len();
        proof {
            lemma_chosen(o, d as nat, p as nat);
            let c = chosen(o, d as nat);
            assert(o[c[0]] is Some);
            assert(picked(o, d as nat)[0] == o[c[0]]->0);
            assert forall|k: int| 0 <= k < inputs.len() implies len <= (
            #[trigger] inputs[k]).len() by {
                assert(inputs[k]@ == full[k]);
                assert(inputs[0]@ == full[0]);
                if o[k] is Some {
                    assert(o[k]->0.len() == o[c[0]]->0.len());
                }
                if o[0] is Some {
                    assert(o[0]->0.len() == o[c[0]]->0.len());
                }
            }
        }
        let mut fresh: Vec<Option<Vec<u8>>> = Vec::new();
        let mut q: usize = 0;
        while q < p
            invariant
                q <= p,
                d == self.data(),
                p == self.parity(),
                d + p == shards.len(),
                o == slots(*shards),
                full == completed(d as nat, p as nat, o),
                full.take(d as int) == full,
                self.matrix@ == coding_matrix(d as nat, p as nat),
                self.matrix.height() == d + p,
                self.matrix.width() == d,
                inputs.len() == d,
                ref_grid(inputs) == full,
                len == width(full),
                forall|k: int| 0 <= k < inputs.len() ==> len <= (#[trigger] inputs[k]).len(),
                fresh.len() == q,
                forall|t: int| 0 <= t < q ==> (#[trigger] fresh[t]) is None == (o[d + t] is Some),
                forall|t: int|
                    0 <= t < q && o[d + t] is None ==> (#[trigger] fresh[t])->0@ == parity_of(
                        d as nat,
                        p as nat,
                        full,
                    )[t],
            decreases p - q,
        {
            assert(o[d + q] is Some == shards[d + q] is Some);
            if shards[d + q].is_none() {
                let bytes = combine_range(&self.field, self.matrix.row(d + q), &inputs, 0, len);
                assert(bytes@ =~= parity_of(d as nat, p as nat, full)[q as int]);
                fresh.push(Some(bytes));
            } else {
                fresh.push(None);
            }
            q += 1;
        }
        fresh
    }

    /// Fills every absent slot of the set: absent data shards are
    /// recovered from the first `data` present shards through the
    /// inverse of their rows of the coding matrix, absent parity shards
    /// are computed from the data shards then complete. Present shards
    /// stay as they are. Fails, and changes nothing, when more shards
    /// are absent than there are parity shards, or else when the
    /// present shards differ in length.
    pub fn reconstruct(&self, shards: &mut OptionShardSet) -> (r: Result<(), Error>)
        requires
            old(shards).len() == self.data() + self.parity(),
        ensures
            final(shards).len() == old(shards).len(),
            match r {
                Ok(_) => absent_count(slots(*old(shards))) <= self.parity()
                    && present_equal_lengths(slots(*old(shards))) && slots(*final(shards))
                    == reconstructed(self.data(), self.parity(), slots(*old(shards))),
                Err(e) => *final(shards) == *old(shards) && (if absent_count(slots(*old(shards)))
                    > self.parity() {
                    e == Error::TooManyMissingShards
                } else {
                    e == Error::InconsistentShardLength && !present_equal_lengths(
                        slots(*old(shards)),
                    )
                }),
            },
    {
        proof {
            use_type_invariant(self);
        }
        let d = self.data_count;
        let p = self.parity_count;
        if count_absent(shards) > p {
            return Err(Error::TooManyMissingShards);
        }
        if !same_present_lengths(shards) {
            return Err(Error::InconsistentShardLength);
        }
        let ghost o = slots(*shards);
        let ghost want = reconstructed(d as nat, p as nat, o);
        let mut data = self.recover_data(shards);
        let mut parity = self.recover_parity(shards, &data);
        let mut i: usize = d + p;
        while i > d
            invariant
                d <= i <= d + p,
                shards.len() == d + p,
                o == slots(*old(shards)),
                o.len() == d + p,
                want == reconstructed(d as nat, p as nat, o),
                parity.len() == i - d,
                forall|q: int|
                    0 <= q < i - d ==> (#[trigger] parity[q]) is None == (o[d + q] is Some),
                forall|q: int|
                    0 <= q < i - d && o[d + q] is None ==> (#[trigger] parity[q])->0@ == parity_of(
                        d as nat,
                        p as nat,
                        completed(d as nat, p as nat, o),
                    )[q],
                forall|k: int| 0 <= k < i ==> (#[trigger] slots(*shards)[k]) == o[k],
                forall|k: int| i <= k < d + p ==> (#[trigger] slots(*shards)[k]) == want[k],
            decreases i,
        {
            i -= 1;
            let ghost before = slots(*shards);
            match parity.pop() {
                Some(Some(bytes)) => {
                    shards.set(i, Some(bytes));
                },
                _ => {},
            }
            proof {
                let now = slots(*shards);
                assert(before[i as int] == o[i as int]);
                assert forall|k: int| 0 <= k < i implies (#[trigger] now[k]) == o[k] by {
                    assert(before[k] == o[k]);
                }
                assert forall|k: int| i <= k < d + p implies (#[trigger] now[k]) == want[k] by {
                    if k > i {
                        assert(before[k] == want[k]);
                    }
                }
            }
        }
        while i > 0
            invariant
                i <= d,
                shards.len() == d + p,
                o == slots(*old(shards)),
                o.len() == d + p,
                want == reconstructed(d as nat, p as nat, o),
                data.len() == i,
                forall|t: int| 0 <= t < i ==> (#[trigger] data[t]) is None == (o[t] is Some),
                forall|t: int|
                    0 <= t < i && o[t] is None ==> (#[trigger] data[t])->0@ == recovered(
                        d as nat,
                        p as nat,
                        o,
                        t,
                    ),
                forall|k: int| 0 <= k < i ==> (#[trigger] slots(*shards)[k]) == o[k],
                forall|k: int| i <= k < d + p ==> (#[trigger] slots(*shards)[k]) == want[k],
            decreases i,
        {
            i -= 1;
            let ghost before = slots(*shards);
            match data.pop() {
                Some(Some(bytes)) => {
                    shards.set(i, Some(bytes));
                },
                _ => {},
            }
            proof {
                let now = slots(*shards);
                assert(before[i as int] == o[i as int]);
                assert forall|k: int| 0 <= k < i implies (#[trigger] now[k]) == o[k] by {
                    assert(before[k] == o[k]);
                }
                assert forall|k: int| i <= k < d + p implies (#[trigger] now[k]) == want[k] by {
                    if k > i {
                        assert(before[k] == want[k]);
                    }
                }
            }
        }
        assert(slots(*shards) =~= want);
        Ok(())
    }
}

/// References to the shards that `sel` names, all of them present.
fn gather<'a>(shards: &'a Vec<Option<Vec<u8>>>, sel: &Vec<usize>) -> (out: Vec<&'a Vec<u8>>)
    requires
        forall|k: int|
            0 <= k < sel.len() ==> (#[trigger] sel[k]) < shards.len() && slots(
                *shards,
            )[sel[k] as int] is Some,
    ensures
        out.len() == sel.len(),
        forall|k: int|
            0 <= k < sel.len() ==> (#[trigger] out[k])@ == slots(*shards)[sel[k] as int]->0,
{
    let mut out: Vec<&'a Vec<u8>> = Vec::new();
    let mut k: usize = 0;
    while k < sel.len()
        invariant
            k <= sel.len(),
            forall|k: int|
                0 <= k < sel.len() ==> (#[trigger] sel[k]) < shards.len() && slots(
                    *shards,
                )[sel[k] as int] is Some,
            out.len() == k,
            forall|t: int| 0 <= t < k ==> (#[trigger] out[t])@ == slots(*shards)[sel[t] as int]->0,
        decreases sel.len() - k,
    {
        let s = sel[k];
        assert(slots(*shards)[s as int] is Some);
        out.push(shards[s].as_ref().unwrap());
        k += 1;
    }
    out
}

} // verus!
