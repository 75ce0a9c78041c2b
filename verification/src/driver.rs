//! The record-level driver: replicating a record for the harder puzzle
//! variant and summing counts over a set of records.

use crate::springs::{count, record_arrangements, Bit, Record};
use vstd::prelude::*;

verus! {

/// The pattern of a record unfolded `k` times: `k` copies of `p`, joined by
/// a single `Unknown` separator cell between consecutive copies.
pub open spec fn unfold_pattern(p: Seq<Bit>, k: nat) -> Seq<Bit>
    decreases k,
{
    if k <= 1 {
        p
    } else {
        unfold_pattern(p, (k - 1) as nat) + seq![Bit::Unknown] + p
    }
}

/// The clue list of a record unfolded `k` times: `k` copies of `c`,
/// concatenated (the clue list is an ordered sequence, so no separator is
/// needed).
pub open spec fn unfold_clues(c: Seq<u32>, k: nat) -> Seq<u32>
    decreases k,
{
    if k <= 1 {
        c
    } else {
        unfold_clues(c, (k - 1) as nat) + c
    }
}

/// Appends every element of `src` to `dst`.
fn push_all<T: Copy>(dst: &mut Vec<T>, src: &Vec<T>)
    ensures
        final(dst)@ == old(dst)@ + src@,
{
    let mut j: usize = 0;
    while j < src.len()
        invariant
            j <= src@.len(),
            dst@ =~= old(dst)@ + src@.take(j as int),
        decreases src@.len() - j,
    {
        let x = src[j];
        dst.push(x);
        j = j + 1;
    }
    proof {
        assert(dst@ =~= old(dst)@ + src@);
    }
}

/// Replicates a record `k`-fold: `k` copies of the pattern joined by
/// `Unknown` separators, and `k` copies of the clue list. A purely
/// structural transform, independent of the counter; unfolding once is the
/// identity.
pub fn unfold(r: &Record, k: usize) -> (out: Record)
    requires
        1 <= k,
    ensures
        out.pattern@ == unfold_pattern(r.pattern@, k as nat),
        out.clues@ == unfold_clues(r.clues@, k as nat),
{
    let mut pattern: Vec<Bit> = Vec::new();
    push_all(&mut pattern, &r.pattern);
    proof {
        assert(pattern@ =~= r.pattern@);
    }
    let mut c: usize = 1;
    while c < k
        invariant
            1 <= c <= k,
            pattern@ == unfold_pattern(r.pattern@, c as nat),
        decreases k - c,
    {
        pattern.push(Bit::Unknown);
        push_all(&mut pattern, &r.pattern);
        proof {
            assert(pattern@ =~= unfold_pattern(r.pattern@, c as nat) + seq![Bit::Unknown]
                + r.pattern@);
        }
        c = c + 1;
    }

    let mut clues: Vec<u32> = Vec::new();
    push_all(&mut clues, &r.clues);
    proof {
        assert(clues@ =~= r.clues@);
    }
    let mut c2: usize = 1;
    while c2 < k
        invariant
            1 <= c2 <= k,
            clues@ == unfold_clues(r.clues@, c2 as nat),
        decreases k - c2,
    {
        push_all(&mut clues, &r.clues);
        proof {
            assert(clues@ =~= unfold_clues(r.clues@, c2 as nat) + r.clues@);
        }
        c2 = c2 + 1;
    }
    Record { pattern, clues }
}

/// The sum of the arrangement counts of a sequence of records.
pub open spec fn total_arrangements(records: Seq<Record>) -> nat
    decreases records.len(),
{
    if records.len() == 0 {
        0
    } else {
        total_arrangements(records.drop_last()) + record_arrangements(
            records.last().pattern@,
            records.last().clues@,
        )
    }
}

/// Every prefix sum of arrangement counts is at most the full sum.
proof fn lemma_total_prefix(records: Seq<Record>, i: int)
    requires
        0 <= i <= records.len(),
    ensures
        total_arrangements(records.take(i)) <= total_arrangements(records),
    decreases records.len() - i,
{
    if i == records.len() {
        assert(records.take(i) =~= records);
    } else {
        lemma_total_prefix(records, i + 1);
        assert(records.take(i + 1).drop_last() =~= records.take(i));
        assert(records.take(i + 1).last() == records[i]);
    }
}

/// Sums the arrangement count of every record. Each count call owns its own
/// memo table, so records are independent and the sum is order-independent.
pub fn total(records: &Vec<Record>) -> (t: u64)
    requires
        // Machine limits, per record and for the sum.
        forall|i: int|
            0 <= i < records@.len() ==> (#[trigger] records@[i]).pattern@.len() + 2 <= usize::MAX
                && records@[i].clues@.len() + 1 <= usize::MAX,
        total_arrangements(records@) <= u64::MAX,
    ensures
        t == total_arrangements(records@),
{
    let mut t: u64 = 0;
    let mut i: usize = 0;
    while i < records.len()
        invariant
            i <= records@.len(),
            t == total_arrangements(records@.take(i as int)),
            forall|i2: int|
                0 <= i2 < records@.len() ==> (#[trigger] records@[i2]).pattern@.len() + 2
                    <= usize::MAX && records@[i2].clues@.len() + 1 <= usize::MAX,
            total_arrangements(records@) <= u64::MAX,
        decreases records@.len() - i,
    {
        proof {
            lemma_total_prefix(records@, i as int + 1);
            assert(records@.take(i as int + 1).drop_last() =~= records@.take(i as int));
            assert(records@.take(i as int + 1).last() == records@[i as int]);
        }
        let c = count(&records[i]);
        t = t + c;
        i = i + 1;
    }
    proof {
        assert(records@.take(records@.len() as int) =~= records@);
    }
    t
}

} // verus!
