//! Confidence-ordered unmasking for masked diffusion models (low-confidence remasking with a
//! commit threshold), and the choice of the best candidate.
//!
//! Probabilities are the bits of nonnegative doubles, which are ordered as their bits are.
use crate::error::{Error, ErrorModel, Result};
use vstd::prelude::*;

verus! {

/// `a` comes before `b`: it is more confident, or as confident and earlier.
pub open spec fn ranks_before(confidence: Seq<u64>, a: int, b: int) -> bool {
    confidence[a] > confidence[b] || (confidence[a] == confidence[b] && a < b)
}

/// The most confident position, the earliest of several.
pub open spec fn most_confident(confidence: Seq<u64>, i: int) -> bool {
    0 <= i < confidence.len() && forall|k: int|
        0 <= k < confidence.len() && k != i ==> #[trigger] ranks_before(confidence, i, k)
}

/// The positions to commit: the most confident one always, plus every other at or above
/// `threshold`.
pub open spec fn commits_at(confidence: Seq<u64>, threshold: u64, i: int) -> bool {
    most_confident(confidence, i) || (0 <= i < confidence.len() && confidence[i] >= threshold)
}

/// `order` lists the positions to commit, each once, the more confident first.
pub open spec fn is_commit_order(
    confidence: Seq<u64>,
    threshold: u64,
    order: Seq<usize>,
) -> bool {
    &&& forall|k: int|
        0 <= k < order.len() ==> commits_at(confidence, threshold, #[trigger] order[k] as int)
    &&& forall|i: int|
        #![trigger commits_at(confidence, threshold, i)]
        commits_at(confidence, threshold, i) ==> exists|k: int|
            0 <= k < order.len() && #[trigger] order[k] == i
    &&& forall|j: int, k: int|
        0 <= j < k < order.len() ==> ranks_before(
            confidence,
            (#[trigger] order[j]) as int,
            (#[trigger] order[k]) as int,
        )
}

/// Position `i` is the best one or at or above the threshold.
spec fn kept(confidence: Seq<u64>, best: int, threshold: u64, i: int) -> bool {
    i == best || confidence[i] >= threshold
}

/// Indices to commit this step: the most confident one always, plus every other at or above
/// `threshold`. Ties keep the earlier position first.
pub fn commits(confidence: &Vec<u64>, threshold: u64) -> (r: Vec<usize>)
    ensures
        is_commit_order(confidence@, threshold, r@),
{
    let ghost c = confidence@;
    let mut order: Vec<usize> = Vec::new();
    if confidence.len() == 0 {
        return order;
    }
    let mut best: usize = 0;
    let mut i: usize = 1;
    while i < confidence.len()
        invariant
            c == confidence@,
            best < i <= c.len(),
            forall|k: int| 0 <= k < i && k != best ==> #[trigger] ranks_before(c, best as int, k),
        decreases c.len() - i,
    {
        let ghost was = best as int;
        if confidence[i] > confidence[best] {
            best = i;
            proof {
                assert forall|k: int| 0 <= k < i + 1 && k != best implies #[trigger] ranks_before(
                    c,
                    best as int,
                    k,
                ) by {
                    if k != was {
                        assert(ranks_before(c, was, k));
                    }
                }
            }
        }
        i += 1;
    }
    assert(most_confident(c, best as int));
    let mut n: usize = 0;
    while n < confidence.len()
        invariant
            c == confidence@,
            n <= c.len(),
            most_confident(c, best as int),
            forall|k: int|
                0 <= k < order@.len() ==> (#[trigger] order@[k]) < n && (order@[k] == best
                    || c[order@[k] as int] >= threshold),
            forall|i: int|
                0 <= i < n && #[trigger] kept(c, best as int, threshold, i) ==> exists|k: int|
                    0 <= k < order@.len() && #[trigger] order@[k] == i,
            forall|j: int, k: int|
                0 <= j < k < order@.len() ==> ranks_before(
                    c,
                    (#[trigger] order@[j]) as int,
                    (#[trigger] order@[k]) as int,
                ),
        decreases c.len() - n,
    {
        if n == best || confidence[n] >= threshold {
            let ghost before = order@;
            insert_ranked(confidence, &mut order, n);
            proof {
                assert forall|i: int|
                    0 <= i < n + 1 && #[trigger] kept(c, best as int, threshold, i) implies exists|
                    k: int,
                |
                    0 <= k < order@.len() && #[trigger] order@[k] == i by {
                    if i < n {
                        let m = choose|m: int| 0 <= m < before.len() && #[trigger] before[m] == i;
                        assert(before[m] == i);
                    }
                }
            }
        }
        n += 1;
    }
    proof {
        assert forall|i: int|
            #![trigger commits_at(c, threshold, i)]
            commits_at(c, threshold, i) implies exists|k: int|
            0 <= k < order@.len() && #[trigger] order@[k] == i by {
            if most_confident(c, i) && i != best {
                assert(ranks_before(c, i, best as int));
                assert(ranks_before(c, best as int, i));
            }
            assert(kept(c, best as int, threshold, i));
        }
    }
    order
}

/// Inserts position `n`, later than all in `order`, at its rank.
fn insert_ranked(confidence: &Vec<u64>, order: &mut Vec<usize>, n: usize)
    requires
        n < confidence@.len(),
        forall|k: int| 0 <= k < old(order)@.len() ==> (#[trigger] old(order)@[k]) < n,
        forall|j: int, k: int|
            0 <= j < k < old(order)@.len() ==> ranks_before(
                confidence@,
                (#[trigger] old(order)@[j]) as int,
                (#[trigger] old(order)@[k]) as int,
            ),
    ensures
        forall|j: int, k: int|
            0 <= j < k < final(order)@.len() ==> ranks_before(
                confidence@,
                (#[trigger] final(order)@[j]) as int,
                (#[trigger] final(order)@[k]) as int,
            ),
        exists|at: int|
            0 <= at <= old(order)@.len() && final(order)@ == #[trigger] old(order)@.insert(at, n),
        forall|k: int|
            0 <= k < final(order)@.len() ==> (#[trigger] final(order)@[k]) == n
                || final(order)@[k] < n && exists|m: int|
                0 <= m < old(order)@.len() && #[trigger] old(order)@[m] == final(order)@[k],
        exists|k: int| 0 <= k < final(order)@.len() && #[trigger] final(order)@[k] == n,
        forall|m: int|
            #![trigger old(order)@[m]]
            0 <= m < old(order)@.len() ==> exists|k: int|
                0 <= k < final(order)@.len() && #[trigger] final(order)@[k] == old(order)@[m],
{
    let ghost c = confidence@;
    let ghost before = order@;
    let mut at: usize = 0;
    while at < order.len() && confidence[order[at]] >= confidence[n]
        invariant
            c == confidence@,
            n < c.len(),
            before == order@,
            at <= order@.len(),
            forall|k: int| 0 <= k < order@.len() ==> (#[trigger] order@[k]) < n,
            forall|k: int| 0 <= k < at ==> c[(#[trigger] order@[k]) as int] >= c[n as int],
        decreases order@.len() - at,
    {
        at += 1;
    }
    order.insert(at, n);
    proof {
        let after = order@;
        assert(after == before.insert(at as int, n));
        assert forall|j: int, k: int| 0 <= j < k < after.len() implies ranks_before(
            c,
            (#[trigger] after[j]) as int,
            (#[trigger] after[k]) as int,
        ) by {
            if j == at {
                let p = before[at as int] as int;
                assert(c[n as int] > c[p]);
                if k - 1 > at {
                    assert(ranks_before(c, before[at as int] as int, before[k - 1] as int));
                }
            } else if k == at {
                assert(after[j] == before[j]);
            } else {
                let x = if j < at { j } else { j - 1 };
                let y = if k < at { k } else { k - 1 };
                assert(after[j] == before[x] && after[k] == before[y]);
            }
        }
        assert forall|k: int| 0 <= k < after.len() implies (#[trigger] after[k]) == n || after[k] < n
            && exists|m: int| 0 <= m < before.len() && #[trigger] before[m] == after[k] by {
            if k < at {
                assert(before[k] == after[k]);
            } else if k > at {
                assert(before[k - 1] == after[k]);
            }
        }
        assert(after[at as int] == n);
        assert forall|m: int|
            #![trigger before[m]]
            0 <= m < before.len() implies exists|k: int|
            0 <= k < after.len() && #[trigger] after[k] == before[m] by {
            if m < at {
                assert(after[m] == before[m]);
            } else {
                assert(after[m + 1] == before[m]);
            }
        }
    }
}

/// The earliest of the largest values.
pub open spec fn is_best(values: Seq<u64>, i: int) -> bool {
    &&& 0 <= i < values.len()
    &&& forall|k: int| 0 <= k < values.len() ==> #[trigger] values[k] <= values[i]
    &&& forall|k: int| 0 <= k < i ==> #[trigger] values[k] < values[i]
}

/// The index of the largest probability, the earliest of several.
pub fn best_index(probabilities: &Vec<u64>) -> (r: usize)
    ensures
        probabilities@.len() == 0 ==> r == 0,
        probabilities@.len() > 0 ==> is_best(probabilities@, r as int),
{
    let mut best: usize = 0;
    let mut i: usize = 0;
    while i < probabilities.len()
        invariant
            i <= probabilities@.len(),
            i == 0 ==> best == 0,
            i > 0 ==> best < i,
            forall|k: int| 0 <= k < i ==> #[trigger] probabilities@[k] <= probabilities@[best as int],
            forall|k: int|
                0 <= k < best ==> #[trigger] probabilities@[k] < probabilities@[best as int],
        decreases probabilities@.len() - i,
    {
        if probabilities[i] > probabilities[best] {
            best = i;
        }
        i += 1;
    }
    best
}

/// The most confident position always commits, and any other commits only at or above the
/// threshold; where a position is at or above it, so is the most confident one.
pub proof fn law_progress_and_threshold(confidence: Seq<u64>, threshold: u64, i: int)
    requires
        0 <= i < confidence.len(),
    ensures
        exists|k: int| most_confident(confidence, k) && commits_at(confidence, threshold, k),
        commits_at(confidence, threshold, i) && !most_confident(confidence, i) ==> confidence[i]
            >= threshold,
{
    lemma_most_confident_exists(confidence, confidence.len() as int);
    let k = choose|k: int| most_confident(confidence.take(confidence.len() as int), k);
    assert(confidence.take(confidence.len() as int) =~= confidence);
    assert(most_confident(confidence, k));
    assert(commits_at(confidence, threshold, k));
}

proof fn lemma_most_confident_exists(confidence: Seq<u64>, n: int)
    requires
        0 < n <= confidence.len(),
    ensures
        exists|k: int| most_confident(confidence.take(n), k),
    decreases n,
{
    let c = confidence.take(n);
    if n == 1 {
        assert(most_confident(c, 0));
    } else {
        lemma_most_confident_exists(confidence, n - 1);
        let shorter = confidence.take(n - 1);
        let k = choose|k: int| most_confident(shorter, k);
        assert forall|x: int| 0 <= x < n - 1 implies shorter[x] == c[x] by {}
        if c[n - 1] > c[k] {
            assert forall|m: int| 0 <= m < c.len() && m != n - 1 implies #[trigger] ranks_before(
                c,
                n - 1,
                m,
            ) by {
                if m != k {
                    assert(ranks_before(shorter, k, m));
                }
            }
            assert(most_confident(c, n - 1));
        } else {
            assert forall|m: int| 0 <= m < c.len() && m != k implies #[trigger] ranks_before(
                c,
                k,
                m,
            ) by {
                if m != n - 1 {
                    assert(ranks_before(shorter, k, m));
                }
            }
            assert(most_confident(c, k));
        }
    }
}

/// The bits of a finite float.
pub open spec fn is_finite(bits: u32) -> bool {
    bits % 0x8000_0000 < 0x7f80_0000
}

/// Finite floats are ordered as these numbers; both zeros are equal.
pub open spec fn rank(bits: u32) -> int {
    if bits < 0x8000_0000 {
        bits as int
    } else {
        0x8000_0000 - bits
    }
}

fn rank_of(bits: u32) -> (r: i64)
    ensures
        r == rank(bits),
{
    if bits < 0x8000_0000 {
        bits as i64
    } else {
        0x8000_0000 - bits as i64
    }
}

/// The first of the largest logits.
pub open spec fn is_argmax(row: Seq<u32>, best: int) -> bool {
    &&& 0 <= best < row.len()
    &&& forall|k: int| 0 <= k < row.len() ==> rank(#[trigger] row[k]) <= rank(row[best])
    &&& forall|k: int| 0 <= k < best ==> rank(#[trigger] row[k]) < rank(row[best])
}

/// The full-vocabulary argmax of one logit row, given by the bits of its floats.
pub fn propose(row: &Vec<u32>) -> (r: Result<i32>)
    requires
        row@.len() <= i32::MAX,
    ensures
        r is Ok <==> row@.len() > 0 && forall|k: int|
            0 <= k < row@.len() ==> is_finite(#[trigger] row@[k]),
        r matches Ok(best) ==> is_argmax(row@, best as int),
        r matches Err(e) ==> e@ == ErrorModel::InvalidLogits,
{
    if row.len() == 0 {
        return Err(Error::InvalidLogits);
    }
    let mut best: usize = 0;
    let mut i: usize = 0;
    while i < row.len()
        invariant
            i <= row@.len() <= i32::MAX,
            best < row@.len(),
            i == 0 ==> best == 0,
            i > 0 ==> best < i,
            forall|k: int| 0 <= k < i ==> is_finite(#[trigger] row@[k]),
            forall|k: int| 0 <= k < i ==> rank(#[trigger] row@[k]) <= rank(row@[best as int]),
            forall|k: int| 0 <= k < best ==> rank(#[trigger] row@[k]) < rank(row@[best as int]),
        decreases row@.len() - i,
    {
        if row[i] % 0x8000_0000 >= 0x7f80_0000 {
            assert(!is_finite(row@[i as int]));
            return Err(Error::InvalidLogits);
        }
        if rank_of(row[i]) > rank_of(row[best]) {
            best = i;
        }
        i += 1;
    }
    Ok(best as i32)
}

} // verus!
