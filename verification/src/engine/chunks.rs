//! Packing questions into canvases.
use crate::error::{Error, ErrorModel, Result};
use crate::text::{decimal, digits};
use core::ops::Range;
use vstd::prelude::*;
use vstd::string::*;

verus! {

/// The sum of `lengths[from..to]`.
pub open spec fn span(lengths: Seq<usize>, from: int, to: int) -> int
    decreases to - from,
{
    if to <= from {
        0
    } else {
        span(lengths, from, to - 1) + lengths[to - 1]
    }
}

/// The ranges cover the lengths in order; each fits the capacity, and none but the last could
/// take the length after it.
pub open spec fn packed(lengths: Seq<usize>, capacity: int, ranges: Seq<Range<usize>>) -> bool {
    &&& ranges.len() == 0 <==> lengths.len() == 0
    &&& ranges.len() > 0 ==> ranges[0].start == 0 && ranges.last().end == lengths.len()
    &&& forall|i: int|
        0 <= i < ranges.len() ==> (#[trigger] ranges[i]).start < ranges[i].end && span(
            lengths,
            ranges[i].start as int,
            ranges[i].end as int,
        ) <= capacity
    &&& forall|i: int|
        0 <= i < ranges.len() - 1 ==> (#[trigger] ranges[i]).end == ranges[i + 1].start && span(
            lengths,
            ranges[i].start as int,
            ranges[i].end + 1,
        ) > capacity
}

/// The first length that exceeds the capacity.
pub open spec fn oversized(lengths: Seq<usize>, capacity: int) -> Option<usize>
    decreases lengths.len(),
{
    if lengths.len() == 0 {
        None
    } else if lengths[0] > capacity {
        Some(lengths[0])
    } else {
        oversized(lengths.drop_first(), capacity)
    }
}

/// The error of a question that no canvas can hold.
pub open spec fn oversize_fault(length: usize, capacity: usize) -> ErrorModel {
    ErrorModel::InvalidInput(
        "A question's "@ + digits(length as nat) + "-token template exceeds the "@ + digits(
            capacity as nat,
        ) + "-token canvas"@,
    )
}

/// Ranges of whole questions, in order, each as long as the canvas allows.
pub fn chunk_ranges(lengths: &Vec<usize>, capacity: usize) -> (r: Result<Vec<Range<usize>>>)
    ensures
        r is Ok <==> oversized(lengths@, capacity as int) is None,
        r matches Ok(ranges) ==> packed(lengths@, capacity as int, ranges@),
        r matches Err(e) ==> e@ == oversize_fault(
            oversized(lengths@, capacity as int)->Some_0,
            capacity,
        ),
{
    let ghost all = lengths@;
    let mut ranges: Vec<Range<usize>> = Vec::new();
    let mut start: usize = 0;
    let mut length: usize = 0;
    let mut i: usize = 0;
    assert(all.skip(0) =~= all);
    while i < lengths.len()
        invariant
            i <= lengths@.len(),
            all == lengths@,
            start <= i,
            start == i ==> i == 0,
            length == span(all, start as int, i as int),
            length <= capacity,
            oversized(all, capacity as int) == oversized(all.skip(i as int), capacity as int),
            ranges@.len() == 0 ==> start == 0,
            ranges@.len() > 0 ==> ranges@[0].start == 0 && ranges@.last().end == start,
            forall|k: int|
                0 <= k < ranges@.len() ==> (#[trigger] ranges@[k]).start < ranges@[k].end && span(
                    all,
                    ranges@[k].start as int,
                    ranges@[k].end as int,
                ) <= capacity && span(all, ranges@[k].start as int, ranges@[k].end + 1) > capacity,
            forall|k: int|
                0 <= k < ranges@.len() - 1 ==> (#[trigger] ranges@[k]).end == ranges@[k + 1].start,
        decreases lengths@.len() - i,
    {
        let size: usize = lengths[i];
        proof {
            assert(all.skip(i as int)[0] == size);
            assert(all.skip(i as int).drop_first() =~= all.skip(i + 1));
        }
        if size > capacity {
            let shown: String = decimal(size as u64);
            let limit: String = decimal(capacity as u64);
            return Err(
                Error::InvalidInput(
                    "A question's ".to_owned().concat(shown.as_str()).concat(
                        "-token template exceeds the ",
                    ).concat(limit.as_str()).concat("-token canvas"),
                ),
            );
        }
        if size > capacity - length {
            assert(span(all, start as int, i + 1) == length + size);
            ranges.push(start..i);
            start = i;
            length = 0;
            assert(span(all, start as int, start as int) == 0);
        }
        length += size;
        i += 1;
        assert(span(all, start as int, i as int) == length);
    }
    if start < lengths.len() {
        ranges.push(start..lengths.len());
    }
    Ok(ranges)
}

/// Chunking preserves order and keeps whole questions: every question is in exactly one range.
pub proof fn law_every_question_is_in_one_range(
    lengths: Seq<usize>,
    capacity: int,
    ranges: Seq<Range<usize>>,
    q: int,
)
    requires
        packed(lengths, capacity, ranges),
        0 <= q < lengths.len(),
    ensures
        exists|i: int|
            0 <= i < ranges.len() && (#[trigger] ranges[i]).start <= q < ranges[i].end,
        forall|i: int, j: int|
            0 <= i < j < ranges.len() ==> (#[trigger] ranges[i]).end <= (#[trigger] ranges[j]).start,
{
    lemma_find_range(lengths, capacity, ranges, q, 0);
    assert forall|i: int, j: int| 0 <= i < j < ranges.len() implies (#[trigger] ranges[i]).end <= (
    #[trigger] ranges[j]).start by {
        lemma_ranges_ordered(lengths, capacity, ranges, i, j);
    }
}

/// Questions are packed in one way only.
pub proof fn law_packings_are_unique(
    lengths: Seq<usize>,
    capacity: int,
    a: Seq<Range<usize>>,
    b: Seq<Range<usize>>,
)
    requires
        packed(lengths, capacity, a),
        packed(lengths, capacity, b),
    ensures
        a == b,
{
    let n = if a.len() <= b.len() { a.len() as int } else { b.len() as int };
    lemma_ranges_agree(lengths, capacity, a, b, n);
    if a.len() < b.len() {
        assert(a.last() == b[n - 1]);
        assert(b[n - 1].end == b[n - 1 + 1].start);
        lemma_ranges_end(lengths, capacity, b, n);
    } else if b.len() < a.len() {
        assert(b.last() == a[n - 1]);
        assert(a[n - 1].end == a[n - 1 + 1].start);
        lemma_ranges_end(lengths, capacity, a, n);
    }
    assert(a =~= b);
}

/// A range ends within the lengths.
pub proof fn lemma_ranges_end(
    lengths: Seq<usize>,
    capacity: int,
    ranges: Seq<Range<usize>>,
    i: int,
)
    requires
        packed(lengths, capacity, ranges),
        0 <= i < ranges.len(),
    ensures
        ranges[i].end <= lengths.len(),
    decreases ranges.len() - i,
{
    if i + 1 < ranges.len() {
        lemma_ranges_end(lengths, capacity, ranges, i + 1);
        assert(ranges[i].end == ranges[i + 1].start);
    }
}

proof fn lemma_ranges_agree(
    lengths: Seq<usize>,
    capacity: int,
    a: Seq<Range<usize>>,
    b: Seq<Range<usize>>,
    n: int,
)
    requires
        packed(lengths, capacity, a),
        packed(lengths, capacity, b),
        0 <= n <= a.len(),
        n <= b.len(),
    ensures
        forall|i: int| 0 <= i < n ==> #[trigger] a[i] == b[i],
    decreases n,
{
    if n > 0 {
        lemma_ranges_agree(lengths, capacity, a, b, n - 1);
        let i = n - 1;
        if i > 0 {
            assert(a[i - 1] == b[i - 1]);
            assert(a[i - 1].end == a[i - 1 + 1].start && b[i - 1].end == b[i - 1 + 1].start);
        }
        assert(a[i].start == b[i].start);
        lemma_ranges_end(lengths, capacity, a, i);
        lemma_ranges_end(lengths, capacity, b, i);
        if a[i].end < b[i].end {
            lemma_span_grows(lengths, a[i].start as int, a[i].end + 1, b[i].end as int);
            assert(i < a.len() - 1);
        } else if b[i].end < a[i].end {
            lemma_span_grows(lengths, a[i].start as int, b[i].end + 1, a[i].end as int);
            assert(i < b.len() - 1);
        }
        assert(a[i] == b[i]);
    }
}

/// A longer range is as large or larger.
pub proof fn lemma_span_grows(lengths: Seq<usize>, from: int, a: int, b: int)
    requires
        0 <= from <= a <= b <= lengths.len(),
    ensures
        span(lengths, from, a) <= span(lengths, from, b),
    decreases b,
{
    if a < b {
        lemma_span_grows(lengths, from, a, b - 1);
    }
}

proof fn lemma_find_range(
    lengths: Seq<usize>,
    capacity: int,
    ranges: Seq<Range<usize>>,
    q: int,
    i: int,
)
    requires
        packed(lengths, capacity, ranges),
        0 <= i < ranges.len(),
        ranges[i].start <= q < lengths.len(),
    ensures
        exists|k: int|
            0 <= k < ranges.len() && (#[trigger] ranges[k]).start <= q < ranges[k].end,
    decreases ranges.len() - i,
{
    if q >= ranges[i].end {
        if i + 1 < ranges.len() {
            lemma_find_range(lengths, capacity, ranges, q, i + 1);
        }
    }
}

proof fn lemma_ranges_ordered(
    lengths: Seq<usize>,
    capacity: int,
    ranges: Seq<Range<usize>>,
    i: int,
    j: int,
)
    requires
        packed(lengths, capacity, ranges),
        0 <= i < j < ranges.len(),
    ensures
        ranges[i].end <= ranges[j].start,
    decreases j - i,
{
    if j > i + 1 {
        lemma_ranges_ordered(lengths, capacity, ranges, i, j - 1);
        assert(ranges[j - 1].start < ranges[j - 1].end);
    }
}

} // verus!
