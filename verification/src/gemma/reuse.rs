//! What the rows of a prompt are known by, and how much of a resident prompt is kept.
use crate::gemma::prompt::{keys_of, plan_outcome, shared, start_of, whole_blocks, SegmentModel};
use vstd::prelude::*;

verus! {

/// The rows of a token segment are known by their tokens, in the order of the segments: prompts with
/// another token at a row have another key there.
pub proof fn law_rows_are_known_by_their_tokens(
    segments: Seq<SegmentModel>,
    n: nat,
    k: int,
    i: int,
)
    requires
        0 <= k < n <= segments.len(),
        segments[k] is Tokens,
        0 <= i < segments[k]->Tokens_0.len(),
    ensures
        start_of(segments, k as nat) + i < keys_of(segments, n).len(),
        keys_of(segments, n)[start_of(segments, k as nat) + i] == segments[k]->Tokens_0[i],
        start_of(segments, (k + 1) as nat) == start_of(segments, k as nat)
            + segments[k]->Tokens_0.len(),
    decreases n,
{
    if k < n - 1 {
        law_rows_are_known_by_their_tokens(segments, (n - 1) as nat, k, i);
    }
}

/// What is shared ends at the first difference.
pub proof fn lemma_shared_ends(a: Seq<i64>, b: Seq<i64>, i: nat)
    requires
        i <= a.len(),
        i <= b.len(),
    ensures
        i <= shared(a, b, i) <= a.len(),
        shared(a, b, i) <= b.len(),
        forall|x: int| i <= x < shared(a, b, i) ==> #[trigger] a[x] == b[x],
        shared(a, b, i) == a.len() || shared(a, b, i) == b.len() || a[shared(a, b, i) as int]
            != b[shared(a, b, i) as int],
    decreases a.len() - i,
{
    if i < a.len() && i < b.len() && a[i as int] == b[i as int] {
        lemma_shared_ends(a, b, i + 1);
    }
}

proof fn lemma_no_image(segments: Seq<SegmentModel>, n: nat, i: nat)
    requires
        forall|k: int| 0 <= k < segments.len() ==> (#[trigger] segments[k]) is Tokens,
    ensures
        whole_blocks(segments, n, i) == n,
    decreases segments.len() - i,
{
    if i < segments.len() {
        lemma_no_image(segments, n, i + 1);
    }
}

/// As much of a resident prompt is kept as can be: of a prompt without images all rows up to the first
/// that differs, so that a prompt that goes on from the resident one computes only what is new.
pub proof fn law_all_common_rows_are_kept(
    cached: Seq<i64>,
    segments: Seq<SegmentModel>,
    cap: usize,
    chunk: usize,
    d: usize,
)
    requires
        forall|k: int| 0 <= k < segments.len() ==> (#[trigger] segments[k]) is Tokens,
    ensures
        plan_outcome(cached, segments, cap, chunk, d) matches Ok(plan) ==> {
            &&& plan.reused <= cached.len() && plan.reused <= plan.keys.len()
            &&& plan.reused == cached.len() || plan.reused == plan.keys.len() || cached[plan.reused as int]
                != plan.keys[plan.reused as int]
            &&& plan.keys == keys_of(segments, segments.len())
        },
{
    let keys = keys_of(segments, segments.len());
    lemma_shared_ends(cached, keys, 0);
    lemma_no_image(segments, shared(cached, keys, 0), 0);
}

} // verus!
