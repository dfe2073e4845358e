//! The resident prompt: which rows of a new prompt are already computed, and the forward passes
//! that compute the rest.
use crate::gemma::error::{input, ModelError, ModelFault, Result};
use crate::kernels::buf::Buf;
use crate::text::{decimal, digits};
use vstd::prelude::*;
use vstd::string::*;

verus! {

/// Part of a prompt: token ids, or an image's projected embeddings of `count` rows identified by
/// a content `key` (used to reuse its rows across calls).
#[derive(Debug)]
pub enum Segment<H: Copy> {
    Tokens(Vec<i32>),
    Image { rows: Buf<H>, count: usize, key: u64 },
}

/// The mathematical model of a [`Segment`].
#[verifier::ext_equal]
pub enum SegmentModel {
    Tokens(Seq<i32>),
    /// `rows` is the number of values that the image's buffer holds.
    Image { rows: usize, count: usize, key: u64 },
}

impl<H: Copy> View for Segment<H> {
    type V = SegmentModel;

    open spec fn view(&self) -> SegmentModel {
        match self {
            Segment::Tokens(tokens) => SegmentModel::Tokens(tokens@),
            Segment::Image { rows, count, key } => SegmentModel::Image {
                rows: rows.count(),
                count: *count,
                key: *key,
            },
        }
    }
}

/// The models of segments.
pub open spec fn segment_models<H: Copy>(segments: Seq<Segment<H>>) -> Seq<SegmentModel> {
    Seq::new(segments.len(), |i: int| segments[i]@)
}

// ---------------------------------------------------------------------------------------------
// Keys
// ---------------------------------------------------------------------------------------------

/// Odd multiplier that spreads row numbers over 64 bits.
pub const SPREAD: u64 = 0x9e37_79b9_7f4a_7c15;

/// The key of image row `j`.
pub open spec fn row_key(key: u64, j: nat) -> i64 {
    let mixed = key ^ ((j * SPREAD) % 0x1_0000_0000_0000_0000) as u64;
    (-1 - (mixed >> 1u64)) as i64
}

/// Negative cache key of image row `j`, disjoint from token ids.
pub fn image_key(key: u64, j: usize) -> (r: i64)
    ensures
        r == row_key(key, j as nat),
        r < 0,
{
    let mixed: u64 = key ^ (j as u64).wrapping_mul(SPREAD);
    let half: u64 = mixed >> 1u64;
    proof {
        assert(half <= 0x7fff_ffff_ffff_ffff) by (bit_vector)
            requires
                half == mixed >> 1u64,
        ;
    }
    -1 - half as i64
}

/// Image rows have negative keys: none equals a token id.
pub proof fn law_image_keys_are_no_tokens(key: u64, j: nat)
    ensures
        row_key(key, j) < 0,
{
    let mixed = key ^ ((j * SPREAD) % 0x1_0000_0000_0000_0000) as u64;
    assert(mixed >> 1u64 <= 0x7fff_ffff_ffff_ffff) by (bit_vector);
}

impl SegmentModel {
    /// Its rows.
    pub open spec fn size(self) -> nat {
        match self {
            SegmentModel::Tokens(tokens) => tokens.len(),
            SegmentModel::Image { count, .. } => count as nat,
        }
    }

    /// The keys of its rows: token ids, or the keys of image rows.
    pub open spec fn keys(self) -> Seq<i64> {
        match self {
            SegmentModel::Tokens(tokens) => Seq::new(tokens.len(), |i: int| tokens[i] as i64),
            SegmentModel::Image { count, key, .. } => Seq::new(
                count as nat,
                |j: int| row_key(key, j as nat),
            ),
        }
    }
}

/// The keys of all rows of the first `n` segments.
pub open spec fn keys_of(segments: Seq<SegmentModel>, n: nat) -> Seq<i64>
    decreases n,
{
    if n == 0 {
        Seq::empty()
    } else {
        keys_of(segments, (n - 1) as nat) + segments[n - 1].keys()
    }
}

/// Where segment `n` starts.
pub open spec fn start_of(segments: Seq<SegmentModel>, n: nat) -> nat {
    keys_of(segments, n).len()
}

/// An image that does not fit one forward.
pub open spec fn oversized_image(segment: SegmentModel, chunk: usize, d: usize) -> bool {
    match segment {
        SegmentModel::Tokens(_) => false,
        SegmentModel::Image { rows, count, .. } => count == 0 || count > chunk || rows < count * d,
    }
}

/// The first image of `segments[i..]` that does not fit.
pub open spec fn image_fault(
    segments: Seq<SegmentModel>,
    chunk: usize,
    d: usize,
    i: nat,
) -> Option<ModelFault>
    decreases segments.len() - i,
{
    if i >= segments.len() {
        None
    } else if oversized_image(segments[i as int], chunk, d) {
        Some(
            ModelFault::Input(
                "an image needs "@ + digits(segments[i as int].size())
                    + " rows in one forward; the chunk allows "@ + digits(chunk as nat),
            ),
        )
    } else {
        image_fault(segments, chunk, d, i + 1)
    }
}

// ---------------------------------------------------------------------------------------------
// Reuse
// ---------------------------------------------------------------------------------------------

/// How many rows `a` and `b` share from the start, from row `i` on.
pub open spec fn shared(a: Seq<i64>, b: Seq<i64>, i: nat) -> nat
    decreases a.len() - i,
{
    if i < a.len() && i < b.len() && a[i as int] == b[i as int] {
        shared(a, b, i + 1)
    } else {
        i
    }
}

/// Row `n`, or the start of the image block that it lies inside of, looking from segment `i`
/// on.
pub open spec fn whole_blocks(segments: Seq<SegmentModel>, n: nat, i: nat) -> nat
    decreases segments.len() - i,
{
    if i >= segments.len() {
        n
    } else if segments[i as int] is Image && start_of(segments, i) < n < start_of(segments, i + 1) {
        start_of(segments, i)
    } else {
        whole_blocks(segments, n, i + 1)
    }
}

/// The rows of a resident prompt that a new one keeps: never part of an image block.
pub open spec fn reused_rows(cached: Seq<i64>, segments: Seq<SegmentModel>) -> nat {
    whole_blocks(segments, shared(cached, keys_of(segments, segments.len()), 0), 0)
}

/// One forward: rows `from..to` of the prompt, all of segment `segment`.
#[derive(Clone, Copy, Debug, PartialEq, Eq, Structural)]
pub struct Step {
    pub segment: usize,
    pub from: usize,
    pub to: usize,
}

/// The forwards of rows `pos..end` of a segment: an image at once, tokens in chunks.
pub open spec fn segment_steps(
    segment: int,
    image: bool,
    pos: nat,
    end: nat,
    chunk: nat,
) -> Seq<Step>
    decreases end - pos,
{
    if pos >= end || chunk == 0 {
        Seq::empty()
    } else {
        let to = if image || pos + chunk > end {
            end
        } else {
            pos + chunk
        };
        seq![Step { segment: segment as usize, from: pos as usize, to: to as usize }]
            + segment_steps(segment, image, to, end, chunk)
    }
}

/// The first row of segment `i` that is not reused.
pub open spec fn resume_at(segments: Seq<SegmentModel>, i: nat, reused: nat) -> nat {
    if reused > start_of(segments, i) {
        reused
    } else {
        start_of(segments, i)
    }
}

/// The forwards of the first `n` segments after `reused` rows.
pub open spec fn steps_of(
    segments: Seq<SegmentModel>,
    reused: nat,
    chunk: nat,
    n: nat,
) -> Seq<Step>
    decreases n,
{
    if n == 0 {
        Seq::empty()
    } else {
        let i = (n - 1) as nat;
        steps_of(segments, reused, chunk, i) + segment_steps(
            i as int,
            segments[i as int] is Image,
            resume_at(segments, i, reused),
            start_of(segments, n),
            chunk,
        )
    }
}

/// What a prefill computes.
#[derive(Debug)]
pub struct PrefillPlan {
    /// The keys of all rows.
    pub keys: Vec<i64>,
    /// Rows that are resident already.
    pub reused: usize,
    /// The forwards, in order.
    pub steps: Vec<Step>,
}

/// The mathematical model of a [`PrefillPlan`].
#[verifier::ext_equal]
pub struct PlanModel {
    pub keys: Seq<i64>,
    pub reused: nat,
    pub steps: Seq<Step>,
}

impl View for PrefillPlan {
    type V = PlanModel;

    open spec fn view(&self) -> PlanModel {
        PlanModel { keys: self.keys@, reused: self.reused as nat, steps: self.steps@ }
    }
}

/// The plan that makes `segments` the resident prompt, or why there is none.
pub open spec fn plan_outcome(
    cached: Seq<i64>,
    segments: Seq<SegmentModel>,
    cap: usize,
    chunk: usize,
    d: usize,
) -> core::result::Result<PlanModel, ModelFault> {
    let n = segments.len();
    let keys = keys_of(segments, n);
    let reused = reused_rows(cached, segments);
    match image_fault(segments, chunk, d, 0) {
        Some(e) => Err(e),
        None => if keys.len() >= cap {
            Err(ModelFault::Input("prompt exceeds the context size"@))
        } else {
            Ok(PlanModel { keys, reused, steps: steps_of(segments, reused, chunk as nat, n) })
        },
    }
}

// ---------------------------------------------------------------------------------------------
// Laws of a plan
// ---------------------------------------------------------------------------------------------

proof fn lemma_shared(a: Seq<i64>, b: Seq<i64>, i: nat)
    requires
        i <= a.len(),
        i <= b.len(),
        forall|k: int| 0 <= k < i ==> a[k] == b[k],
    ensures
        i <= shared(a, b, i) <= a.len(),
        shared(a, b, i) <= b.len(),
        forall|k: int| 0 <= k < shared(a, b, i) ==> a[k] == b[k],
        shared(a, b, i) < a.len() && shared(a, b, i) < b.len() ==> a[shared(a, b, i) as int]
            != b[shared(a, b, i) as int],
    decreases a.len() - i,
{
    if i < a.len() && i < b.len() && a[i as int] == b[i as int] {
        lemma_shared(a, b, i + 1);
    }
}

proof fn lemma_keys_grow(segments: Seq<SegmentModel>, i: nat, n: nat)
    requires
        i <= n,
    ensures
        start_of(segments, i) <= start_of(segments, n),
        keys_of(segments, n).take(start_of(segments, i) as int) == keys_of(segments, i),
    decreases n - i,
{
    if i < n {
        lemma_keys_grow(segments, i, (n - 1) as nat);
        let a = keys_of(segments, (n - 1) as nat);
        let b = segments[n - 1].keys();
        assert((a + b).take(start_of(segments, i) as int) =~= a.take(start_of(segments, i) as int));
    } else {
        assert(keys_of(segments, n).take(start_of(segments, n) as int) =~= keys_of(segments, n));
    }
}

proof fn lemma_whole_blocks(segments: Seq<SegmentModel>, n: nat, i: nat)
    requires
        i <= segments.len(),
        forall|k: int|
            0 <= k < i && (#[trigger] segments[k]) is Image ==> !(start_of(segments, k as nat) < n
                < start_of(segments, (k + 1) as nat)),
    ensures
        whole_blocks(segments, n, i) <= n,
        forall|k: int|
            0 <= k < segments.len() && (#[trigger] segments[k]) is Image ==> !(start_of(
                segments,
                k as nat,
            ) < whole_blocks(segments, n, i) < start_of(segments, (k + 1) as nat)),
    decreases segments.len() - i,
{
    if i < segments.len() {
        if segments[i as int] is Image && start_of(segments, i) < n < start_of(segments, i + 1) {
            let s = start_of(segments, i);
            assert forall|k: int|
                0 <= k < segments.len() && (#[trigger] segments[k]) is Image implies !(start_of(
                segments,
                k as nat,
            ) < s < start_of(segments, (k + 1) as nat)) by {
                if k < i {
                    lemma_keys_grow(segments, (k + 1) as nat, i);
                } else {
                    lemma_keys_grow(segments, i, k as nat);
                }
            }
        } else {
            lemma_whole_blocks(segments, n, i + 1);
        }
    }
}

/// The steps of one segment run from `pos` to `end` without a gap, each within a chunk.
pub open spec fn runs(steps: Seq<Step>, from: nat, to: nat) -> bool {
    &&& steps.len() == 0 ==> from == to
    &&& steps.len() > 0 ==> steps[0].from == from && steps.last().to == to
    &&& forall|i: int| 0 <= i < steps.len() ==> (#[trigger] steps[i]).from < steps[i].to
    &&& forall|i: int|
        0 <= i < steps.len() - 1 ==> (#[trigger] steps[i]).to == steps[i + 1].from
}

/// One run after another is a run.
proof fn lemma_runs_join(a: Seq<Step>, b: Seq<Step>, from: nat, mid: nat, to: nat)
    requires
        runs(a, from, mid),
        runs(b, mid, to),
    ensures
        runs(a + b, from, to),
{
    let s = a + b;
    assert forall|i: int| 0 <= i < s.len() implies (#[trigger] s[i]).from < s[i].to by {
        if i < a.len() {
            assert(s[i] == a[i]);
        } else {
            assert(s[i] == b[i - a.len()]);
        }
    }
    assert forall|i: int| 0 <= i < s.len() - 1 implies (#[trigger] s[i]).to == s[i + 1].from by {
        if i < a.len() - 1 {
            assert(s[i] == a[i] && s[i + 1] == a[i + 1]);
        } else if i >= a.len() {
            assert(s[i] == b[i - a.len()] && s[i + 1] == b[i - a.len() + 1]);
        }
    }
}

proof fn lemma_segment_steps(segment: int, image: bool, pos: nat, end: nat, chunk: nat)
    requires
        pos <= end <= usize::MAX,
        0 <= segment <= usize::MAX,
        0 < chunk,
    ensures
        runs(segment_steps(segment, image, pos, end, chunk), pos, end),
        forall|i: int|
            0 <= i < segment_steps(segment, image, pos, end, chunk).len() ==> {
                let step = #[trigger] segment_steps(segment, image, pos, end, chunk)[i];
                &&& step.segment == segment
                &&& pos <= step.from && step.to <= end
                &&& if image {
                    step.from == pos && step.to == end
                } else {
                    step.to - step.from <= chunk
                }
            },
    decreases end - pos,
{
    if pos < end {
        let to = if image || pos + chunk > end {
            end
        } else {
            pos + chunk
        };
        let first = seq![Step { segment: segment as usize, from: pos as usize, to: to as usize }];
        let rest = segment_steps(segment, image, to, end, chunk);
        lemma_segment_steps(segment, image, to, end, chunk);
        lemma_runs_join(first, rest, pos, to, end);
        let all = segment_steps(segment, image, pos, end, chunk);
        assert(all == first + rest);
        assert forall|i: int| 0 <= i < all.len() implies {
            let step = #[trigger] all[i];
            &&& step.segment == segment
            &&& pos <= step.from && step.to <= end
            &&& if image {
                step.from == pos && step.to == end
            } else {
                step.to - step.from <= chunk
            }
        } by {
            if i > 0 {
                assert(all[i] == rest[i - 1]);
            }
        }
    }
}

/// Each step lies in its segment and fits a chunk, and an image is one step.
pub open spec fn steps_fit(segments: Seq<SegmentModel>, steps: Seq<Step>, chunk: nat) -> bool {
    forall|i: int|
        0 <= i < steps.len() ==> {
            let step = #[trigger] steps[i];
            let (from, to) = (
                start_of(segments, step.segment as nat),
                start_of(segments, (step.segment + 1) as nat),
            );
            &&& step.segment < segments.len()
            &&& from <= step.from && step.to <= to
            &&& step.to - step.from <= chunk
            &&& segments[step.segment as int] is Image ==> step.from == from && step.to == to
        }
}

proof fn lemma_steps(segments: Seq<SegmentModel>, reused: nat, chunk: nat, n: nat)
    requires
        n <= segments.len() <= usize::MAX,
        0 < chunk,
        start_of(segments, n) <= usize::MAX,
        forall|k: int|
            0 <= k < segments.len() && (#[trigger] segments[k]) is Image ==> segments[k].size()
                <= chunk && !(start_of(segments, k as nat) < reused < start_of(
                segments,
                (k + 1) as nat,
            )),
    ensures
        reused <= start_of(segments, n) ==> runs(
            steps_of(segments, reused, chunk, n),
            reused,
            start_of(segments, n),
        ),
        reused > start_of(segments, n) ==> steps_of(segments, reused, chunk, n).len() == 0,
        steps_fit(segments, steps_of(segments, reused, chunk, n), chunk),
    decreases n,
{
    if n > 0 {
        let i = (n - 1) as nat;
        lemma_keys_grow(segments, i, n);
        lemma_steps(segments, reused, chunk, i);
        let a = steps_of(segments, reused, chunk, i);
        let pos = resume_at(segments, i, reused);
        let end = start_of(segments, n);
        let image = segments[i as int] is Image;
        let b = segment_steps(i as int, image, pos, end, chunk);
        if pos <= end {
            lemma_segment_steps(i as int, image, pos, end, chunk);
            if reused <= start_of(segments, i) {
                lemma_runs_join(a, b, reused, start_of(segments, i), end);
            } else {
                assert(a + b =~= b);
            }
        } else {
            assert(b.len() == 0);
        }
        assert(segments[i as int].keys().len() == segments[i as int].size());
        let all = steps_of(segments, reused, chunk, n);
        assert forall|k: int| 0 <= k < all.len() implies {
            let step = #[trigger] all[k];
            let (from, to) = (
                start_of(segments, step.segment as nat),
                start_of(segments, (step.segment + 1) as nat),
            );
            &&& step.segment < segments.len()
            &&& from <= step.from && step.to <= to
            &&& step.to - step.from <= chunk
            &&& segments[step.segment as int] is Image ==> step.from == from && step.to == to
        } by {
            if k < a.len() {
                assert(all[k] == a[k]);
            } else {
                assert(all[k] == b[k - a.len()]);
                assert(b[k - a.len()].segment == i);
                if image {
                    assert(segments[i as int] is Image);
                    assert(pos == start_of(segments, i));
                }
            }
        }
    } else {
        assert(keys_of(segments, 0).len() == 0);
    }
}

proof fn lemma_no_image_fault(segments: Seq<SegmentModel>, chunk: usize, d: usize, i: nat)
    requires
        image_fault(segments, chunk, d, i) is None,
    ensures
        forall|k: int|
            i <= k < segments.len() ==> !oversized_image(#[trigger] segments[k], chunk, d),
    decreases segments.len() - i,
{
    if i < segments.len() {
        lemma_no_image_fault(segments, chunk, d, i + 1);
    }
}

/// Where the rows to compute begin: in the resident prompt and in the new one the rows before
/// are the same, and none of them is part of an image that goes on.
pub proof fn law_reused_rows_are_resident(
    cached: Seq<i64>,
    segments: Seq<SegmentModel>,
    cap: usize,
    chunk: usize,
    d: usize,
)
    requires
        plan_outcome(cached, segments, cap, chunk, d) is Ok,
    ensures
        ({
            let plan = plan_outcome(cached, segments, cap, chunk, d)->Ok_0;
            &&& plan.reused <= cached.len()
            &&& plan.reused <= plan.keys.len()
            &&& cached.take(plan.reused as int) == plan.keys.take(plan.reused as int)
            &&& forall|k: int|
                0 <= k < segments.len() && (#[trigger] segments[k]) is Image ==> !(start_of(
                    segments,
                    k as nat,
                ) < plan.reused < start_of(segments, (k + 1) as nat))
        }),
{
    let keys = keys_of(segments, segments.len());
    lemma_shared(cached, keys, 0);
    lemma_whole_blocks(segments, shared(cached, keys, 0), 0);
    let plan = plan_outcome(cached, segments, cap, chunk, d)->Ok_0;
    assert(cached.take(plan.reused as int) =~= plan.keys.take(plan.reused as int));
}

/// The forwards of a plan compute every row that is not reused, once and in order. Each lies in
/// one segment and fits a chunk, and each image is computed by one forward.
pub proof fn law_forwards_cover_the_rest_once(
    cached: Seq<i64>,
    segments: Seq<SegmentModel>,
    cap: usize,
    chunk: usize,
    d: usize,
)
    requires
        0 < chunk,
        segments.len() <= usize::MAX,
        plan_outcome(cached, segments, cap, chunk, d) is Ok,
    ensures
        ({
            let plan = plan_outcome(cached, segments, cap, chunk, d)->Ok_0;
            &&& runs(plan.steps, plan.reused, plan.keys.len())
            &&& steps_fit(segments, plan.steps, chunk as nat)
        }),
{
    law_reused_rows_are_resident(cached, segments, cap, chunk, d);
    lemma_no_image_fault(segments, chunk, d, 0);
    let plan = plan_outcome(cached, segments, cap, chunk, d)->Ok_0;
    lemma_steps(segments, plan.reused, chunk as nat, segments.len());
}

/// Once all forwards of a plan are done, the whole prompt is resident: the first starts after the
/// reused rows, each starts where the one before it ended, and the last ends with the prompt.
pub proof fn law_after_all_forwards_the_prompt_is_resident(
    cached: Seq<i64>,
    segments: Seq<SegmentModel>,
    cap: usize,
    chunk: usize,
    d: usize,
)
    requires
        0 < chunk,
        segments.len() <= usize::MAX,
        plan_outcome(cached, segments, cap, chunk, d) is Ok,
    ensures
        ({
            let plan = plan_outcome(cached, segments, cap, chunk, d)->Ok_0;
            let end = if plan.steps.len() == 0 {
                plan.reused
            } else {
                plan.steps.last().to as nat
            };
            &&& plan.steps.len() > 0 ==> plan.steps[0].from == plan.reused
            &&& forall|i: int|
                0 <= i < plan.steps.len() - 1 ==> (#[trigger] plan.steps[i]).to == plan.steps[i
                    + 1].from
            &&& plan.keys.take(end as int) == plan.keys
        }),
{
    law_forwards_cover_the_rest_once(cached, segments, cap, chunk, d);
    let plan = plan_outcome(cached, segments, cap, chunk, d)->Ok_0;
    assert(plan.keys.take(plan.keys.len() as int) =~= plan.keys);
}

// ---------------------------------------------------------------------------------------------
// The resident prompt
// ---------------------------------------------------------------------------------------------

/// What a model on the device holds: the keys of the resident prompt's rows (token ids, or
/// negative keys of image rows), and what the last canvas left.
#[derive(Debug)]
pub struct Memory {
    pub cached: Vec<i64>,
    /// Positions available (prompt and canvas).
    pub cap: usize,
    /// Maximum tokens per forward.
    pub chunk: usize,
    /// The model's width.
    pub d: usize,
    pub vocab: usize,
    /// Rows of the last canvas.
    pub canvas_rows: usize,
    /// The last canvas left full logits.
    pub logits: bool,
}

/// Actual prefill work, independent of logical usage accounting.
#[derive(Clone, Copy, Debug, PartialEq, Eq, Structural)]
pub struct PrefillStats {
    pub batches: usize,
    pub processed_tokens: usize,
    pub reused_tokens: usize,
}

impl PrefillPlan {
    /// What the plan costs.
    pub fn stats(&self) -> (r: PrefillStats)
        requires
            self.reused <= self.keys@.len(),
        ensures
            r.batches == self@.steps.len(),
            r.processed_tokens == self@.keys.len() - self@.reused,
            r.reused_tokens == self@.reused,
    {
        PrefillStats {
            batches: self.steps.len(),
            processed_tokens: self.keys.len() - self.reused,
            reused_tokens: self.reused,
        }
    }
}

fn append_keys<H: Copy>(keys: &mut Vec<i64>, segment: &Segment<H>)
    ensures
        final(keys)@ == old(keys)@ + segment@.keys(),
{
    let ghost before = keys@;
    let ghost more = segment@.keys();
    match segment {
        Segment::Tokens(tokens) => {
            let mut i: usize = 0;
            assert(more.take(0) =~= Seq::empty());
            assert(before + more.take(0) =~= before);
            while i < tokens.len()
                invariant
                    i <= tokens@.len(),
                    more == Seq::new(tokens@.len(), |k: int| tokens@[k] as i64),
                    keys@ == before + more.take(i as int),
                decreases tokens@.len() - i,
            {
                keys.push(tokens[i] as i64);
                assert(more.take(i + 1) =~= more.take(i as int).push(more[i as int]));
                assert(keys@ =~= before + more.take(i + 1));
                i += 1;
            }
            assert(more.take(i as int) =~= more);
        },
        Segment::Image { rows, count, key } => {
            let mut j: usize = 0;
            assert(before + more.take(0) =~= before);
            while j < *count
                invariant
                    j <= *count,
                    more == Seq::new(*count as nat, |k: int| row_key(*key, k as nat)),
                    keys@ == before + more.take(j as int),
                decreases *count - j,
            {
                keys.push(image_key(*key, j));
                assert(more.take(j + 1) =~= more.take(j as int).push(more[j as int]));
                assert(keys@ =~= before + more.take(j + 1));
                j += 1;
            }
            assert(more.take(j as int) =~= more);
        },
    }
}

/// Where each segment ends, and the keys of all rows.
fn collect_keys<H: Copy>(segments: &Vec<Segment<H>>, chunk: usize, d: usize) -> (r: Result<
    (Vec<i64>, Vec<usize>),
>)
    ensures
        r matches Ok((keys, ends)) ==> {
            let models = segment_models(segments@);
            &&& image_fault(models, chunk, d, 0) is None
            &&& keys@ == keys_of(models, models.len())
            &&& ends@.len() == models.len()
            &&& forall|i: int|
                0 <= i < ends@.len() ==> #[trigger] ends@[i] == start_of(models, (i + 1) as nat)
        },
        r matches Err(e) ==> image_fault(segment_models(segments@), chunk, d, 0) == Some(e@),
{
    let ghost models = segment_models(segments@);
    let mut keys: Vec<i64> = Vec::new();
    let mut ends: Vec<usize> = Vec::new();
    let mut i: usize = 0;
    while i < segments.len()
        invariant
            i <= segments@.len(),
            models == segment_models(segments@),
            image_fault(models, chunk, d, 0) == image_fault(models, chunk, d, i as nat),
            keys@ == keys_of(models, i as nat),
            ends@.len() == i,
            forall|k: int|
                0 <= k < ends@.len() ==> #[trigger] ends@[k] == start_of(models, (k + 1) as nat),
        decreases segments@.len() - i,
    {
        assert(models[i as int] == segments@[i as int]@);
        match &segments[i] {
            Segment::Tokens(_) => {},
            Segment::Image { rows, count, .. } => {
                proof {
                    let (a, b) = (*count as int, d as int);
                    assert(0 <= a * b <= 0xffff_ffff_ffff_ffff * 0xffff_ffff_ffff_ffff)
                        by (nonlinear_arith)
                        requires
                            0 <= a <= 0xffff_ffff_ffff_ffff,
                            0 <= b <= 0xffff_ffff_ffff_ffff,
                    ;
                }
                if *count == 0 || *count > chunk || (rows.len() as u128) < *count as u128
                    * d as u128 {
                    return Err(
                        ModelError::Input(
                            "an image needs ".to_owned().concat(
                                decimal(*count as u64).as_str(),
                            ).concat(" rows in one forward; the chunk allows ").concat(
                                decimal(chunk as u64).as_str(),
                            ),
                        ),
                    );
                }
            },
        }
        append_keys(&mut keys, &segments[i]);
        ends.push(keys.len());
        i += 1;
    }
    Ok((keys, ends))
}

/// How many keys two lists share from the start.
pub fn common_prefix(a: &Vec<i64>, b: &Vec<i64>) -> (r: usize)
    ensures
        r == shared(a@, b@, 0),
{
    let mut n: usize = 0;
    while n < a.len() && n < b.len() && a[n] == b[n]
        invariant
            n <= a@.len(),
            shared(a@, b@, 0) == shared(a@, b@, n as nat),
        decreases a@.len() - n,
    {
        n += 1;
    }
    n
}

impl Memory {
    /// Forgets the resident prompt (it will be recomputed on the next prefill).
    pub fn clear_prompt_cache(&mut self)
        ensures
            final(self).cached@.len() == 0,
            *final(self) == (Memory { cached: final(self).cached, ..*old(self) }),
    {
        self.cached.clear();
    }

    /// Plans to make the concatenated segments the resident prompt, recomputing only after the
    /// longest cached prefix, and keeps that prefix. Each image block is one forward (at most
    /// `chunk` rows). Nothing changes where there is no plan.
    pub fn prefill_segments<H: Copy>(&mut self, segments: &Vec<Segment<H>>) -> (r: Result<
        PrefillPlan,
    >)
        requires
            old(self).chunk > 0,
        ensures
            plan_outcome(
                old(self).cached@,
                segment_models(segments@),
                old(self).cap,
                old(self).chunk,
                old(self).d,
            ) == match r {
                Ok(plan) => Ok::<PlanModel, ModelFault>(plan@),
                Err(e) => Err::<PlanModel, ModelFault>(e@),
            },
            r matches Ok(plan) ==> plan.reused <= plan.keys@.len() && final(self).cached@
                == plan@.keys.take(plan@.reused as int) && *final(self) == (Memory {
                cached: final(self).cached,
                logits: false,
                ..*old(self)
            }),
            r is Err ==> *final(self) == *old(self),
    {
        let ghost models = segment_models(segments@);
        let (keys, ends): (Vec<i64>, Vec<usize>) = collect_keys(segments, self.chunk, self.d)?;
        if keys.len() >= self.cap {
            return input("prompt exceeds the context size");
        }
        let common: usize = common_prefix(&self.cached, &keys);
        let reused: usize = whole(segments, &ends, common);
        let steps: Vec<Step> = list_steps(segments, &ends, reused, self.chunk);
        proof {
            law_reused_rows_are_resident(self.cached@, models, self.cap, self.chunk, self.d);
        }
        self.cached.truncate(reused);
        self.logits = false;
        Ok(PrefillPlan { keys, reused, steps })
    }

    /// Notes that a forward of the plan failed: nothing is resident any more.
    pub fn fail(&mut self)
        ensures
            final(self).cached@ == Seq::<i64>::empty(),
            *final(self) == (Memory { cached: final(self).cached, ..*old(self) }),
    {
        self.cached.clear();
    }

    /// Notes that a forward of the plan succeeded: its rows are resident.
    pub fn accept(&mut self, plan: &PrefillPlan, step: usize)
        requires
            step < plan.steps@.len(),
            plan.steps@[step as int].from <= plan.steps@[step as int].to,
            plan.steps@[step as int].to <= plan.keys@.len(),
            old(self).cached@ == plan.keys@.take(plan.steps@[step as int].from as int),
        ensures
            final(self).cached@ == plan.keys@.take(plan.steps@[step as int].to as int),
            *final(self) == (Memory { cached: final(self).cached, ..*old(self) }),
    {
        let from: usize = plan.steps[step].from;
        let to: usize = plan.steps[step].to;
        let ghost before = *self;
        let mut i: usize = from;
        while i < to
            invariant
                from <= i <= to <= plan.keys@.len(),
                self.cached@ == plan.keys@.take(i as int),
                *self == (Memory { cached: self.cached, ..before }),
            decreases to - i,
        {
            self.cached.push(plan.keys[i]);
            assert(self.cached@ =~= plan.keys@.take(i + 1));
            i += 1;
        }
    }
}

/// Row `n`, or the start of the image that it lies inside of.
fn whole<H: Copy>(segments: &Vec<Segment<H>>, ends: &Vec<usize>, n: usize) -> (r: usize)
    requires
        ends@.len() == segments@.len(),
        forall|i: int|
            0 <= i < ends@.len() ==> #[trigger] ends@[i] == start_of(
                segment_models(segments@),
                (i + 1) as nat,
            ),
    ensures
        r == whole_blocks(segment_models(segments@), n as nat, 0),
{
    let ghost models = segment_models(segments@);
    let mut start: usize = 0;
    let mut i: usize = 0;
    assert(keys_of(models, 0).len() == 0);
    while i < segments.len()
        invariant
            i <= segments@.len(),
            models == segment_models(segments@),
            ends@.len() == segments@.len(),
            forall|k: int|
                0 <= k < ends@.len() ==> #[trigger] ends@[k] == start_of(models, (k + 1) as nat),
            start == start_of(models, i as nat),
            whole_blocks(models, n as nat, 0) == whole_blocks(models, n as nat, i as nat),
        decreases segments@.len() - i,
    {
        assert(models[i as int] == segments@[i as int]@);
        let end: usize = ends[i];
        match &segments[i] {
            Segment::Tokens(_) => {},
            Segment::Image { .. } => {
                if start < n && n < end {
                    return start;
                }
            },
        }
        start = end;
        i += 1;
    }
    n
}

/// The forwards of all segments.
fn list_steps<H: Copy>(
    segments: &Vec<Segment<H>>,
    ends: &Vec<usize>,
    reused: usize,
    chunk: usize,
) -> (r: Vec<Step>)
    requires
        chunk > 0,
        ends@.len() == segments@.len(),
        forall|i: int|
            0 <= i < ends@.len() ==> #[trigger] ends@[i] == start_of(
                segment_models(segments@),
                (i + 1) as nat,
            ),
    ensures
        r@ == steps_of(
            segment_models(segments@),
            reused as nat,
            chunk as nat,
            segments@.len(),
        ),
{
    let ghost models = segment_models(segments@);
    let mut steps: Vec<Step> = Vec::new();
    let mut start: usize = 0;
    let mut i: usize = 0;
    assert(keys_of(models, 0).len() == 0);
    while i < segments.len()
        invariant
            i <= segments@.len(),
            chunk > 0,
            models == segment_models(segments@),
            ends@.len() == segments@.len(),
            forall|k: int|
                0 <= k < ends@.len() ==> #[trigger] ends@[k] == start_of(models, (k + 1) as nat),
            start == start_of(models, i as nat),
            steps@ == steps_of(models, reused as nat, chunk as nat, i as nat),
        decreases segments@.len() - i,
    {
        assert(models[i as int] == segments@[i as int]@);
        let end: usize = ends[i];
        let image: bool = match &segments[i] {
            Segment::Tokens(_) => false,
            Segment::Image { .. } => true,
        };
        let mut pos: usize = if reused > start {
            reused
        } else {
            start
        };
        let ghost before = steps@;
        let ghost all = segment_steps(i as int, image, pos as nat, end as nat, chunk as nat);
        assert(before + Seq::<Step>::empty() =~= before);
        while pos < end
            invariant
                chunk > 0,
                steps@ + segment_steps(i as int, image, pos as nat, end as nat, chunk as nat)
                    == before + all,
            decreases end - pos,
        {
            let to: usize = if image || end - pos <= chunk {
                end
            } else {
                pos + chunk
            };
            let step: Step = Step { segment: i, from: pos, to };
            proof {
                let rest = segment_steps(i as int, image, to as nat, end as nat, chunk as nat);
                assert(segment_steps(i as int, image, pos as nat, end as nat, chunk as nat)
                    == seq![step] + rest);
                assert(steps@ + (seq![step] + rest) =~= steps@.push(step) + rest);
            }
            steps.push(step);
            pos = to;
        }
        assert(steps@ =~= before + all);
        start = end;
        i += 1;
    }
    steps
}

} // verus!
