//! Masked block diffusion: each block starts with the causal prediction after the committed
//! text, and its masks are unmasked by confidence.
use crate::engine::causal::{context, extend};
use crate::engine::config::{parts_model, Part, PromptPart};
use crate::engine::generated::{before_stop, clamp, first_stop, Generated};
use crate::engine::model::{Card, DiffusionModel, Listener, Proposal, Resident, Sink};
use crate::engine::sampler::{commits, commits_at};
use crate::error::{Error, Result};
use vstd::prelude::*;

verus! {

/// A canvas being unmasked, with the positions still open.
#[verifier::ext_equal]
pub struct Slate {
    pub canvas: Seq<i32>,
    pub open: Seq<bool>,
}

/// The number of positions before the first open one.
pub open spec fn settled(open: Seq<bool>) -> nat
    decreases open.len(),
{
    if open.len() == 0 || open[0] {
        0
    } else {
        1 + settled(open.drop_first())
    }
}

/// The open positions, in order.
pub open spec fn open_rows(open: Seq<bool>) -> Seq<int>
    decreases open.len(),
{
    if open.len() == 0 {
        Seq::empty()
    } else if open.last() {
        open_rows(open.drop_last()).push(open.len() - 1)
    } else {
        open_rows(open.drop_last())
    }
}

/// The confidences of the proposals at the given rows.
pub open spec fn confidences(proposals: Seq<Proposal>, rows: Seq<int>) -> Seq<u64> {
    Seq::new(rows.len(), |k: int| proposals[rows[k]].1)
}

/// Whether position `i` is committed: at the last step every open position is, before it those
/// that the sampler commits among the open ones.
pub open spec fn committed(
    proposals: Seq<Proposal>,
    open: Seq<bool>,
    threshold: u64,
    last: bool,
    i: int,
) -> bool {
    exists|k: int|
        0 <= k < open_rows(open).len() && (#[trigger] open_rows(open)[k]) == i && (last
            || commits_at(confidences(proposals, open_rows(open)), threshold, k))
}

/// One step: committed positions take their proposals and close.
pub open spec fn step(
    proposals: Seq<Proposal>,
    slate: Slate,
    threshold: u64,
    last: bool,
) -> Slate {
    Slate {
        canvas: Seq::new(
            slate.canvas.len(),
            |i: int|
                if committed(proposals, slate.open, threshold, last, i) {
                    proposals[i].0
                } else {
                    slate.canvas[i]
                },
        ),
        open: Seq::new(
            slate.open.len(),
            |i: int| slate.open[i] && !committed(proposals, slate.open, threshold, last, i),
        ),
    }
}

/// A block is done once everything is settled, or a stop marker is and everything before it.
pub open spec fn done(slate: Slate, stops: Seq<i32>) -> bool {
    let n = settled(slate.open);
    n == slate.canvas.len() || before_stop(slate.canvas.take(n as int), stops) < n
}

/// The block after at most `left` more steps, and the number of steps taken.
pub open spec fn unmask(
    card: Card,
    at: Resident,
    slate: Slate,
    stops: Seq<i32>,
    threshold: u64,
    left: nat,
) -> (Slate, nat)
    decreases left,
{
    if left == 0 || done(slate, stops) {
        (slate, 0)
    } else {
        let proposals = (card.propose)(at, slate.canvas);
        let (end, steps) = unmask(
            card,
            at,
            step(proposals, slate, threshold, left == 1),
            stops,
            threshold,
            (left - 1) as nat,
        );
        (end, steps + 1)
    }
}

/// A new block of `count` tokens: the causal prediction, then masks.
pub open spec fn fresh(first: i32, count: nat, mask: i32) -> Slate {
    Slate {
        canvas: Seq::new(
            count,
            |i: int|
                if i == 0 {
                    first
                } else {
                    mask
                },
        ),
        open: Seq::new(count, |i: int| i != 0),
    }
}

/// How masked blocks are generated.
pub struct Blocks {
    pub block: nat,
    pub threshold: u64,
    pub max_steps: nat,
    pub max_canvas: nat,
    pub batch_size: nat,
    pub mask: i32,
    pub budget: nat,
}

impl Blocks {
    /// The size of the block after `text`.
    pub open spec fn count(self, text: Seq<i32>) -> nat {
        let a = if self.block <= self.max_canvas { self.block } else { self.max_canvas };
        let b = if a <= self.batch_size { a } else { self.batch_size };
        let left = (self.budget - text.len()) as nat;
        if b <= left { b } else { left }
    }

    /// The most steps of a block.
    pub open spec fn steps(self) -> nat {
        if self.max_steps == 0 { 1 } else { self.max_steps }
    }
}

/// The block after `text`: its tokens before any stop marker, whether there is one, and the
/// steps it took.
pub open spec fn block_after(
    card: Card,
    parts: Seq<Part>,
    start: Seq<i32>,
    text: Seq<i32>,
    stops: Seq<i32>,
    blocks: Blocks,
) -> (Seq<i32>, bool, nat) {
    let at = context(parts, start, text);
    let (end, steps) = unmask(
        card,
        at,
        fresh((card.next)(at), blocks.count(text), blocks.mask),
        stops,
        blocks.threshold,
        blocks.steps(),
    );
    let n = settled(end.open);
    let kept = before_stop(end.canvas.take(n as int), stops);
    (end.canvas.take(kept as int), kept < n, steps)
}

/// A run of masked blocks.
#[verifier::ext_equal]
pub struct Run {
    pub text: Seq<i32>,
    pub stopped: bool,
    /// Positions of all prefills.
    pub input: nat,
    pub forwards: nat,
}

/// The first `n` blocks of a run; it ends at a stop marker or with the budget used up.
pub open spec fn run_of(
    card: Card,
    parts: Seq<Part>,
    start: Seq<i32>,
    stops: Seq<i32>,
    blocks: Blocks,
    n: nat,
) -> Run
    decreases n,
{
    if n == 0 {
        Run { text: Seq::empty(), stopped: false, input: 0, forwards: 0 }
    } else {
        let before = run_of(card, parts, start, stops, blocks, (n - 1) as nat);
        if before.stopped || before.text.len() >= blocks.budget {
            before
        } else {
            let (run, stopped, steps) = block_after(
                card,
                parts,
                start,
                before.text,
                stops,
                blocks,
            );
            Run {
                text: before.text + run,
                stopped,
                input: before.input + context(parts, start, before.text).size(),
                forwards: before.forwards + 1 + steps,
            }
        }
    }
}

// ---------------------------------------------------------------------------------------------
// Execution
// ---------------------------------------------------------------------------------------------

fn settled_count(open: &Vec<bool>) -> (r: usize)
    ensures
        r == settled(open@),
        r <= open@.len(),
{
    let ghost all = open@;
    let mut i: usize = 0;
    assert(all.skip(0) =~= all);
    while i < open.len() && !open[i]
        invariant
            i <= open@.len(),
            all == open@,
            settled(all) == i + settled(all.skip(i as int)),
        decreases open@.len() - i,
    {
        proof {
            assert(all.skip(i as int)[0] == all[i as int]);
            assert(all.skip(i as int).drop_first() =~= all.skip(i + 1));
        }
        i += 1;
    }
    proof {
        if i < open@.len() {
            assert(all.skip(i as int)[0] == all[i as int]);
        }
    }
    i
}

/// The open rows are those that are open, in order.
pub proof fn lemma_open_rows(open: Seq<bool>)
    ensures
        forall|k: int|
            0 <= k < open_rows(open).len() ==> 0 <= (#[trigger] open_rows(open)[k]) < open.len()
                && open[open_rows(open)[k]],
        forall|j: int, k: int|
            0 <= j < k < open_rows(open).len() ==> (#[trigger] open_rows(open)[j]) < (
            #[trigger] open_rows(open)[k]),
        forall|i: int|
            0 <= i < open.len() && #[trigger] open[i] ==> exists|k: int|
                0 <= k < open_rows(open).len() && #[trigger] open_rows(open)[k] == i,
    decreases open.len(),
{
    if open.len() > 0 {
        let shorter = open.drop_last();
        lemma_open_rows(shorter);
        assert forall|k: int| 0 <= k < open_rows(open).len() implies 0 <= (
        #[trigger] open_rows(open)[k]) < open.len() && open[open_rows(open)[k]] by {
            if k < open_rows(shorter).len() {
                let i = open_rows(shorter)[k];
                assert(open_rows(open)[k] == i);
                assert(shorter[i] == open[i]);
            }
        }
        assert forall|i: int| 0 <= i < open.len() && #[trigger] open[i] implies exists|k: int|
            0 <= k < open_rows(open).len() && #[trigger] open_rows(open)[k] == i by {
            if i < shorter.len() {
                assert(shorter[i]);
                let k = choose|k: int|
                    0 <= k < open_rows(shorter).len() && #[trigger] open_rows(shorter)[k] == i;
                assert(open_rows(open)[k] == i);
            } else {
                assert(open_rows(open)[open_rows(open).len() - 1] == i);
            }
        }
    }
}

/// The open rows and the confidences of their proposals.
fn gather(proposals: &Vec<Proposal>, open: &Vec<bool>) -> (r: (Vec<usize>, Vec<u64>))
    requires
        proposals@.len() == open@.len(),
    ensures
        r.0@.len() == open_rows(open@).len(),
        forall|k: int| 0 <= k < r.0@.len() ==> #[trigger] r.0@[k] == open_rows(open@)[k],
        r.1@ == confidences(proposals@, open_rows(open@)),
{
    let mut rows: Vec<usize> = Vec::new();
    let mut found: Vec<u64> = Vec::new();
    let mut i: usize = 0;
    assert(open@.take(0) =~= Seq::<bool>::empty());
    while i < open.len()
        invariant
            i <= open@.len(),
            proposals@.len() == open@.len(),
            rows@.len() == open_rows(open@.take(i as int)).len(),
            found@.len() == rows@.len(),
            forall|k: int|
                0 <= k < rows@.len() ==> (#[trigger] rows@[k]) == open_rows(open@.take(i as int))[k]
                    && rows@[k] < i && found@[k] == proposals@[rows@[k] as int].1,
        decreases open@.len() - i,
    {
        proof {
            assert(open@.take(i + 1).drop_last() =~= open@.take(i as int));
            assert(open@.take(i + 1).last() == open@[i as int]);
        }
        if open[i] {
            rows.push(i);
            found.push(proposals[i].1);
        }
        i += 1;
    }
    proof {
        assert(open@.take(i as int) =~= open@);
        let want = confidences(proposals@, open_rows(open@));
        assert forall|k: int| 0 <= k < want.len() implies #[trigger] found@[k] == want[k] by {
            assert(rows@[k] == open_rows(open@)[k]);
        }
        assert(found@ =~= want);
    }
    (rows, found)
}

/// One step of a block.
fn commit_step(
    proposals: &Vec<Proposal>,
    canvas: &mut Vec<i32>,
    open: &mut Vec<bool>,
    threshold: u64,
    last: bool,
)
    requires
        proposals@.len() == old(open)@.len(),
        old(canvas)@.len() == old(open)@.len(),
    ensures
        (Slate { canvas: final(canvas)@, open: final(open)@ }) == step(
            proposals@,
            Slate { canvas: old(canvas)@, open: old(open)@ },
            threshold,
            last,
        ),
        final(canvas)@.len() == old(canvas)@.len(),
        final(open)@.len() == old(open)@.len(),
{
    let ghost slate = Slate { canvas: canvas@, open: open@ };
    let ghost all_rows = open_rows(open@);
    let ghost conf = confidences(proposals@, all_rows);
    let (rows, found): (Vec<usize>, Vec<u64>) = gather(proposals, open);
    let chosen: Vec<usize> = if last {
        let mut every: Vec<usize> = Vec::new();
        let mut k: usize = 0;
        while k < rows.len()
            invariant
                k <= rows@.len(),
                every@.len() == k,
                forall|m: int| 0 <= m < k ==> #[trigger] every@[m] == m,
            decreases rows@.len() - k,
        {
            every.push(k);
            k += 1;
        }
        every
    } else {
        commits(&found, threshold)
    };
    proof {
        lemma_open_rows(slate.open);
        assert forall|m: int| 0 <= m < chosen@.len() implies (#[trigger] chosen@[m])
            < rows@.len() by {
            if !last {
                assert(commits_at(conf, threshold, chosen@[m] as int));
            }
        }
    }
    let mut m: usize = 0;
    while m < chosen.len()
        invariant
            m <= chosen@.len(),
            slate.canvas.len() == slate.open.len(),
            canvas@.len() == slate.canvas.len(),
            open@.len() == slate.open.len(),
            proposals@.len() == slate.open.len(),
            all_rows == open_rows(slate.open),
            rows@.len() == all_rows.len(),
            forall|k: int| 0 <= k < rows@.len() ==> #[trigger] rows@[k] == all_rows[k],
            forall|k: int|
                0 <= k < all_rows.len() ==> 0 <= (#[trigger] all_rows[k]) < slate.open.len(),
            forall|j: int, k: int|
                0 <= j < k < all_rows.len() ==> (#[trigger] all_rows[j]) < (
                #[trigger] all_rows[k]),
            forall|k: int| 0 <= k < chosen@.len() ==> (#[trigger] chosen@[k]) < rows@.len(),
            forall|i: int|
                0 <= i < slate.canvas.len() ==> #[trigger] canvas@[i] == (if taken(
                    chosen@,
                    all_rows,
                    m as int,
                    i,
                ) {
                    proposals@[i].0
                } else {
                    slate.canvas[i]
                }),
            forall|i: int|
                0 <= i < slate.open.len() ==> #[trigger] open@[i] == (slate.open[i] && !taken(
                    chosen@,
                    all_rows,
                    m as int,
                    i,
                )),
        decreases chosen@.len() - m,
    {
        let ghost (c0, o0) = (canvas@, open@);
        let row: usize = rows[chosen[m]];
        canvas.set(row, proposals[row].0);
        open.set(row, false);
        proof {
            assert forall|i: int| taken(chosen@, all_rows, m + 1, i) == (taken(
                chosen@,
                all_rows,
                m as int,
                i,
            ) || i == row) by {
                if i == row {
                    assert(all_rows[chosen@[m as int] as int] == i);
                }
            }
        }
        m += 1;
    }
    proof {
        assert forall|i: int| 0 <= i < slate.canvas.len() implies taken(
            chosen@,
            all_rows,
            chosen@.len() as int,
            i,
        ) == committed(proposals@, slate.open, threshold, last, i) by {
            if taken(chosen@, all_rows, chosen@.len() as int, i) {
                let k = choose|k: int|
                    0 <= k < chosen@.len() && #[trigger] all_rows[chosen@[k] as int] == i;
                if !last {
                    assert(commits_at(conf, threshold, chosen@[k] as int));
                }
                assert(all_rows[chosen@[k] as int] == i);
            }
            if committed(proposals@, slate.open, threshold, last, i) {
                let k = choose|k: int|
                    0 <= k < all_rows.len() && (#[trigger] all_rows[k]) == i && (last
                        || commits_at(conf, threshold, k));
                if last {
                    assert(chosen@[k] == k);
                    assert(all_rows[chosen@[k] as int] == i);
                } else {
                    let j = choose|j: int| 0 <= j < chosen@.len() && #[trigger] chosen@[j] == k;
                    assert(all_rows[chosen@[j] as int] == i);
                }
            }
        }
        let after = step(proposals@, slate, threshold, last);
        assert(canvas@ =~= after.canvas);
        assert(open@ =~= after.open);
    }
}

/// Position `i` is one of the first `m` chosen rows.
spec fn taken(chosen: Seq<usize>, rows: Seq<int>, m: int, i: int) -> bool {
    exists|k: int| 0 <= k < m && #[trigger] rows[chosen[k] as int] == i
}

/// Unmasks a new block after the resident prompt; returns its canvas, the positions still open
/// and the steps taken.
fn unmask_block<M: DiffusionModel>(
    model: &mut M,
    prompt_length: usize,
    first: i32,
    count: usize,
    mask: i32,
    stops: &Vec<i32>,
    threshold: u64,
    max_steps: usize,
) -> (r: Result<(Vec<i32>, Vec<bool>, usize)>)
    requires
        count > 0,
    ensures
        final(model).card() == old(model).card(),
        r matches Err(e) ==> (old(model).card().fails)(e@),
        r matches Ok((canvas, open, steps)) ==> {
            let (end, taken) = unmask(
                old(model).card(),
                old(model).resident(),
                fresh(first, count as nat, mask),
                stops@,
                threshold,
                if max_steps == 0 { 1 } else { max_steps as nat },
            );
            &&& end == (Slate { canvas: canvas@, open: open@ })
            &&& steps == taken
            &&& canvas@.len() == count
            &&& open@.len() == count
        },
{
    let ghost card = model.card();
    let ghost at = model.resident();
    let mut canvas: Vec<i32> = Vec::new();
    let mut open: Vec<bool> = Vec::new();
    while canvas.len() < count
        invariant
            canvas@.len() <= count,
            open@.len() == canvas@.len(),
            forall|i: int|
                0 <= i < canvas@.len() ==> #[trigger] canvas@[i] == (if i == 0 {
                    first
                } else {
                    mask
                }),
            forall|i: int| 0 <= i < open@.len() ==> #[trigger] open@[i] == (i != 0),
        decreases count - canvas@.len(),
    {
        let start: bool = canvas.len() == 0;
        canvas.push(if start { first } else { mask });
        open.push(!start);
    }
    let total: usize = if max_steps == 0 {
        1
    } else {
        max_steps
    };
    let ghost begin = fresh(first, count as nat, mask);
    proof {
        assert(canvas@ =~= begin.canvas);
        assert(open@ =~= begin.open);
    }
    let mut taken: usize = 0;
    while taken < total
        invariant
            count > 0,
            taken <= total,
            canvas@.len() == count,
            open@.len() == count,
            model.card() == card,
            model.resident() == at,
            card == old(model).card(),
            at == old(model).resident(),
            ({
                let rest = unmask(
                    card,
                    at,
                    Slate { canvas: canvas@, open: open@ },
                    stops@,
                    threshold,
                    (total - taken) as nat,
                );
                unmask(card, at, begin, stops@, threshold, total as nat) == (
                    rest.0,
                    rest.1 + taken as nat,
                )
            }),
        ensures
            canvas@.len() == count,
            open@.len() == count,
            model.card() == card,
            unmask(card, at, begin, stops@, threshold, total as nat) == (
                (Slate { canvas: canvas@, open: open@ }),
                taken as nat,
            ),
        decreases total - taken,
    {
        let ghost slate = Slate { canvas: canvas@, open: open@ };
        // Stop once a stop marker is fixed and everything before it is too.
        let n: usize = settled_count(&open);
        if n == count || first_stop(&canvas, n, stops) < n {
            assert(done(slate, stops@));
            break;
        }
        model.forward_canvas(&canvas, prompt_length, false, true)?;
        let proposals: Vec<Proposal> = model.greedy_proposals()?;
        if proposals.len() != count {
            return Err(Error::InvalidLogits);
        }
        commit_step(&proposals, &mut canvas, &mut open, threshold, total - taken == 1);
        taken += 1;
    }
    Ok((canvas, open, taken))
}

/// Masked block diffusion. Each block starts with the causal prediction after the committed
/// text; its masks are unmasked by full-vocabulary confidence and the block is truncated at the
/// first stop marker. The next block's prefill commits it to the prompt cache and predicts that
/// block's first token.
pub fn generate_masked<M: DiffusionModel, L: Listener, S: Sink<M, L>>(
    model: &mut M,
    prompt: &Vec<PromptPart>,
    start: &Vec<i32>,
    budget: usize,
    stops: &Vec<i32>,
    block: usize,
    threshold: u64,
    max_steps: usize,
    max_canvas: usize,
    batch_size: usize,
    mask: i32,
    sink: &mut S,
    ear: &mut L,
) -> (r: Result<Generated>)
    requires
        block > 0,
        max_canvas > 0,
        batch_size > 0,
        old(sink).sound(old(model).card(), old(ear).heard(), old(ear).answers()),
        !old(sink).ended(),
    ensures
        final(model).card() == old(model).card(),
        r matches Err(e) ==> (old(model).card().fails)(e@),
        final(sink).sound(old(model).card(), final(ear).heard(), final(ear).answers()),
        final(sink).terms() == old(sink).terms(),
        r matches Ok(g) ==> {
            let blocks = Blocks {
                block: block as nat,
                threshold,
                max_steps: max_steps as nat,
                max_canvas: max_canvas as nat,
                batch_size: batch_size as nat,
                mask,
                budget: budget as nat,
            };
            let parts = parts_model(prompt@);
            &&& exists|n: nat|
                is_run(
                    g,
                    #[trigger] run_of(old(model).card(), parts, start@, stops@, blocks, n),
                )
            &&& !g.cancelled && !g.stopped ==> g.tokens@.len() == budget
            &&& g.tokens@.len() <= budget
            &&& g.stopped ==> g.tokens@.len() < budget
            &&& final(sink).received() == old(sink).received() + g.tokens@
            &&& old(sink).patient() ==> !g.cancelled
            &&& final(sink).ended() == g.cancelled
        },
{
    let ghost card = model.card();
    let ghost parts = parts_model(prompt@);
    let ghost blocks = Blocks {
        block: block as nat,
        threshold,
        max_steps: max_steps as nat,
        max_canvas: max_canvas as nat,
        batch_size: batch_size as nat,
        mask,
        budget: budget as nat,
    };
    let mut suffix: Vec<i32> = Vec::new();
    extend(&mut suffix, start, 0, start.len());
    let mut generated: Generated = Generated::new();
    let mut going: bool = true;
    let ghost mut n: nat = 0;
    proof {
        assert(suffix@ =~= start@ + Seq::<i32>::empty());
        assert(sink.received() + Seq::<i32>::empty() =~= sink.received());
        assert(is_run(generated, run_of(card, parts, start@, stops@, blocks, 0)));
    }
    while going && generated.tokens.len() < budget
        invariant
            generated.stopped ==> generated.tokens@.len() < budget,
            block > 0,
            max_canvas > 0,
            batch_size > 0,
            model.card() == card,
            card == old(model).card(),
            parts == parts_model(prompt@),
            blocks == (Blocks {
                block: block as nat,
                threshold,
                max_steps: max_steps as nat,
                max_canvas: max_canvas as nat,
                batch_size: batch_size as nat,
                mask,
                budget: budget as nat,
            }),
            suffix@ == start@ + generated.tokens@,
            generated.tokens@.len() <= budget,
            is_run(generated, run_of(card, parts, start@, stops@, blocks, n)),
            going == !(generated.stopped || generated.cancelled),
            sink.received() == old(sink).received() + generated.tokens@,
            sink.patient() == old(sink).patient(),
            sink.patient() ==> !generated.cancelled,
            sink.sound(old(model).card(), ear.heard(), ear.answers()),
            sink.terms() == old(sink).terms(),
            sink.ended() == generated.cancelled,
        decreases budget - generated.tokens@.len(), if going { 1int } else { 0int },
    {
        let ghost text = generated.tokens@;
        let ghost heard = sink.received();
        let (length, predicted): (usize, Vec<i32>) = model.prefill_predict(prompt, &suffix, 1)?;
        generated.input_tokens = generated.input_tokens.saturating_add(length);
        generated.forwards = generated.forwards.saturating_add(1);
        let mut count: usize = block;
        if count > max_canvas {
            count = max_canvas;
        }
        if count > batch_size {
            count = batch_size;
        }
        if count > budget - generated.tokens.len() {
            count = budget - generated.tokens.len();
        }
        if predicted.len() == 0 {
            return Err(Error::InvalidLogits);
        }
        let ghost at = context(parts, start@, text);
        proof {
            assert(suffix@.take(suffix@.len() + 1 - 1 + 0) =~= suffix@);
            assert(predicted@[0] == (card.next)(at));
            assert(model.resident() == at);
        }
        let (canvas, open, steps): (Vec<i32>, Vec<bool>, usize) = unmask_block(
            model,
            length,
            predicted[0],
            count,
            mask,
            stops,
            threshold,
            max_steps,
        )?;
        generated.forwards = generated.forwards.saturating_add(steps);
        let n_settled: usize = settled_count(&open);
        let kept: usize = first_stop(&canvas, n_settled, stops);
        let stopped: bool = kept < n_settled;
        let mut run: Vec<i32> = Vec::new();
        extend(&mut run, &canvas, 0, kept);
        proof {
            assert(run@ =~= canvas@.take(kept as int));
            assert(block_after(card, parts, start@, text, stops@, blocks) == (
                run@,
                stopped,
                steps as nat,
            ));
            if !stopped {
                lemma_progress(card, at, predicted@[0], count as nat, mask, stops@, threshold,
                    blocks.steps());
            }
        }
        going = generated.push(&run, stopped, &*model, sink, ear);
        extend(&mut suffix, &canvas, 0, kept);
        proof {
            n = n + 1;
            assert(suffix@ =~= start@ + generated.tokens@);
            assert(old(sink).received() + text + run@ =~= old(sink).received() + (text + run@));
        }
    }
    Ok(generated)
}

/// What was generated is this run.
pub open spec fn is_run(g: Generated, run: Run) -> bool {
    &&& g.tokens@ == run.text
    &&& g.stopped == run.stopped
    &&& g.input_tokens == clamp(run.input)
    &&& g.forwards == clamp(run.forwards)
    &&& g.accepted@.len() == 0
}

/// A step keeps the canvas as long as it was, and keeps what is closed.
proof fn lemma_step_keeps(
    proposals: Seq<Proposal>,
    slate: Slate,
    threshold: u64,
    last: bool,
)
    requires
        slate.canvas.len() == slate.open.len(),
    ensures
        step(proposals, slate, threshold, last).canvas.len() == slate.canvas.len(),
        step(proposals, slate, threshold, last).open.len() == slate.open.len(),
        forall|i: int|
            0 <= i < slate.open.len() && !slate.open[i] ==> !#[trigger] step(
                proposals,
                slate,
                threshold,
                last,
            ).open[i] && step(proposals, slate, threshold, last).canvas[i] == slate.canvas[i],
{
    lemma_open_rows(slate.open);
}

/// A committed position is never changed again: unmasking keeps every closed position closed and
/// its token as it is.
pub proof fn law_committed_tokens_are_kept(
    card: Card,
    at: Resident,
    slate: Slate,
    stops: Seq<i32>,
    threshold: u64,
    left: nat,
)
    requires
        slate.canvas.len() == slate.open.len(),
    ensures
        ({
            let end = unmask(card, at, slate, stops, threshold, left).0;
            &&& end.canvas.len() == slate.canvas.len()
            &&& end.open.len() == slate.open.len()
            &&& forall|i: int|
                0 <= i < slate.open.len() && !slate.open[i] ==> !(#[trigger] end.open[i])
                    && end.canvas[i] == slate.canvas[i]
        }),
    decreases left,
{
    if left > 0 && !done(slate, stops) {
        let proposals = (card.propose)(at, slate.canvas);
        lemma_step_keeps(proposals, slate, threshold, left == 1);
        let next = step(proposals, slate, threshold, left == 1);
        law_committed_tokens_are_kept(card, at, next, stops, threshold, (left - 1) as nat);
    }
}

/// A block settles its first token at least.
proof fn lemma_progress(
    card: Card,
    at: Resident,
    first: i32,
    count: nat,
    mask: i32,
    stops: Seq<i32>,
    threshold: u64,
    steps: nat,
)
    requires
        count > 0,
    ensures
        settled(unmask(card, at, fresh(first, count, mask), stops, threshold, steps).0.open) > 0,
{
    law_committed_tokens_are_kept(card, at, fresh(first, count, mask), stops, threshold, steps);
}

/// A run that has ended does not go on.
pub proof fn lemma_run_ends(
    card: Card,
    parts: Seq<Part>,
    start: Seq<i32>,
    stops: Seq<i32>,
    blocks: Blocks,
    m: nat,
    n: nat,
)
    requires
        m <= n,
        run_of(card, parts, start, stops, blocks, m).stopped || run_of(
            card,
            parts,
            start,
            stops,
            blocks,
            m,
        ).text.len() >= blocks.budget,
    ensures
        run_of(card, parts, start, stops, blocks, n) == run_of(
            card,
            parts,
            start,
            stops,
            blocks,
            m,
        ),
    decreases n,
{
    if m < n {
        lemma_run_ends(card, parts, start, stops, blocks, m, (n - 1) as nat);
    }
}

} // verus!
