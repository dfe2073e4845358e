//! Reading a group of slots on one canvas.
use crate::engine::generated::clamp;
use crate::engine::model::{
    Card, DiffusionModel, DiffusionScheme, Mind, Resident, Scores, ScoresModel,
};
use crate::engine::noise::{seed_dice, seeded, Dice};
use crate::engine::reads::{copy_tokens, probable, slot_models, SlotModel, SlotRead};
use crate::engine::sampler::{best_index, commits, commits_at, is_best, is_commit_order};
use crate::engine::slots::{padded, padded_size, slots_model, PreparedSlot, SlotTokens};
use crate::engine::uniform::{draft_after, noisy, rolled};
use crate::error::Result;
use vstd::prelude::*;

verus! {

// ---------------------------------------------------------------------------------------------
// Layout
// ---------------------------------------------------------------------------------------------

/// The canvas of a group: each slot's prefix, then its first token.
pub open spec fn canvas_of(group: Seq<SlotTokens>, fills: Seq<i32>) -> Seq<i32>
    decreases group.len(),
{
    if group.len() == 0 {
        Seq::empty()
    } else {
        canvas_of(group.drop_last(), fills) + group.last().prefix.push(fills[group.len() - 1])
    }
}

/// The number of canvas tokens of a group.
pub open spec fn canvas_length(group: Seq<SlotTokens>) -> nat
    decreases group.len(),
{
    if group.len() == 0 {
        0
    } else {
        canvas_length(group.drop_last()) + group.last().prefix.len() + 1
    }
}

/// Where slot `i` is answered on the canvas.
pub open spec fn position(group: Seq<SlotTokens>, i: int) -> nat {
    canvas_length(group.take(i)) + group[i].prefix.len()
}

proof fn lemma_canvas_length(group: Seq<SlotTokens>, fills: Seq<i32>)
    ensures
        canvas_of(group, fills).len() == canvas_length(group),
    decreases group.len(),
{
    if group.len() > 0 {
        lemma_canvas_length(group.drop_last(), fills);
    }
}

proof fn lemma_length_step(group: Seq<SlotTokens>, i: int)
    requires
        0 <= i < group.len(),
    ensures
        canvas_length(group.take(i + 1)) == position(group, i) + 1,
{
    assert(group.take(i + 1).drop_last() =~= group.take(i));
    assert(group.take(i + 1).last() == group[i]);
}

proof fn lemma_length_grows(group: Seq<SlotTokens>, i: int, j: int)
    requires
        0 <= i <= j <= group.len(),
    ensures
        canvas_length(group.take(i)) <= canvas_length(group.take(j)),
    decreases j - i,
{
    if i < j {
        lemma_length_grows(group, i, j - 1);
        lemma_length_step(group, j - 1);
    }
}

/// Slots stand one after another.
pub proof fn lemma_positions(group: Seq<SlotTokens>)
    ensures
        forall|i: int|
            0 <= i < group.len() ==> #[trigger] position(group, i) < canvas_length(group),
        forall|i: int, j: int|
            0 <= i < j < group.len() ==> #[trigger] position(group, i) < #[trigger] position(
                group,
                j,
            ),
{
    assert(group.take(group.len() as int) =~= group);
    assert forall|i: int| 0 <= i < group.len() implies #[trigger] position(group, i)
        < canvas_length(group) by {
        lemma_length_step(group, i);
        lemma_length_grows(group, i + 1, group.len() as int);
    }
    assert forall|i: int, j: int| 0 <= i < j < group.len() implies #[trigger] position(group, i)
        < #[trigger] position(group, j) by {
        lemma_length_step(group, i);
        lemma_length_grows(group, i + 1, j);
    }
}

/// A slot that has not been read.
pub open spec fn blank(group: Seq<SlotTokens>, i: int, prompt_length: nat, fill: i32) -> SlotModel {
    SlotModel {
        canvas_position: position(group, i) as usize,
        absolute_position: clamp(prompt_length + position(group, i)),
        initial_token: fill,
        candidate_tokens: group[i].candidates,
        logits: Seq::empty(),
        probabilities: Seq::empty(),
    }
}

/// A slot with its scores.
pub open spec fn scored(slot: SlotModel, scores: ScoresModel) -> SlotModel {
    SlotModel { logits: scores.logits, probabilities: scores.probabilities, ..slot }
}

/// Appends a slot's prefix and first token to the canvas.
fn lay_slot(canvas: &mut Vec<i32>, slot: &PreparedSlot, fill: i32)
    ensures
        final(canvas)@ == old(canvas)@ + slot@.prefix.push(fill),
{
    let ghost before = canvas@;
    let mut k: usize = 0;
    assert(before + slot.prefix@.take(0) =~= before);
    while k < slot.prefix.len()
        invariant
            k <= slot.prefix@.len(),
            canvas@ == before + slot.prefix@.take(k as int),
        decreases slot.prefix@.len() - k,
    {
        canvas.push(slot.prefix[k]);
        k += 1;
        assert(before + slot.prefix@.take(k as int) =~= (before + slot.prefix@.take(k - 1)).push(
            slot.prefix@[k - 1],
        ));
    }
    canvas.push(fill);
    assert(slot.prefix@.take(k as int) =~= slot.prefix@);
    assert(canvas@ =~= before + slot@.prefix.push(fill));
}

// ---------------------------------------------------------------------------------------------
// Masked reads
// ---------------------------------------------------------------------------------------------

/// The index of the largest value, the earliest of several.
pub open spec fn best_at(values: Seq<u64>) -> int {
    choose|i: int| is_best(values, i)
}

/// The best index is the only one.
pub proof fn lemma_best_at(values: Seq<u64>, i: int)
    requires
        is_best(values, i),
    ensures
        best_at(values) == i,
{
    let b = best_at(values);
    assert(is_best(values, b));
    if b < i {
        assert(values[b] < values[i]);
    } else if i < b {
        assert(values[i] < values[b]);
    }
}

/// A masked read under way: the canvas, the slots still masked, and the scores of those that
/// have been committed.
#[verifier::ext_equal]
pub struct Board {
    pub canvas: Seq<i32>,
    pub pending: Seq<int>,
    pub found: Seq<Option<ScoresModel>>,
}

/// The scores of slot `i` on a canvas.
pub open spec fn slot_scores(
    card: Card,
    at: Resident,
    group: Seq<SlotTokens>,
    canvas: Seq<i32>,
    i: int,
) -> ScoresModel {
    (card.score)(at, canvas, position(group, i) as int, group[i].candidates)
}

/// The confidence of each pending slot: the probability of its best candidate.
pub open spec fn slot_confidence(
    card: Card,
    at: Resident,
    group: Seq<SlotTokens>,
    board: Board,
) -> Seq<u64> {
    Seq::new(
        board.pending.len(),
        |k: int|
            {
                let p = slot_scores(card, at, group, board.canvas, board.pending[k]).probabilities;
                p[best_at(p)]
            },
    )
}

/// Whether the `k`-th pending slot is committed.
pub open spec fn commits_slot(confidence: Seq<u64>, threshold: u64, last: bool, k: int) -> bool {
    0 <= k < confidence.len() && (last || commits_at(confidence, threshold, k))
}

/// The pending slots that are not among the first `n` committed.
pub open spec fn remaining(
    pending: Seq<int>,
    confidence: Seq<u64>,
    threshold: u64,
    last: bool,
    n: nat,
) -> Seq<int>
    decreases n,
{
    if n == 0 {
        Seq::empty()
    } else {
        let before = remaining(pending, confidence, threshold, last, (n - 1) as nat);
        if commits_slot(confidence, threshold, last, n - 1) {
            before
        } else {
            before.push(pending[n - 1])
        }
    }
}

/// Slot `i` is one of the pending ones that are committed.
pub open spec fn committed_now(
    pending: Seq<int>,
    confidence: Seq<u64>,
    threshold: u64,
    last: bool,
    i: int,
) -> bool {
    exists|k: int|
        0 <= k < pending.len() && (#[trigger] pending[k]) == i && commits_slot(
            confidence,
            threshold,
            last,
            k,
        )
}

/// One step: the committed slots take their best candidates and report these scores.
pub open spec fn board_step(
    card: Card,
    at: Resident,
    group: Seq<SlotTokens>,
    board: Board,
    threshold: u64,
    last: bool,
) -> Board {
    let confidence = slot_confidence(card, at, group, board);
    Board {
        canvas: answers_on(card, at, group, board, threshold, last, group.len()),
        pending: remaining(board.pending, confidence, threshold, last, board.pending.len()),
        found: Seq::new(
            group.len(),
            |i: int|
                if committed_now(board.pending, confidence, threshold, last, i) {
                    Some(slot_scores(card, at, group, board.canvas, i))
                } else {
                    board.found[i]
                },
        ),
    }
}

/// The canvas with the answers of those of the first `n` slots that are committed.
pub open spec fn answers_on(
    card: Card,
    at: Resident,
    group: Seq<SlotTokens>,
    board: Board,
    threshold: u64,
    last: bool,
    n: nat,
) -> Seq<i32>
    decreases n,
{
    if n == 0 {
        board.canvas
    } else {
        let before = answers_on(card, at, group, board, threshold, last, (n - 1) as nat);
        let i = n - 1;
        if committed_now(
            board.pending,
            slot_confidence(card, at, group, board),
            threshold,
            last,
            i,
        ) {
            let p = slot_scores(card, at, group, board.canvas, i).probabilities;
            before.update(position(group, i) as int, group[i].candidates[best_at(p)])
        } else {
            before
        }
    }
}

/// The board after at most `left` more steps.
pub open spec fn board_run(
    card: Card,
    at: Resident,
    group: Seq<SlotTokens>,
    board: Board,
    threshold: u64,
    left: nat,
) -> Board
    decreases left,
{
    if left == 0 || board.pending.len() == 0 {
        board
    } else {
        board_run(
            card,
            at,
            group,
            board_step(card, at, group, board, threshold, left == 1),
            threshold,
            (left - 1) as nat,
        )
    }
}

/// Every slot masked, then masks to complete the block.
pub open spec fn masked_board(
    group: Seq<SlotTokens>,
    scheme: DiffusionScheme,
    capacity: nat,
) -> Board {
    let mask = scheme.mask_token();
    let content = canvas_of(group, Seq::new(group.len(), |i: int| mask));
    let padding = (padded_size(scheme, capacity, content.len()) - content.len()) as nat;
    Board {
        canvas: content + Seq::new(padding, |i: int| mask),
        pending: Seq::new(group.len(), |i: int| i),
        found: Seq::new(group.len(), |i: int| None),
    }
}

/// A masked read: every answer position starts as the mask token. Each step commits the most
/// confident position (by its probability over the candidates) plus any at or above the
/// threshold; the last step reads whatever is still masked. A slot reports the scores of the
/// step that committed it.
pub open spec fn masked_read(
    card: Card,
    at: Resident,
    group: Seq<SlotTokens>,
    scheme: DiffusionScheme,
    capacity: nat,
    threshold: u64,
    steps: nat,
) -> Seq<SlotModel> {
    let end = board_run(
        card,
        at,
        group,
        masked_board(group, scheme, capacity),
        threshold,
        steps,
    );
    Seq::new(
        group.len(),
        |i: int|
            {
                let slot = blank(group, i, at.size(), scheme.mask_token());
                match end.found[i] {
                    Some(scores) => scored(slot, scores),
                    None => slot,
                }
            },
    )
}

// ---------------------------------------------------------------------------------------------
// Execution
// ---------------------------------------------------------------------------------------------

/// The group of slots from `from` to `to`.
pub open spec fn group_of(prepared: Seq<PreparedSlot>, from: int, to: int) -> Seq<SlotTokens> {
    slots_model(prepared).subrange(from, to)
}

/// Every slot has a candidate, and the group fits a canvas.
pub open spec fn readable(group: Seq<SlotTokens>, capacity: nat) -> bool {
    &&& group.len() > 0
    &&& canvas_length(group) <= capacity
    &&& forall|i: int| 0 <= i < group.len() ==> (#[trigger] group[i]).candidates.len() > 0
}

/// Slots that nothing commits leave the canvas as it is.
proof fn lemma_answers_skip(
    card: Card,
    at: Resident,
    group: Seq<SlotTokens>,
    board: Board,
    threshold: u64,
    last: bool,
    a: nat,
    b: nat,
)
    requires
        a <= b,
        forall|k: int|
            0 <= k < board.pending.len() ==> !(a <= #[trigger] board.pending[k] < b),
    ensures
        answers_on(card, at, group, board, threshold, last, a) == answers_on(
            card,
            at,
            group,
            board,
            threshold,
            last,
            b,
        ),
    decreases b - a,
{
    if a < b {
        lemma_answers_skip(card, at, group, board, threshold, last, a, (b - 1) as nat);
    }
}

/// Pending slots are in order.
pub open spec fn ordered(pending: Seq<int>, n: nat) -> bool {
    &&& forall|k: int| 0 <= k < pending.len() ==> 0 <= #[trigger] pending[k] < n
    &&& forall|j: int, k: int|
        0 <= j < k < pending.len() ==> (#[trigger] pending[j]) < (#[trigger] pending[k])
}

/// What remains is part of what was pending, in order.
pub proof fn lemma_remaining(
    pending: Seq<int>,
    confidence: Seq<u64>,
    threshold: u64,
    last: bool,
    n: nat,
    size: nat,
)
    requires
        ordered(pending, size),
        n <= pending.len(),
        confidence.len() == pending.len(),
    ensures
        ordered(remaining(pending, confidence, threshold, last, n), size),
        remaining(pending, confidence, threshold, last, n).len() <= n,
        n > 0 ==> forall|k: int|
            0 <= k < remaining(pending, confidence, threshold, last, n).len() ==> #[trigger] remaining(
                pending,
                confidence,
                threshold,
                last,
                n,
            )[k] <= pending[n - 1],
        last ==> remaining(pending, confidence, threshold, last, n).len() == 0,
    decreases n,
{
    if n > 0 {
        let m = (n - 1) as nat;
        lemma_remaining(pending, confidence, threshold, last, m, size);
        let before = remaining(pending, confidence, threshold, last, m);
        if m > 0 {
            assert(pending[m - 1] < pending[n - 1]);
        }
        assert(last ==> commits_slot(confidence, threshold, last, n - 1));
    }
}

/// The pending slots as integers.
pub open spec fn indices(list: Seq<usize>) -> Seq<int> {
    Seq::new(list.len(), |k: int| list[k] as int)
}

/// The slots agree with the board.
spec fn slots_agree(
    slots: Seq<SlotRead>,
    group: Seq<SlotTokens>,
    found: Seq<Option<ScoresModel>>,
    prompt_length: nat,
    mask: i32,
) -> bool {
    &&& slots.len() == group.len()
    &&& found.len() == group.len()
    &&& forall|i: int|
        0 <= i < slots.len() ==> (#[trigger] slots[i])@ == (match found[i] {
            Some(scores) => scored(blank(group, i, prompt_length, mask), scores),
            None => blank(group, i, prompt_length, mask),
        })
}

/// The scores of the pending slots and their confidences.
fn score_pending<M: DiffusionModel>(
    model: &mut M,
    slots: &Vec<SlotRead>,
    pending: &Vec<usize>,
    Ghost(group): Ghost<Seq<SlotTokens>>,
) -> (r: Result<(Vec<Scores>, Vec<u64>)>)
    requires
        old(model).unconditioned(),
        forall|k: int| 0 <= k < pending@.len() ==> #[trigger] pending@[k] < slots@.len(),
        slots@.len() == group.len(),
        forall|i: int|
            0 <= i < group.len() ==> (#[trigger] slots@[i])@.canvas_position == position(group, i)
                && slots@[i]@.candidate_tokens == group[i].candidates && group[i].candidates.len()
                > 0,
    ensures
        final(model).card() == old(model).card(),
        r matches Err(e) ==> (old(model).card().fails)(e@),
        final(model).resident() == old(model).resident(),
        r matches Ok((scores, confidence)) ==> {
            let board = Board {
                canvas: old(model).canvas(),
                pending: indices(pending@),
                found: Seq::empty(),
            };
            &&& scores@.len() == pending@.len()
            &&& forall|k: int|
                0 <= k < scores@.len() ==> (#[trigger] scores@[k])@ == slot_scores(
                    old(model).card(),
                    old(model).resident(),
                    group,
                    old(model).canvas(),
                    pending@[k] as int,
                ) && scores@[k].probabilities@.len() == group[pending@[k] as int].candidates.len()
                    && forall|j: int|
                    0 <= j < scores@[k].probabilities@.len() ==> #[trigger] scores@[k].probabilities@[j]
                        <= crate::double::ONE
            &&& confidence@ == slot_confidence(
                old(model).card(),
                old(model).resident(),
                group,
                board,
            )
        },
{
    let ghost card = model.card();
    let ghost at = model.resident();
    let ghost canvas = model.canvas();
    let ghost board = Board { canvas, pending: indices(pending@), found: Seq::empty() };
    let mut scores: Vec<Scores> = Vec::new();
    let mut confidence: Vec<u64> = Vec::new();
    let mut k: usize = 0;
    while k < pending.len()
        invariant
            k <= pending@.len(),
            card == old(model).card(),
            at == old(model).resident(),
            model.card() == card,
            model.resident() == at,
            model.canvas() == canvas,
            model.unconditioned(),
            board == (Board { canvas, pending: indices(pending@), found: Seq::empty() }),
            forall|x: int| 0 <= x < pending@.len() ==> #[trigger] pending@[x] < slots@.len(),
            slots@.len() == group.len(),
            forall|i: int|
                0 <= i < group.len() ==> (#[trigger] slots@[i])@.canvas_position == position(
                    group,
                    i,
                ) && slots@[i]@.candidate_tokens == group[i].candidates
                    && group[i].candidates.len() > 0,
            scores@.len() == k,
            confidence@.len() == k,
            forall|x: int|
                0 <= x < k ==> (#[trigger] scores@[x])@ == slot_scores(
                    card,
                    at,
                    group,
                    canvas,
                    pending@[x] as int,
                ) && scores@[x].probabilities@.len() == group[pending@[x] as int].candidates.len()
                    && forall|j: int|
                    0 <= j < scores@[x].probabilities@.len() ==> #[trigger] scores@[x].probabilities@[j]
                        <= crate::double::ONE,
            forall|x: int|
                0 <= x < k ==> #[trigger] confidence@[x] == slot_confidence(
                    card,
                    at,
                    group,
                    board,
                )[x],
        decreases pending@.len() - k,
    {
        let i: usize = pending[k];
        let found: Scores = model.candidate_scores(
            slots[i].canvas_position,
            &slots[i].candidate_tokens,
        )?;
        let best: usize = best_index(&found.probabilities);
        proof {
            assert(slots@[i as int]@.canvas_position == position(group, i as int));
            assert(found@ == slot_scores(card, at, group, canvas, i as int));
            assert(board.pending[k as int] == i);
            lemma_best_at(found.probabilities@, best as int);
        }
        confidence.push(found.probabilities[best]);
        scores.push(found);
        k += 1;
    }
    proof {
        assert(confidence@ =~= slot_confidence(card, at, group, board));
    }
    Ok((scores, confidence))
}

/// Whether each pending slot is committed.
fn commit_flags(confidence: &Vec<u64>, threshold: u64, last: bool) -> (r: Vec<bool>)
    ensures
        r@.len() == confidence@.len(),
        forall|k: int|
            0 <= k < r@.len() ==> #[trigger] r@[k] == commits_slot(confidence@, threshold, last, k),
{
    let chosen: Vec<usize> = if last {
        Vec::new()
    } else {
        commits(confidence, threshold)
    };
    let mut flags: Vec<bool> = Vec::new();
    let mut k: usize = 0;
    while k < confidence.len()
        invariant
            k <= confidence@.len(),
            flags@.len() == k,
            !last ==> is_commit_order(confidence@, threshold, chosen@),
            forall|x: int|
                0 <= x < k ==> #[trigger] flags@[x] == commits_slot(
                    confidence@,
                    threshold,
                    last,
                    x,
                ),
        decreases confidence@.len() - k,
    {
        let mut found: bool = last;
        let mut j: usize = 0;
        while j < chosen.len() && !found
            invariant
                j <= chosen@.len(),
                k < confidence@.len(),
                !last ==> is_commit_order(confidence@, threshold, chosen@),
                found ==> last || commits_at(confidence@, threshold, k as int),
                !found ==> !last && forall|x: int| 0 <= x < j ==> #[trigger] chosen@[x] != k,
            decreases chosen@.len() - j, if found { 0int } else { 1int },
        {
            if chosen[j] == k {
                assert(commits_at(confidence@, threshold, chosen@[j as int] as int));
                found = true;
            }
            j += 1;
        }
        proof {
            if !found && commits_at(confidence@, threshold, k as int) {
                let x = choose|x: int| 0 <= x < chosen@.len() && #[trigger] chosen@[x] == k;
                assert(chosen@[x] != k);
            }
        }
        flags.push(found);
        k += 1;
    }
    flags
}

/// Applies one step to the canvas, the slots and the pending list.
fn apply_step(
    canvas: &mut Vec<i32>,
    slots: &mut Vec<SlotRead>,
    pending: &mut Vec<usize>,
    scores: &Vec<Scores>,
    flags: &Vec<bool>,
    Ghost(card): Ghost<Card>,
    Ghost(at): Ghost<Resident>,
    Ghost(group): Ghost<Seq<SlotTokens>>,
    Ghost(board): Ghost<Board>,
    Ghost(threshold): Ghost<u64>,
    Ghost(last): Ghost<bool>,
    Ghost(prompt_length): Ghost<nat>,
    Ghost(mask): Ghost<i32>,
)
    requires
        old(canvas)@ == board.canvas,
        indices(old(pending)@) == board.pending,
        ordered(board.pending, group.len()),
        slots_agree(old(slots)@, group, board.found, prompt_length, mask),
        canvas_length(group) <= old(canvas)@.len(),
        scores@.len() == old(pending)@.len(),
        flags@.len() == old(pending)@.len(),
        forall|i: int| 0 <= i < group.len() ==> (#[trigger] group[i]).candidates.len() > 0,
        forall|k: int|
            0 <= k < board.pending.len() ==> board.found[#[trigger] board.pending[k]] is None,
        forall|k: int|
            0 <= k < scores@.len() ==> (#[trigger] scores@[k])@ == slot_scores(
                card,
                at,
                group,
                board.canvas,
                board.pending[k],
            ) && scores@[k].probabilities@.len() == group[board.pending[k]].candidates.len(),
        forall|k: int|
            0 <= k < flags@.len() ==> #[trigger] flags@[k] == commits_slot(
                slot_confidence(card, at, group, board),
                threshold,
                last,
                k,
            ),
    ensures
        ({
            let after = board_step(card, at, group, board, threshold, last);
            &&& final(canvas)@ == after.canvas
            &&& final(canvas)@.len() == old(canvas)@.len()
            &&& indices(final(pending)@) == after.pending
            &&& slots_agree(final(slots)@, group, after.found, prompt_length, mask)
        }),
{
    let ghost confidence = slot_confidence(card, at, group, board);
    let ghost after = board_step(card, at, group, board, threshold, last);
    let ghost full = pending@;
    let size: usize = canvas.len();
    let mut left: Vec<usize> = Vec::new();
    let mut k: usize = 0;
    proof {
        lemma_positions(group);
        let first = if board.pending.len() > 0 { board.pending[0] as nat } else { group.len() };
        assert forall|j: int| 0 <= j < board.pending.len() implies !(0 <= #[trigger] board.pending[j]
            < first) by {
            if j > 0 {
                assert(board.pending[0] < board.pending[j]);
            }
        }
        lemma_answers_skip(card, at, group, board, threshold, last, 0, first);
        assert(indices(left@) =~= Seq::<int>::empty());
    }
    while k < pending.len()
        invariant
            k <= pending@.len(),
            pending@ == full,
            indices(full) == board.pending,
            ordered(board.pending, group.len()),
            canvas_length(group) <= canvas@.len(),
            canvas@.len() == board.canvas.len() == size,
            scores@.len() == full.len(),
            flags@.len() == full.len(),
            confidence == slot_confidence(card, at, group, board),
            forall|i: int| 0 <= i < group.len() ==> (#[trigger] group[i]).candidates.len() > 0,
            forall|i: int|
                0 <= i < group.len() ==> #[trigger] position(group, i) < canvas_length(group),
            forall|x: int|
                0 <= x < scores@.len() ==> (#[trigger] scores@[x])@ == slot_scores(
                    card,
                    at,
                    group,
                    board.canvas,
                    board.pending[x],
                ) && scores@[x].probabilities@.len() == group[board.pending[x]].candidates.len(),
            forall|x: int|
                0 <= x < flags@.len() ==> #[trigger] flags@[x] == commits_slot(
                    confidence,
                    threshold,
                    last,
                    x,
                ),
            slots@.len() == group.len(),
            board.found.len() == group.len(),
            canvas@ == answers_on(
                card,
                at,
                group,
                board,
                threshold,
                last,
                (if k < full.len() { full[k as int] as nat } else { group.len() }),
            ),
            indices(left@) == remaining(board.pending, confidence, threshold, last, k as nat),
            forall|i: int|
                0 <= i < slots@.len() ==> (#[trigger] slots@[i])@ == slot_now(
                    card,
                    at,
                    group,
                    board,
                    threshold,
                    last,
                    prompt_length,
                    mask,
                    k as int,
                    i,
                ),
        decreases pending@.len() - k,
    {
        let i: usize = pending[k];
        let ghost (c0, s0) = (canvas@, slots@);
        let ghost next = if k + 1 < full.len() { full[k + 1] as nat } else { group.len() };
        proof {
            assert(board.pending[k as int] == i);
            if k + 1 < full.len() {
                assert(board.pending[k as int] < board.pending[k + 1]);
                assert(board.pending[k + 1] == full[k + 1]);
            }
            assert forall|j: int| 0 <= j < board.pending.len() implies !(i + 1
                <= #[trigger] board.pending[j] < next) by {
                if j > k + 1 {
                    assert(board.pending[k + 1] < board.pending[j]);
                } else if j < k {
                    assert(board.pending[j] < board.pending[k as int]);
                }
            }
            lemma_answers_skip(
                card,
                at,
                group,
                board,
                threshold,
                last,
                (i + 1) as nat,
                next,
            );
            assert(committed_now(board.pending, confidence, threshold, last, i as int)
                == flags@[k as int]) by {
                if committed_now(board.pending, confidence, threshold, last, i as int) {
                    let j = choose|j: int|
                        0 <= j < board.pending.len() && (#[trigger] board.pending[j]) == i
                            && commits_slot(confidence, threshold, last, j);
                    if j < k {
                        assert(board.pending[j] < board.pending[k as int]);
                    } else if j > k {
                        assert(board.pending[k as int] < board.pending[j]);
                    }
                }
            }
        }
        if flags[k] {
            let best: usize = best_index(&scores[k].probabilities);
            proof {
                lemma_best_at(scores@[k as int].probabilities@, best as int);
            }
            let token: i32 = slots[i].candidate_tokens[best];
            let place: usize = slots[i].canvas_position;
            canvas.set(place, token);
            let updated: SlotRead = SlotRead {
                canvas_position: slots[i].canvas_position,
                absolute_position: slots[i].absolute_position,
                initial_token: slots[i].initial_token,
                candidate_tokens: copy_tokens(&slots[i].candidate_tokens),
                logits: crate::engine::reads::copy_words(&scores[k].logits),
                probabilities: crate::engine::reads::copy_words(&scores[k].probabilities),
            };
            slots.set(i, updated);
        } else {
            left.push(i);
        }
        proof {
            let n = (i + 1) as nat;
            assert((n - 1) as nat == i as nat);
            let p = slot_scores(card, at, group, board.canvas, i as int).probabilities;
            if flags@[k as int] {
                assert(p == scores@[k as int].probabilities@);
                assert(s0[i as int]@.canvas_position == position(group, i as int));
                assert(canvas@ == c0.update(
                    position(group, i as int) as int,
                    group[i as int].candidates[best_at(p)],
                ));
            }
            assert(canvas@ == answers_on(card, at, group, board, threshold, last, n));
        }
        k += 1;
    }
    proof {
        assert(full.len() == board.pending.len());
        assert forall|i: int| 0 <= i < slots@.len() implies (#[trigger] slots@[i])@ == (
        match after.found[i] {
            Some(scores) => scored(blank(group, i, prompt_length, mask), scores),
            None => blank(group, i, prompt_length, mask),
        }) by {}
    }
    *pending = left;
}

/// Slot `i` once the first `k` pending slots have been looked at.
spec fn slot_now(
    card: Card,
    at: Resident,
    group: Seq<SlotTokens>,
    board: Board,
    threshold: u64,
    last: bool,
    prompt_length: nat,
    mask: i32,
    k: int,
    i: int,
) -> SlotModel {
    let slot = blank(group, i, prompt_length, mask);
    if exists|x: int|
        0 <= x < k && (#[trigger] board.pending[x]) == i && commits_slot(
            slot_confidence(card, at, group, board),
            threshold,
            last,
            x,
        ) {
        scored(slot, slot_scores(card, at, group, board.canvas, i))
    } else {
        match board.found[i] {
            Some(scores) => scored(slot, scores),
            None => slot,
        }
    }
}

/// Pending slots have no scores yet; once nothing is pending every slot has.
pub proof fn lemma_step_keeps(
    card: Card,
    at: Resident,
    group: Seq<SlotTokens>,
    board: Board,
    threshold: u64,
    last: bool,
)
    requires
        ordered(board.pending, group.len()),
        board.found.len() == group.len(),
        forall|k: int|
            0 <= k < board.pending.len() ==> board.found[#[trigger] board.pending[k]] is None,
    ensures
        ({
            let after = board_step(card, at, group, board, threshold, last);
            &&& ordered(after.pending, group.len())
            &&& after.found.len() == group.len()
            &&& forall|k: int|
                0 <= k < after.pending.len() ==> after.found[#[trigger] after.pending[k]] is None
        }),
{
    let confidence = slot_confidence(card, at, group, board);
    let after = board_step(card, at, group, board, threshold, last);
    let n = board.pending.len();
    lemma_remaining(board.pending, confidence, threshold, last, n, group.len());
    assert forall|k: int| 0 <= k < after.pending.len() implies after.found[
    #[trigger] after.pending[k]] is None by {
        lemma_remaining_item(board.pending, confidence, threshold, last, n, k, group.len());
        let j = choose|j: int|
            0 <= j < n && #[trigger] board.pending[j] == after.pending[k] && !commits_slot(
                confidence,
                threshold,
                last,
                j,
            );
        let i = after.pending[k];
        if committed_now(board.pending, confidence, threshold, last, i) {
            let x = choose|x: int|
                0 <= x < board.pending.len() && (#[trigger] board.pending[x]) == i && commits_slot(
                    confidence,
                    threshold,
                    last,
                    x,
                );
            if x < j {
                assert(board.pending[x] < board.pending[j]);
            } else if j < x {
                assert(board.pending[j] < board.pending[x]);
            }
        }
    }
}

/// What remains was pending and is not committed.
pub proof fn lemma_remaining_item(
    pending: Seq<int>,
    confidence: Seq<u64>,
    threshold: u64,
    last: bool,
    n: nat,
    k: int,
    size: nat,
)
    requires
        n <= pending.len(),
        0 <= k < remaining(pending, confidence, threshold, last, n).len(),
    ensures
        exists|j: int|
            0 <= j < n && #[trigger] pending[j] == remaining(
                pending,
                confidence,
                threshold,
                last,
                n,
            )[k] && !commits_slot(confidence, threshold, last, j),
    decreases n,
{
    if n > 0 {
        let m = (n - 1) as nat;
        let before = remaining(pending, confidence, threshold, last, m);
        if k < before.len() {
            lemma_remaining_item(pending, confidence, threshold, last, m, k, size);
            let j = choose|j: int|
                0 <= j < m && #[trigger] pending[j] == before[k] && !commits_slot(
                    confidence,
                    threshold,
                    last,
                    j,
                );
            assert(pending[j] == remaining(pending, confidence, threshold, last, n)[k]);
        } else {
            assert(pending[n - 1] == remaining(pending, confidence, threshold, last, n)[k]);
        }
    }
}

/// The probabilities of the slots read so far are from 0 to 1.
spec fn found_probable(found: Seq<Option<ScoresModel>>, group: Seq<SlotTokens>) -> bool {
    forall|i: int|
        0 <= i < found.len() ==> (#[trigger] found[i] matches Some(scores)
            ==> scores.probabilities.len() == group[i].candidates.len() && forall|j: int|
            0 <= j < scores.probabilities.len() ==> #[trigger] scores.probabilities[j]
                <= crate::double::ONE)
}

/// Masked-diffusion read: every answer position starts as the mask token. Each step commits
/// the most confident position (by its probability over the candidates) plus any at or
/// above `threshold`; the last step reads whatever is still masked. A slot reports the
/// scores of the step that committed it, and committed rows are never read again.
pub fn read_masked<M: DiffusionModel>(
    model: &mut M,
    prepared: &Vec<PreparedSlot>,
    from: usize,
    to: usize,
    prompt_length: usize,
    steps: usize,
    scheme: DiffusionScheme,
    threshold: u64,
    capacity: usize,
) -> (r: Result<(Vec<SlotRead>, usize)>)
    requires
        from < to <= prepared@.len(),
        readable(group_of(prepared@, from as int, to as int), capacity as nat),
        scheme matches DiffusionScheme::Masked { block, .. } && block > 0,
        old(model).resident().size() == prompt_length,
        steps > 0,
    ensures
        final(model).card() == old(model).card(),
        r matches Err(e) ==> (old(model).card().fails)(e@),
        final(model).resident() == old(model).resident(),
        r matches Ok((slots, canvas)) ==> {
            let group = group_of(prepared@, from as int, to as int);
            &&& slot_models(slots@) == masked_read(
                old(model).card(),
                old(model).resident(),
                group,
                scheme,
                capacity as nat,
                threshold,
                steps as nat,
            )
            &&& canvas == padded_size(scheme, capacity as nat, canvas_length(group))
            &&& probable(slot_models(slots@))
            &&& forall|i: int|
                0 <= i < slots@.len() ==> (#[trigger] slots@[i])@.probabilities.len()
                    == group[i].candidates.len()
        },
{
    let ghost group = group_of(prepared@, from as int, to as int);
    let ghost card = model.card();
    let ghost at = model.resident();
    let ghost begin = masked_board(group, scheme, capacity as nat);
    let mask: i32 = scheme.mask();
    let ghost fills = Seq::new(group.len(), |i: int| mask);
    let mut canvas: Vec<i32> = Vec::new();
    let mut slots: Vec<SlotRead> = Vec::new();
    let mut pending: Vec<usize> = Vec::new();
    let mut i: usize = from;
    proof {
        lemma_positions(group);
        lemma_canvas_length(group, fills);
        assert(group.take(0) =~= Seq::<SlotTokens>::empty());
    }
    while i < to
        invariant
            from <= i <= to <= prepared@.len(),
            group == group_of(prepared@, from as int, to as int),
            readable(group, capacity as nat),
            fills == Seq::new(group.len(), |x: int| mask),
            canvas@ == canvas_of(group.take(i - from), fills),
            slots@.len() == i - from,
            pending@.len() == i - from,
            forall|x: int| 0 <= x < pending@.len() ==> #[trigger] pending@[x] == x,
            forall|x: int|
                0 <= x < slots@.len() ==> (#[trigger] slots@[x])@ == blank(
                    group,
                    x,
                    prompt_length as nat,
                    mask,
                ),
        decreases to - i,
    {
        let slot: &PreparedSlot = &prepared[i];
        let ghost n = i - from;
        proof {
            assert(group[n] == slot@);
            assert(group.take(n + 1).drop_last() =~= group.take(n));
            assert(group.take(n + 1).last() == slot@);
            lemma_canvas_length(group.take(n), fills);
            lemma_length_step(group, n);
            lemma_length_grows(group, n + 1, group.len() as int);
            assert(group.take(group.len() as int) =~= group);
        }
        let place: usize = canvas.len() + slot.prefix.len();
        lay_slot(&mut canvas, slot, mask);
        pending.push(slots.len());
        slots.push(
            SlotRead {
                canvas_position: place,
                absolute_position: prompt_length.saturating_add(place),
                initial_token: mask,
                candidate_tokens: copy_tokens(&slot.candidates),
                logits: Vec::new(),
                probabilities: Vec::new(),
            },
        );
        proof {
            let made = slots@[n]@;
            assert(made.logits =~= Seq::<u64>::empty());
            assert(made.probabilities =~= Seq::<u64>::empty());
        }
        i += 1;
    }
    assert(group.take(to - from) =~= group);
    // Trailing masks complete the block, the canvas shape the model was trained on.
    let content: usize = canvas.len();
    let size: usize = padded(scheme, capacity, content);
    while canvas.len() < size
        invariant
            content <= canvas@.len() <= size,
            canvas@ == canvas_of(group, fills) + Seq::new(
                (canvas@.len() - content) as nat,
                |x: int| mask,
            ),
        decreases size - canvas@.len(),
    {
        canvas.push(mask);
        assert(canvas@ =~= canvas_of(group, fills) + Seq::new(
            (canvas@.len() - content) as nat,
            |x: int| mask,
        ));
    }
    let ghost mut board = begin;
    proof {
        assert(canvas@ =~= begin.canvas);
        assert(indices(pending@) =~= begin.pending);
        assert(slots_agree(slots@, group, begin.found, prompt_length as nat, mask));
        assert forall|x: int| 0 <= x < group.len() implies (exists|k: int|
            0 <= k < board.pending.len() && board.pending[k] == x) || (
        #[trigger] board.found[x]) is Some by {
            assert(board.pending[x] == x);
        }
    }
    let mut step: usize = 0;
    while step < steps && pending.len() > 0
        invariant
            step <= steps,
            card == old(model).card(),
            at == old(model).resident(),
            model.card() == card,
            model.resident() == at,
            at.size() == prompt_length,
            readable(group, capacity as nat),
            canvas_length(group) <= canvas@.len(),
            canvas@.len() == size,
            canvas@ == board.canvas,
            indices(pending@) == board.pending,
            ordered(board.pending, group.len()),
            slots_agree(slots@, group, board.found, prompt_length as nat, mask),
            found_probable(board.found, group),
            forall|k: int|
                0 <= k < board.pending.len() ==> board.found[#[trigger] board.pending[k]] is None,
            forall|x: int|
                0 <= x < group.len() ==> #[trigger] position(group, x) < canvas_length(group),
            board_run(card, at, group, begin, threshold, steps as nat) == board_run(
                card,
                at,
                group,
                board,
                threshold,
                (steps - step) as nat,
            ),
            step == steps ==> pending@.len() == 0,
            forall|x: int|
                0 <= x < group.len() ==> (exists|k: int|
                    0 <= k < board.pending.len() && board.pending[k] == x) || (
                #[trigger] board.found[x]) is Some,
        decreases steps - step,
    {
        model.forward_canvas(&canvas, prompt_length, false, false)?;
        proof {
            assert forall|x: int| 0 <= x < pending@.len() implies #[trigger] pending@[x]
                < slots@.len() by {
                assert(board.pending[x] == pending@[x]);
            }
            assert forall|x: int| 0 <= x < group.len() implies (
            #[trigger] slots@[x])@.canvas_position == position(group, x)
                && slots@[x]@.candidate_tokens == group[x].candidates && group[x].candidates.len()
                > 0 by {}
        }
        let (scores, confidence): (Vec<Scores>, Vec<u64>) = score_pending(
            model,
            &slots,
            &pending,
            Ghost(group),
        )?;
        let last: bool = steps - step == 1;
        let flags: Vec<bool> = commit_flags(&confidence, threshold, last);
        proof {
            let other = Board { canvas: board.canvas, pending: board.pending, found: Seq::empty() };
            assert(slot_confidence(card, at, group, other) =~= slot_confidence(
                card,
                at,
                group,
                board,
            ));
            assert forall|k: int| 0 <= k < scores@.len() implies (#[trigger] scores@[k])@
                == slot_scores(card, at, group, board.canvas, board.pending[k])
                && scores@[k].probabilities@.len() == group[board.pending[k]].candidates.len() by {
                assert(board.pending[k] == pending@[k]);
            }
        }
        apply_step(
            &mut canvas,
            &mut slots,
            &mut pending,
            &scores,
            &flags,
            Ghost(card),
            Ghost(at),
            Ghost(group),
            Ghost(board),
            Ghost(threshold),
            Ghost(last),
            Ghost(prompt_length as nat),
            Ghost(mask),
        );
        proof {
            let after = board_step(card, at, group, board, threshold, last);
            lemma_step_keeps(card, at, group, board, threshold, last);
            let conf = slot_confidence(card, at, group, board);
            lemma_remaining(
                board.pending,
                conf,
                threshold,
                last,
                board.pending.len(),
                group.len(),
            );
            lemma_found_stays(card, at, group, board, threshold, last);
            assert(found_probable(after.found, group)) by {
                assert forall|x: int| 0 <= x < after.found.len() implies (
                #[trigger] after.found[x] matches Some(s) ==> s.probabilities.len()
                    == group[x].candidates.len() && forall|j: int|
                    0 <= j < s.probabilities.len() ==> #[trigger] s.probabilities[j]
                        <= crate::double::ONE) by {
                    if committed_now(board.pending, conf, threshold, last, x) {
                        let k = choose|k: int|
                            0 <= k < board.pending.len() && (#[trigger] board.pending[k]) == x
                                && commits_slot(conf, threshold, last, k);
                        assert(scores@[k]@ == slot_scores(card, at, group, board.canvas, x));
                        let p = scores@[k].probabilities@;
                        assert forall|j: int| 0 <= j < p.len() implies #[trigger] p[j]
                            <= crate::double::ONE by {
                            assert(scores@[k].probabilities@[j] <= crate::double::ONE);
                        }
                    }
                }
            }
            board = after;
        }
        step += 1;
    }
    proof {
        let end = board_run(card, at, group, begin, threshold, steps as nat);
        assert(board == end);
        let want = masked_read(card, at, group, scheme, capacity as nat, threshold, steps as nat);
        assert(slot_models(slots@) =~= want);
        assert forall|x: int| 0 <= x < slots@.len() implies (
        #[trigger] slots@[x])@.probabilities.len() == group[x].candidates.len() by {
            assert(board.found[x] is Some);
        }
        assert forall|x: int, j: int|
            0 <= x < slots@.len() && 0 <= j < slot_models(slots@)[x].probabilities.len() implies
            #[trigger] slot_models(slots@)[x].probabilities[j] <= crate::double::ONE by {
            assert(board.found[x] is Some);
            let s = board.found[x]->Some_0;
            assert(slot_models(slots@)[x].probabilities == s.probabilities);
            assert(s.probabilities[j] <= crate::double::ONE);
        }
    }
    Ok((slots, size))
}

/// A slot is pending or has scores, and a step keeps that.
proof fn lemma_found_stays(
    card: Card,
    at: Resident,
    group: Seq<SlotTokens>,
    board: Board,
    threshold: u64,
    last: bool,
)
    requires
        ordered(board.pending, group.len()),
        board.found.len() == group.len(),
        forall|x: int|
            0 <= x < group.len() ==> (exists|k: int|
                0 <= k < board.pending.len() && board.pending[k] == x) || (
            #[trigger] board.found[x]) is Some,
    ensures
        ({
            let after = board_step(card, at, group, board, threshold, last);
            forall|x: int|
                0 <= x < group.len() ==> (exists|k: int|
                    0 <= k < after.pending.len() && after.pending[k] == x) || (
                #[trigger] after.found[x]) is Some
        }),
{
    let after = board_step(card, at, group, board, threshold, last);
    let conf = slot_confidence(card, at, group, board);
    assert forall|x: int| 0 <= x < group.len() implies (exists|k: int|
        0 <= k < after.pending.len() && after.pending[k] == x) || (
    #[trigger] after.found[x]) is Some by {
        if board.found[x] is None {
            let k = choose|k: int| 0 <= k < board.pending.len() && board.pending[k] == x;
            if commits_slot(conf, threshold, last, k) {
                assert(board.pending[k] == x);
                assert(committed_now(board.pending, conf, threshold, last, x));
            } else {
                lemma_still_remaining(
                    board.pending,
                    conf,
                    threshold,
                    last,
                    board.pending.len(),
                    k,
                );
                let rest = remaining(
                    board.pending,
                    conf,
                    threshold,
                    last,
                    board.pending.len(),
                );
                let j = choose|j: int| 0 <= j < rest.len() && rest[j] == board.pending[k];
                assert(after.pending[j] == x);
            }
        } else {
            assert(after.found[x] is Some);
        }
    }
}

/// What is not committed remains.
pub proof fn lemma_still_remaining(
    pending: Seq<int>,
    confidence: Seq<u64>,
    threshold: u64,
    last: bool,
    n: nat,
    k: int,
)
    requires
        n <= pending.len(),
        0 <= k < n,
        !commits_slot(confidence, threshold, last, k),
    ensures
        exists|j: int|
            0 <= j < remaining(pending, confidence, threshold, last, n).len() && remaining(
                pending,
                confidence,
                threshold,
                last,
                n,
            )[j] == pending[k],
    decreases n,
{
    let m = (n - 1) as nat;
    let before = remaining(pending, confidence, threshold, last, m);
    let after = remaining(pending, confidence, threshold, last, n);
    if k < m {
        lemma_still_remaining(pending, confidence, threshold, last, m, k);
        let j = choose|j: int| 0 <= j < before.len() && before[j] == pending[k];
        assert(after[j] == pending[k]);
    } else {
        assert(after[before.len() as int] == pending[k]);
    }
}

// ---------------------------------------------------------------------------------------------
// Uniform-noise reads
// ---------------------------------------------------------------------------------------------

/// The outline of a read: the slots stand where they should, and each has a probability from 0
/// to 1 for every candidate.
pub open spec fn outlined(
    group: Seq<SlotTokens>,
    prompt_length: nat,
    slots: Seq<SlotModel>,
) -> bool {
    &&& slots.len() == group.len()
    &&& forall|i: int|
        0 <= i < slots.len() ==> {
            let slot = #[trigger] slots[i];
            &&& slot == (SlotModel {
                logits: slot.logits,
                probabilities: slot.probabilities,
                ..blank(group, i, prompt_length, slot.initial_token)
            })
            &&& slot.probabilities.len() == group[i].candidates.len()
        }
    &&& probable(slots)
}

/// Where the slots of a group are answered.
pub open spec fn answer_positions(group: Seq<SlotTokens>) -> Seq<usize> {
    Seq::new(group.len(), |i: int| position(group, i) as usize)
}

/// A group read from uniform noise: its answer positions start as random tokens of a seed, are
/// refined in all steps but the last, and the last step scores their candidates.
pub open spec fn noise_read(
    card: Card,
    at: Resident,
    group: Seq<SlotTokens>,
    prompt_length: nat,
    seed: u64,
    steps: nat,
) -> Seq<SlotModel> {
    let noise = rolled(card, seeded(seed), group.len());
    let draft = draft_after(
        card,
        at,
        answer_positions(group),
        noisy(canvas_of(group, noise.0), noise.1),
        steps,
        (steps - 1) as nat,
    );
    let mind = (card.believe)(at, draft.canvas, draft.mind);
    Seq::new(
        group.len(),
        |i: int|
            scored(
                blank(group, i, prompt_length, noise.0[i]),
                (card.read)(mind, position(group, i) as int, group[i].candidates),
            ),
    )
}

/// A canvas depends on the first tokens of its own slots alone.
proof fn lemma_canvas_fills(group: Seq<SlotTokens>, a: Seq<i32>, b: Seq<i32>)
    requires
        forall|i: int| 0 <= i < group.len() ==> #[trigger] a[i] == b[i],
    ensures
        canvas_of(group, a) == canvas_of(group, b),
    decreases group.len(),
{
    if group.len() > 0 {
        lemma_canvas_fills(group.drop_last(), a, b);
        assert(a[group.len() - 1] == b[group.len() - 1]);
    }
}

/// Uniform-noise read: every answer position starts as a random token. All but the last step
/// refine the answer positions, and each step after the first feeds back the logits of the one
/// before; the last step reads the candidates.
pub fn read_canvas<M: DiffusionModel>(
    model: &mut M,
    prepared: &Vec<PreparedSlot>,
    from: usize,
    to: usize,
    prompt_length: usize,
    seed: u64,
    steps: usize,
    capacity: usize,
) -> (r: Result<(Vec<SlotRead>, usize)>)
    requires
        from < to <= prepared@.len(),
        readable(group_of(prepared@, from as int, to as int), capacity as nat),
        steps > 0,
    ensures
        final(model).card() == old(model).card(),
        r matches Err(e) ==> (old(model).card().fails)(e@),
        final(model).resident() == old(model).resident(),
        r matches Ok((slots, canvas)) ==> {
            let group = group_of(prepared@, from as int, to as int);
            &&& slot_models(slots@) == noise_read(
                old(model).card(),
                old(model).resident(),
                group,
                prompt_length as nat,
                seed,
                steps as nat,
            )
            &&& outlined(group, prompt_length as nat, slot_models(slots@))
            &&& canvas == canvas_length(group)
        },
{
    let ghost card = model.card();
    let ghost at = model.resident();
    let mut dice: Dice = seed_dice(seed);
    let ghost group = group_of(prepared@, from as int, to as int);
    let ghost first_dice = dice;
    let mut canvas: Vec<i32> = Vec::new();
    let mut slots: Vec<SlotRead> = Vec::new();
    let mut positions: Vec<usize> = Vec::new();
    let mut i: usize = from;
    proof {
        lemma_positions(group);
        assert(group.take(0) =~= Seq::<SlotTokens>::empty());
    }
    while i < to
        invariant
            from <= i <= to <= prepared@.len(),
            group == group_of(prepared@, from as int, to as int),
            readable(group, capacity as nat),
            card == old(model).card(),
            at == old(model).resident(),
            model.card() == card,
            model.resident() == at,
            rolled(card, first_dice, (i - from) as nat).0.len() == i - from,
            dice == rolled(card, first_dice, (i - from) as nat).1,
            canvas@ == canvas_of(
                group.take(i - from),
                rolled(card, first_dice, (i - from) as nat).0,
            ),
            canvas@.len() == canvas_length(group.take(i - from)),
            slots@.len() == i - from,
            positions@.len() == i - from,
            forall|x: int|
                0 <= x < positions@.len() ==> #[trigger] positions@[x] == position(group, x),
            forall|x: int|
                0 <= x < slots@.len() ==> (#[trigger] slots@[x])@ == blank(
                    group,
                    x,
                    prompt_length as nat,
                    rolled(card, first_dice, (i - from) as nat).0[x],
                ),
        decreases to - i,
    {
        let slot: &PreparedSlot = &prepared[i];
        let ghost n = i - from;
        proof {
            assert(group[n] == slot@);
            lemma_length_step(group, n);
            lemma_length_grows(group, n + 1, group.len() as int);
            assert(group.take(group.len() as int) =~= group);
        }
        let place: usize = canvas.len() + slot.prefix.len();
        let initial: i32 = model.noise(&mut dice);
        lay_slot(&mut canvas, slot, initial);
        positions.push(place);
        slots.push(
            SlotRead {
                canvas_position: place,
                absolute_position: prompt_length.saturating_add(place),
                initial_token: initial,
                candidate_tokens: copy_tokens(&slot.candidates),
                logits: Vec::new(),
                probabilities: Vec::new(),
            },
        );
        proof {
            let made = slots@[n]@;
            assert(made.logits =~= Seq::<u64>::empty());
            assert(made.probabilities =~= Seq::<u64>::empty());
            let fills = rolled(card, first_dice, n as nat).0;
            let more = rolled(card, first_dice, (n + 1) as nat).0;
            assert(more == fills.push(initial));
            let next = group.take(n + 1);
            assert(next.drop_last() =~= group.take(n));
            assert(next.last() == group[n]);
            lemma_canvas_fills(group.take(n), fills, more);
            assert(canvas@ == canvas_of(next, more));
        }
        i += 1;
    }
    assert(group.take(to - from) =~= group);
    let size: usize = canvas.len();
    let ghost noise = rolled(card, first_dice, group.len());
    let ghost first = noisy(canvas@, noise.1);
    assert(positions@ =~= answer_positions(group)) by {
        assert forall|x: int| 0 <= x < group.len() implies positions@[x] == answer_positions(
            group,
        )[x] by {
            assert(position(group, x) < canvas_length(group));
        }
    }
    let mut step: usize = 0;
    while step < steps - 1
        invariant
            steps > 0,
            step <= steps - 1,
            canvas@.len() == size,
            card == old(model).card(),
            at == old(model).resident(),
            first.mind is None,
            model.card() == card,
            model.resident() == at,
            ({
                let draft = draft_after(card, at, positions@, first, steps as nat, step as nat);
                &&& draft.canvas == canvas@
                &&& draft.dice == dice
                &&& draft.mind == if step > 0 {
                    Some(model.mind())
                } else {
                    None::<Mind>
                }
            }),
        decreases steps - step,
    {
        model.forward_canvas(&canvas, prompt_length, step > 0, true)?;
        model.refine(&mut canvas, &positions, step, steps, &mut dice)?;
        step += 1;
    }
    model.forward_canvas(&canvas, prompt_length, step > 0, false)?;
    let ghost mind = model.mind();
    let mut k: usize = 0;
    while k < slots.len()
        invariant
            k <= slots@.len(),
            slots@.len() == group.len(),
            readable(group, capacity as nat),
            card == old(model).card(),
            at == old(model).resident(),
            model.card() == card,
            model.resident() == at,
            model.mind() == mind,
            canvas_length(group) <= usize::MAX,
            forall|x: int|
                0 <= x < group.len() ==> #[trigger] position(group, x) < canvas_length(group),
            forall|x: int|
                k <= x < slots@.len() ==> (#[trigger] slots@[x])@ == blank(
                    group,
                    x,
                    prompt_length as nat,
                    noise.0[x],
                ),
            forall|x: int|
                0 <= x < k ==> (#[trigger] slots@[x])@ == scored(
                    blank(group, x, prompt_length as nat, noise.0[x]),
                    (card.read)(mind, position(group, x) as int, group[x].candidates),
                ),
            forall|x: int|
                0 <= x < k ==> (#[trigger] slots@[x])@.probabilities.len()
                    == group[x].candidates.len() && forall|j: int|
                    0 <= j < slots@[x].probabilities@.len() ==> #[trigger] slots@[x].probabilities@[j]
                        <= crate::double::ONE,
        decreases slots@.len() - k,
    {
        let found: Scores = model.candidate_scores(
            slots[k].canvas_position,
            &slots[k].candidate_tokens,
        )?;
        let updated: SlotRead = SlotRead {
            canvas_position: slots[k].canvas_position,
            absolute_position: slots[k].absolute_position,
            initial_token: slots[k].initial_token,
            candidate_tokens: copy_tokens(&slots[k].candidate_tokens),
            logits: found.logits,
            probabilities: found.probabilities,
        };
        let ghost was = slots@;
        slots.set(k, updated);
        proof {
            assert(was[k as int]@ == blank(group, k as int, prompt_length as nat, noise.0[k as int]));
            assert(position(group, k as int) < canvas_length(group));
            assert(slots@[k as int]@ == scored(was[k as int]@, found@));
        }
        k += 1;
    }
    proof {
        let models = slot_models(slots@);
        assert(models =~= noise_read(
            card,
            at,
            group,
            prompt_length as nat,
            seed,
            steps as nat,
        ));
        assert forall|x: int, j: int|
            0 <= x < models.len() && 0 <= j < models[x].probabilities.len() implies
            #[trigger] models[x].probabilities[j] <= crate::double::ONE by {
            assert(slots@[x]@.probabilities.len() == group[x].candidates.len());
            assert(slots@[x].probabilities@[j] <= crate::double::ONE);
        }
        assert forall|x: int| 0 <= x < models.len() implies {
            let slot = #[trigger] models[x];
            &&& slot == (SlotModel {
                logits: slot.logits,
                probabilities: slot.probabilities,
                ..blank(group, x, prompt_length as nat, slot.initial_token)
            })
            &&& slot.probabilities.len() == group[x].candidates.len()
        } by {
            assert(slots@[x]@ == models[x]);
        }
    }
    Ok((slots, size))
}

} // verus!
