//! Greedy causal decoding, one token or one verified block per causal forward.
use crate::engine::config::{parts_model, total_size, Part, PromptPart};
use crate::engine::generated::{
    before_stop, clamp, first_stop, holds, lemma_before_stop, Generated,
};
use crate::engine::model::{Card, DiffusionModel, Listener, Proposal, Resident, Sink};
use crate::error::{Error, Result};
use vstd::prelude::*;

verus! {

/// The prompt `parts` followed by `start` and `text`.
pub open spec fn context(parts: Seq<Part>, start: Seq<i32>, text: Seq<i32>) -> Resident {
    Resident { parts, suffix: start + text }
}

/// `text` is greedy: each token is the model's next token after those before it, and none is a
/// stop marker.
pub open spec fn greedy(
    card: Card,
    parts: Seq<Part>,
    start: Seq<i32>,
    text: Seq<i32>,
    stops: Seq<i32>,
) -> bool {
    forall|i: int|
        0 <= i < text.len() ==> #[trigger] text[i] == (card.next)(
            context(parts, start, text.take(i)),
        ) && !stops.contains(text[i])
}

/// Greedy decoding that ended: at a stop marker, or with the budget used up.
pub open spec fn greedy_end(
    card: Card,
    parts: Seq<Part>,
    start: Seq<i32>,
    text: Seq<i32>,
    stops: Seq<i32>,
    budget: nat,
    stopped: bool,
) -> bool {
    &&& greedy(card, parts, start, text, stops)
    &&& if stopped {
        text.len() < budget && stops.contains((card.next)(context(parts, start, text)))
    } else {
        text.len() == budget
    }
}

/// The length of the longest common prefix.
pub open spec fn agreed(drafts: Seq<i32>, predicted: Seq<i32>) -> nat
    decreases drafts.len(),
{
    if drafts.len() == 0 || predicted.len() == 0 || drafts[0] != predicted[0] {
        0
    } else {
        1 + agreed(drafts.drop_first(), predicted.drop_first())
    }
}

/// Drafts are kept while they match the predictions, followed by the prediction after the last
/// match.
pub open spec fn decided(drafts: Seq<i32>, predicted: Seq<i32>) -> Seq<i32> {
    drafts.take(agreed(drafts, predicted) as int).push(predicted[agreed(drafts, predicted) as int])
}

proof fn lemma_agreed(drafts: Seq<i32>, predicted: Seq<i32>)
    requires
        drafts.len() <= predicted.len(),
    ensures
        agreed(drafts, predicted) <= drafts.len(),
        forall|i: int|
            0 <= i < agreed(drafts, predicted) ==> #[trigger] drafts[i] == predicted[i],
    decreases drafts.len(),
{
    if drafts.len() > 0 && drafts[0] == predicted[0] {
        let (d, p) = (drafts.drop_first(), predicted.drop_first());
        lemma_agreed(d, p);
        assert forall|i: int| 0 <= i < agreed(drafts, predicted) implies #[trigger] drafts[i]
            == predicted[i] by {
            if i > 0 {
                assert(d[i - 1] == drafts[i]);
                assert(p[i - 1] == predicted[i]);
            }
        }
    }
}

/// What is decided agrees with the predictions wherever it stands.
pub proof fn lemma_decided(drafts: Seq<i32>, predicted: Seq<i32>)
    requires
        predicted.len() == drafts.len() + 1,
    ensures
        1 <= decided(drafts, predicted).len() <= predicted.len(),
        decided(drafts, predicted) == predicted.take(decided(drafts, predicted).len() as int),
        forall|i: int|
            0 <= i < decided(drafts, predicted).len() ==> #[trigger] decided(
                drafts,
                predicted,
            ).take(i) == drafts.take(i),
{
    lemma_agreed(drafts, predicted);
    let d = decided(drafts, predicted);
    assert(d =~= predicted.take(d.len() as int));
    assert forall|i: int| 0 <= i < d.len() implies #[trigger] d.take(i) == drafts.take(i) by {
        assert(d.take(i) =~= drafts.take(i));
    }
}

/// Verifies drafts against causal predictions.
pub fn verify_drafts(drafts: &Vec<i32>, predicted: &Vec<i32>) -> (r: Vec<i32>)
    requires
        predicted@.len() == drafts@.len() + 1,
    ensures
        r@ == decided(drafts@, predicted@),
{
    let ghost (d, p) = (drafts@, predicted@);
    let mut out: Vec<i32> = Vec::new();
    let mut i: usize = 0;
    assert(d.skip(0) =~= d);
    assert(p.skip(0) =~= p);
    assert(d.take(0) =~= Seq::<i32>::empty());
    while i < drafts.len() && drafts[i] == predicted[i]
        invariant
            d == drafts@,
            p == predicted@,
            p.len() == d.len() + 1,
            i <= d.len(),
            agreed(d, p) == i + agreed(d.skip(i as int), p.skip(i as int)),
            out@ == d.take(i as int),
        decreases d.len() - i,
    {
        proof {
            assert(d.skip(i as int).drop_first() =~= d.skip(i + 1));
            assert(p.skip(i as int).drop_first() =~= p.skip(i + 1));
        }
        out.push(drafts[i]);
        i += 1;
        assert(d.take(i as int) =~= d.take(i - 1).push(d[i - 1]));
    }
    out.push(predicted[i]);
    out
}

/// Positions processed and forwards run by causal decoding after its first token, given the
/// tokens that each verification decided. `base` is the length of the prompt with its start.
pub open spec fn causal_cost(base: nat, capacity: nat, budget: nat, accepted: Seq<usize>) -> (
    nat,
    nat,
)
    decreases accepted.len(),
{
    if accepted.len() == 0 {
        (base, 1)
    } else {
        let before = accepted.drop_last();
        let (input, forwards) = causal_cost(base, capacity, budget, before);
        let length = 1 + total(before);
        if capacity > 1 && length + 1 < budget {
            (input + base + (length - 1) as nat, forwards + 2)
        } else {
            (input + base + length, forwards + 1)
        }
    }
}

/// The sum of the counts.
pub open spec fn total(counts: Seq<usize>) -> nat
    decreases counts.len(),
{
    if counts.len() == 0 {
        0
    } else {
        total(counts.drop_last()) + counts.last() as nat
    }
}

/// Appends all of `more`.
pub fn extend(list: &mut Vec<i32>, more: &Vec<i32>, from: usize, to: usize)
    requires
        from <= to <= more@.len(),
    ensures
        final(list)@ == old(list)@ + more@.subrange(from as int, to as int),
{
    let ghost before = list@;
    let mut i: usize = from;
    assert(before + more@.subrange(from as int, from as int) =~= before);
    while i < to
        invariant
            from <= i <= to <= more@.len(),
            list@ == before + more@.subrange(from as int, i as int),
        decreases to - i,
    {
        list.push(more[i]);
        i += 1;
        assert(before + more@.subrange(from as int, i as int) =~= (before + more@.subrange(
            from as int,
            i - 1,
        )).push(more@[i - 1]));
    }
}

/// A greedy text followed by what a verification decided is greedy.
proof fn lemma_greedy_extends(
    card: Card,
    parts: Seq<Part>,
    start: Seq<i32>,
    text: Seq<i32>,
    more: Seq<i32>,
    stops: Seq<i32>,
)
    requires
        greedy(card, parts, start, text, stops),
        forall|j: int|
            0 <= j < more.len() ==> #[trigger] more[j] == (card.next)(
                context(parts, start, text + more.take(j)),
            ) && !stops.contains(more[j]),
    ensures
        greedy(card, parts, start, text + more, stops),
{
    let all = text + more;
    assert forall|i: int| 0 <= i < all.len() implies #[trigger] all[i] == (card.next)(
        context(parts, start, all.take(i)),
    ) && !stops.contains(all[i]) by {
        if i < text.len() {
            assert(all[i] == text[i]);
            assert(all.take(i) =~= text.take(i));
        } else {
            let j = i - text.len();
            assert(all[i] == more[j]);
            assert(all.take(i) =~= text + more.take(j));
        }
    }
}

/// The drafts of the block after `text`: the model's proposals where the masks stand.
pub open spec fn drafts_of(
    card: Card,
    parts: Seq<Part>,
    start: Seq<i32>,
    text: Seq<i32>,
    count: nat,
    mask: i32,
) -> Seq<i32> {
    if count <= 1 {
        Seq::empty()
    } else {
        let canvas = seq![text.last()] + Seq::new((count - 1) as nat, |i: int| mask);
        let proposals = (card.propose)(context(parts, start, text.drop_last()), canvas);
        Seq::new((count - 1) as nat, |i: int| proposals[i + 1].0)
    }
}

/// The model's next token after each prefix of `drafts`.
pub open spec fn predictions_of(
    card: Card,
    parts: Seq<Part>,
    start: Seq<i32>,
    text: Seq<i32>,
    drafts: Seq<i32>,
) -> Seq<i32> {
    Seq::new(
        drafts.len() + 1,
        |k: int| (card.next)(context(parts, start, text + drafts.take(k))),
    )
}

/// The tokens that the verification of a block of at most `capacity` tokens after `text`
/// decides.
pub open spec fn verified(
    card: Card,
    parts: Seq<Part>,
    start: Seq<i32>,
    text: Seq<i32>,
    capacity: nat,
    budget: nat,
    mask: i32,
) -> nat {
    let left = (budget - text.len()) as nat;
    let count = if left <= capacity { left } else { capacity };
    let drafts = drafts_of(card, parts, start, text, count, mask);
    decided(drafts, predictions_of(card, parts, start, text, drafts)).len()
}

/// Each verification follows the tokens decided before it.
#[verifier::opaque]
pub open spec fn verifications(
    card: Card,
    parts: Seq<Part>,
    start: Seq<i32>,
    text: Seq<i32>,
    capacity: nat,
    budget: nat,
    mask: i32,
    accepted: Seq<usize>,
) -> bool {
    forall|i: int|
        0 <= i < accepted.len() ==> #[trigger] accepted[i] == verified(
            card,
            parts,
            start,
            text.take((1 + total(accepted.take(i))) as int),
            capacity,
            budget,
            mask,
        ) && 1 + total(accepted.take(i)) <= text.len()
}

/// The verifications decided every token but the first, and a stop marker that was found later.
pub open spec fn accounted(g: Generated) -> bool {
    if g.tokens@.len() == 0 {
        g.accepted@.len() == 0
    } else if g.stopped {
        g.tokens@.len() < 1 + total(g.accepted@)
    } else {
        g.tokens@.len() == 1 + total(g.accepted@)
    }
}

/// The counts of causal decoding: the positions it processed, the forwards it ran, and the tokens
/// of each verification.
pub open spec fn counted(
    card: Card,
    parts: Seq<Part>,
    start: Seq<i32>,
    capacity: nat,
    budget: nat,
    mask: i32,
    g: Generated,
) -> bool {
    let cost = causal_cost(total_size(parts) + start.len(), capacity, budget, g.accepted@);
    &&& g.input_tokens == if budget == 0 {
        0
    } else {
        clamp(cost.0)
    }
    &&& g.forwards == if budget == 0 {
        0
    } else {
        clamp(cost.1)
    }
    &&& verifications(card, parts, start, g.tokens@, capacity, budget, mask, g.accepted@)
    &&& accounted(g)
}

/// The tokens decide how they were verified.
pub proof fn lemma_counts_agree(
    card: Card,
    parts: Seq<Part>,
    start: Seq<i32>,
    capacity: nat,
    budget: nat,
    mask: i32,
    a: Generated,
    b: Generated,
)
    requires
        counted(card, parts, start, capacity, budget, mask, a),
        counted(card, parts, start, capacity, budget, mask, b),
        a.tokens@ == b.tokens@,
        a.stopped == b.stopped,
    ensures
        a.accepted@ == b.accepted@,
        a.input_tokens == b.input_tokens,
        a.forwards == b.forwards,
{
    let (x, y) = (a.accepted@, b.accepted@);
    let n = if x.len() <= y.len() { x.len() as int } else { y.len() as int };
    lemma_verifications_agree(card, parts, start, a.tokens@, capacity, budget, mask, x, y, n);
    assert(x.take(x.len() as int) =~= x && y.take(y.len() as int) =~= y);
    if x.len() < y.len() {
        lemma_verified_later(card, parts, start, a.tokens@, capacity, budget, mask, y, n);
    } else if y.len() < x.len() {
        lemma_verified_later(card, parts, start, a.tokens@, capacity, budget, mask, x, n);
    }
}

proof fn lemma_verifications_agree(
    card: Card,
    parts: Seq<Part>,
    start: Seq<i32>,
    text: Seq<i32>,
    capacity: nat,
    budget: nat,
    mask: i32,
    a: Seq<usize>,
    b: Seq<usize>,
    n: int,
)
    requires
        verifications(card, parts, start, text, capacity, budget, mask, a),
        verifications(card, parts, start, text, capacity, budget, mask, b),
        0 <= n <= a.len(),
        n <= b.len(),
    ensures
        a.take(n) == b.take(n),
    decreases n,
{
    reveal(verifications);
    if n > 0 {
        lemma_verifications_agree(card, parts, start, text, capacity, budget, mask, a, b, n - 1);
        assert(a[n - 1] == b[n - 1]);
        assert(a.take(n) =~= a.take(n - 1).push(a[n - 1]));
        assert(b.take(n) =~= b.take(n - 1).push(b[n - 1]));
    } else {
        assert(a.take(n) =~= b.take(n));
    }
}

/// A verification follows tokens that are there, and decides at least one more.
proof fn lemma_verified_later(
    card: Card,
    parts: Seq<Part>,
    start: Seq<i32>,
    text: Seq<i32>,
    capacity: nat,
    budget: nat,
    mask: i32,
    accepted: Seq<usize>,
    n: int,
)
    requires
        verifications(card, parts, start, text, capacity, budget, mask, accepted),
        0 <= n < accepted.len(),
    ensures
        1 + total(accepted.take(n)) <= text.len(),
        total(accepted.take(n)) < total(accepted),
    decreases accepted.len() - n,
{
    reveal(verifications);
    assert(accepted[n] >= 1);
    assert(accepted.take(n + 1).drop_last() =~= accepted.take(n));
    if n + 1 < accepted.len() {
        lemma_verified_later(
            card,
            parts,
            start,
            text,
            capacity,
            budget,
            mask,
            accepted,
            n + 1,
        );
    } else {
        assert(accepted.take(n + 1) =~= accepted);
    }
}

proof fn lemma_verifications_extend(
    card: Card,
    parts: Seq<Part>,
    start: Seq<i32>,
    text: Seq<i32>,
    more: Seq<i32>,
    capacity: nat,
    budget: nat,
    mask: i32,
    accepted: Seq<usize>,
    count: usize,
)
    requires
        verifications(card, parts, start, text, capacity, budget, mask, accepted),
        text.len() == 1 + total(accepted),
        count == verified(card, parts, start, text, capacity, budget, mask),
    ensures
        verifications(
            card,
            parts,
            start,
            text + more,
            capacity,
            budget,
            mask,
            accepted.push(count),
        ),
{
    reveal(verifications);
    let after = accepted.push(count);
    assert forall|i: int| 0 <= i < after.len() implies #[trigger] after[i] == verified(
        card,
        parts,
        start,
        (text + more).take((1 + total(after.take(i))) as int),
        capacity,
        budget,
        mask,
    ) && 1 + total(after.take(i)) <= (text + more).len() by {
        assert(after.take(i) =~= accepted.take(i));
        if i < accepted.len() {
            assert(after[i] == accepted[i]);
            assert((text + more).take((1 + total(accepted.take(i))) as int) =~= text.take(
                (1 + total(accepted.take(i))) as int,
            ));
        } else {
            assert(accepted.take(i) =~= accepted);
            assert((text + more).take(text.len() as int) =~= text);
        }
    }
}

/// Drafts a block after the pending last token of `text`.
fn draft<M: DiffusionModel>(
    model: &mut M,
    prompt: &Vec<PromptPart>,
    resident: &Vec<i32>,
    pending: i32,
    count: usize,
    mask: i32,
) -> (r: Result<(usize, Vec<i32>)>)
    requires
        count > 1,
    ensures
        final(model).card() == old(model).card(),
        r matches Err(e) ==> (old(model).card().fails)(e@),
        r matches Ok((n, drafts)) ==> {
            let at = Resident { parts: parts_model(prompt@), suffix: resident@ };
            let canvas = seq![pending] + Seq::new((count - 1) as nat, |i: int| mask);
            let proposals = (old(model).card().propose)(at, canvas);
            &&& n == at.size()
            &&& drafts@.len() == count - 1
            &&& proposals.len() == count
            &&& forall|i: int| 0 <= i < count - 1 ==> #[trigger] drafts@[i] == proposals[i + 1].0
        },
{
    let length: usize = model.prefill(prompt, resident)?;
    let mut canvas: Vec<i32> = Vec::new();
    canvas.push(pending);
    while canvas.len() < count
        invariant
            1 <= canvas@.len() <= count,
            canvas@ == seq![pending] + Seq::new((canvas@.len() - 1) as nat, |i: int| mask),
        decreases count - canvas@.len(),
    {
        canvas.push(mask);
        assert(canvas@ =~= seq![pending] + Seq::new((canvas@.len() - 1) as nat, |i: int| mask));
    }
    model.forward_canvas(&canvas, length, false, true)?;
    let proposals: Vec<Proposal> = model.greedy_proposals()?;
    if proposals.len() != count {
        return Err(Error::InvalidLogits);
    }
    let mut drafts: Vec<i32> = Vec::new();
    let mut i: usize = 1;
    while i < count
        invariant
            1 <= i <= count,
            proposals@.len() == count,
            drafts@.len() == i - 1,
            forall|k: int| 0 <= k < i - 1 ==> #[trigger] drafts@[k] == proposals@[k + 1].0,
        decreases count - i,
    {
        drafts.push(proposals[i].0);
        i += 1;
    }
    Ok((length, drafts))
}

/// What a verification decides continues a greedy text, up to the first stop marker.
proof fn lemma_round(
    card: Card,
    parts: Seq<Part>,
    start: Seq<i32>,
    text: Seq<i32>,
    count: nat,
    mask: i32,
    stops: Seq<i32>,
    all: Seq<i32>,
    kept: int,
)
    requires
        greedy(card, parts, start, text, stops),
        ({
            let drafts = drafts_of(card, parts, start, text, count, mask);
            all == decided(drafts, predictions_of(card, parts, start, text, drafts))
        }),
        kept == before_stop(all, stops),
    ensures
        0 <= kept <= all.len(),
        all.len() >= 1,
        greedy(card, parts, start, text + all.take(kept), stops),
        kept < all.len() ==> stops.contains(
            (card.next)(context(parts, start, text + all.take(kept))),
        ),
{
    let drafts = drafts_of(card, parts, start, text, count, mask);
    let predicted = predictions_of(card, parts, start, text, drafts);
    lemma_decided(drafts, predicted);
    lemma_before_stop(all, stops);
    assert forall|j: int| 0 <= j < all.len() implies #[trigger] all[j] == (card.next)(
        context(parts, start, text + all.take(j)),
    ) by {
        assert(all[j] == predicted[j]);
        assert(all.take(j) == drafts.take(j));
    }
    let run = all.take(kept);
    assert forall|j: int| 0 <= j < run.len() implies #[trigger] run[j] == (card.next)(
        context(parts, start, text + run.take(j)),
    ) && !stops.contains(run[j]) by {
        assert(run[j] == all[j]);
        assert(run.take(j) =~= all.take(j));
    }
    lemma_greedy_extends(card, parts, start, text, run, stops);
}

/// Drafts and verifies `count` tokens after `text`: what is decided, and the positions of the
/// prefill that the round is charged for.
fn causal_round<M: DiffusionModel>(
    model: &mut M,
    prompt: &Vec<PromptPart>,
    start: &Vec<i32>,
    text: &Vec<i32>,
    count: usize,
    mask: i32,
) -> (r: Result<(Vec<i32>, usize)>)
    requires
        text@.len() > 0,
        count >= 1,
    ensures
        final(model).card() == old(model).card(),
        r matches Err(e) ==> (old(model).card().fails)(e@),
        r matches Ok((all, charged)) ==> {
            let card = old(model).card();
            let parts = parts_model(prompt@);
            let drafts = drafts_of(card, parts, start@, text@, count as nat, mask);
            &&& all@ == decided(drafts, predictions_of(card, parts, start@, text@, drafts))
            &&& all@.len() <= count
            &&& charged == total_size(parts) + start@.len() + text@.len() - (if count > 1 {
                1int
            } else {
                0
            })
        },
{
    let ghost card = model.card();
    let ghost parts = parts_model(prompt@);
    let size: usize = text.len();
    let pending: i32 = text[size - 1];
    let mut resident: Vec<i32> = Vec::new();
    extend(&mut resident, start, 0, start.len());
    extend(&mut resident, text, 0, size - 1);
    proof {
        assert(resident@ =~= start@ + text@.drop_last());
    }
    let mut drafts: Vec<i32> = Vec::new();
    let mut charged: usize = 0;
    if count > 1 {
        let (length, found): (usize, Vec<i32>) = draft(
            model,
            prompt,
            &resident,
            pending,
            count,
            mask,
        )?;
        charged = length;
        drafts = found;
    }
    proof {
        assert(drafts@ =~= drafts_of(card, parts, start@, text@, count as nat, mask));
    }
    resident.push(pending);
    extend(&mut resident, &drafts, 0, drafts.len());
    proof {
        assert(resident@ =~= start@ + text@ + drafts@);
    }
    let rows: usize = drafts.len() + 1;
    let (length, predicted): (usize, Vec<i32>) = model.prefill_predict(prompt, &resident, rows)?;
    if count == 1 {
        charged = length;
    }
    if predicted.len() != rows {
        return Err(Error::InvalidLogits);
    }
    proof {
        assert forall|k: int| 0 <= k < rows implies #[trigger] predicted@[k] == (card.next)(
            context(parts, start@, text@ + drafts@.take(k)),
        ) by {
            assert(resident@.take(resident@.len() + 1 - rows + k) =~= start@ + (text@
                + drafts@.take(k)));
        }
        assert(predicted@ =~= predictions_of(card, parts, start@, text@, drafts@));
        lemma_decided(drafts@, predicted@);
    }
    Ok((verify_drafts(&drafts, &predicted), charged))
}

/// The most tokens one causal forward decides.
pub open spec fn block_capacity(block: nat, max_canvas: nat, batch_size: nat) -> nat {
    let b = if block == 0 { 1 } else { block };
    let c = if b <= max_canvas { b } else { max_canvas };
    if c <= batch_size { c } else { batch_size }
}

/// Greedy causal decoding, verifying up to `block` tokens per causal forward.
///
/// The last decided token is pending: predicted, but not yet in the prompt cache. With
/// `block > 1` this is linear self-speculation: one bidirectional forward fills the masks
/// after the pending token, one causal forward over the block predicts each next token,
/// and the drafts are kept while they match those predictions, followed by the prediction
/// after the last match. With `block == 1` it is plain autoregressive decoding; both give the
/// same tokens.
pub fn generate_causal<M: DiffusionModel, L: Listener, S: Sink<M, L>>(
    model: &mut M,
    prompt: &Vec<PromptPart>,
    start: &Vec<i32>,
    budget: usize,
    stops: &Vec<i32>,
    block: usize,
    max_canvas: usize,
    batch_size: usize,
    mask: i32,
    sink: &mut S,
    ear: &mut L,
) -> (r: Result<Generated>)
    requires
        max_canvas > 0,
        batch_size > 0,
        old(sink).sound(old(model).card(), old(ear).heard(), old(ear).answers()),
        !old(sink).ended(),
    ensures
        final(model).card() == old(model).card(),
        r matches Err(e) ==> (old(model).card().fails)(e@),
        final(sink).sound(old(model).card(), final(ear).heard(), final(ear).answers()),
        final(sink).terms() == old(sink).terms(),
        r matches Ok(g) ==> {
            let parts = parts_model(prompt@);
            &&& greedy(old(model).card(), parts, start@, g.tokens@, stops@)
            &&& g.tokens@.len() <= budget
            &&& g.stopped ==> g.tokens@.len() < budget
            &&& !g.cancelled ==> greedy_end(
                old(model).card(),
                parts,
                start@,
                g.tokens@,
                stops@,
                budget as nat,
                g.stopped,
            )
            &&& final(sink).received() == old(sink).received() + g.tokens@
            &&& old(sink).patient() ==> !g.cancelled
            &&& final(sink).ended() == g.cancelled
            &&& counted(
                old(model).card(),
                parts,
                start@,
                block_capacity(block as nat, max_canvas as nat, batch_size as nat),
                budget as nat,
                mask,
                g,
            )
        },
{
    let ghost card = model.card();
    let ghost parts = parts_model(prompt@);
    let ghost base: nat = total_size(parts) + start@.len();
    let mut generated: Generated = Generated::new();
    if budget == 0 {
        reveal(verifications);
        assert(sink.received() + Seq::<i32>::empty() =~= sink.received());
        return Ok(generated);
    }
    let (length, predicted): (usize, Vec<i32>) = model.prefill_predict(prompt, start, 1)?;
    generated.input_tokens = length;
    generated.forwards = 1;
    if predicted.len() == 0 {
        return Err(Error::InvalidLogits);
    }
    let first: i32 = predicted[0];
    proof {
        assert(start@.take(start@.len() + 1 - 1 + 0) =~= start@);
        assert(start@ + Seq::<i32>::empty() =~= start@);
        assert(first == (card.next)(context(parts, start@, Seq::empty())));
    }
    let stopped: bool = holds(stops, first);
    let mut run: Vec<i32> = Vec::new();
    if !stopped {
        run.push(first);
    }
    let mut going: bool = generated.push(&run, stopped, &*model, sink, ear);
    let mut capacity: usize = if block == 0 {
        1
    } else {
        block
    };
    if capacity > max_canvas {
        capacity = max_canvas;
    }
    if capacity > batch_size {
        capacity = batch_size;
    }
    let ghost limit = block_capacity(block as nat, max_canvas as nat, batch_size as nat);
    proof {
        assert(Seq::<i32>::empty() + run@ =~= run@);
        assert(generated.tokens@ == run@);
        if !stopped {
            assert(run@.take(0) =~= Seq::<i32>::empty());
            assert(greedy(card, parts, start@, run@, stops@));
        }
        assert(causal_cost(base, limit, budget as nat, generated.accepted@) == (base, 1nat));
        reveal(verifications);
    }
    // The decided tokens are `generated.tokens`; the last one is pending.
    while going && generated.tokens.len() < budget
        invariant
            budget > 0,
            model.card() == card,
            card == old(model).card(),
            parts == parts_model(prompt@),
            base == total_size(parts) + start@.len(),
            capacity == limit,
            capacity >= 1,
            limit == block_capacity(block as nat, max_canvas as nat, batch_size as nat),
            sink.received() == old(sink).received() + generated.tokens@,
            sink.patient() == old(sink).patient(),
            sink.patient() ==> !generated.cancelled,
            sink.sound(old(model).card(), ear.heard(), ear.answers()),
            sink.terms() == old(sink).terms(),
            sink.ended() == generated.cancelled,
            going == !(generated.stopped || generated.cancelled),
            greedy(card, parts, start@, generated.tokens@, stops@),
            generated.tokens@.len() <= budget,
            generated.stopped ==> generated.tokens@.len() < budget && stops@.contains(
                (card.next)(context(parts, start@, generated.tokens@)),
            ),
            !generated.stopped ==> generated.tokens@.len() == 1 + total(generated.accepted@),
            accounted(generated),
            verifications(
                card,
                parts,
                start@,
                generated.tokens@,
                limit,
                budget as nat,
                mask,
                generated.accepted@,
            ),
            generated.input_tokens == clamp(
                causal_cost(base, limit, budget as nat, generated.accepted@).0,
            ),
            generated.forwards == clamp(
                causal_cost(base, limit, budget as nat, generated.accepted@).1,
            ),
        decreases budget - generated.tokens@.len(), if going { 1int } else { 0int },
    {
        let ghost text = generated.tokens@;
        let ghost before = generated.accepted@;
        let mut count: usize = budget - generated.tokens.len();
        if count > capacity {
            count = capacity;
        }
        let (all, charged): (Vec<i32>, usize) = causal_round(
            model,
            prompt,
            start,
            &generated.tokens,
            count,
            mask,
        )?;
        generated.input_tokens = generated.input_tokens.saturating_add(charged);
        generated.forwards = generated.forwards.saturating_add(if count > 1 { 2 } else { 1 });
        let limit_now: usize = all.len();
        let kept: usize = first_stop(&all, limit_now, stops);
        let ended: bool = kept < limit_now;
        let mut run: Vec<i32> = Vec::new();
        extend(&mut run, &all, 0, kept);
        proof {
            assert(all@.take(limit_now as int) =~= all@);
            lemma_round(card, parts, start@, text, count as nat, mask, stops@, all@, kept as int);
            assert(run@ =~= all@.take(kept as int));
            lemma_verifications_extend(
                card,
                parts,
                start@,
                text,
                run@,
                limit,
                budget as nat,
                mask,
                before,
                limit_now,
            );
        }
        generated.accepted.push(limit_now);
        proof {
            assert(generated.accepted@.drop_last() =~= before);
        }
        let ghost heard = sink.received();
        going = generated.push(&run, ended, &*model, sink, ear);
        proof {
            assert(old(sink).received() + text + run@ =~= old(sink).received() + (text + run@));
        }
    }
    Ok(generated)
}

/// Self-speculation and autoregressive decoding give the same tokens: both are greedy decoding,
/// which ends in one way only.
pub proof fn law_speculation_equals_autoregression(
    card: Card,
    parts: Seq<Part>,
    start: Seq<i32>,
    stops: Seq<i32>,
    budget: nat,
    a: Seq<i32>,
    a_stopped: bool,
    b: Seq<i32>,
    b_stopped: bool,
)
    requires
        greedy_end(card, parts, start, a, stops, budget, a_stopped),
        greedy_end(card, parts, start, b, stops, budget, b_stopped),
    ensures
        a == b,
        a_stopped == b_stopped,
{
    let n = if a.len() <= b.len() { a.len() as int } else { b.len() as int };
    lemma_greedy_agree(card, parts, start, stops, a, b, n);
    if a.len() < b.len() {
        assert(b.take(n) =~= a.take(n));
        assert(a.take(n) =~= a);
        assert(b[n] == (card.next)(context(parts, start, b.take(n))));
    } else if b.len() < a.len() {
        assert(b.take(n) =~= b);
        assert(a[n] == (card.next)(context(parts, start, a.take(n))));
    } else {
        assert(a.take(n) =~= a);
        assert(b.take(n) =~= b);
    }
}

proof fn lemma_greedy_agree(
    card: Card,
    parts: Seq<Part>,
    start: Seq<i32>,
    stops: Seq<i32>,
    a: Seq<i32>,
    b: Seq<i32>,
    n: int,
)
    requires
        greedy(card, parts, start, a, stops),
        greedy(card, parts, start, b, stops),
        0 <= n <= a.len(),
        n <= b.len(),
    ensures
        a.take(n) == b.take(n),
    decreases n,
{
    if n > 0 {
        lemma_greedy_agree(card, parts, start, stops, a, b, n - 1);
        assert(a[n - 1] == (card.next)(context(parts, start, a.take(n - 1))));
        assert(b[n - 1] == (card.next)(context(parts, start, b.take(n - 1))));
        assert(a.take(n) =~= a.take(n - 1).push(a[n - 1]));
        assert(b.take(n) =~= b.take(n - 1).push(b[n - 1]));
    } else {
        assert(a.take(n) =~= b.take(n));
    }
}

} // verus!
