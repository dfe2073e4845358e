//! Uniform-noise diffusion with self-conditioning: blocks refined by an entropy-bound denoiser.
use crate::engine::causal::extend;
use crate::engine::config::{parts_model, Part, PromptPart};
use crate::engine::generated::{before_stop, clamp, first_stop, lemma_before_stop, Generated};
use crate::engine::model::{Card, DiffusionModel, Listener, Mind, Refined, Resident, Sink};
use crate::engine::noise::{seed_dice, seeded, Dice};
use crate::error::Result;
use vstd::prelude::*;

verus! {

/// The most refinements of a block.
pub const MAX_REFINEMENTS: usize = 48;

/// Whether two token lists are equal.
fn same_tokens(a: &Vec<i32>, b: &Vec<i32>) -> (r: bool)
    ensures
        r == (a@ == b@),
{
    if a.len() != b.len() {
        return false;
    }
    let mut i: usize = 0;
    while i < a.len()
        invariant
            a@.len() == b@.len(),
            i <= a@.len(),
            forall|k: int| 0 <= k < i ==> a@[k] == b@[k],
        decreases a@.len() - i,
    {
        if a[i] != b[i] {
            return false;
        }
        i += 1;
    }
    assert(a@ =~= b@);
    true
}

/// `n` random tokens, and the random numbers after them.
pub open spec fn rolled(card: Card, dice: Dice, n: nat) -> (Seq<i32>, Dice)
    decreases n,
{
    if n == 0 {
        (Seq::empty(), dice)
    } else {
        let before = rolled(card, dice, (n - 1) as nat);
        let next = (card.roll)(before.1);
        (before.0.push(next.0), next.1)
    }
}

/// The first positions of a canvas.
pub open spec fn all_positions(n: nat) -> Seq<usize> {
    Seq::new(n, |i: int| i as usize)
}

/// A canvas between two refinements.
#[verifier::ext_equal]
pub struct Draft {
    pub canvas: Seq<i32>,
    /// The best tokens of the last refinement.
    pub best: Seq<i32>,
    /// The last two refinements predicted the same tokens, the second of them certainly.
    pub stable: bool,
    /// What the next forward is conditioned on.
    pub mind: Option<Mind>,
    pub dice: Dice,
}

/// A canvas before its first refinement.
pub open spec fn noisy(canvas: Seq<i32>, dice: Dice) -> Draft {
    Draft { canvas, best: Seq::empty(), stable: false, mind: None, dice }
}

/// The draft after `n` of `steps` refinements of the tokens at `positions`: each after a forward
/// that is conditioned on the refinement before.
pub open spec fn draft_after(
    card: Card,
    at: Resident,
    positions: Seq<usize>,
    first: Draft,
    steps: nat,
    n: nat,
) -> Draft
    decreases n,
{
    if n == 0 {
        first
    } else {
        let draft = draft_after(card, at, positions, first, steps, (n - 1) as nat);
        let mind = (card.believe)(at, draft.canvas, draft.mind);
        let made = (card.refine)(
            mind,
            draft.dice,
            draft.canvas,
            positions,
            (n - 1) as nat,
            steps,
        );
        Draft {
            canvas: made.canvas,
            best: made.best,
            stable: made.best == draft.best && made.certain,
            mind: Some(made.mind),
            dice: made.dice,
        }
    }
}

/// The number of refinements of a block from the `n`-th on: until the draft is stable, at most 48.
pub open spec fn refinements(card: Card, at: Resident, first: Draft, n: nat) -> nat
    decreases 48 - n,
{
    if n >= 48 || draft_after(
        card,
        at,
        all_positions(first.canvas.len()),
        first,
        48,
        n,
    ).stable {
        n
    } else {
        refinements(card, at, first, n + 1)
    }
}

/// The block that refinement of a canvas ends with.
pub open spec fn denoised(card: Card, at: Resident, first: Draft) -> Draft {
    draft_after(
        card,
        at,
        all_positions(first.canvas.len()),
        first,
        48,
        refinements(card, at, first, 0),
    )
}

/// Denoises one block of `count` tokens after the resident prompt: the best tokens of the last
/// refinement, and the number of refinements. Refinement ends once two in a row predict the
/// same tokens, the second of them certainly.
fn denoise<M: DiffusionModel>(
    model: &mut M,
    prompt_length: usize,
    count: usize,
    dice: &mut Dice,
) -> (r: Result<(Vec<i32>, usize)>)
    requires
        count > 0,
    ensures
        final(model).card() == old(model).card(),
        r matches Err(e) ==> (old(model).card().fails)(e@),
        final(model).resident() == old(model).resident(),
        r matches Ok((best, steps)) ==> {
            let noise = rolled(old(model).card(), *old(dice), count as nat);
            let first = noisy(noise.0, noise.1);
            let end = denoised(old(model).card(), old(model).resident(), first);
            &&& best@ == end.best
            &&& best@.len() == count
            &&& steps == refinements(old(model).card(), old(model).resident(), first, 0)
            &&& 1 <= steps <= MAX_REFINEMENTS
            &&& *final(dice) == end.dice
        },
{
    let ghost card = model.card();
    let ghost at = model.resident();
    let ghost before = *dice;
    let mut canvas: Vec<i32> = Vec::new();
    let mut positions: Vec<usize> = Vec::new();
    while canvas.len() < count
        invariant
            card == old(model).card(),
            at == old(model).resident(),
            canvas@.len() <= count,
            positions@ == all_positions(canvas@.len()),
            model.card() == card,
            model.resident() == at,
            (canvas@, *dice) == rolled(card, before, canvas@.len()),
            before == *old(dice),
        decreases count - canvas@.len(),
    {
        let ghost n = canvas@.len();
        positions.push(canvas.len());
        canvas.push(model.noise(dice));
        assert(positions@ =~= all_positions(n + 1));
    }
    let ghost first = noisy(canvas@, *dice);
    let mut best: Vec<i32> = Vec::new();
    let mut step: usize = 0;
    proof {
        assert(best@ =~= Seq::<i32>::empty());
    }
    while step < MAX_REFINEMENTS
        invariant_except_break
            !draft_after(card, at, positions@, first, 48, step as nat).stable,
        invariant
            card == old(model).card(),
            at == old(model).resident(),
            count > 0,
            step <= MAX_REFINEMENTS,
            canvas@.len() == count,
            first.canvas.len() == count,
            first.best.len() == 0,
            first.mind is None,
            positions@ == all_positions(count as nat),
            model.card() == card,
            model.resident() == at,
            ({
                let draft = draft_after(card, at, positions@, first, 48, step as nat);
                &&& draft.canvas == canvas@
                &&& draft.best == best@
                &&& draft.dice == *dice
                &&& draft.mind == if step > 0 {
                    Some(model.mind())
                } else {
                    None::<Mind>
                }
                &&& step > 0 ==> best@.len() == count
            }),
            refinements(card, at, first, 0) == refinements(card, at, first, step as nat),
        ensures
            1 <= step <= MAX_REFINEMENTS,
            best@.len() == count,
            model.card() == card,
            model.resident() == at,
            ({
                let draft = draft_after(card, at, positions@, first, 48, step as nat);
                &&& draft.best == best@
                &&& draft.dice == *dice
            }),
            refinements(card, at, first, 0) == step,
        decreases MAX_REFINEMENTS - step,
    {
        model.forward_canvas(&canvas, prompt_length, step > 0, true)?;
        let refined: Refined = model.refine(
            &mut canvas,
            &positions,
            step,
            MAX_REFINEMENTS,
            dice,
        )?;
        let stable: bool = same_tokens(&refined.best, &best) && refined.certain;
        best = refined.best;
        step += 1;
        if stable {
            break;
        }
    }
    Ok((best, step))
}

/// The smaller number.
pub open spec fn least(a: nat, b: nat) -> nat {
    if a <= b {
        a
    } else {
        b
    }
}

/// The tokens of a full canvas.
pub open spec fn canvas_size(max_canvas: nat, batch_size: nat) -> nat {
    least(max_canvas, batch_size)
}

/// What was generated by blocks of uniform noise.
#[verifier::ext_equal]
pub struct NoiseRun {
    pub tokens: Seq<i32>,
    pub stopped: bool,
    pub dice: Dice,
    /// Positions of all prefills.
    pub input: nat,
    pub forwards: nat,
}

/// What generation by uniform noise depends on besides the model and its prompt.
pub struct NoiseTerms {
    pub stops: Seq<i32>,
    pub seed: u64,
    pub capacity: nat,
    pub budget: nat,
}

/// The first `n` blocks after a prompt: each starts as noise of as many tokens as a canvas takes,
/// within the budget, is denoised after the text before it, and is cut at the first stop marker.
pub open spec fn noise_run(
    card: Card,
    parts: Seq<Part>,
    start: Seq<i32>,
    terms: NoiseTerms,
    n: nat,
) -> NoiseRun
    decreases n,
{
    if n == 0 {
        NoiseRun {
            tokens: Seq::empty(),
            stopped: false,
            dice: seeded(terms.seed),
            input: 0,
            forwards: 0,
        }
    } else {
        let run = noise_run(card, parts, start, terms, (n - 1) as nat);
        let at = Resident { parts, suffix: start + run.tokens };
        let count = least(terms.capacity, (terms.budget - run.tokens.len()) as nat);
        let noise = rolled(card, run.dice, count);
        let first = noisy(noise.0, noise.1);
        let block = denoised(card, at, first);
        let kept = before_stop(block.best, terms.stops);
        NoiseRun {
            tokens: run.tokens + block.best.take(kept as int),
            stopped: kept < block.best.len(),
            dice: block.dice,
            input: run.input + at.size(),
            forwards: run.forwards + refinements(card, at, first, 0),
        }
    }
}

/// Generation went through `n` blocks: it ends with the first that has a stop marker or fills the
/// budget, or where the client has gone.
pub open spec fn is_noise_run(
    card: Card,
    parts: Seq<Part>,
    start: Seq<i32>,
    terms: NoiseTerms,
    n: nat,
    g: Generated,
) -> bool {
    let run = noise_run(card, parts, start, terms, n);
    &&& g.tokens@ == run.tokens
    &&& g.stopped == run.stopped
    &&& g.input_tokens == clamp(run.input)
    &&& g.forwards == clamp(run.forwards)
    &&& g.accepted@.len() == 0
    &&& g.cancelled || g.stopped || g.tokens@.len() == terms.budget
    &&& forall|k: nat| k < n ==> goes_on(#[trigger] noise_run(card, parts, start, terms, k), terms)
}

/// Another block follows.
pub open spec fn goes_on(run: NoiseRun, terms: NoiseTerms) -> bool {
    !run.stopped && run.tokens.len() < terms.budget
}

/// Some number of blocks made this.
pub open spec fn made_of_noise(
    card: Card,
    parts: Seq<Part>,
    start: Seq<i32>,
    terms: NoiseTerms,
    g: Generated,
) -> bool {
    exists|n: nat| #[trigger] is_noise_run(card, parts, start, terms, n, g)
}

/// Uniform-noise diffusion with self-conditioning: blocks of as many tokens as a canvas takes,
/// each truncated at the first stop marker.
pub fn generate_uniform<M: DiffusionModel, L: Listener, S: Sink<M, L>>(
    model: &mut M,
    prompt: &Vec<PromptPart>,
    start: &Vec<i32>,
    budget: usize,
    stops: &Vec<i32>,
    seed: u64,
    max_canvas: usize,
    batch_size: usize,
    sink: &mut S,
    ear: &mut L,
) -> (r: Result<Generated>)
    requires
        max_canvas > 0,
        batch_size > 0,
        old(sink).sound(old(model).card(), old(ear).heard(), old(ear).answers()),
        !old(sink).ended(),
    ensures
        final(model).card() == old(model).card(),
        r matches Err(e) ==> (old(model).card().fails)(e@),
        final(sink).sound(old(model).card(), final(ear).heard(), final(ear).answers()),
        final(sink).terms() == old(sink).terms(),
        r matches Ok(g) ==> {
            &&& forall|i: int| 0 <= i < g.tokens@.len() ==> !stops@.contains(#[trigger] g.tokens@[i])
            &&& g.tokens@.len() <= budget
            &&& g.stopped ==> g.tokens@.len() < budget
            &&& !g.cancelled && !g.stopped ==> g.tokens@.len() == budget
            &&& final(sink).received() == old(sink).received() + g.tokens@
            &&& old(sink).patient() ==> !g.cancelled
            &&& final(sink).ended() == g.cancelled
            &&& made_of_noise(
                old(model).card(),
                parts_model(prompt@),
                start@,
                (NoiseTerms {
                    stops: stops@,
                    seed,
                    capacity: canvas_size(max_canvas as nat, batch_size as nat),
                    budget: budget as nat,
                }),
                g,
            )
        },
{
    let ghost card = model.card();
    let mut dice: Dice = seed_dice(seed);
    let ghost parts = parts_model(prompt@);
    let capacity: usize = if max_canvas <= batch_size {
        max_canvas
    } else {
        batch_size
    };
    let ghost terms = NoiseTerms {
        stops: stops@,
        seed,
        capacity: capacity as nat,
        budget: budget as nat,
    };
    let mut suffix: Vec<i32> = Vec::new();
    extend(&mut suffix, start, 0, start.len());
    let mut generated: Generated = Generated::new();
    let mut going: bool = true;
    let ghost mut n: nat = 0;
    proof {
        assert(suffix@ =~= start@ + Seq::<i32>::empty());
        assert(sink.received() + Seq::<i32>::empty() =~= sink.received());
    }
    while going && generated.tokens.len() < budget
        invariant
            capacity > 0,
            capacity == canvas_size(max_canvas as nat, batch_size as nat),
            terms == (NoiseTerms {
                stops: stops@,
                seed,
                capacity: capacity as nat,
                budget: budget as nat,
            }),
            card == old(model).card(),
            model.card() == card,
            parts == parts_model(prompt@),
            suffix@ == start@ + generated.tokens@,
            generated.tokens@.len() <= budget,
            generated.stopped ==> generated.tokens@.len() < budget,
            forall|i: int|
                0 <= i < generated.tokens@.len() ==> !stops@.contains(
                    #[trigger] generated.tokens@[i],
                ),
            going == !(generated.stopped || generated.cancelled),
            sink.received() == old(sink).received() + generated.tokens@,
            sink.patient() == old(sink).patient(),
            sink.patient() ==> !generated.cancelled,
            sink.sound(old(model).card(), ear.heard(), ear.answers()),
            sink.terms() == old(sink).terms(),
            sink.ended() == generated.cancelled,
            ({
                let run = noise_run(card, parts, start@, terms, n);
                &&& generated.tokens@ == run.tokens
                &&& generated.stopped == run.stopped
                &&& generated.input_tokens == clamp(run.input)
                &&& generated.forwards == clamp(run.forwards)
                &&& generated.accepted@.len() == 0
                &&& dice == run.dice
            }),
            forall|k: nat|
                k < n ==> goes_on(#[trigger] noise_run(card, parts, start@, terms, k), terms),
        decreases budget - generated.tokens@.len(), if going { 1int } else { 0int },
    {
        let ghost text = generated.tokens@;
        let ghost run = noise_run(card, parts, start@, terms, n);
        let ghost at = Resident { parts, suffix: start@ + text };
        let length: usize = model.prefill(prompt, &suffix)?;
        generated.input_tokens = generated.input_tokens.saturating_add(length);
        let mut count: usize = budget - generated.tokens.len();
        if count > capacity {
            count = capacity;
        }
        let (best, steps): (Vec<i32>, usize) = denoise(model, length, count, &mut dice)?;
        generated.forwards = generated.forwards.saturating_add(steps);
        let kept: usize = first_stop(&best, count, stops);
        let stopped: bool = kept < count;
        let mut made: Vec<i32> = Vec::new();
        extend(&mut made, &best, 0, kept);
        proof {
            assert(best@.take(count as int) =~= best@);
            lemma_before_stop(best@, stops@);
            assert(made@ =~= best@.take(kept as int));
        }
        going = generated.push(&made, stopped, &*model, sink, ear);
        extend(&mut suffix, &best, 0, kept);
        proof {
            assert forall|i: int| 0 <= i < generated.tokens@.len() implies !stops@.contains(
                #[trigger] generated.tokens@[i],
            ) by {
                if i < text.len() {
                    assert(generated.tokens@[i] == text[i]);
                } else {
                    assert(generated.tokens@[i] == best@[i - text.len()]);
                }
            }
            let next = noise_run(card, parts, start@, terms, n + 1);
            assert(next.tokens =~= generated.tokens@);
            assert(goes_on(run, terms));
            n = n + 1;
            assert(suffix@ =~= start@ + generated.tokens@);
            assert(old(sink).received() + text + made@ =~= old(sink).received() + (text + made@));
        }
    }
    proof {
        assert(is_noise_run(card, parts, start@, terms, n, generated));
    }
    Ok(generated)
}

/// The seed decides what uniform noise becomes: two generations after the same prompt under the
/// same terms make the same tokens, unless the client went away.
pub proof fn law_seeds_decide_the_text(
    card: Card,
    parts: Seq<Part>,
    start: Seq<i32>,
    terms: NoiseTerms,
    a: Generated,
    b: Generated,
)
    requires
        made_of_noise(card, parts, start, terms, a),
        made_of_noise(card, parts, start, terms, b),
        !a.cancelled,
        !b.cancelled,
    ensures
        a.tokens@ == b.tokens@,
        a.stopped == b.stopped,
        a.forwards == b.forwards,
        a.input_tokens == b.input_tokens,
        a.accepted@ == b.accepted@,
{
    let m = choose|n: nat| #[trigger] is_noise_run(card, parts, start, terms, n, a);
    let n = choose|n: nat| #[trigger] is_noise_run(card, parts, start, terms, n, b);
    if m < n {
        assert(goes_on(noise_run(card, parts, start, terms, m), terms));
    } else if n < m {
        assert(goes_on(noise_run(card, parts, start, terms, n), terms));
    }
    assert(a.accepted@ =~= b.accepted@);
}

} // verus!
