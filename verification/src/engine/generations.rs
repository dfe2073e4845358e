//! What is generated, by what the model computes.
use crate::engine::answer::{cut_from, lemma_cut, occurs, stops_at, trimmed, without_newlines};
use crate::engine::config::{total_size, Decoding, Part};
use crate::engine::engine::{answer_from, made, Mode};
use crate::engine::framing::PreparedModel;
use crate::engine::generated::{before_stop, lemma_before_stop, Generated};
use crate::engine::model::{Card, ChatFormat, Mind, Refinement, Resident};
use crate::engine::noise::{seeded, Dice};
use crate::engine::uniform::{
    all_positions, denoised, draft_after, least, noise_run, noisy, refinements, rolled, Draft,
    NoiseTerms,
};
use crate::generation::{FinishReason, Generation, RequestModel};
use vstd::prelude::*;

verus! {

// ---------------------------------------------------------------------------------------------
// Causal decoding
// ---------------------------------------------------------------------------------------------

/// Text that is decoded causally, with or without drafts, is the model's own: each token is its next
/// after the prompt and all tokens before it. It ends before the first stop marker that the model
/// gives, or with the budget.
pub proof fn law_causal_text_is_the_models_own(
    card: Card,
    mode: Mode,
    parts: Seq<Part>,
    start: Seq<i32>,
    budget: usize,
    stops: Seq<i32>,
    seed: u64,
    g: Generated,
)
    requires
        made(card, mode, parts, start, budget, stops, seed, g),
        mode.scheme is Masked,
        mode.decoding != Decoding::Diffusion,
    ensures
        g.tokens@.len() <= budget,
        forall|i: int|
            0 <= i < g.tokens@.len() ==> #[trigger] g.tokens@[i] == (card.next)(
                Resident { parts, suffix: start + g.tokens@.take(i) },
            ),
        forall|i: int| 0 <= i < g.tokens@.len() ==> !stops.contains(#[trigger] g.tokens@[i]),
        !g.cancelled && g.stopped ==> g.tokens@.len() < budget && stops.contains(
            (card.next)(Resident { parts, suffix: start + g.tokens@ }),
        ),
        !g.cancelled && !g.stopped ==> g.tokens@.len() == budget,
{
}

// ---------------------------------------------------------------------------------------------
// Uniform noise
// ---------------------------------------------------------------------------------------------

/// A block being denoised: the random numbers before each of its first tokens and after the last, and
/// for each forward its canvas, its logits and the random numbers before its refinement.
pub struct Denoising {
    pub rolls: Seq<Dice>,
    pub canvases: Seq<Seq<i32>>,
    pub minds: Seq<Mind>,
    pub dice: Seq<Dice>,
}

impl Denoising {
    /// The forwards that were run.
    pub open spec fn forwards(self) -> int {
        self.canvases.len() as int
    }

    /// What the refinement after forward `t` makes, of every position, as one of at most 48.
    pub open spec fn refined(self, card: Card, t: int) -> Refinement {
        (card.refine)(
            self.minds[t],
            self.dice[t],
            self.canvases[t],
            Seq::new(self.canvases[0].len(), |i: int| i as usize),
            t as nat,
            48,
        )
    }

    /// The block starts as random tokens, one after another.
    pub open spec fn starts(self, card: Card, dice: Dice) -> bool {
        let first = self.canvases[0];
        &&& self.rolls.len() == first.len() + 1
        &&& self.rolls[0] == dice
        &&& forall|i: int|
            0 <= i < first.len() ==> (card.roll)(#[trigger] self.rolls[i]) == (
                first[i],
                self.rolls[i + 1],
            )
        &&& self.dice[0] == self.rolls[first.len() as int]
    }

    /// Each forward is of the canvas that the refinement before it made, and conditioned on it.
    pub open spec fn feeds_back(self, card: Card, at: Resident) -> bool {
        let n = self.forwards();
        &&& n > 0 && self.minds.len() == n && self.dice.len() == n
        &&& self.minds[0] == (card.believe)(at, self.canvases[0], None)
        &&& forall|t: int|
            0 < t < n ==> #[trigger] self.canvases[t] == self.refined(card, t - 1).canvas
        &&& forall|t: int| 0 < t < n ==> #[trigger] self.dice[t] == self.refined(card, t - 1).dice
        &&& forall|t: int|
            0 < t < n ==> #[trigger] self.minds[t] == (card.believe)(
                at,
                self.canvases[t],
                Some(self.refined(card, t - 1).mind),
            )
    }

    /// Refinement `t` predicts certainly what the one before it predicted.
    pub open spec fn settles(self, card: Card, t: int) -> bool {
        &&& self.refined(card, t).certain
        &&& self.refined(card, t).best == if t == 0 {
            Seq::<i32>::empty()
        } else {
            self.refined(card, t - 1).best
        }
    }

    /// Refinement goes on until it settles, at most 48 times.
    pub open spec fn ends(self, card: Card) -> bool {
        let n = self.forwards();
        &&& n <= 48
        &&& n == 48 || self.settles(card, n - 1)
        &&& forall|t: int| 0 <= t < n - 1 ==> !#[trigger] self.settles(card, t)
    }

    /// What the block gives: the last predictions, up to the first stop marker.
    pub open spec fn gives(
        self,
        card: Card,
        stops: Seq<i32>,
        tokens: Seq<i32>,
        stopped: bool,
    ) -> bool {
        let best = self.refined(card, self.forwards() - 1).best;
        let m = tokens.len() as int;
        &&& m <= best.len() && tokens == best.take(m)
        &&& forall|i: int| 0 <= i < m ==> !stops.contains(#[trigger] tokens[i])
        &&& stopped ==> m < best.len() && stops.contains(best[m])
        &&& !stopped ==> m == best.len()
    }
}

proof fn lemma_rolls(card: Card, dice: Dice, n: nat, i: int)
    requires
        0 <= i < n,
    ensures
        rolled(card, dice, n).0.len() == n,
        (card.roll)(rolled(card, dice, i as nat).1) == (
            rolled(card, dice, n).0[i],
            rolled(card, dice, (i + 1) as nat).1,
        ),
    decreases n,
{
    if n > 1 {
        if i < n - 1 {
            lemma_rolls(card, dice, (n - 1) as nat, i);
        } else {
            lemma_rolls(card, dice, (n - 1) as nat, 0);
        }
    }
    if n == 1 {
        assert(rolled(card, dice, 0).0.len() == 0);
    }
}

proof fn lemma_rolled_length(card: Card, dice: Dice, n: nat)
    ensures
        rolled(card, dice, n).0.len() == n,
    decreases n,
{
    if n > 0 {
        lemma_rolled_length(card, dice, (n - 1) as nat);
    }
}

proof fn lemma_refinements(card: Card, at: Resident, first: Draft, n: nat)
    requires
        n <= 48,
    ensures
        ({
            let k = refinements(card, at, first, n);
            let places = all_positions(first.canvas.len());
            &&& n <= k <= 48
            &&& k == 48 || draft_after(card, at, places, first, 48, k).stable
            &&& forall|t: nat|
                n <= t < k ==> !(#[trigger] draft_after(card, at, places, first, 48, t)).stable
        }),
    decreases 48 - n,
{
    if !(n >= 48 || draft_after(
        card,
        at,
        all_positions(first.canvas.len()),
        first,
        48,
        n,
    ).stable) {
        lemma_refinements(card, at, first, n + 1);
    }
}

/// Generation from noise starts empty and grows block by block: each starts as random tokens after
/// the prompt and all text before it, is refined until it settles, and gives its predictions up to
/// the first stop marker. The random numbers go on from block to block.
pub proof fn law_blocks_are_denoised_until_they_settle(
    card: Card,
    parts: Seq<Part>,
    start: Seq<i32>,
    terms: NoiseTerms,
    n: nat,
)
    requires
        noise_run(card, parts, start, terms, n).tokens.len() <= terms.budget,
    ensures
        ({
            let before = noise_run(card, parts, start, terms, n);
            let after = noise_run(card, parts, start, terms, n + 1);
            let at = Resident { parts, suffix: start + before.tokens };
            let m = before.tokens.len() as int;
            &&& n == 0 ==> before.tokens.len() == 0 && before.dice == seeded(terms.seed)
                && before.input == 0 && before.forwards == 0
            &&& exists|d: Denoising| {
                &&& #[trigger] d.feeds_back(card, at)
                &&& d.starts(card, before.dice)
                &&& d.canvases[0].len() == terms.capacity && m + terms.capacity <= terms.budget || (
                d.canvases[0].len() < terms.capacity && m + d.canvases[0].len() == terms.budget)
                &&& d.ends(card)
                &&& m <= after.tokens.len() && after.tokens.take(m) == before.tokens
                &&& d.gives(card, terms.stops, after.tokens.skip(m), after.stopped)
                &&& after.dice == d.refined(card, d.forwards() - 1).dice
                &&& after.input == before.input + total_size(parts) + start.len() + m
                &&& after.forwards == before.forwards + d.forwards()
            }
        }),
{
    let before = noise_run(card, parts, start, terms, n);
    let after = noise_run(card, parts, start, terms, n + 1);
    let at = Resident { parts, suffix: start + before.tokens };
    let m = before.tokens.len() as int;
    let count = least(terms.capacity, (terms.budget - m) as nat);
    let noise = rolled(card, before.dice, count);
    let first = noisy(noise.0, noise.1);
    lemma_rolled_length(card, before.dice, count);
    lemma_refinements(card, at, first, 0);
    let k = refinements(card, at, first, 0);
    let places = all_positions(count);
    let draft = |t: int| draft_after(card, at, places, first, 48, t as nat);
    assert(!draft(0).stable);
    assert(k > 0);
    let d = Denoising {
        rolls: Seq::new(count + 1, |i: int| rolled(card, before.dice, i as nat).1),
        canvases: Seq::new(k, |t: int| draft(t).canvas),
        minds: Seq::new(k, |t: int| (card.believe)(at, draft(t).canvas, draft(t).mind)),
        dice: Seq::new(k, |t: int| draft(t).dice),
    };
    assert(Seq::new(d.canvases[0].len(), |i: int| i as usize) =~= places);
    assert forall|t: int| 0 <= t < k implies {
        let next = draft(t + 1);
        let r = #[trigger] d.refined(card, t);
        next.canvas == r.canvas && next.best == r.best && next.dice == r.dice && next.mind == Some(
            r.mind,
        ) && next.stable == (r.best == draft(t).best && r.certain)
    } by {}
    assert forall|i: int| 0 <= i < count implies (card.roll)(#[trigger] d.rolls[i]) == (
        d.canvases[0][i],
        d.rolls[i + 1],
    ) by {
        lemma_rolls(card, before.dice, count, i);
    }
    assert(d.starts(card, before.dice));
    assert forall|t: int| 0 < t < k implies #[trigger] d.canvases[t] == d.refined(card, t - 1).canvas by {}
    assert forall|t: int| 0 < t < k implies #[trigger] d.dice[t] == d.refined(card, t - 1).dice by {}
    assert forall|t: int| 0 < t < k implies #[trigger] d.minds[t] == (card.believe)(
        at,
        d.canvases[t],
        Some(d.refined(card, t - 1).mind),
    ) by {
        let r = d.refined(card, t - 1);
        assert(draft(t).mind == Some(r.mind));
    }
    assert(d.feeds_back(card, at));
    assert forall|t: int| 0 <= t < k implies (#[trigger] d.settles(card, t) <==> draft(t + 1).stable) by {
        let r = d.refined(card, t);
        if t > 0 {
            let p = d.refined(card, t - 1);
            assert(draft(t).best == p.best);
        }
    }
    assert(d.ends(card)) by {
        assert forall|t: int| 0 <= t < k - 1 implies !#[trigger] d.settles(card, t) by {
            assert(!draft_after(card, at, places, first, 48, (t + 1) as nat).stable);
        }
        if k < 48 {
            assert(draft((k - 1) + 1).stable);
        }
    }
    let block = denoised(card, at, first);
    let last = d.refined(card, k - 1);
    assert(block == draft(k as int));
    assert(draft((k - 1) + 1).best == last.best && draft((k - 1) + 1).dice == last.dice);
    lemma_before_stop(block.best, terms.stops);
    let kept = before_stop(block.best, terms.stops) as int;
    assert(after.tokens.skip(m) =~= block.best.take(kept));
    assert(after.tokens.take(m) =~= before.tokens);
    assert(d.gives(card, terms.stops, after.tokens.skip(m), after.stopped));
}

// ---------------------------------------------------------------------------------------------
// Answers
// ---------------------------------------------------------------------------------------------

proof fn lemma_newlines(raw: Seq<char>, a: int) -> (i: int)
    requires
        0 <= a <= raw.len(),
    ensures
        a <= i <= raw.len(),
        without_newlines(raw.skip(a)) == raw.skip(i),
        forall|k: int| a <= k < i ==> #[trigger] raw[k] == '\n',
        i < raw.len() ==> raw[i] != '\n',
    decreases raw.len() - a,
{
    let part = raw.skip(a);
    if part.len() > 0 && part[0] == '\n' {
        assert(part.drop_first() =~= raw.skip(a + 1));
        lemma_newlines(raw, a + 1)
    } else {
        a
    }
}

/// Where an answer stands in the decoded text of its tokens: right after the newlines that it starts
/// with, where the prompt is a chat, and up to the first stop sequence or the end.
pub open spec fn answer_in(
    raw: Seq<char>,
    chatting: bool,
    stops: Seq<Seq<char>>,
    text: Seq<char>,
    cut: bool,
    i: int,
) -> bool {
    let j = i + text.len();
    &&& 0 <= i && j <= raw.len()
    &&& raw.subrange(i, j) == text
    &&& !chatting ==> i == 0
    &&& chatting ==> (forall|k: int| 0 <= k < i ==> #[trigger] raw[k] == '\n') && (i < raw.len()
        ==> raw[i] != '\n')
    &&& !cut ==> j == raw.len()
    &&& cut ==> exists|k: int|
        0 <= k < stops.len() && j + (#[trigger] stops[k]).len() <= raw.len() && raw.subrange(
            j,
            j + stops[k].len(),
        ) == stops[k]
}

/// An answer is the text of the generated tokens up to the first stop sequence; it is finished where
/// it was stopped by one or by a stop marker, and cut off otherwise. Its tokens are counted: those of
/// the prompt and what follows it, and those of the thought and the answer, a stop marker among them.
pub proof fn law_answers_are_the_decoded_text(
    card: Card,
    mode: Mode,
    chat: ChatFormat,
    request: RequestModel,
    prepared: PreparedModel,
    start: Seq<i32>,
    reasoning: usize,
    seed: u64,
    g: Generated,
    answer: Generation,
)
    requires
        answer_from(card, mode, chat, request, prepared, start, reasoning, seed, g, answer),
    ensures
        (card.decode)(g.tokens@) is Ok,
        exists|cut: bool, i: int| {
            &&& #[trigger] answer_in(
                (card.decode)(g.tokens@)->Ok_0,
                request.prompt is Chat,
                request.stop,
                answer.text@,
                cut,
                i,
            )
            &&& answer.finish == FinishReason::Stop <==> g.stopped || cut
        },
        prepared.prompt.len() + start.len() <= usize::MAX ==> answer.prompt_tokens
            == prepared.prompt.len() + start.len(),
        reasoning + g.tokens@.len() < usize::MAX ==> answer.completion_tokens == reasoning
            + g.tokens@.len() + (if g.stopped {
            1int
        } else {
            0int
        }),
        answer.reasoning_tokens == reasoning,
{
    let raw = (card.decode)(g.tokens@)->Ok_0;
    let chatting = request.prompt is Chat;
    let text = trimmed(raw, chatting);
    let i = if chatting {
        assert(raw.skip(0) =~= raw);
        lemma_newlines(raw, 0)
    } else {
        0
    };
    assert(raw.skip(i) =~= text);
    lemma_cut(text, request.stop, 0);
    let cut = cut_from(text, request.stop, 0) is Some;
    let j = i + answer.text@.len();
    assert(raw.subrange(i, j) =~= answer.text@);
    if cut {
        let p = cut_from(text, request.stop, 0)->Some_0;
        assert(stops_at(text, request.stop, p));
        let k = choose|k: int| 0 <= k < request.stop.len() && occurs(text, #[trigger] request.stop[k], p);
        let stop = request.stop[k];
        assert(raw.subrange(j, j + stop.len()) =~= text.subrange(p, p + stop.len()));
    }
    assert(answer_in(raw, chatting, request.stop, answer.text@, cut, i));
}

} // verus!
