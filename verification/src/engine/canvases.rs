//! Where slots stand on a canvas, and what their scores are read from.
use crate::engine::board::{
    answer_positions, canvas_length, canvas_of, lemma_positions, noise_read, position,
};
use crate::engine::model::{Card, Mind, Resident};
use crate::engine::noise::{seeded, Dice};
use crate::engine::reads::SlotModel;
use crate::engine::slots::SlotTokens;
use crate::engine::uniform::{draft_after, noisy, rolled};
use vstd::prelude::*;

verus! {

// ---------------------------------------------------------------------------------------------
// Layout
// ---------------------------------------------------------------------------------------------

/// The slots stand on the canvas one after another: each right after its own prefix, and each prefix
/// right after the slot before it. What is read of a slot is its own candidates, at its own place.
pub open spec fn laid_out(
    group: Seq<SlotTokens>,
    slots: Seq<SlotModel>,
    prompt_length: nat,
    canvas: Seq<i32>,
) -> bool {
    &&& slots.len() == group.len()
    &&& forall|i: int|
        0 <= i < group.len() ==> (#[trigger] slots[i]).candidate_tokens == group[i].candidates
    &&& forall|i: int|
        0 <= i < group.len() ==> (#[trigger] slots[i]).canvas_position == (if i == 0 {
            0
        } else {
            slots[i - 1].canvas_position + 1
        }) + group[i].prefix.len()
    &&& forall|i: int|
        0 <= i < group.len() ==> (#[trigger] slots[i]).canvas_position < canvas.len()
    &&& forall|i: int|
        0 <= i < group.len() ==> canvas.subrange(
            (#[trigger] slots[i]).canvas_position - group[i].prefix.len(),
            slots[i].canvas_position as int,
        ) == group[i].prefix
    &&& forall|i: int|
        0 <= i < group.len() && prompt_length + canvas.len() <= usize::MAX ==> (
        #[trigger] slots[i]).absolute_position == prompt_length + slots[i].canvas_position
}

/// Slot `i` of a canvas: its prefix, and then its first token.
pub proof fn lemma_slot_on_canvas(group: Seq<SlotTokens>, fills: Seq<i32>, i: int)
    requires
        0 <= i < group.len(),
    ensures
        canvas_of(group, fills).len() == canvas_length(group),
        position(group, i) < canvas_length(group),
        canvas_of(group, fills)[position(group, i) as int] == fills[i],
        group[i].prefix.len() <= position(group, i),
        canvas_of(group, fills).subrange(
            position(group, i) - group[i].prefix.len(),
            position(group, i) as int,
        ) == group[i].prefix,
    decreases group.len(),
{
    let shorter = group.drop_last();
    let n = group.len() - 1;
    let before = canvas_of(shorter, fills);
    let canvas = canvas_of(group, fills);
    lemma_length(shorter, fills);
    assert(group.take(n) =~= shorter);
    if i < n {
        lemma_slot_on_canvas(shorter, fills, i);
        assert(shorter.take(i) =~= group.take(i));
        assert(shorter[i] == group[i]);
        assert(position(shorter, i) == position(group, i));
        let p = position(group, i) as int;
        assert(canvas.subrange(p - group[i].prefix.len(), p) =~= before.subrange(
            p - group[i].prefix.len(),
            p,
        ));
    } else {
        let p = position(group, i) as int;
        assert(canvas.subrange(p - group[i].prefix.len(), p) =~= group[i].prefix);
    }
}

/// A canvas has the length of its group.
pub proof fn lemma_length(group: Seq<SlotTokens>, fills: Seq<i32>)
    ensures
        canvas_of(group, fills).len() == canvas_length(group),
    decreases group.len(),
{
    if group.len() > 0 {
        lemma_length(group.drop_last(), fills);
    }
}

/// The place of a slot, by that of the one before it.
pub proof fn lemma_next_position(group: Seq<SlotTokens>, i: int)
    requires
        0 <= i < group.len(),
    ensures
        position(group, i) == (if i == 0 {
            0
        } else {
            position(group, i - 1) + 1
        }) + group[i].prefix.len(),
{
    if i == 0 {
        assert(group.take(0) =~= Seq::<SlotTokens>::empty());
    } else {
        assert(group.take(i).drop_last() =~= group.take(i - 1));
        assert(group.take(i).last() == group[i - 1]);
    }
}

// ---------------------------------------------------------------------------------------------
// Uniform noise
// ---------------------------------------------------------------------------------------------

/// A read from noise under way: the random numbers before each first token and after the last, and
/// for each forward its canvas, its logits and the random numbers before its refinement.
pub struct Refining {
    pub rolls: Seq<Dice>,
    pub canvases: Seq<Seq<i32>>,
    pub minds: Seq<Mind>,
    pub dice: Seq<Dice>,
}

impl Refining {
    /// The slots start as the random tokens of the seed, one after another.
    pub open spec fn starts(self, card: Card, slots: Seq<SlotModel>, seed: u64) -> bool {
        &&& self.rolls.len() == slots.len() + 1
        &&& self.rolls[0] == seeded(seed)
        &&& forall|i: int|
            0 <= i < slots.len() ==> (card.roll)(#[trigger] self.rolls[i]) == (
                slots[i].initial_token,
                self.rolls[i + 1],
            )
        &&& forall|i: int|
            0 <= i < slots.len() ==> self.canvases[0][(
            #[trigger] slots[i]).canvas_position as int] == slots[i].initial_token
    }

    /// The first forward is of the first canvas alone. Every forward but the last is refined where
    /// the slots stand, and the next is of the refined canvas, conditioned on the refinement.
    pub open spec fn refines(
        self,
        card: Card,
        at: Resident,
        slots: Seq<SlotModel>,
        steps: nat,
    ) -> bool {
        let places = Seq::new(slots.len(), |i: int| slots[i].canvas_position);
        &&& self.canvases.len() == steps && self.minds.len() == steps && self.dice.len() == steps
        &&& self.minds[0] == (card.believe)(at, self.canvases[0], None)
        &&& self.dice[0] == self.rolls[slots.len() as int]
        &&& forall|t: int|
            0 <= t < steps - 1 ==> {
                let made = (card.refine)(
                    #[trigger] self.minds[t],
                    self.dice[t],
                    self.canvases[t],
                    places,
                    t as nat,
                    steps,
                );
                &&& self.canvases[t + 1] == made.canvas
                &&& self.dice[t + 1] == made.dice
                &&& self.minds[t + 1] == (card.believe)(at, made.canvas, Some(made.mind))
            }
    }

    /// Each slot has the scores of its own candidates, read at its own place from the logits of the
    /// last forward.
    pub open spec fn scores(self, card: Card, slots: Seq<SlotModel>) -> bool {
        let last = self.minds[self.minds.len() - 1];
        forall|i: int|
            0 <= i < slots.len() ==> {
                let found = (card.read)(
                    last,
                    (#[trigger] slots[i]).canvas_position as int,
                    slots[i].candidate_tokens,
                );
                slots[i].logits == found.logits && slots[i].probabilities == found.probabilities
            }
    }
}

/// The slots were read from noise: they start as random tokens on one canvas, are refined, and each
/// is read at its own place.
pub open spec fn reads_noise(
    card: Card,
    at: Resident,
    group: Seq<SlotTokens>,
    prompt_length: nat,
    seed: u64,
    steps: nat,
    slots: Seq<SlotModel>,
    r: Refining,
) -> bool {
    &&& laid_out(group, slots, prompt_length, r.canvases[0])
    &&& r.canvases[0].len() == slots[slots.len() - 1].canvas_position + 1
    &&& r.starts(card, slots, seed)
    &&& r.refines(card, at, slots, steps)
    &&& r.scores(card, slots)
}

/// The random numbers of a roll, one after another.
spec fn rolls_of(card: Card, dice: Dice, n: nat) -> Seq<Dice> {
    Seq::new(n + 1, |i: int| rolled(card, dice, i as nat).1)
}

proof fn lemma_rolled(card: Card, dice: Dice, n: nat, i: int)
    requires
        0 <= i < n,
    ensures
        rolled(card, dice, n).0.len() == n,
        (card.roll)(rolled(card, dice, i as nat).1) == (
            rolled(card, dice, n).0[i],
            rolled(card, dice, (i + 1) as nat).1,
        ),
    decreases n,
{
    if n > 1 {
        if i < n - 1 {
            lemma_rolled(card, dice, (n - 1) as nat, i);
        } else {
            lemma_rolled(card, dice, (n - 1) as nat, 0);
        }
    }
    if n == 1 {
        assert(rolled(card, dice, 0).0.len() == 0);
    }
}

/// Each slot of a group that is read from noise is read at its own row: where its own prefix ends,
/// from the logits of a canvas on which every slot stands after its prefix.
pub proof fn law_slots_are_read_at_their_own_rows(
    card: Card,
    at: Resident,
    group: Seq<SlotTokens>,
    prompt_length: nat,
    seed: u64,
    steps: nat,
)
    requires
        group.len() > 0,
        canvas_length(group) <= usize::MAX,
        steps > 0,
    ensures
        exists|r: Refining| #[trigger]
            reads_noise(
                card,
                at,
                group,
                prompt_length,
                seed,
                steps,
                noise_read(card, at, group, prompt_length, seed, steps),
                r,
            ),
{
    let n = group.len();
    let slots = noise_read(card, at, group, prompt_length, seed, steps);
    let noise = rolled(card, seeded(seed), n);
    let places = answer_positions(group);
    let first = noisy(canvas_of(group, noise.0), noise.1);
    let draft = |t: int| draft_after(card, at, places, first, steps, t as nat);
    let r = Refining {
        rolls: rolls_of(card, seeded(seed), n),
        canvases: Seq::new(steps, |t: int| draft(t).canvas),
        minds: Seq::new(steps, |t: int| (card.believe)(at, draft(t).canvas, draft(t).mind)),
        dice: Seq::new(steps, |t: int| draft(t).dice),
    };
    let canvas = r.canvases[0];
    assert(canvas == canvas_of(group, noise.0));
    lemma_positions(group);
    assert forall|i: int| 0 <= i < n implies (#[trigger] slots[i]).canvas_position == position(
        group,
        i,
    ) by {}
    assert forall|i: int| 0 <= i < n implies (#[trigger] slots[i]).canvas_position == (if i == 0 {
        0
    } else {
        slots[i - 1].canvas_position + 1
    }) + group[i].prefix.len() by {
        lemma_next_position(group, i);
        if i > 0 {
            assert(slots[i - 1].canvas_position == position(group, i - 1));
        }
    }
    assert forall|i: int| 0 <= i < n implies (#[trigger] slots[i]).canvas_position < canvas.len()
        && canvas[slots[i].canvas_position as int] == noise.0[i] && canvas.subrange(
        slots[i].canvas_position - group[i].prefix.len(),
        slots[i].canvas_position as int,
    ) == group[i].prefix by {
        lemma_slot_on_canvas(group, noise.0, i);
    }
    assert(laid_out(group, slots, prompt_length, canvas));
    assert(canvas.len() == slots[n - 1].canvas_position + 1) by {
        lemma_length(group, noise.0);
        assert(group.take(n - 1) =~= group.drop_last());
    }
    assert(r.starts(card, slots, seed)) by {
        assert forall|i: int| 0 <= i < n implies (card.roll)(#[trigger] r.rolls[i]) == (
            slots[i].initial_token,
            r.rolls[i + 1],
        ) by {
            lemma_rolled(card, seeded(seed), n, i);
        }
        assert forall|i: int| 0 <= i < n implies r.canvases[0][(
        #[trigger] slots[i]).canvas_position as int] == slots[i].initial_token by {
            assert(canvas[slots[i].canvas_position as int] == noise.0[i]);
        }
    }
    assert(r.refines(card, at, slots, steps)) by {
        assert(Seq::new(slots.len(), |i: int| slots[i].canvas_position) =~= places);
        assert(r.dice[0] == noise.1);
    }
    assert(r.scores(card, slots)) by {
        assert(r.minds[r.minds.len() - 1] == (card.believe)(
            at,
            draft(steps - 1).canvas,
            draft(steps - 1).mind,
        ));
        assert forall|i: int| 0 <= i < n implies {
            let found = (card.read)(
                r.minds[r.minds.len() - 1],
                (#[trigger] slots[i]).canvas_position as int,
                slots[i].candidate_tokens,
            );
            slots[i].logits == found.logits && slots[i].probabilities == found.probabilities
        } by {
            assert(slots[i].canvas_position == position(group, i));
            assert(slots[i].candidate_tokens == group[i].candidates);
        }
    }
    assert(reads_noise(card, at, group, prompt_length, seed, steps, slots, r));
}

} // verus!
