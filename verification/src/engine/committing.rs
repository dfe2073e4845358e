//! How the slots of a masked canvas are committed, forward by forward.
use crate::engine::board::{
    answers_on, best_at, board_run, board_step, canvas_length, canvas_of, commits_slot,
    committed_now, lemma_best_at, lemma_positions, lemma_remaining, lemma_remaining_item,
    lemma_step_keeps, lemma_still_remaining, masked_board, masked_read, ordered, position,
    remaining, slot_confidence, slot_scores, Board,
};
use crate::engine::canvases::{laid_out, lemma_length, lemma_next_position, lemma_slot_on_canvas};
use crate::engine::model::{Card, DiffusionScheme, Resident, ScoresModel};
use crate::engine::reads::SlotModel;
use crate::engine::sampler::{
    commits_at, is_best, law_progress_and_threshold, most_confident, ranks_before,
};
use crate::engine::slots::SlotTokens;
use crate::engine::unmasking::leads;
use vstd::prelude::*;

verus! {

/// The largest of some probabilities.
pub open spec fn peak(values: Seq<u64>) -> u64
    decreases values.len(),
{
    if values.len() <= 1 {
        values[0]
    } else if values.last() > peak(values.drop_last()) {
        values.last()
    } else {
        peak(values.drop_last())
    }
}

/// A masked read under way: the canvas before each forward and after the last, and the forward that
/// committed each slot.
pub struct Committing {
    pub canvases: Seq<Seq<i32>>,
    pub when: Seq<int>,
}

impl Committing {
    /// The forwards that were run.
    pub open spec fn forwards(self) -> int {
        self.canvases.len() - 1
    }

    /// Slot `i` is still masked before forward `t`.
    pub open spec fn waits(self, t: int, i: int) -> bool {
        self.when[i] >= t
    }

    /// Some slot is still masked before forward `t`.
    pub open spec fn needed(self, t: int) -> bool {
        exists|i: int| 0 <= i < self.when.len() && #[trigger] self.waits(t, i)
    }

    /// The scores of slot `i` after forward `t`: those of its own candidates at its own place.
    pub open spec fn score(
        self,
        card: Card,
        at: Resident,
        slots: Seq<SlotModel>,
        t: int,
        i: int,
    ) -> ScoresModel {
        (card.score)(
            at,
            self.canvases[t],
            slots[i].canvas_position as int,
            slots[i].candidate_tokens,
        )
    }

    /// How sure the model is of slot `i` after forward `t`: the probability of its best candidate.
    pub open spec fn sure(
        self,
        card: Card,
        at: Resident,
        slots: Seq<SlotModel>,
        t: int,
        i: int,
    ) -> u64 {
        peak(self.score(card, at, slots, t, i).probabilities)
    }

    /// Every slot waits for one of the forwards, and every canvas is as long as the first.
    pub open spec fn shaped(self, slots: Seq<SlotModel>) -> bool {
        &&& self.canvases.len() > 1
        &&& self.when.len() == slots.len()
        &&& forall|t: int|
            0 <= t <= self.forwards() ==> (#[trigger] self.canvases[t]).len()
                == self.canvases[0].len()
        &&& forall|i: int| 0 <= i < slots.len() ==> 0 <= #[trigger] self.when[i] < self.forwards()
    }

    /// Forward `t` writes the best candidate of each slot that it commits into that slot's place, the
    /// first of several, and nothing else.
    pub open spec fn writes(
        self,
        card: Card,
        at: Resident,
        slots: Seq<SlotModel>,
        t: int,
    ) -> bool {
        &&& forall|i: int|
            0 <= i < slots.len() && #[trigger] self.when[i] == t ==> exists|b: int| {
                &&& #[trigger] is_best(self.score(card, at, slots, t, i).probabilities, b)
                &&& self.canvases[t + 1][slots[i].canvas_position as int]
                    == slots[i].candidate_tokens[b]
            }
        &&& forall|p: int|
            0 <= p < self.canvases[t].len() && (forall|i: int|
                0 <= i < slots.len() && #[trigger] self.when[i] == t ==> slots[i].canvas_position
                    != p) ==> #[trigger] self.canvases[t + 1][p] == self.canvases[t][p]
    }

    /// What forward `t` commits before the last one: a slot whose best candidate is at or above the
    /// threshold, or the slot that the model is most sure of; and one that still waits is below the
    /// threshold, and the model is no more sure of it than of one that is committed.
    pub open spec fn chooses(
        self,
        card: Card,
        at: Resident,
        slots: Seq<SlotModel>,
        threshold: u64,
        t: int,
    ) -> bool {
        &&& forall|i: int|
            0 <= i < slots.len() && #[trigger] self.when[i] == t ==> self.sure(
                card,
                at,
                slots,
                t,
                i,
            ) >= threshold || forall|j: int|
                0 <= j < slots.len() && j != i && #[trigger] self.waits(t, j) ==> leads(
                    self.sure(card, at, slots, t, i),
                    i,
                    self.sure(card, at, slots, t, j),
                    j,
                )
        &&& forall|i: int|
            0 <= i < slots.len() && #[trigger] self.when[i] > t ==> self.sure(
                card,
                at,
                slots,
                t,
                i,
            ) < threshold
        &&& forall|i: int|
            0 <= i < slots.len() && #[trigger] self.when[i] > t ==> exists|j: int|
                0 <= j < slots.len() && #[trigger] self.when[j] == t && self.sure(
                    card,
                    at,
                    slots,
                    t,
                    j,
                ) >= self.sure(card, at, slots, t, i)
    }

    /// Slots are committed by confidence in at most `most` forwards, as long as one waits.
    pub open spec fn runs(
        self,
        card: Card,
        at: Resident,
        slots: Seq<SlotModel>,
        threshold: u64,
        most: int,
    ) -> bool {
        let n = self.forwards();
        &&& n <= most
        &&& forall|t: int| 0 <= t < n ==> #[trigger] self.writes(card, at, slots, t)
        &&& forall|t: int|
            0 <= t < n && t + 1 < most ==> #[trigger] self.chooses(card, at, slots, threshold, t)
        &&& forall|t: int| 0 <= t < n ==> #[trigger] self.needed(t)
    }

    /// Each slot reports the scores of the forward that committed it, when it was still masked.
    pub open spec fn reports(self, card: Card, at: Resident, slots: Seq<SlotModel>) -> bool {
        forall|i: int|
            0 <= i < slots.len() ==> {
                let found = self.score(card, at, slots, #[trigger] self.when[i], i);
                slots[i].logits == found.logits && slots[i].probabilities == found.probabilities
            }
    }
}

/// The slots were read from masks: on a canvas that has the mask wherever no prefix stands, they are
/// committed by confidence, and each is read at its own place when it is.
pub open spec fn reads_masks(
    card: Card,
    at: Resident,
    group: Seq<SlotTokens>,
    mask: i32,
    threshold: u64,
    steps: nat,
    slots: Seq<SlotModel>,
    c: Committing,
) -> bool {
    let first = c.canvases[0];
    &&& laid_out(group, slots, at.size(), first)
    &&& forall|i: int|
        0 <= i < slots.len() ==> first[(#[trigger] slots[i]).canvas_position as int] == mask
            && slots[i].initial_token == mask
    &&& forall|p: int|
        slots[slots.len() - 1].canvas_position < p < first.len() ==> #[trigger] first[p] == mask
    &&& c.shaped(slots)
    &&& c.runs(card, at, slots, threshold, steps as int)
    &&& c.reports(card, at, slots)
}

// ---------------------------------------------------------------------------------------------
// Proof
// ---------------------------------------------------------------------------------------------

/// A model that scores every candidate.
pub open spec fn scores_all(card: Card) -> bool {
    forall|at: Resident, canvas: Seq<i32>, place: int, tokens: Seq<i32>| (#[trigger] (card.score)(
        at,
        canvas,
        place,
        tokens,
    )).probabilities.len() == tokens.len()
}

/// The largest probability is that of the best.
pub proof fn lemma_peak(values: Seq<u64>)
    requires
        values.len() > 0,
    ensures
        is_best(values, best_at(values)),
        peak(values) == values[best_at(values)],
    decreases values.len(),
{
    let last = values.len() - 1;
    if values.len() == 1 {
        assert(is_best(values, 0));
    } else {
        let rest = values.drop_last();
        lemma_peak(rest);
        let b = best_at(rest);
        if values.last() > rest[b] {
            assert forall|k: int| 0 <= k < last implies #[trigger] values[k] < values[last] by {
                assert(rest[k] == values[k]);
            }
            assert(is_best(values, last));
            lemma_best_at(values, last);
        } else {
            assert forall|k: int| 0 <= k < values.len() implies #[trigger] values[k] <= values[b] by {
                if k < last {
                    assert(rest[k] == values[k]);
                }
            }
            assert forall|k: int| 0 <= k < b implies #[trigger] values[k] < values[b] by {
                assert(rest[k] == values[k]);
            }
            assert(is_best(values, b));
            lemma_best_at(values, b);
        }
    }
}

/// Slot `i` is pending.
spec fn pends(board: Board, i: int) -> bool {
    exists|k: int| 0 <= k < board.pending.len() && #[trigger] board.pending[k] == i
}

/// How sure the model is of slot `i`.
spec fn sure_of(card: Card, at: Resident, group: Seq<SlotTokens>, board: Board, i: int) -> u64 {
    peak(slot_scores(card, at, group, board.canvas, i).probabilities)
}

/// A board on which the group stands.
spec fn holds(group: Seq<SlotTokens>, board: Board) -> bool {
    &&& ordered(board.pending, group.len())
    &&& board.found.len() == group.len()
    &&& canvas_length(group) <= board.canvas.len()
    &&& forall|k: int|
        0 <= k < board.pending.len() ==> board.found[#[trigger] board.pending[k]] is None
    &&& forall|i: int| 0 <= i < group.len() ==> (#[trigger] group[i]).candidates.len() > 0
}

/// The canvas after the first `n` slots, place by place.
proof fn lemma_answers(
    card: Card,
    at: Resident,
    group: Seq<SlotTokens>,
    board: Board,
    threshold: u64,
    last: bool,
    n: nat,
)
    requires
        canvas_length(group) <= board.canvas.len(),
        n <= group.len(),
    ensures
        ({
            let conf = slot_confidence(card, at, group, board);
            let canvas = answers_on(card, at, group, board, threshold, last, n);
            &&& canvas.len() == board.canvas.len()
            &&& forall|i: int|
                0 <= i < n && #[trigger] committed_now(board.pending, conf, threshold, last, i)
                    ==> canvas[position(group, i) as int] == group[i].candidates[best_at(
                    slot_scores(card, at, group, board.canvas, i).probabilities,
                )]
            &&& forall|p: int|
                0 <= p < canvas.len() && (forall|i: int|
                    0 <= i < n && #[trigger] committed_now(
                        board.pending,
                        conf,
                        threshold,
                        last,
                        i,
                    ) ==> position(group, i) != p) ==> #[trigger] canvas[p] == board.canvas[p]
        }),
    decreases n,
{
    if n > 0 {
        let m = (n - 1) as nat;
        lemma_answers(card, at, group, board, threshold, last, m);
        lemma_positions(group);
        let conf = slot_confidence(card, at, group, board);
        let before = answers_on(card, at, group, board, threshold, last, m);
        let canvas = answers_on(card, at, group, board, threshold, last, n);
        assert forall|i: int|
            0 <= i < n && #[trigger] committed_now(
                board.pending,
                conf,
                threshold,
                last,
                i,
            ) implies canvas[position(group, i) as int] == group[i].candidates[best_at(
            slot_scores(card, at, group, board.canvas, i).probabilities,
        )] by {
            if i < m {
                assert(position(group, i) < position(group, m as int));
            }
            assert(position(group, m as int) < canvas_length(group));
        }
        assert forall|p: int|
            0 <= p < canvas.len() && (forall|i: int|
                0 <= i < n && #[trigger] committed_now(
                    board.pending,
                    conf,
                    threshold,
                    last,
                    i,
                ) ==> position(group, i) != p) implies #[trigger] canvas[p] == board.canvas[p] by {
            assert(before[p] == board.canvas[p]);
        }
    }
}

/// One step, slot by slot.
#[verifier::spinoff_prover]
proof fn lemma_board_step(
    card: Card,
    at: Resident,
    group: Seq<SlotTokens>,
    board: Board,
    threshold: u64,
    last: bool,
)
    requires
        scores_all(card),
        holds(group, board),
    ensures
        ({
            let next = board_step(card, at, group, board, threshold, last);
            let n = group.len() as int;
            &&& holds(group, next)
            &&& next.canvas.len() == board.canvas.len()
            &&& forall|i: int| 0 <= i < n && #[trigger] pends(next, i) ==> pends(board, i) && !last
            &&& forall|i: int|
                #![trigger pends(next, i)]
                0 <= i < n && pends(board, i) && !pends(next, i) ==> {
                    let scores = slot_scores(card, at, group, board.canvas, i);
                    &&& next.canvas[position(group, i) as int] == group[i].candidates[best_at(
                        scores.probabilities,
                    )]
                    &&& next.found[i] == Some(scores)
                }
            &&& forall|i: int|
                #![trigger pends(next, i)]
                0 <= i < n && (pends(board, i) ==> pends(next, i)) ==> next.found[i]
                    == board.found[i]
            &&& forall|p: int|
                0 <= p < next.canvas.len() && (forall|i: int|
                    0 <= i < n && pends(board, i) && !#[trigger] pends(next, i) ==> position(
                        group,
                        i,
                    ) != p) ==> #[trigger] next.canvas[p] == board.canvas[p]
            &&& !last ==> forall|i: int|
                #![trigger pends(next, i)]
                0 <= i < n && pends(board, i) && !pends(next, i) ==> sure_of(
                    card,
                    at,
                    group,
                    board,
                    i,
                ) >= threshold || forall|j: int|
                    0 <= j < n && j != i && #[trigger] pends(board, j) ==> leads(
                        sure_of(card, at, group, board, i),
                        i,
                        sure_of(card, at, group, board, j),
                        j,
                    )
            &&& forall|i: int|
                0 <= i < n && #[trigger] pends(next, i) ==> sure_of(card, at, group, board, i)
                    < threshold
            &&& forall|i: int|
                0 <= i < n && #[trigger] pends(next, i) ==> exists|j: int|
                    0 <= j < n && pends(board, j) && !#[trigger] pends(next, j) && sure_of(
                        card,
                        at,
                        group,
                        board,
                        j,
                    ) >= sure_of(card, at, group, board, i)
        }),
{
    let next = board_step(card, at, group, board, threshold, last);
    let conf = slot_confidence(card, at, group, board);
    let n = group.len() as int;
    let size = board.pending.len();
    lemma_step_keeps(card, at, group, board, threshold, last);
    lemma_answers(card, at, group, board, threshold, last, group.len());
    lemma_remaining(board.pending, conf, threshold, last, size, group.len());
    // What is committed is what was pending and is no longer.
    assert forall|i: int| 0 <= i < n implies (#[trigger] committed_now(
        board.pending,
        conf,
        threshold,
        last,
        i,
    ) <==> pends(board, i) && !pends(next, i)) by {
        if committed_now(board.pending, conf, threshold, last, i) {
            let k = choose|k: int|
                0 <= k < size && (#[trigger] board.pending[k]) == i && commits_slot(
                    conf,
                    threshold,
                    last,
                    k,
                );
            if pends(next, i) {
                let x = choose|x: int| 0 <= x < next.pending.len() && #[trigger] next.pending[x] == i;
                lemma_remaining_item(
                    board.pending,
                    conf,
                    threshold,
                    last,
                    size,
                    x,
                    group.len(),
                );
                let j = choose|j: int|
                    0 <= j < size && #[trigger] board.pending[j] == next.pending[x]
                        && !commits_slot(conf, threshold, last, j);
                if j < k {
                    assert(board.pending[j] < board.pending[k]);
                } else if k < j {
                    assert(board.pending[k] < board.pending[j]);
                }
            }
        } else if pends(board, i) {
            let k = choose|k: int| 0 <= k < size && #[trigger] board.pending[k] == i;
            lemma_still_remaining(board.pending, conf, threshold, last, size, k);
            let x = choose|x: int|
                0 <= x < remaining(board.pending, conf, threshold, last, size).len() && remaining(
                    board.pending,
                    conf,
                    threshold,
                    last,
                    size,
                )[x] == board.pending[k];
            assert(next.pending[x] == i);
        }
    }
    assert forall|i: int| 0 <= i < n && #[trigger] pends(next, i) implies pends(board, i) && !last by {
        let x = choose|x: int| 0 <= x < next.pending.len() && #[trigger] next.pending[x] == i;
        lemma_remaining_item(board.pending, conf, threshold, last, size, x, group.len());
        let j = choose|j: int|
            0 <= j < size && #[trigger] board.pending[j] == next.pending[x] && !commits_slot(
                conf,
                threshold,
                last,
                j,
            );
        assert(board.pending[j] == i);
    }
    assert forall|p: int|
        0 <= p < next.canvas.len() && (forall|i: int|
            0 <= i < n && pends(board, i) && !#[trigger] pends(next, i) ==> position(group, i)
                != p) implies #[trigger] next.canvas[p] == board.canvas[p] by {
        assert forall|i: int|
            0 <= i < group.len() && #[trigger] committed_now(
                board.pending,
                conf,
                threshold,
                last,
                i,
            ) implies position(group, i) != p by {
            assert(!pends(next, i));
        }
    }
    assert forall|i: int|
        #![trigger pends(next, i)]
        0 <= i < n && pends(board, i) && !pends(next, i) implies {
        let scores = slot_scores(card, at, group, board.canvas, i);
        &&& next.canvas[position(group, i) as int] == group[i].candidates[best_at(
            scores.probabilities,
        )]
        &&& next.found[i] == Some(scores)
    } by {
        assert(committed_now(board.pending, conf, threshold, last, i));
    }
    assert forall|i: int|
        #![trigger pends(next, i)]
        0 <= i < n && (pends(board, i) ==> pends(next, i)) implies next.found[i] == board.found[i] by {
        assert(!committed_now(board.pending, conf, threshold, last, i));
    }
    // Confidences.
    assert forall|k: int| 0 <= k < size implies #[trigger] conf[k] == sure_of(
        card,
        at,
        group,
        board,
        board.pending[k],
    ) by {
        let i = board.pending[k];
        lemma_peak(slot_scores(card, at, group, board.canvas, i).probabilities);
    }
    assert forall|i: int|
        #![trigger pends(next, i)]
        0 <= i < n && !last && pends(board, i) && !pends(next, i) implies sure_of(
        card,
        at,
        group,
        board,
        i,
    ) >= threshold || forall|j: int|
        0 <= j < n && j != i && #[trigger] pends(board, j) ==> leads(
            sure_of(card, at, group, board, i),
            i,
            sure_of(card, at, group, board, j),
            j,
        ) by {
        assert(committed_now(board.pending, conf, threshold, last, i));
        let k = choose|k: int|
            0 <= k < size && (#[trigger] board.pending[k]) == i && commits_slot(
                conf,
                threshold,
                last,
                k,
            );
        assert(conf[k] == sure_of(card, at, group, board, i));
        if conf[k] < threshold {
            assert(most_confident(conf, k));
            assert forall|j: int| 0 <= j < n && j != i && #[trigger] pends(board, j) implies leads(
                sure_of(card, at, group, board, i),
                i,
                sure_of(card, at, group, board, j),
                j,
            ) by {
                let m = choose|m: int| 0 <= m < size && #[trigger] board.pending[m] == j;
                assert(conf[m] == sure_of(card, at, group, board, j));
                assert(ranks_before(conf, k, m));
                if m < k {
                    assert(board.pending[m] < board.pending[k]);
                } else {
                    assert(board.pending[k] < board.pending[m]);
                }
            }
        }
    }
    assert forall|i: int| 0 <= i < n && #[trigger] pends(next, i) implies sure_of(
        card,
        at,
        group,
        board,
        i,
    ) < threshold by {
        assert(!committed_now(board.pending, conf, threshold, last, i));
        let k = choose|k: int| 0 <= k < size && #[trigger] board.pending[k] == i;
        assert(conf[k] == sure_of(card, at, group, board, i));
        assert(!commits_slot(conf, threshold, last, k));
        assert(!commits_at(conf, threshold, k));
    }
    assert forall|i: int| 0 <= i < n && #[trigger] pends(next, i) implies exists|j: int|
        0 <= j < n && pends(board, j) && !#[trigger] pends(next, j) && sure_of(
            card,
            at,
            group,
            board,
            j,
        ) >= sure_of(card, at, group, board, i) by {
        let k = choose|k: int| 0 <= k < size && #[trigger] board.pending[k] == i;
        assert(conf[k] == sure_of(card, at, group, board, i));
        law_progress_and_threshold(conf, threshold, k);
        let m = choose|m: int| most_confident(conf, m) && commits_at(conf, threshold, m);
        let j = board.pending[m];
        assert(commits_slot(conf, threshold, last, m));
        assert(committed_now(board.pending, conf, threshold, last, j));
        assert(conf[m] == sure_of(card, at, group, board, j));
        if m != k {
            assert(ranks_before(conf, m, k));
        }
        assert(pends(board, j) && !pends(next, j));
    }
}

/// The slots stand where those of the group do.
spec fn placed(group: Seq<SlotTokens>, slots: Seq<SlotModel>) -> bool {
    &&& slots.len() == group.len()
    &&& forall|i: int|
        0 <= i < group.len() ==> (#[trigger] slots[i]).canvas_position == position(group, i)
    &&& forall|i: int|
        0 <= i < group.len() ==> (#[trigger] slots[i]).candidate_tokens == group[i].candidates
}

/// A later part of a read.
spec fn later(u: Committing, v: Committing) -> bool {
    &&& u.canvases.len() == v.canvases.len() + 1
    &&& u.when.len() == v.when.len()
    &&& forall|t: int| 0 <= t <= v.forwards() ==> u.canvases[t + 1] == #[trigger] v.canvases[t]
    &&& forall|t: int, i: int|
        0 <= t && 0 <= i < v.when.len() ==> (u.waits(t + 1, i) <==> #[trigger] v.waits(t, i)) && (
        u.when[i] == t + 1 <==> v.when[i] == t)
}

proof fn lemma_writes_later(
    card: Card,
    at: Resident,
    slots: Seq<SlotModel>,
    u: Committing,
    v: Committing,
    t: int,
)
    requires
        later(u, v),
        u.when.len() == slots.len(),
        0 < t < u.forwards(),
        v.writes(card, at, slots, t - 1),
    ensures
        u.writes(card, at, slots, t),
{
    let s = t - 1;
    assert(u.canvases[s + 1] == v.canvases[s]);
    assert(u.canvases[t + 1] == v.canvases[t]);
    assert forall|i: int| 0 <= i < slots.len() implies (u.when[i] == t <==> #[trigger] v.when[i] == s) by {
        assert(u.waits(s + 1, i) <==> v.waits(s, i));
    }
    assert forall|i: int| 0 <= i < slots.len() && #[trigger] u.when[i] == t implies exists|b: int| {
        &&& #[trigger] is_best(u.score(card, at, slots, t, i).probabilities, b)
        &&& u.canvases[t + 1][slots[i].canvas_position as int] == slots[i].candidate_tokens[b]
    } by {
        assert(v.when[i] == s);
        let b = choose|b: int| {
            &&& #[trigger] is_best(v.score(card, at, slots, s, i).probabilities, b)
            &&& v.canvases[s + 1][slots[i].canvas_position as int] == slots[i].candidate_tokens[b]
        };
        assert(u.score(card, at, slots, t, i) == v.score(card, at, slots, s, i));
        assert(is_best(u.score(card, at, slots, t, i).probabilities, b));
    }
    assert forall|p: int|
        0 <= p < u.canvases[t].len() && (forall|i: int|
            0 <= i < slots.len() && #[trigger] u.when[i] == t ==> slots[i].canvas_position
                != p) implies #[trigger] u.canvases[t + 1][p] == u.canvases[t][p] by {
        assert forall|i: int| 0 <= i < slots.len() && #[trigger] v.when[i] == s implies slots[i].canvas_position
            != p by {
            assert(u.when[i] == t);
        }
        assert(v.canvases[s + 1][p] == v.canvases[s][p]);
    }
}

proof fn lemma_chooses_later(
    card: Card,
    at: Resident,
    slots: Seq<SlotModel>,
    threshold: u64,
    u: Committing,
    v: Committing,
    t: int,
)
    requires
        later(u, v),
        u.when.len() == slots.len(),
        0 < t < u.forwards(),
        v.chooses(card, at, slots, threshold, t - 1),
    ensures
        u.chooses(card, at, slots, threshold, t),
{
    let s = t - 1;
    assert(u.canvases[s + 1] == v.canvases[s]);
    assert forall|i: int| 0 <= i < slots.len() implies u.sure(card, at, slots, t, i)
        == #[trigger] v.sure(card, at, slots, s, i) by {}
    assert forall|i: int| 0 <= i < slots.len() implies (u.waits(t, i) <==> #[trigger] v.waits(
        s,
        i,
    )) && (u.when[i] == t <==> v.when[i] == s) by {
        assert(u.waits(s + 1, i) <==> v.waits(s, i));
    }
    assert forall|i: int| 0 <= i < slots.len() && #[trigger] u.when[i] == t implies u.sure(
        card,
        at,
        slots,
        t,
        i,
    ) >= threshold || forall|j: int|
        0 <= j < slots.len() && j != i && #[trigger] u.waits(t, j) ==> leads(
            u.sure(card, at, slots, t, i),
            i,
            u.sure(card, at, slots, t, j),
            j,
        ) by {
        assert(v.waits(s, i));
        assert(v.when[i] == s);
        assert(u.sure(card, at, slots, t, i) == v.sure(card, at, slots, s, i));
        if u.sure(card, at, slots, t, i) < threshold {
            assert forall|j: int| 0 <= j < slots.len() && j != i && #[trigger] u.waits(
                t,
                j,
            ) implies leads(
                u.sure(card, at, slots, t, i),
                i,
                u.sure(card, at, slots, t, j),
                j,
            ) by {
                assert(v.waits(s, j));
                assert(u.sure(card, at, slots, t, j) == v.sure(card, at, slots, s, j));
            }
        }
    }
    assert forall|i: int| 0 <= i < slots.len() && #[trigger] u.when[i] > t implies u.sure(
        card,
        at,
        slots,
        t,
        i,
    ) < threshold by {
        assert(u.waits(t, i));
        assert(v.waits(s, i));
        assert(v.when[i] > s);
        assert(u.sure(card, at, slots, t, i) == v.sure(card, at, slots, s, i));
    }
    assert forall|i: int| 0 <= i < slots.len() && #[trigger] u.when[i] > t implies exists|j: int|
        0 <= j < slots.len() && #[trigger] u.when[j] == t && u.sure(card, at, slots, t, j)
            >= u.sure(card, at, slots, t, i) by {
        assert(u.waits(t, i));
        assert(v.waits(s, i));
        assert(v.when[i] > s);
        let j = choose|j: int|
            0 <= j < slots.len() && #[trigger] v.when[j] == s && v.sure(card, at, slots, s, j)
                >= v.sure(card, at, slots, s, i);
        assert(v.waits(s, j));
        assert(u.when[j] == t);
        assert(u.sure(card, at, slots, t, j) == v.sure(card, at, slots, s, j));
        assert(u.sure(card, at, slots, t, i) == v.sure(card, at, slots, s, i));
    }
}

/// The first forward of a read does what a step does.
proof fn lemma_first(
    card: Card,
    at: Resident,
    group: Seq<SlotTokens>,
    slots: Seq<SlotModel>,
    board: Board,
    threshold: u64,
    last: bool,
    u: Committing,
)
    requires
        scores_all(card),
        holds(group, board),
        placed(group, slots),
        u.canvases.len() > 1,
        u.canvases[0] == board.canvas,
        u.canvases[1] == board_step(card, at, group, board, threshold, last).canvas,
        u.when.len() == slots.len(),
        forall|i: int|
            #![trigger u.when[i]]
            0 <= i < slots.len() ==> (u.when[i] >= 0 <==> pends(board, i)) && (u.when[i] > 0
                <==> pends(board_step(card, at, group, board, threshold, last), i)),
    ensures
        u.writes(card, at, slots, 0),
        !last ==> u.chooses(card, at, slots, threshold, 0),
{
    let next = board_step(card, at, group, board, threshold, last);
    lemma_board_step(card, at, group, board, threshold, last);
    assert forall|i: int| 0 <= i < slots.len() implies #[trigger] u.score(card, at, slots, 0, i)
        == slot_scores(card, at, group, board.canvas, i) by {
        assert(slots[i].canvas_position == position(group, i));
        assert(slots[i].candidate_tokens == group[i].candidates);
    }
    assert forall|i: int| 0 <= i < slots.len() implies #[trigger] u.sure(card, at, slots, 0, i)
        == sure_of(card, at, group, board, i) by {
        assert(u.score(card, at, slots, 0, i) == slot_scores(card, at, group, board.canvas, i));
    }
    assert forall|i: int| 0 <= i < slots.len() && #[trigger] u.when[i] == 0 implies exists|b: int| {
        &&& #[trigger] is_best(u.score(card, at, slots, 0, i).probabilities, b)
        &&& u.canvases[0int + 1][slots[i].canvas_position as int] == slots[i].candidate_tokens[b]
    } by {
        assert(pends(board, i) && !pends(next, i));
        let p = slot_scores(card, at, group, board.canvas, i).probabilities;
        assert(u.score(card, at, slots, 0, i).probabilities == p);
        assert(group[i].candidates.len() > 0);
        lemma_peak(p);
        assert(is_best(u.score(card, at, slots, 0, i).probabilities, best_at(p)));
        assert(slots[i].canvas_position == position(group, i));
    }
    assert forall|p: int|
        0 <= p < u.canvases[0].len() && (forall|i: int|
            0 <= i < slots.len() && #[trigger] u.when[i] == 0 ==> slots[i].canvas_position
                != p) implies #[trigger] u.canvases[0int + 1][p] == u.canvases[0][p] by {
        assert forall|i: int|
            0 <= i < group.len() && pends(board, i) && !#[trigger] pends(next, i) implies position(
            group,
            i,
        ) != p by {
            assert(u.when[i] == 0);
            assert(slots[i].canvas_position == position(group, i));
        }
        assert(next.canvas[p] == board.canvas[p]);
    }
    if !last {
        assert forall|i: int| 0 <= i < slots.len() && #[trigger] u.when[i] == 0 implies u.sure(
            card,
            at,
            slots,
            0,
            i,
        ) >= threshold || forall|j: int|
            0 <= j < slots.len() && j != i && #[trigger] u.waits(0, j) ==> leads(
                u.sure(card, at, slots, 0, i),
                i,
                u.sure(card, at, slots, 0, j),
                j,
            ) by {
            assert(pends(board, i) && !pends(next, i));
            assert(u.sure(card, at, slots, 0, i) == sure_of(card, at, group, board, i));
            if u.sure(card, at, slots, 0, i) < threshold {
                assert forall|j: int| 0 <= j < slots.len() && j != i && #[trigger] u.waits(
                    0,
                    j,
                ) implies leads(
                    u.sure(card, at, slots, 0, i),
                    i,
                    u.sure(card, at, slots, 0, j),
                    j,
                ) by {
                    assert(u.when[j] >= 0);
                    assert(pends(board, j));
                    assert(u.sure(card, at, slots, 0, j) == sure_of(card, at, group, board, j));
                }
            }
        }
        assert forall|i: int| 0 <= i < slots.len() && #[trigger] u.when[i] > 0 implies u.sure(
            card,
            at,
            slots,
            0,
            i,
        ) < threshold by {
            assert(pends(next, i));
            assert(u.sure(card, at, slots, 0, i) == sure_of(card, at, group, board, i));
        }
        assert forall|i: int| 0 <= i < slots.len() && #[trigger] u.when[i] > 0 implies exists|
            j: int,
        |
            0 <= j < slots.len() && #[trigger] u.when[j] == 0 && u.sure(card, at, slots, 0, j)
                >= u.sure(card, at, slots, 0, i) by {
            assert(pends(next, i));
            let j = choose|j: int|
                0 <= j < group.len() && pends(board, j) && !#[trigger] pends(next, j) && sure_of(
                    card,
                    at,
                    group,
                    board,
                    j,
                ) >= sure_of(card, at, group, board, i);
            assert(u.when[j] == 0);
            assert(u.sure(card, at, slots, 0, j) == sure_of(card, at, group, board, j));
            assert(u.sure(card, at, slots, 0, i) == sure_of(card, at, group, board, i));
        }
    }
}

/// What a read has done from a board on.
spec fn done_from(
    card: Card,
    at: Resident,
    slots: Seq<SlotModel>,
    board: Board,
    end: Board,
    threshold: u64,
    left: nat,
    u: Committing,
) -> bool {
    let n = u.forwards();
    &&& u.canvases.len() > 0 && u.when.len() == slots.len()
    &&& u.canvases[0] == board.canvas
    &&& n <= left
    &&& forall|t: int| 0 <= t <= n ==> (#[trigger] u.canvases[t]).len() == board.canvas.len()
    &&& forall|i: int| 0 <= i < slots.len() ==> (#[trigger] u.when[i] >= 0 <==> pends(board, i))
    &&& forall|i: int| 0 <= i < slots.len() ==> #[trigger] u.when[i] <= n
    &&& left > 0 ==> forall|i: int|
        0 <= i < slots.len() && pends(board, i) ==> #[trigger] u.when[i] < n
    &&& forall|t: int| 0 <= t < n ==> #[trigger] u.writes(card, at, slots, t)
    &&& forall|t: int|
        0 <= t < n && t + 1 < left ==> #[trigger] u.chooses(card, at, slots, threshold, t)
    &&& forall|t: int| 0 <= t < n ==> #[trigger] u.needed(t)
    &&& forall|i: int|
        0 <= i < slots.len() && 0 <= #[trigger] u.when[i] < n ==> end.found[i] == Some(
            u.score(card, at, slots, u.when[i], i),
        )
    &&& forall|i: int|
        0 <= i < slots.len() && #[trigger] u.when[i] < 0 ==> end.found[i] == board.found[i]
}

#[verifier::spinoff_prover]
#[verifier::rlimit(30)]
proof fn lemma_committing(
    card: Card,
    at: Resident,
    group: Seq<SlotTokens>,
    slots: Seq<SlotModel>,
    board: Board,
    threshold: u64,
    left: nat,
) -> (u: Committing)
    requires
        scores_all(card),
        holds(group, board),
        placed(group, slots),
    ensures
        done_from(
            card,
            at,
            slots,
            board,
            board_run(card, at, group, board, threshold, left),
            threshold,
            left,
            u,
        ),
    decreases left,
{
    let count = slots.len();
    if left == 0 || board.pending.len() == 0 {
        let u = Committing {
            canvases: seq![board.canvas],
            when: Seq::new(
                count,
                |i: int|
                    if pends(board, i) {
                        0int
                    } else {
                        -1int
                    },
            ),
        };
        u
    } else {
        let last = left == 1;
        let next = board_step(card, at, group, board, threshold, last);
        lemma_board_step(card, at, group, board, threshold, last);
        let v = lemma_committing(card, at, group, slots, next, threshold, (left - 1) as nat);
        let end = board_run(card, at, group, board, threshold, left);
        assert(end == board_run(card, at, group, next, threshold, (left - 1) as nat));
        let u = Committing {
            canvases: seq![board.canvas] + v.canvases,
            when: Seq::new(
                count,
                |i: int|
                    if !pends(board, i) {
                        -1int
                    } else if !pends(next, i) {
                        0int
                    } else {
                        v.when[i] + 1
                    },
            ),
        };
        let n = u.forwards();
        assert(n == v.forwards() + 1);
        assert forall|t: int| 0 <= t <= v.forwards() implies u.canvases[t + 1]
            == #[trigger] v.canvases[t] by {}
        assert forall|t: int, i: int| 0 <= t && 0 <= i < count implies (u.waits(t + 1, i)
            <==> #[trigger] v.waits(t, i)) && (u.when[i] == t + 1 <==> v.when[i] == t) by {
            assert(v.when[i] >= 0 <==> pends(next, i));
        }
        assert(later(u, v));
        assert(u.canvases[1] == v.canvases[0]);
        assert forall|i: int|
            #![trigger u.when[i]]
            0 <= i < count implies (u.when[i] >= 0 <==> pends(board, i)) && (u.when[i] > 0
            <==> pends(next, i)) by {
            assert(v.when[i] >= 0 <==> pends(next, i));
        }
        lemma_first(card, at, group, slots, board, threshold, last, u);
        assert forall|t: int| 0 <= t <= n implies (#[trigger] u.canvases[t]).len()
            == board.canvas.len() by {
            if t > 0 {
                assert(u.canvases[(t - 1) + 1] == v.canvases[t - 1]);
            }
        }
        assert forall|i: int| 0 <= i < count implies #[trigger] u.when[i] <= n by {
            assert(v.when[i] <= v.forwards());
        }
        assert forall|i: int| 0 <= i < count && pends(board, i) implies #[trigger] u.when[i] < n by {
            if pends(next, i) {
                assert(!last);
                assert(v.when[i] < v.forwards());
            }
        }
        assert forall|t: int| 0 <= t < n implies #[trigger] u.writes(card, at, slots, t) by {
            if t > 0 {
                assert(v.writes(card, at, slots, t - 1));
                lemma_writes_later(card, at, slots, u, v, t);
            }
        }
        assert forall|t: int| 0 <= t < n && t + 1 < left implies #[trigger] u.chooses(
            card,
            at,
            slots,
            threshold,
            t,
        ) by {
            if t > 0 {
                assert(v.chooses(card, at, slots, threshold, t - 1));
                lemma_chooses_later(card, at, slots, threshold, u, v, t);
            }
        }
        assert forall|t: int| 0 <= t < n implies #[trigger] u.needed(t) by {
            if t == 0 {
                let i = board.pending[0];
                assert(pends(board, i));
                assert(u.when[i] >= 0);
                assert(u.waits(0, i));
            } else {
                assert(v.needed(t - 1));
                let i = choose|i: int| 0 <= i < v.when.len() && #[trigger] v.waits(t - 1, i);
                assert(u.waits((t - 1) + 1, i) <==> v.waits(t - 1, i));
                assert(u.waits(t, i));
            }
        }
        assert forall|i: int| 0 <= i < count && 0 <= #[trigger] u.when[i] < n implies end.found[i]
            == Some(u.score(card, at, slots, u.when[i], i)) by {
            if u.when[i] == 0 {
                assert(pends(board, i) && !pends(next, i));
                assert(v.when[i] < 0);
                assert(end.found[i] == next.found[i]);
                assert(slots[i].canvas_position == position(group, i));
                assert(slots[i].candidate_tokens == group[i].candidates);
            } else {
                let s = v.when[i];
                assert(pends(next, i));
                assert(u.canvases[s + 1] == v.canvases[s]);
                assert(end.found[i] == Some(v.score(card, at, slots, s, i)));
            }
        }
        assert forall|i: int| 0 <= i < count && #[trigger] u.when[i] < 0 implies end.found[i]
            == board.found[i] by {
            assert(!pends(board, i));
            assert(!pends(next, i));
            assert(v.when[i] < 0);
        }
        u
    }
}

/// The first canvas of a masked read.
proof fn lemma_layout(
    group: Seq<SlotTokens>,
    slots: Seq<SlotModel>,
    size: nat,
    mask: i32,
    first: Seq<i32>,
    fills: Seq<i32>,
)
    requires
        group.len() > 0,
        placed(group, slots),
        fills == Seq::new(group.len(), |i: int| mask),
        canvas_length(group) <= first.len(),
        first.take(canvas_length(group) as int) == canvas_of(group, fills),
        forall|p: int| canvas_length(group) <= p < first.len() ==> #[trigger] first[p] == mask,
        forall|i: int|
            0 <= i < group.len() && size + first.len() <= usize::MAX ==> (
            #[trigger] slots[i]).absolute_position == size + slots[i].canvas_position,
    ensures
        laid_out(group, slots, size, first),
        forall|i: int|
            0 <= i < slots.len() ==> first[(#[trigger] slots[i]).canvas_position as int] == mask,
        forall|p: int|
            slots[slots.len() - 1].canvas_position < p < first.len() ==> #[trigger] first[p] == mask,
{
    let n = group.len();
    let content = canvas_of(group, fills);
    lemma_length(group, fills);
    assert forall|i: int| 0 <= i < n implies (#[trigger] slots[i]).canvas_position < first.len()
        && first[slots[i].canvas_position as int] == mask && first.subrange(
        slots[i].canvas_position - group[i].prefix.len(),
        slots[i].canvas_position as int,
    ) == group[i].prefix by {
        lemma_slot_on_canvas(group, fills, i);
        let p = position(group, i) as int;
        assert(first.subrange(p - group[i].prefix.len(), p) =~= content.subrange(
            p - group[i].prefix.len(),
            p,
        ));
    }
    assert forall|i: int| 0 <= i < n implies (#[trigger] slots[i]).canvas_position == (if i == 0 {
        0
    } else {
        slots[i - 1].canvas_position + 1
    }) + group[i].prefix.len() by {
        lemma_next_position(group, i);
        if i > 0 {
            assert(slots[i - 1].canvas_position == position(group, i - 1));
        }
    }
    assert(group.take(n - 1) =~= group.drop_last());
    assert(slots[n - 1].canvas_position + 1 == content.len());
    assert forall|p: int| slots[n - 1].canvas_position < p < first.len() implies #[trigger] first[p]
        == mask by {
        assert(p >= content.len());
    }
    assert(laid_out(group, slots, size, first));
}

/// Each slot of a masked group is read at its own row while it is masked: the slots are committed
/// by how sure the model is of them, at or above the threshold or the surest first, each with its
/// best candidate in its own place, and each reports the scores of the forward that committed it.
#[verifier::spinoff_prover]
#[verifier::rlimit(80)]
pub proof fn law_masked_slots_are_committed_by_confidence(
    card: Card,
    at: Resident,
    group: Seq<SlotTokens>,
    scheme: DiffusionScheme,
    capacity: nat,
    threshold: u64,
    steps: nat,
)
    requires
        scores_all(card),
        group.len() > 0,
        forall|i: int| 0 <= i < group.len() ==> (#[trigger] group[i]).candidates.len() > 0,
        canvas_length(group) <= capacity <= usize::MAX,
        scheme is Masked && scheme->block > 0,
        steps > 0,
    ensures
        exists|c: Committing| #[trigger]
            reads_masks(
                card,
                at,
                group,
                scheme.mask_token(),
                threshold,
                steps,
                masked_read(card, at, group, scheme, capacity, threshold, steps),
                c,
            ),
{
    let n = group.len();
    let mask = scheme.mask_token();
    let fills = Seq::new(n, |i: int| mask);
    let slots = masked_read(card, at, group, scheme, capacity, threshold, steps);
    let board = masked_board(group, scheme, capacity);
    let content = canvas_of(group, fills);
    lemma_length(group, fills);
    lemma_positions(group);
    assert forall|i: int| 0 <= i < n implies (#[trigger] slots[i]).canvas_position == position(
        group,
        i,
    ) && slots[i].candidate_tokens == group[i].candidates && slots[i].initial_token == mask by {}
    assert(holds(group, board));
    let c = lemma_committing(card, at, group, slots, board, threshold, steps);
    let first = c.canvases[0];
    assert(first == board.canvas);
    assert forall|i: int| 0 <= i < n implies #[trigger] pends(board, i) by {
        assert(board.pending[i] == i);
    }
    assert(board.canvas.take(canvas_length(group) as int) =~= content);
    lemma_layout(group, slots, at.size(), mask, board.canvas, fills);
    assert forall|i: int| 0 <= i < n implies 0 <= #[trigger] c.when[i] < c.forwards() by {
        assert(pends(board, i));
    }
    assert(c.when[0] < c.forwards());
    assert(c.reports(card, at, slots)) by {
        let end = board_run(card, at, group, board, threshold, steps);
        assert forall|i: int| 0 <= i < n implies {
            let found = c.score(card, at, slots, #[trigger] c.when[i], i);
            slots[i].logits == found.logits && slots[i].probabilities == found.probabilities
        } by {
            assert(end.found[i] == Some(c.score(card, at, slots, c.when[i], i)));
        }
    }
    assert(reads_masks(card, at, group, mask, threshold, steps, slots, c));
}

} // verus!
