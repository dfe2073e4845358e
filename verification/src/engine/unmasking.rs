//! How a masked block comes to be, forward by forward.
use crate::engine::config::{total_size, Part};
use crate::engine::generated::{before_stop, lemma_before_stop};
use crate::engine::masked::{
    block_after, committed, confidences, done, fresh, lemma_open_rows, open_rows, run_of, settled,
    step, unmask, Blocks, Slate,
};
use crate::engine::model::{Card, Proposal, Resident};
use crate::engine::sampler::{commits_at, law_progress_and_threshold, most_confident, ranks_before};
use vstd::prelude::*;

verus! {

/// A block being unmasked: the canvas before each forward and after the last, and the forward that
/// closed each position; those that were closed at first have a negative number, and those that are
/// still open at the end the number of forwards.
pub struct Unmasking {
    pub canvases: Seq<Seq<i32>>,
    pub closed: Seq<int>,
}

/// A position is more confident than another, or as confident and earlier.
pub open spec fn leads(a: u64, i: int, b: u64, j: int) -> bool {
    a > b || (a == b && i < j)
}

impl Unmasking {
    /// The forwards that were run.
    pub open spec fn forwards(self) -> int {
        self.canvases.len() - 1
    }

    /// Position `i` is open before forward `t`.
    pub open spec fn open(self, t: int, i: int) -> bool {
        self.closed[i] >= t
    }

    /// The proposal for position `i` after forward `t`.
    pub open spec fn proposal(self, card: Card, at: Resident, t: int, i: int) -> Proposal {
        (card.propose)(at, self.canvases[t])[i]
    }

    /// Every canvas has all positions, and the numbers make sense.
    pub open spec fn shaped(self, count: nat) -> bool {
        &&& self.canvases.len() > 0
        &&& self.closed.len() == count
        &&& forall|t: int| 0 <= t <= self.forwards() ==> (#[trigger] self.canvases[t]).len() == count
        &&& forall|i: int| 0 <= i < count ==> #[trigger] self.closed[i] <= self.forwards()
    }

    /// Forward `t` closes exactly the positions with its number: they take their proposals, and all
    /// others stay as they are.
    pub open spec fn takes(self, card: Card, at: Resident, t: int) -> bool {
        forall|i: int|
            0 <= i < self.closed.len() ==> #[trigger] self.canvases[t + 1][i] == if self.closed[i]
                == t {
                self.proposal(card, at, t, i).0
            } else {
                self.canvases[t][i]
            }
    }

    /// What forward `t` closes before the last one: a position whose proposal is at or above the
    /// threshold, or the most confident of the open ones; and what it leaves open is below the
    /// threshold, and no more confident than a position that it closes.
    pub open spec fn chooses(self, card: Card, at: Resident, threshold: u64, t: int) -> bool {
        &&& forall|i: int|
            0 <= i < self.closed.len() && #[trigger] self.closed[i] == t ==> self.proposal(
                card,
                at,
                t,
                i,
            ).1 >= threshold || forall|j: int|
                0 <= j < self.closed.len() && j != i && #[trigger] self.open(t, j) ==> leads(
                    self.proposal(card, at, t, i).1,
                    i,
                    self.proposal(card, at, t, j).1,
                    j,
                )
        &&& forall|i: int|
            0 <= i < self.closed.len() && #[trigger] self.closed[i] > t ==> self.proposal(
                card,
                at,
                t,
                i,
            ).1 < threshold
        &&& forall|i: int|
            0 <= i < self.closed.len() && #[trigger] self.closed[i] > t ==> exists|j: int|
                0 <= j < self.closed.len() && #[trigger] self.closed[j] == t && self.proposal(
                    card,
                    at,
                    t,
                    j,
                ).1 >= self.proposal(card, at, t, i).1
    }

    /// Before forward `t` nothing more is to be decided: every position is closed, or those up to a
    /// stop marker are.
    pub open spec fn decided(self, stops: Seq<i32>, t: int) -> bool {
        ||| forall|i: int| 0 <= i < self.closed.len() ==> !#[trigger] self.open(t, i)
        ||| exists|p: int|
            0 <= p < self.closed.len() && #[trigger] stops.contains(self.canvases[t][p])
                && forall|i: int| 0 <= i <= p ==> !#[trigger] self.open(t, i)
    }

    /// The block is unmasked in at most `most` forwards: until everything is decided, by confidence,
    /// and whatever is open at the last of them is closed by it.
    pub open spec fn runs(
        self,
        card: Card,
        at: Resident,
        stops: Seq<i32>,
        threshold: u64,
        most: int,
    ) -> bool {
        let n = self.forwards();
        &&& n <= most
        &&& forall|t: int| 0 <= t < n ==> #[trigger] self.takes(card, at, t)
        &&& forall|t: int|
            0 <= t < n && t + 1 < most ==> #[trigger] self.chooses(card, at, threshold, t)
        &&& n == most && n > 0 ==> forall|i: int|
            0 <= i < self.closed.len() ==> #[trigger] self.closed[i] < n
        &&& forall|t: int| 0 <= t < n ==> !#[trigger] self.decided(stops, t)
        &&& n < most ==> self.decided(stops, n)
    }

    /// It starts with the one token that is known and masks after it.
    pub open spec fn starts(self, first: i32, mask: i32) -> bool {
        &&& forall|i: int|
            0 <= i < self.closed.len() ==> #[trigger] self.canvases[0][i] == if i == 0 {
                first
            } else {
                mask
            }
        &&& forall|i: int|
            0 <= i < self.closed.len() ==> (#[trigger] self.closed[i] < 0 <==> i == 0)
    }

    /// What the block gives: the tokens that are decided from its front on, up to the first stop
    /// marker.
    pub open spec fn gives(self, stops: Seq<i32>, tokens: Seq<i32>, stopped: bool) -> bool {
        let n = self.forwards();
        let m = tokens.len() as int;
        let end = self.canvases[n];
        &&& m <= self.closed.len()
        &&& forall|i: int|
            0 <= i < m ==> #[trigger] tokens[i] == end[i] && !stops.contains(tokens[i])
        &&& forall|i: int| 0 <= i < m ==> #[trigger] self.closed[i] < n
        &&& stopped ==> m < self.closed.len() && self.closed[m] < n && stops.contains(end[m])
        &&& !stopped && m < self.closed.len() ==> self.closed[m] == n
    }
}

/// One step, position by position.
proof fn lemma_step(proposals: Seq<Proposal>, slate: Slate, threshold: u64, last: bool)
    requires
        slate.canvas.len() == slate.open.len(),
    ensures
        ({
            let next = step(proposals, slate, threshold, last);
            let n = slate.open.len() as int;
            &&& next.canvas.len() == n && next.open.len() == n
            &&& forall|i: int|
                0 <= i < n ==> #[trigger] next.canvas[i] == if slate.open[i] && !next.open[i] {
                    proposals[i].0
                } else {
                    slate.canvas[i]
                }
            &&& forall|i: int| 0 <= i < n && #[trigger] next.open[i] ==> slate.open[i] && !last
            &&& !last ==> forall|i: int|
                #![trigger next.open[i]]
                0 <= i < n && slate.open[i] && !next.open[i] ==> proposals[i].1 >= threshold
                    || forall|j: int|
                    0 <= j < n && j != i && #[trigger] slate.open[j] ==> leads(
                        proposals[i].1,
                        i,
                        proposals[j].1,
                        j,
                    )
            &&& forall|i: int|
                0 <= i < n && #[trigger] next.open[i] ==> proposals[i].1 < threshold
            &&& forall|i: int|
                0 <= i < n && #[trigger] next.open[i] ==> exists|j: int|
                    0 <= j < n && slate.open[j] && !#[trigger] next.open[j] && proposals[j].1
                        >= proposals[i].1
        }),
{
    let next = step(proposals, slate, threshold, last);
    let n = slate.open.len() as int;
    let rows = open_rows(slate.open);
    let conf = confidences(proposals, rows);
    lemma_open_rows(slate.open);
    assert forall|i: int| 0 <= i < n implies #[trigger] next.canvas[i] == if slate.open[i]
        && !next.open[i] {
        proposals[i].0
    } else {
        slate.canvas[i]
    } by {}
    assert forall|i: int| 0 <= i < n && #[trigger] next.open[i] implies slate.open[i] && !last by {
        let k = choose|k: int| 0 <= k < rows.len() && #[trigger] rows[k] == i;
        if last {
            assert(committed(proposals, slate.open, threshold, last, i));
        }
    }
    assert forall|i: int|
        #![trigger next.open[i]]
        0 <= i < n && !last && slate.open[i] && !next.open[i] implies proposals[i].1 >= threshold
        || forall|j: int|
        0 <= j < n && j != i && #[trigger] slate.open[j] ==> leads(
            proposals[i].1,
            i,
            proposals[j].1,
            j,
        ) by {
        let k = choose|k: int|
            0 <= k < rows.len() && (#[trigger] rows[k]) == i && (last || commits_at(
                conf,
                threshold,
                k,
            ));
        law_progress_and_threshold(conf, threshold, k);
        if most_confident(conf, k) {
            assert forall|j: int| 0 <= j < n && j != i && #[trigger] slate.open[j] implies leads(
                proposals[i].1,
                i,
                proposals[j].1,
                j,
            ) by {
                let m = choose|m: int| 0 <= m < rows.len() && #[trigger] rows[m] == j;
                assert(ranks_before(conf, k, m));
                assert(conf[m] == proposals[j].1 && conf[k] == proposals[i].1);
                if m < k {
                    assert(rows[m] < rows[k]);
                } else {
                    assert(rows[k] < rows[m]);
                }
            }
        } else {
            assert(conf[k] == proposals[i].1);
        }
    }
    assert forall|i: int| 0 <= i < n && #[trigger] next.open[i] implies proposals[i].1 < threshold by {
        let k = choose|k: int| 0 <= k < rows.len() && #[trigger] rows[k] == i;
        if proposals[i].1 >= threshold {
            assert(conf[k] >= threshold);
            assert(commits_at(conf, threshold, k));
            assert(committed(proposals, slate.open, threshold, last, i));
        }
    }
    assert forall|i: int| 0 <= i < n && #[trigger] next.open[i] implies exists|j: int|
        0 <= j < n && slate.open[j] && !#[trigger] next.open[j] && proposals[j].1
            >= proposals[i].1 by {
        let k = choose|k: int| 0 <= k < rows.len() && #[trigger] rows[k] == i;
        law_progress_and_threshold(conf, threshold, k);
        let m = choose|m: int| most_confident(conf, m) && commits_at(conf, threshold, m);
        let j = rows[m];
        assert(committed(proposals, slate.open, threshold, last, j));
        if m != k {
            assert(ranks_before(conf, m, k));
        }
        assert(conf[m] == proposals[j].1 && conf[k] == proposals[i].1);
        assert(!next.open[j]);
    }
}

/// The slate that an unmasking starts from.
spec fn begins(u: Unmasking, slate: Slate) -> bool {
    &&& u.canvases[0] == slate.canvas
    &&& u.closed.len() == slate.open.len()
    &&& forall|i: int|
        0 <= i < slate.open.len() ==> (#[trigger] u.closed[i] >= 0 <==> slate.open[i])
}

/// The slate that it ends with.
spec fn ends(u: Unmasking, slate: Slate) -> bool {
    &&& u.canvases[u.forwards()] == slate.canvas
    &&& u.closed.len() == slate.open.len()
    &&& forall|i: int|
        0 <= i < slate.open.len() ==> (#[trigger] u.closed[i] >= u.forwards() <==> slate.open[i])
}

/// The number of settled positions is that of the closed ones from the front on.
proof fn lemma_settled(open: Seq<bool>)
    ensures
        settled(open) <= open.len(),
        forall|i: int| 0 <= i < settled(open) ==> !#[trigger] open[i],
        settled(open) < open.len() ==> open[settled(open) as int],
    decreases open.len(),
{
    if open.len() > 0 && !open[0] {
        let rest = open.drop_first();
        lemma_settled(rest);
        assert forall|i: int| 0 <= i < settled(open) implies !#[trigger] open[i] by {
            if i > 0 {
                assert(rest[i - 1] == open[i]);
            }
        }
        if settled(open) < open.len() {
            assert(rest[settled(rest) as int] == open[settled(open) as int]);
        }
    }
}

/// A slate is done where an unmasking that holds it has decided everything.
proof fn lemma_done(u: Unmasking, slate: Slate, stops: Seq<i32>, t: int)
    requires
        slate.canvas.len() == slate.open.len(),
        u.canvases[t] == slate.canvas,
        u.closed.len() == slate.open.len(),
        forall|i: int|
            0 <= i < slate.open.len() ==> (#[trigger] u.closed[i] >= t <==> slate.open[i]),
    ensures
        u.decided(stops, t) <==> done(slate, stops),
{
    let n = settled(slate.open) as int;
    let front = slate.canvas.take(n);
    lemma_settled(slate.open);
    lemma_before_stop(front, stops);
    if done(slate, stops) {
        if n == slate.canvas.len() {
            assert forall|i: int| 0 <= i < u.closed.len() implies !#[trigger] u.open(t, i) by {
                assert(!slate.open[i]);
                assert(u.closed[i] >= t <==> slate.open[i]);
            }
        } else {
            let p = before_stop(front, stops) as int;
            assert(front[p] == slate.canvas[p]);
            assert(stops.contains(u.canvases[t][p]));
            assert forall|i: int| 0 <= i <= p implies !#[trigger] u.open(t, i) by {
                assert(!slate.open[i]);
                assert(u.closed[i] >= t <==> slate.open[i]);
            }
        }
    }
    if u.decided(stops, t) {
        if forall|i: int| 0 <= i < u.closed.len() ==> !#[trigger] u.open(t, i) {
            if n < slate.open.len() {
                assert(!u.open(t, n));
                assert(u.closed[n] >= t <==> slate.open[n]);
            }
        } else {
            let p = choose|p: int|
                0 <= p < u.closed.len() && #[trigger] stops.contains(u.canvases[t][p])
                    && forall|i: int| 0 <= i <= p ==> !#[trigger] u.open(t, i);
            if n <= p {
                assert(!u.open(t, n));
                assert(u.closed[n] >= t <==> slate.open[n]);
            }
            assert(front[p] == slate.canvas[p]);
            if before_stop(front, stops) > p {
                assert(!stops.contains(front[p]));
            }
        }
    }
}

/// Unmasking a slate is an unmasking from it.
proof fn lemma_unmasking(
    card: Card,
    at: Resident,
    slate: Slate,
    stops: Seq<i32>,
    threshold: u64,
    left: nat,
) -> (u: Unmasking)
    requires
        slate.canvas.len() == slate.open.len(),
    ensures
        u.shaped(slate.open.len()),
        begins(u, slate),
        u.runs(card, at, stops, threshold, left as int),
        ends(u, unmask(card, at, slate, stops, threshold, left).0),
        u.forwards() == unmask(card, at, slate, stops, threshold, left).1,
    decreases left,
{
    let count = slate.open.len();
    if left == 0 || done(slate, stops) {
        let u = Unmasking {
            canvases: seq![slate.canvas],
            closed: Seq::new(
                count,
                |i: int|
                    if slate.open[i] {
                        0int
                    } else {
                        -1int
                    },
            ),
        };
        lemma_done(u, slate, stops, 0);
        u
    } else {
        let proposals = (card.propose)(at, slate.canvas);
        let last = left == 1;
        let next = step(proposals, slate, threshold, last);
        lemma_step(proposals, slate, threshold, last);
        let v = lemma_unmasking(card, at, next, stops, threshold, (left - 1) as nat);
        let u = Unmasking {
            canvases: seq![slate.canvas] + v.canvases,
            closed: Seq::new(
                count,
                |i: int|
                    if !slate.open[i] {
                        -1int
                    } else if !next.open[i] {
                        0int
                    } else {
                        v.closed[i] + 1
                    },
            ),
        };
        let n = u.forwards();
        assert(n == v.forwards() + 1);
        assert forall|t: int| 0 <= t <= v.forwards() implies u.canvases[t + 1]
            == #[trigger] v.canvases[t] by {}
        assert forall|i: int| 0 <= i < count implies #[trigger] v.closed[i] >= 0 <==> next.open[i] by {}
        // The numbers of later forwards are one more.
        assert forall|t: int, i: int| 0 <= t && 0 <= i < count implies (u.open(t + 1, i)
            <==> #[trigger] v.open(t, i)) && (u.closed[i] == t + 1 <==> v.closed[i] == t) by {
            assert(v.closed[i] >= 0 <==> next.open[i]);
        }
        assert forall|t: int| 0 <= t <= n implies (#[trigger] u.canvases[t]).len() == count by {
            if t > 0 {
                assert(u.canvases[t] == v.canvases[t - 1]);
            }
        }
        assert forall|i: int| 0 <= i < count implies #[trigger] u.closed[i] <= n by {
            assert(v.closed[i] <= v.forwards());
        }
        assert(u.canvases[1] == v.canvases[0]);
        assert(u.canvases[0] == slate.canvas);
        assert forall|t: int| 0 <= t < n implies #[trigger] u.takes(card, at, t) by {
            lemma_takes(card, at, u, v, slate, next, t);
        }
        assert forall|t: int| 0 <= t < n && t + 1 < left implies #[trigger] u.chooses(
            card,
            at,
            threshold,
            t,
        ) by {
            if t == 0 {
                lemma_chooses_first(card, at, threshold, u, slate, next);
            } else {
                assert(v.chooses(card, at, threshold, t - 1));
                lemma_chooses_later(card, at, threshold, u, v, t);
            }
        }
        if n == left {
            assert forall|i: int| 0 <= i < count implies #[trigger] u.closed[i] < n by {
                if v.forwards() > 0 {
                    assert(v.closed[i] < v.forwards());
                }
            }
        }
        lemma_done(u, slate, stops, 0);
        assert forall|t: int| 0 <= t < n implies !#[trigger] u.decided(stops, t) by {
            if t > 0 {
                assert(!v.decided(stops, t - 1));
                lemma_decided_later(u, v, stops, t);
            }
        }
        if n < left {
            assert(v.decided(stops, v.forwards()));
            lemma_decided_later(u, v, stops, n);
        }
        let end = unmask(card, at, slate, stops, threshold, left).0;
        assert(end == unmask(card, at, next, stops, threshold, (left - 1) as nat).0);
        assert(u.canvases[n] == v.canvases[v.forwards()]);
        assert forall|i: int| 0 <= i < end.open.len() implies (#[trigger] u.closed[i] >= n
            <==> end.open[i]) by {
            assert(v.closed[i] >= v.forwards() <==> end.open[i]);
            assert(v.closed[i] >= 0 <==> next.open[i]);
        }
        u
    }
}

spec fn later(u: Unmasking, v: Unmasking) -> bool {
    &&& u.canvases.len() == v.canvases.len() + 1
    &&& u.closed.len() == v.closed.len()
    &&& forall|t: int| 0 <= t <= v.forwards() ==> u.canvases[t + 1] == #[trigger] v.canvases[t]
    &&& forall|t: int, i: int|
        0 <= t && 0 <= i < v.closed.len() ==> (u.open(t + 1, i) <==> #[trigger] v.open(t, i)) && (
        u.closed[i] == t + 1 <==> v.closed[i] == t)
}

proof fn lemma_takes(
    card: Card,
    at: Resident,
    u: Unmasking,
    v: Unmasking,
    slate: Slate,
    next: Slate,
    t: int,
)
    requires
        later(u, v),
        0 <= t < u.forwards(),
        u.canvases[0] == slate.canvas,
        v.canvases[0] == next.canvas,
        u.closed.len() == slate.open.len() == next.open.len() == next.canvas.len(),
        forall|i: int|
            0 <= i < u.closed.len() ==> (#[trigger] u.closed[i] == 0 <==> slate.open[i]
                && !next.open[i]),
        forall|i: int|
            0 <= i < u.closed.len() ==> #[trigger] next.canvas[i] == if slate.open[i]
                && !next.open[i] {
                (card.propose)(at, slate.canvas)[i].0
            } else {
                slate.canvas[i]
            },
        t > 0 ==> v.takes(card, at, t - 1),
    ensures
        u.takes(card, at, t),
{
    assert forall|i: int| 0 <= i < u.closed.len() implies #[trigger] u.canvases[t + 1][i]
        == if u.closed[i] == t {
        u.proposal(card, at, t, i).0
    } else {
        u.canvases[t][i]
    } by {
        assert(u.canvases[t + 1] == v.canvases[t]);
        if t == 0 {
            assert(next.canvas[i] == v.canvases[0][i]);
            assert(u.closed[i] == 0 <==> slate.open[i] && !next.open[i]);
        } else {
            assert(u.canvases[(t - 1) + 1] == v.canvases[t - 1]);
            assert(v.canvases[(t - 1) + 1][i] == if v.closed[i] == t - 1 {
                v.proposal(card, at, t - 1, i).0
            } else {
                v.canvases[t - 1][i]
            });
            assert(u.open((t - 1) + 1, i) <==> v.open(t - 1, i));
        }
    }
}

proof fn lemma_chooses_first(
    card: Card,
    at: Resident,
    threshold: u64,
    u: Unmasking,
    slate: Slate,
    next: Slate,
)
    requires
        slate.canvas.len() == slate.open.len(),
        u.canvases[0] == slate.canvas,
        u.closed.len() == slate.open.len(),
        next == step((card.propose)(at, slate.canvas), slate, threshold, false),
        forall|i: int|
            0 <= i < u.closed.len() ==> (#[trigger] u.closed[i] == 0 <==> slate.open[i]
                && !next.open[i]),
        forall|i: int| 0 <= i < u.closed.len() ==> (#[trigger] u.closed[i] > 0 <==> next.open[i]),
    ensures
        u.chooses(card, at, threshold, 0),
{
    let proposals = (card.propose)(at, slate.canvas);
    lemma_step(proposals, slate, threshold, false);
    assert forall|i: int| 0 <= i < u.closed.len() && #[trigger] u.closed[i] == 0 implies u.proposal(
        card,
        at,
        0,
        i,
    ).1 >= threshold || forall|j: int|
        0 <= j < u.closed.len() && j != i && #[trigger] u.open(0, j) ==> leads(
            u.proposal(card, at, 0, i).1,
            i,
            u.proposal(card, at, 0, j).1,
            j,
        ) by {
        assert(slate.open[i] && !next.open[i]);
        if proposals[i].1 < threshold {
            assert forall|j: int| 0 <= j < u.closed.len() && j != i && #[trigger] u.open(
                0,
                j,
            ) implies leads(
                u.proposal(card, at, 0, i).1,
                i,
                u.proposal(card, at, 0, j).1,
                j,
            ) by {
                assert(u.closed[j] == 0 || u.closed[j] > 0);
                assert(slate.open[j]);
            }
        }
    }
    assert forall|i: int| 0 <= i < u.closed.len() && #[trigger] u.closed[i] > 0 implies exists|
        j: int,
    |
        0 <= j < u.closed.len() && #[trigger] u.closed[j] == 0 && u.proposal(card, at, 0, j).1
            >= u.proposal(card, at, 0, i).1 by {
        assert(next.open[i]);
        let j = choose|j: int|
            0 <= j < slate.open.len() && slate.open[j] && !#[trigger] next.open[j]
                && proposals[j].1 >= proposals[i].1;
        assert(u.closed[j] == 0);
    }
}

proof fn lemma_chooses_later(
    card: Card,
    at: Resident,
    threshold: u64,
    u: Unmasking,
    v: Unmasking,
    t: int,
)
    requires
        later(u, v),
        0 < t < u.forwards(),
        v.chooses(card, at, threshold, t - 1),
    ensures
        u.chooses(card, at, threshold, t),
{
    let s = t - 1;
    assert(u.canvases[s + 1] == v.canvases[s]);
    assert forall|i: int| 0 <= i < u.closed.len() implies u.proposal(card, at, t, i)
        == #[trigger] v.proposal(card, at, s, i) by {}
    assert forall|i: int| 0 <= i < u.closed.len() implies (u.open(t, i) <==> #[trigger] v.open(
        s,
        i,
    )) && (u.closed[i] == t <==> v.closed[i] == s) by {
        assert(u.open(s + 1, i) <==> v.open(s, i));
    }
    assert forall|i: int| 0 <= i < u.closed.len() && #[trigger] u.closed[i] == t implies u.proposal(
        card,
        at,
        t,
        i,
    ).1 >= threshold || forall|j: int|
        0 <= j < u.closed.len() && j != i && #[trigger] u.open(t, j) ==> leads(
            u.proposal(card, at, t, i).1,
            i,
            u.proposal(card, at, t, j).1,
            j,
        ) by {
        assert(v.open(s, i));
        assert(v.closed[i] == s);
        assert(u.proposal(card, at, t, i) == v.proposal(card, at, s, i));
        if u.proposal(card, at, t, i).1 < threshold {
            assert forall|j: int| 0 <= j < u.closed.len() && j != i && #[trigger] u.open(
                t,
                j,
            ) implies leads(
                u.proposal(card, at, t, i).1,
                i,
                u.proposal(card, at, t, j).1,
                j,
            ) by {
                assert(v.open(s, j));
                assert(u.proposal(card, at, t, j) == v.proposal(card, at, s, j));
            }
        }
    }
    assert forall|i: int| 0 <= i < u.closed.len() && #[trigger] u.closed[i] > t implies u.proposal(
        card,
        at,
        t,
        i,
    ).1 < threshold by {
        assert(u.open(t, i));
        assert(v.open(s, i));
        assert(v.closed[i] > s);
        assert(u.proposal(card, at, t, i) == v.proposal(card, at, s, i));
    }
    assert forall|i: int| 0 <= i < u.closed.len() && #[trigger] u.closed[i] > t implies exists|
        j: int,
    |
        0 <= j < u.closed.len() && #[trigger] u.closed[j] == t && u.proposal(card, at, t, j).1
            >= u.proposal(card, at, t, i).1 by {
        assert(u.open(t, i));
        assert(v.open(s, i));
        assert(v.closed[i] > s);
        let j = choose|j: int|
            0 <= j < v.closed.len() && #[trigger] v.closed[j] == s && v.proposal(card, at, s, j).1
                >= v.proposal(card, at, s, i).1;
        assert(v.open(s, j));
        assert(u.closed[j] == t);
        assert(u.proposal(card, at, t, j) == v.proposal(card, at, s, j));
        assert(u.proposal(card, at, t, i) == v.proposal(card, at, s, i));
    }
}

proof fn lemma_decided_later(u: Unmasking, v: Unmasking, stops: Seq<i32>, t: int)
    requires
        later(u, v),
        0 < t <= u.forwards(),
    ensures
        u.decided(stops, t) <==> v.decided(stops, t - 1),
{
    let s = t - 1;
    assert(u.canvases[s + 1] == v.canvases[s]);
    assert forall|i: int| 0 <= i < u.closed.len() implies (#[trigger] u.open(t, i) <==> v.open(s, i)) by {
        assert(u.open(s + 1, i) <==> v.open(s, i));
    }
    if u.decided(stops, t) {
        if forall|i: int| 0 <= i < u.closed.len() ==> !#[trigger] u.open(t, i) {
            assert forall|i: int| 0 <= i < v.closed.len() implies !#[trigger] v.open(s, i) by {
                assert(!u.open(t, i));
            }
        } else {
            let p = choose|p: int|
                0 <= p < u.closed.len() && #[trigger] stops.contains(u.canvases[t][p])
                    && forall|i: int| 0 <= i <= p ==> !#[trigger] u.open(t, i);
            assert(stops.contains(v.canvases[s][p]));
            assert forall|i: int| 0 <= i <= p implies !#[trigger] v.open(s, i) by {
                assert(!u.open(t, i));
            }
        }
    }
    if v.decided(stops, s) {
        if forall|i: int| 0 <= i < v.closed.len() ==> !#[trigger] v.open(s, i) {
            assert forall|i: int| 0 <= i < u.closed.len() implies !#[trigger] u.open(t, i) by {
                assert(!v.open(s, i));
            }
        } else {
            let p = choose|p: int|
                0 <= p < v.closed.len() && #[trigger] stops.contains(v.canvases[s][p])
                    && forall|i: int| 0 <= i <= p ==> !#[trigger] v.open(s, i);
            assert(stops.contains(u.canvases[t][p]));
            assert forall|i: int| 0 <= i <= p implies !#[trigger] u.open(t, i) by {
                assert(!v.open(s, i));
            }
        }
    }
}

/// The size of a block: no more than the model takes at once, and than the budget leaves.
pub open spec fn fits(blocks: Blocks, text: Seq<i32>, count: nat) -> bool {
    &&& count <= blocks.block && count <= blocks.max_canvas && count <= blocks.batch_size
    &&& text.len() + count <= blocks.budget
    &&& count == blocks.block || count == blocks.max_canvas || count == blocks.batch_size
        || text.len() + count == blocks.budget
}

/// A block was made after a text: from the model's next token and masks, it was unmasked by the
/// confidence of the model's proposals, in at most so many forwards (one at least), and gave these
/// tokens.
pub open spec fn makes(
    u: Unmasking,
    card: Card,
    at: Resident,
    stops: Seq<i32>,
    blocks: Blocks,
    tokens: Seq<i32>,
    stopped: bool,
) -> bool {
    &&& u.starts((card.next)(at), blocks.mask)
    &&& u.runs(
        card,
        at,
        stops,
        blocks.threshold,
        if blocks.max_steps == 0 {
            1
        } else {
            blocks.max_steps as int
        },
    )
    &&& u.gives(stops, tokens, stopped)
}

/// A masked generation starts empty and grows block by block: each is made after the prompt and all
/// the text before it, and generation ends at a stop marker or when the budget is used up. Forwards
/// count the prefill of each block and the forwards that unmask it.
pub proof fn law_blocks_are_unmasked_by_confidence(
    card: Card,
    parts: Seq<Part>,
    start: Seq<i32>,
    stops: Seq<i32>,
    blocks: Blocks,
    n: nat,
)
    requires
        blocks.block > 0,
        blocks.max_canvas > 0,
        blocks.batch_size > 0,
    ensures
        ({
            let before = run_of(card, parts, start, stops, blocks, n);
            let after = run_of(card, parts, start, stops, blocks, n + 1);
            let at = Resident { parts, suffix: start + before.text };
            &&& n == 0 ==> before.text.len() == 0 && !before.stopped && before.input == 0
                && before.forwards == 0
            &&& before.stopped || before.text.len() >= blocks.budget ==> after == before
            &&& !before.stopped && before.text.len() < blocks.budget ==> exists|u: Unmasking| {
                &&& u.shaped(u.closed.len()) && fits(blocks, before.text, u.closed.len())
                &&& before.text.len() <= after.text.len()
                &&& after.text.take(before.text.len() as int) == before.text
                &&& #[trigger] makes(
                    u,
                    card,
                    at,
                    stops,
                    blocks,
                    after.text.skip(before.text.len() as int),
                    after.stopped,
                )
                &&& after.input == before.input + total_size(parts) + start.len()
                    + before.text.len()
                &&& after.forwards == before.forwards + 1 + u.forwards()
            }
        }),
{
    let before = run_of(card, parts, start, stops, blocks, n);
    let after = run_of(card, parts, start, stops, blocks, n + 1);
    let at = Resident { parts, suffix: start + before.text };
    if !before.stopped && before.text.len() < blocks.budget {
        let first = (card.next)(at);
        let count = blocks.count(before.text);
        let slate = fresh(first, count, blocks.mask);
        let u = lemma_unmasking(card, at, slate, stops, blocks.threshold, blocks.steps());
        let end = unmask(card, at, slate, stops, blocks.threshold, blocks.steps()).0;
        let (run, stopped, steps) = block_after(card, parts, start, before.text, stops, blocks);
        let k = settled(end.open) as int;
        let front = end.canvas.take(k);
        assert(u.canvases[u.forwards()].len() == count);
        lemma_settled(end.open);
        lemma_before_stop(front, stops);
        let m = before_stop(front, stops) as int;
        assert(run == end.canvas.take(m));
        assert(after.text.skip(before.text.len() as int) =~= run);
        assert(after.text.take(before.text.len() as int) =~= before.text);
        assert(u.starts(first, blocks.mask)) by {
            assert forall|i: int| 0 <= i < count implies (#[trigger] u.closed[i] < 0 <==> i == 0) by {
                assert(u.closed[i] >= 0 <==> slate.open[i]);
            }
        }
        assert(u.gives(stops, run, stopped)) by {
            assert forall|i: int| 0 <= i < run.len() implies #[trigger] run[i]
                == u.canvases[u.forwards()][i] && !stops.contains(run[i]) by {
                assert(front[i] == end.canvas[i]);
            }
            assert forall|i: int| 0 <= i < run.len() implies #[trigger] u.closed[i] < u.forwards() by {
                assert(!end.open[i]);
                assert(u.closed[i] >= u.forwards() <==> end.open[i]);
            }
            if m < count {
                assert(u.closed[m] >= u.forwards() <==> end.open[m]);
                assert(u.closed[m] <= u.forwards());
            }
            if stopped {
                assert(!end.open[m]);
                assert(front[m] == end.canvas[m]);
            }
        }
        assert(makes(
            u,
            card,
            at,
            stops,
            blocks,
            after.text.skip(before.text.len() as int),
            after.stopped,
        ));
        assert(fits(blocks, before.text, count));
    }
}

} // verus!
