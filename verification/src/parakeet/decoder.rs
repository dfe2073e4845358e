//! Greedy token-and-duration decoding: a walk over encoder frames, and the windows of frames that
//! are scored for it.
use crate::engine::generated::clamp;
use vstd::prelude::*;

verus! {

/// Frames scored per round trip to the device.
pub const LOOKAHEAD: usize = 32;

/// One step of greedy decoding: the choice at a frame. The log probability is kept by its bits.
#[derive(Clone, Copy, Debug, PartialEq, Eq, Structural)]
pub struct Choice {
    pub token: usize,
    pub logprob: u32,
    pub duration: usize,
}

/// An emitted token at its encoder frame, with the frames it spans (at least one).
#[derive(Clone, Copy, Debug, PartialEq, Eq, Structural)]
pub struct Emission {
    pub token: usize,
    pub frame: usize,
    pub frames: usize,
    pub logprob: u32,
}

/// Where a walk stands.
#[verifier::ext_equal]
pub struct At {
    /// The frame.
    pub t: nat,
    /// Tokens emitted at this frame since it was reached.
    pub at_frame: nat,
    pub emitted: Seq<Emission>,
}

/// A duration of at least one frame.
pub open spec fn span_of(duration: usize) -> nat {
    if duration > 0 {
        duration as nat
    } else {
        1
    }
}

/// A blank advances by its duration (at least one frame). A token is emitted at its frame and
/// advances by its duration, possibly zero, at most `max_symbols` times in a row at one frame.
pub open spec fn stepped(at: At, blank: usize, max_symbols: usize, c: Choice) -> At {
    let onward = clamp(at.t + span_of(c.duration)) as nat;
    if c.token == blank {
        At { t: onward, at_frame: 0, emitted: at.emitted }
    } else {
        let emitted = at.emitted.push(
            Emission {
                token: c.token,
                frame: at.t as usize,
                frames: span_of(c.duration) as usize,
                logprob: c.logprob,
            },
        );
        if c.duration > 0 || at.at_frame + 1 >= max_symbols {
            At { t: onward, at_frame: 0, emitted }
        } else {
            At { t: at.t, at_frame: at.at_frame + 1, emitted }
        }
    }
}

/// The start of a walk.
pub open spec fn start() -> At {
    At { t: 0, at_frame: 0, emitted: Seq::empty() }
}

/// The walk after choices.
pub open spec fn walked(choices: Seq<Choice>, blank: usize, max_symbols: usize) -> At
    decreases choices.len(),
{
    if choices.len() == 0 {
        start()
    } else {
        stepped(
            walked(choices.drop_last(), blank, max_symbols),
            blank,
            max_symbols,
            choices.last(),
        )
    }
}

/// Choices that end a walk over `frames`: every choice was made at a frame before the end, and
/// after the last there is none left.
pub open spec fn ends_walk(
    choices: Seq<Choice>,
    frames: usize,
    blank: usize,
    max_symbols: usize,
) -> bool {
    &&& walked(choices, blank, max_symbols).t >= frames
    &&& forall|k: int|
        0 <= k < choices.len() ==> (#[trigger] walked(
            choices.take(k),
            blank,
            max_symbols,
        )).t < frames
}

/// A walk over encoder frames.
#[derive(Debug)]
pub struct Walk {
    pub frames: usize,
    pub blank: usize,
    pub max_symbols: usize,
    pub t: usize,
    pub at_frame: usize,
    pub emitted: Vec<Emission>,
}

impl View for Walk {
    type V = At;

    open spec fn view(&self) -> At {
        At { t: self.t as nat, at_frame: self.at_frame as nat, emitted: self.emitted@ }
    }
}

impl Walk {
    /// What stays while walking, and a bound on repeated tokens.
    pub open spec fn sound(self) -> bool {
        self.at_frame < self.max_symbols || self.at_frame == 0
    }

    pub fn new(frames: usize, blank: usize, max_symbols: usize) -> (r: Self)
        ensures
            r@ == start(),
            r.frames == frames,
            r.blank == blank,
            r.max_symbols == max_symbols,
            r.sound(),
    {
        let walk: Walk = Walk {
            frames,
            blank,
            max_symbols,
            t: 0,
            at_frame: 0,
            emitted: Vec::new(),
        };
        assert(walk@.emitted =~= Seq::empty());
        walk
    }

    /// Takes the choice at the current frame.
    pub fn step(&mut self, choice: Choice)
        requires
            old(self).sound(),
        ensures
            final(self).sound(),
            final(self)@ == stepped(
                old(self)@,
                old(self).blank,
                old(self).max_symbols,
                choice,
            ),
            final(self).frames == old(self).frames,
            final(self).blank == old(self).blank,
            final(self).max_symbols == old(self).max_symbols,
    {
        let span: usize = if choice.duration > 0 {
            choice.duration
        } else {
            1
        };
        if choice.token == self.blank {
            self.t = self.t.saturating_add(span);
            self.at_frame = 0;
            return ;
        }
        self.emitted.push(
            Emission {
                token: choice.token,
                frame: self.t,
                frames: span,
                logprob: choice.logprob,
            },
        );
        if choice.duration > 0 || self.max_symbols <= 1 || self.at_frame >= self.max_symbols - 1 {
            self.t = self.t.saturating_add(span);
            self.at_frame = 0;
        } else {
            self.at_frame = self.at_frame + 1;
        }
    }
}

/// A choice, with the frame and the emissions it was made at.
#[verifier::ext_equal]
pub struct Asked {
    pub frame: nat,
    pub emitted: Seq<Emission>,
    pub choice: Choice,
}

/// Makes the choice at a frame after the tokens emitted so far.
pub trait Chooser {
    /// The choices made so far.
    open spec fn asked(&self) -> Seq<Asked> {
        arbitrary()
    }

    fn pick(&mut self, frame: usize, emitted: &Vec<Emission>) -> (r: Choice)
        ensures
            final(self).asked() == old(self).asked().push(
                Asked { frame: frame as nat, emitted: emitted@, choice: r },
            ),
    ;
}

/// Choices that depend on the frame alone; past the last of them, blanks.
pub struct ByFrame {
    choices: Vec<Choice>,
    blank: usize,
    made: Ghost<Seq<Asked>>,
}

impl ByFrame {
    /// The choice at a frame.
    pub closed spec fn at(&self, frame: nat) -> Choice {
        if frame < self.choices@.len() {
            self.choices@[frame as int]
        } else {
            Choice { token: self.blank, logprob: 0, duration: 1 }
        }
    }

    pub fn new(choices: Vec<Choice>, blank: usize) -> (r: Self)
        ensures
            r.asked() == Seq::<Asked>::empty(),
            forall|frame: nat| #[trigger]
                r.at(frame) == if frame < choices@.len() {
                    choices@[frame as int]
                } else {
                    Choice { token: blank, logprob: 0, duration: 1 }
                },
    {
        ByFrame { choices, blank, made: Ghost(Seq::empty()) }
    }
}

impl Chooser for ByFrame {
    closed spec fn asked(&self) -> Seq<Asked> {
        self.made@
    }

    fn pick(&mut self, frame: usize, emitted: &Vec<Emission>) -> (r: Choice)
        ensures
            r == old(self).at(frame as nat),
            forall|k: nat| #[trigger] final(self).at(k) == old(self).at(k),
    {
        let choice: Choice = if frame < self.choices.len() {
            self.choices[frame]
        } else {
            Choice { token: self.blank, logprob: 0, duration: 1 }
        };
        self.made = Ghost(
            self.made@.push(Asked { frame: frame as nat, emitted: emitted@, choice }),
        );
        choice
    }
}

/// Each choice, asked for where the choices before it led.
pub open spec fn questions(choices: Seq<Choice>, blank: usize, max_symbols: usize) -> Seq<Asked> {
    Seq::new(
        choices.len(),
        |k: int|
            {
                let at = walked(choices.take(k), blank, max_symbols);
                Asked { frame: at.t, emitted: at.emitted, choice: choices[k] }
            },
    )
}

/// Walks `frames` frames with the choices of `chooser`.
pub fn walk<C: Chooser>(frames: usize, blank: usize, max_symbols: usize, chooser: &mut C) -> (r: Vec<
    Emission,
>)
    ensures
        exists|choices: Seq<Choice>| #[trigger]
            ends_walk(choices, frames, blank, max_symbols) && r@ == walked(
                choices,
                blank,
                max_symbols,
            ).emitted && final(chooser).asked() == old(chooser).asked() + questions(
                choices,
                blank,
                max_symbols,
            ),
{
    let mut state: Walk = Walk::new(frames, blank, max_symbols);
    let ghost mut choices: Seq<Choice> = Seq::empty();
    assert(chooser.asked() =~= chooser.asked() + questions(choices, blank, max_symbols));
    while state.t < frames
        invariant
            chooser.asked() == old(chooser).asked() + questions(choices, blank, max_symbols),
            state.sound(),
            state.frames == frames,
            state.blank == blank,
            state.max_symbols == max_symbols,
            state@ == walked(choices, blank, max_symbols),
            forall|k: int|
                0 <= k < choices.len() ==> (#[trigger] walked(
                    choices.take(k),
                    blank,
                    max_symbols,
                )).t < frames,
        decreases
                (if state.t < frames {
                    frames - state.t
                } else {
                    0
                }),
                (if state.at_frame < max_symbols {
                    max_symbols - state.at_frame
                } else {
                    0
                }),
    {
        let choice: Choice = chooser.pick(state.t, &state.emitted);
        proof {
            let more = choices.push(choice);
            assert(more.drop_last() =~= choices);
            assert forall|k: int| 0 <= k < more.len() implies (#[trigger] walked(
                more.take(k),
                blank,
                max_symbols,
            )).t < frames by {
                if k < choices.len() {
                    assert(more.take(k) =~= choices.take(k));
                } else {
                    assert(more.take(k) =~= choices);
                }
            }
            let longer = questions(more, blank, max_symbols);
            assert forall|k: int| 0 <= k < choices.len() implies longer[k] == questions(
                choices,
                blank,
                max_symbols,
            )[k] by {
                assert(more.take(k) =~= choices.take(k));
            }
            assert(more.take(choices.len() as int) =~= choices);
            assert(chooser.asked() =~= old(chooser).asked() + longer);
            choices = more;
        }
        state.step(choice);
    }
    assert(ends_walk(choices, frames, blank, max_symbols));
    state.emitted
}

// ---------------------------------------------------------------------------------------------
// Laws
// ---------------------------------------------------------------------------------------------

/// Emissions in order of their frames, each of at least one frame.
pub open spec fn ordered(emitted: Seq<Emission>) -> bool {
    &&& forall|i: int, j: int|
        0 <= i < j < emitted.len() ==> (#[trigger] emitted[i]).frame <= (
        #[trigger] emitted[j]).frame
    &&& forall|i: int| 0 <= i < emitted.len() ==> (#[trigger] emitted[i]).frames >= 1
}

/// How many of the last emissions are at frame `t`.
pub open spec fn run_at(emitted: Seq<Emission>, t: nat) -> nat
    decreases emitted.len(),
{
    if emitted.len() > 0 && emitted.last().frame == t {
        1 + run_at(emitted.drop_last(), t)
    } else {
        0
    }
}

/// Every emission was at a frame before the end.
proof fn lemma_walk(choices: Seq<Choice>, frames: usize, blank: usize, max_symbols: usize)
    requires
        max_symbols > 0,
        forall|k: int|
            0 <= k < choices.len() ==> (#[trigger] walked(
                choices.take(k),
                blank,
                max_symbols,
            )).t < frames,
    ensures
        ({
            let at = walked(choices, blank, max_symbols);
            &&& ordered(at.emitted)
            &&& at.at_frame < max_symbols
            &&& run_at(at.emitted, at.t) == at.at_frame
            &&& forall|i: int|
                0 <= i < at.emitted.len() ==> (#[trigger] at.emitted[i]).frame < frames
                    && at.emitted[i].frame <= at.t
            &&& forall|n: int|
                0 <= n <= at.emitted.len() ==> run_at(
                    #[trigger] at.emitted.take(n),
                    at.emitted[n - 1].frame as nat,
                ) <= max_symbols || n == 0
        }),
    decreases choices.len(),
{
    if choices.len() > 0 {
        let before = choices.drop_last();
        assert forall|k: int| 0 <= k < before.len() implies (#[trigger] walked(
            before.take(k),
            blank,
            max_symbols,
        )).t < frames by {
            assert(before.take(k) =~= choices.take(k));
        }
        lemma_walk(before, frames, blank, max_symbols);
        assert(choices.take(choices.len() - 1) =~= before);
        let old_at = walked(before, blank, max_symbols);
        let c = choices.last();
        let at = walked(choices, blank, max_symbols);
        assert(at == stepped(old_at, blank, max_symbols, c));
        if c.token != blank {
            let e = at.emitted.last();
            assert(at.emitted.drop_last() =~= old_at.emitted);
            assert(e.frame == old_at.t);
            assert(run_at(at.emitted, old_at.t) == 1 + old_at.at_frame);
            assert forall|n: int| 0 <= n <= at.emitted.len() implies run_at(
                #[trigger] at.emitted.take(n),
                at.emitted[n - 1].frame as nat,
            ) <= max_symbols || n == 0 by {
                if n < at.emitted.len() {
                    assert(at.emitted.take(n) =~= old_at.emitted.take(n));
                } else {
                    assert(at.emitted.take(n) =~= at.emitted);
                }
            }
            if at.t != old_at.t {
                assert(run_at(at.emitted, at.t) == 0);
            }
        } else {
            if old_at.emitted.len() > 0 {
                assert(old_at.emitted.last().frame <= old_at.t);
            }
        }
    }
}

/// Emissions come in the order of their frames, all of them before the end and each of at least
/// one frame; and no frame has more than `max_symbols` in a row.
pub proof fn law_emissions_are_ordered_and_bounded(
    choices: Seq<Choice>,
    frames: usize,
    blank: usize,
    max_symbols: usize,
)
    requires
        max_symbols > 0,
        ends_walk(choices, frames, blank, max_symbols),
    ensures
        ({
            let emitted = walked(choices, blank, max_symbols).emitted;
            &&& ordered(emitted)
            &&& forall|i: int|
                0 <= i < emitted.len() ==> (#[trigger] emitted[i]).frame < frames
            &&& forall|n: int|
                0 < n <= emitted.len() ==> run_at(
                    #[trigger] emitted.take(n),
                    emitted[n - 1].frame as nat,
                ) <= max_symbols
        }),
{
    lemma_walk(choices, frames, blank, max_symbols);
}

/// Each choice uses up a place: a frame has `max_symbols` of them.
proof fn lemma_places(choices: Seq<Choice>, frames: usize, blank: usize, max_symbols: usize)
    requires
        max_symbols > 0,
        forall|k: int|
            0 <= k < choices.len() ==> (#[trigger] walked(
                choices.take(k),
                blank,
                max_symbols,
            )).t < frames,
    ensures
        ({
            let at = walked(choices, blank, max_symbols);
            &&& at.at_frame < max_symbols
            &&& choices.len() <= at.t * max_symbols + at.at_frame
            &&& choices.len() <= frames * max_symbols
            &&& forall|i: int|
                0 <= i < at.emitted.len() ==> (#[trigger] at.emitted[i]).token != blank
        }),
    decreases choices.len(),
{
    if choices.len() > 0 {
        let before = choices.drop_last();
        assert forall|k: int| 0 <= k < before.len() implies (#[trigger] walked(
            before.take(k),
            blank,
            max_symbols,
        )).t < frames by {
            assert(before.take(k) =~= choices.take(k));
        }
        lemma_places(before, frames, blank, max_symbols);
        assert(choices.take(choices.len() - 1) =~= before);
        let was = walked(before, blank, max_symbols);
        let at = walked(choices, blank, max_symbols);
        assert(was.t < frames);
        assert((was.t + 1) * max_symbols == was.t * max_symbols + max_symbols) by (nonlinear_arith);
        assert((was.t + 1) * max_symbols <= frames * max_symbols) by (nonlinear_arith)
            requires
                was.t + 1 <= frames,
        ;
        if at.t != was.t {
            assert(at.t >= was.t + 1);
            assert(at.t * max_symbols >= (was.t + 1) * max_symbols) by (nonlinear_arith)
                requires
                    at.t >= was.t + 1,
            ;
        }
    }
}

/// A walk asks for at most `max_symbols` choices per frame, and never emits a blank.
pub proof fn law_walks_end_and_emit_no_blank(
    choices: Seq<Choice>,
    frames: usize,
    blank: usize,
    max_symbols: usize,
)
    requires
        max_symbols > 0,
        ends_walk(choices, frames, blank, max_symbols),
    ensures
        choices.len() <= frames * max_symbols,
        forall|i: int|
            0 <= i < walked(choices, blank, max_symbols).emitted.len() ==> (#[trigger] walked(
                choices,
                blank,
                max_symbols,
            ).emitted[i]).token != blank,
{
    lemma_places(choices, frames, blank, max_symbols);
}

// ---------------------------------------------------------------------------------------------
// Windows
// ---------------------------------------------------------------------------------------------

/// What decoding needs next.
#[derive(Clone, Copy, Debug, PartialEq, Eq, Structural)]
pub enum Action {
    /// Advance the prediction by an emitted token.
    Predict(usize),
    /// Score the frames `from..from + LOOKAHEAD` against the prediction.
    Score { from: usize },
    /// Take a choice that was scored.
    Take(Choice),
    Done,
}

/// Decoding with the choices of a window of frames: blanks jump ahead within it, and only an
/// emitted token (which changes the prediction) makes it stale.
#[derive(Debug)]
pub struct Decoding {
    pub walk: Walk,
    /// Emitted tokens that the prediction has seen.
    pub predicted: usize,
    /// The first frame of the window.
    pub start: usize,
    pub window: Vec<Choice>,
}

impl Decoding {
    /// The prediction is at most one token behind.
    pub open spec fn sound(self) -> bool {
        &&& self.walk.sound()
        &&& self.predicted <= self.walk.emitted@.len() <= self.predicted + 1
        &&& self.window@.len() <= LOOKAHEAD
    }

    /// The window holds the choice at frame `t`.
    pub open spec fn covers(self, t: int) -> bool {
        self.start <= t < self.start + self.window@.len()
    }

    pub fn new(frames: usize, blank: usize, max_symbols: usize) -> (r: Self)
        ensures
            r.sound(),
            r.walk@ == start(),
            r.walk.frames == frames,
            r.walk.blank == blank,
            r.walk.max_symbols == max_symbols,
            r.predicted == 0,
            r.window@.len() == 0,
    {
        Decoding {
            walk: Walk::new(frames, blank, max_symbols),
            predicted: 0,
            start: 0,
            window: Vec::new(),
        }
    }

    /// What is needed next. A choice is taken only at its own frame, and only where the
    /// prediction has seen every emitted token.
    pub fn next(&self) -> (r: Action)
        requires
            self.sound(),
        ensures
            r == Action::Done <==> self.walk.t >= self.walk.frames,
            r matches Action::Predict(token) ==> self.walk.t < self.walk.frames
                && self.walk.emitted@.len() == self.predicted + 1 && token
                == self.walk.emitted@.last().token,
            r matches Action::Score { from } ==> self.walk.t < self.walk.frames
                && self.walk.emitted@.len() == self.predicted && !self.covers(self.walk.t as int)
                && from == self.walk.t,
            r matches Action::Take(choice) ==> self.walk.t < self.walk.frames
                && self.walk.emitted@.len() == self.predicted && self.covers(self.walk.t as int)
                && choice == self.window@[self.walk.t - self.start],
    {
        let t: usize = self.walk.t;
        if t >= self.walk.frames {
            return Action::Done;
        }
        if self.walk.emitted.len() > self.predicted {
            return Action::Predict(self.walk.emitted[self.walk.emitted.len() - 1].token);
        }
        if t < self.start || t - self.start >= self.window.len() {
            return Action::Score { from: t };
        }
        Action::Take(self.window[t - self.start])
    }

    /// The prediction has seen the last token: choices scored before are stale.
    pub fn predict(&mut self)
        requires
            old(self).sound(),
            old(self).walk.emitted@.len() == old(self).predicted + 1,
        ensures
            final(self).sound(),
            final(self).walk == old(self).walk,
            final(self).predicted == old(self).predicted + 1,
            final(self).window@.len() == 0,
    {
        self.predicted = self.walk.emitted.len();
        self.window.clear();
    }

    /// The choices of frames from the current one on.
    pub fn score(&mut self, choices: Vec<Choice>)
        requires
            old(self).sound(),
            0 < choices@.len() <= LOOKAHEAD,
        ensures
            final(self).sound(),
            final(self).walk == old(self).walk,
            final(self).predicted == old(self).predicted,
            final(self).start == old(self).walk.t,
            final(self).window@ == choices@,
            final(self).covers(old(self).walk.t as int),
    {
        self.start = self.walk.t;
        self.window = choices;
    }

    /// Takes the choice of the window at the current frame.
    pub fn take(&mut self)
        requires
            old(self).sound(),
            old(self).walk.emitted@.len() == old(self).predicted,
            old(self).covers(old(self).walk.t as int),
        ensures
            final(self).sound(),
            final(self).walk@ == stepped(
                old(self).walk@,
                old(self).walk.blank,
                old(self).walk.max_symbols,
                old(self).window@[old(self).walk.t - old(self).start],
            ),
            final(self).walk.frames == old(self).walk.frames,
            final(self).walk.blank == old(self).walk.blank,
            final(self).walk.max_symbols == old(self).walk.max_symbols,
            final(self).predicted == old(self).predicted,
            final(self).start == old(self).start,
            final(self).window == old(self).window,
    {
        let choice: Choice = self.window[self.walk.t - self.start];
        self.walk.step(choice);
    }
}

/// What one more choice does: a blank emits nothing and goes on by its duration, by one frame at
/// least; a token is emitted where the walk stands, with its own score, and the walk goes on by its
/// duration, or stays where that is zero, but not after as many tokens in a row as a frame may have.
pub proof fn law_choices_move_the_walk(
    choices: Seq<Choice>,
    blank: usize,
    max_symbols: usize,
    c: Choice,
)
    requires
        walked(choices, blank, max_symbols).t + c.duration + 1 <= usize::MAX,
    ensures
        ({
            let before = walked(choices, blank, max_symbols);
            let after = walked(choices.push(c), blank, max_symbols);
            &&& choices.len() == 0 ==> before.t == 0 && before.emitted.len() == 0
            &&& c.token == blank ==> after.emitted == before.emitted
            &&& c.token != blank ==> {
                &&& after.emitted.len() == before.emitted.len() + 1
                &&& after.emitted.take(before.emitted.len() as int) == before.emitted
                &&& ({
                    let e = after.emitted[before.emitted.len() as int];
                    e.token == c.token && e.frame == before.t && e.logprob == c.logprob
                })
            }
            &&& c.duration > 0 ==> after.t == before.t + c.duration
            &&& c.duration == 0 && c.token == blank ==> after.t == before.t + 1
            &&& c.duration == 0 && c.token != blank ==> after.t == before.t || after.t == before.t
                + 1
            &&& c.duration == 0 && c.token != blank ==> (after.t == before.t <==> before.at_frame + 1
                < max_symbols)
            &&& after.at_frame == if after.t == before.t {
                before.at_frame + 1
            } else {
                0
            }
        }),
{
    let before = walked(choices, blank, max_symbols);
    assert(choices.push(c).drop_last() =~= choices);
    let after = walked(choices.push(c), blank, max_symbols);
    assert(after.emitted.take(before.emitted.len() as int) =~= before.emitted);
}

} // verus!
