//! Tokens generated by one decoding run.
use crate::engine::model::{Card, DiffusionModel, Listener, Sink, Terms};
use vstd::prelude::*;

verus! {

/// `n`, or the largest number a `usize` holds.
pub open spec fn clamp(n: nat) -> usize {
    if n <= usize::MAX {
        n as usize
    } else {
        usize::MAX
    }
}

/// Whether `list` holds `token`.
pub fn holds(list: &Vec<i32>, token: i32) -> (r: bool)
    ensures
        r == list@.contains(token),
{
    let mut i: usize = 0;
    while i < list.len()
        invariant
            i <= list@.len(),
            forall|k: int| 0 <= k < i ==> list@[k] != token,
        decreases list@.len() - i,
    {
        if list[i] == token {
            assert(list@[i as int] == token);
            return true;
        }
        i += 1;
    }
    false
}

/// The number of tokens before the first stop marker: all of them where there is none.
pub open spec fn before_stop(tokens: Seq<i32>, stops: Seq<i32>) -> nat
    decreases tokens.len(),
{
    if tokens.len() == 0 || stops.contains(tokens[0]) {
        0
    } else {
        1 + before_stop(tokens.drop_first(), stops)
    }
}

/// No token before the first stop marker is one, and the one there is.
pub proof fn lemma_before_stop(tokens: Seq<i32>, stops: Seq<i32>)
    ensures
        before_stop(tokens, stops) <= tokens.len(),
        forall|i: int|
            0 <= i < before_stop(tokens, stops) ==> !stops.contains(#[trigger] tokens[i]),
        before_stop(tokens, stops) < tokens.len() ==> stops.contains(
            tokens[before_stop(tokens, stops) as int],
        ),
    decreases tokens.len(),
{
    if tokens.len() > 0 && !stops.contains(tokens[0]) {
        let rest = tokens.drop_first();
        lemma_before_stop(rest, stops);
        assert forall|i: int| 0 <= i < before_stop(tokens, stops) implies !stops.contains(
            #[trigger] tokens[i],
        ) by {
            if i > 0 {
                assert(rest[i - 1] == tokens[i]);
            }
        }
    }
}

/// The number of tokens before the first stop marker, among the first `limit`.
pub fn first_stop(tokens: &Vec<i32>, limit: usize, stops: &Vec<i32>) -> (r: usize)
    requires
        limit <= tokens@.len(),
    ensures
        r == before_stop(tokens@.take(limit as int), stops@),
        r <= limit,
{
    let ghost all = tokens@.take(limit as int);
    let mut i: usize = 0;
    assert(all.skip(0) =~= all);
    while i < limit && !holds(stops, tokens[i])
        invariant
            i <= limit <= tokens@.len(),
            all == tokens@.take(limit as int),
            before_stop(all, stops@) == i + before_stop(all.skip(i as int), stops@),
        decreases limit - i,
    {
        proof {
            assert(all.skip(i as int)[0] == tokens@[i as int]);
            assert(all.skip(i as int).drop_first() =~= all.skip(i + 1));
        }
        i += 1;
    }
    proof {
        if i < limit {
            assert(all.skip(i as int)[0] == tokens@[i as int]);
        }
    }
    i
}

/// Tokens generated by one decoding run, before any stop marker.
#[derive(Debug)]
pub struct Generated {
    pub tokens: Vec<i32>,
    /// A stop marker ended generation.
    pub stopped: bool,
    /// The sink ended generation.
    pub cancelled: bool,
    pub input_tokens: usize,
    pub forwards: usize,
    /// Tokens decided by each causal verification.
    pub accepted: Vec<usize>,
}

impl Generated {
    pub fn new() -> (r: Self)
        ensures
            r.tokens@ == Seq::<i32>::empty(),
            !r.stopped,
            !r.cancelled,
            r.input_tokens == 0,
            r.forwards == 0,
            r.accepted@ == Seq::<usize>::empty(),
    {
        Generated {
            tokens: Vec::new(),
            stopped: false,
            cancelled: false,
            input_tokens: 0,
            forwards: 0,
            accepted: Vec::new(),
        }
    }

    /// Appends decided tokens and passes them on; false when generation should end.
    pub fn push<M: DiffusionModel, L: Listener, S: Sink<M, L>>(
        &mut self,
        tokens: &Vec<i32>,
        stopped: bool,
        model: &M,
        sink: &mut S,
        ear: &mut L,
    ) -> (r: bool)
        requires
            old(sink).sound(model.card(), old(ear).heard(), old(ear).answers()),
            !old(sink).ended(),
            !old(self).cancelled,
        ensures
            final(sink).sound(model.card(), final(ear).heard(), final(ear).answers()),
            final(sink).terms() == old(sink).terms(),
            final(sink).ended() == final(self).cancelled,
            final(self).tokens@ == old(self).tokens@ + tokens@,
            final(self).stopped == stopped,
            tokens@.len() == 0 ==> !final(self).cancelled,
            final(self).input_tokens == old(self).input_tokens,
            final(self).forwards == old(self).forwards,
            final(self).accepted@ == old(self).accepted@,
            r == !(stopped || final(self).cancelled),
            final(sink).received() == old(sink).received() + tokens@,
            final(sink).patient() == old(sink).patient(),
            old(sink).patient() ==> !final(self).cancelled,
    {
        let mut i: usize = 0;
        let ghost before = self.tokens@;
        assert(before + tokens@.take(0) =~= before);
        while i < tokens.len()
            invariant
                i <= tokens@.len(),
                before == old(self).tokens@,
                self.tokens@ == before + tokens@.take(i as int),
                self.cancelled == old(self).cancelled,
                self.input_tokens == old(self).input_tokens,
                self.forwards == old(self).forwards,
                self.accepted == old(self).accepted,
            decreases tokens@.len() - i,
        {
            self.tokens.push(tokens[i]);
            i += 1;
            assert(before + tokens@.take(i as int) =~= (before + tokens@.take(i - 1)).push(
                tokens@[i - 1],
            ));
        }
        assert(tokens@.take(i as int) =~= tokens@);
        self.stopped = stopped;
        if tokens.len() > 0 {
            if !sink.accept(model, tokens.as_slice(), ear) {
                self.cancelled = true;
            }
        } else {
            assert(sink.received() + tokens@ =~= sink.received());
        }
        !(stopped || self.cancelled)
    }
}

/// A listener that takes everything.
pub struct Deaf {
    taken: Ghost<Seq<char>>,
    given: Ghost<Seq<bool>>,
}

impl Deaf {
    pub fn new() -> (r: Self)
        ensures
            r.heard() == Seq::<char>::empty(),
            r.answers() == Seq::<bool>::empty(),
    {
        Deaf { taken: Ghost(Seq::empty()), given: Ghost(Seq::empty()) }
    }
}

impl Listener for Deaf {
    closed spec fn heard(&self) -> Seq<char> {
        self.taken@
    }

    closed spec fn answers(&self) -> Seq<bool> {
        self.given@
    }

    fn on_text(&mut self, text: &str) -> (r: bool)
        ensures
            r,
    {
        self.taken = Ghost(self.taken@ + text@);
        self.given = Ghost(self.given@.push(true));
        true
    }
}

/// A sink that takes everything.
pub struct Silent {
    taken: Ghost<Seq<i32>>,
}

impl Silent {
    /// The tokens it has taken.
    pub closed spec fn tokens(&self) -> Seq<i32> {
        self.taken@
    }

    pub fn new() -> (r: Self)
        ensures
            r.tokens() == Seq::<i32>::empty(),
    {
        Silent { taken: Ghost(Seq::empty()) }
    }
}

impl<M: DiffusionModel, L: Listener> Sink<M, L> for Silent {
    open spec fn received(&self) -> Seq<i32> {
        self.tokens()
    }

    open spec fn patient(&self) -> bool {
        true
    }

    open spec fn ended(&self) -> bool {
        false
    }

    open spec fn terms(&self) -> Terms {
        Terms {
            trim: false,
            stops: Seq::empty(),
            holdback: 0,
            before: Seq::empty(),
            answers: Seq::empty(),
        }
    }

    open spec fn sound(&self, card: Card, heard: Seq<char>, answers: Seq<bool>) -> bool {
        true
    }

    fn accept(&mut self, model: &M, tokens: &[i32], ear: &mut L) -> (r: bool)
        ensures
            r,
    {
        self.taken = Ghost(self.taken@ + tokens@);
        true
    }
}

} // verus!
