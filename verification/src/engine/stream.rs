//! Streaming an answer while its tokens are decided.
use crate::engine::answer::{
    advanced, before_cut, cut_from, fitting, held_back, keeps,
    law_stop_sequences_are_never_streamed, lemma_cut, lemma_fitting, lemma_reaching,
    lemma_size_of_prefix, lemma_stable_is_prefix, passed_on, reaching, settled_size, size, stable,
    trimmed, Answer, AnswerModel,
};
use crate::engine::model::{obeyed, refused, Card, DiffusionModel, Listener, Sink, Terms};
use crate::error::{Error, ErrorModel};
use crate::sequences::texts;
use vstd::prelude::*;

verus! {

/// More tokens keep what was stable in the text: decoding only ever completes characters and
/// appends.
pub open spec fn steady(card: Card, trim: bool) -> bool {
    forall|a: Seq<i32>, b: Seq<i32>|
        #![trigger (card.decode)(a), (card.decode)(b)]
        a.len() <= b.len() && b.take(a.len() as int) == a && (card.decode)(a) is Ok && (card.decode)(
            b,
        ) is Ok ==> keeps(trimmed((card.decode)(a)->Ok_0, trim), trimmed((card.decode)(b)->Ok_0, trim))
}

/// The answer that the tokens received so far make, before the whole of it is passed on.
pub open spec fn growing(
    card: Card,
    tokens: Seq<i32>,
    trim: bool,
    stops: Seq<Seq<char>>,
    answer: AnswerModel,
) -> bool {
    if tokens.len() == 0 {
        answer.text.len() == 0 && answer.emitted == 0 && !answer.stopped && !answer.gone
    } else {
        (card.decode)(tokens) is Ok && {
            let text = trimmed((card.decode)(tokens)->Ok_0, trim);
            answer.text == before_cut(text, stops) && answer.stopped == (cut_from(text, stops, 0)
                is Some)
        }
    }
}

/// What was passed on is the front of the answer: all of it once stopped, otherwise what can no
/// longer change.
pub open spec fn streamed(answer: AnswerModel, holdback: nat, told: Seq<char>) -> bool {
    let n = fitting(answer.text, answer.emitted) as int;
    &&& told == answer.text.take(n)
    &&& size(answer.text.take(n)) == answer.emitted
    &&& answer.emitted == settled_size(answer.text, holdback, answer.stopped)
}

/// The size of what can no longer change grows with the text.
proof fn lemma_settled_grows(text: Seq<char>, later: Seq<char>, holdback: nat)
    requires
        keeps(text, later),
    ensures
        settled_size(text, holdback, false) <= settled_size(later, holdback, false),
{
    lemma_stable_is_prefix(text);
    lemma_stable_is_prefix(later);
    let (known, known2) = (stable(text), stable(later));
    lemma_stable_kept(text, later);
    assert(known =~= later.take(known.len() as int));
    assert(known2 =~= later.take(known2.len() as int));
    lemma_size_of_prefix(later, known.len() as int, known2.len() as int);
    let limit = if size(known) >= holdback { (size(known) - holdback) as nat } else { 0 };
    let limit2 = if size(known2) >= holdback { (size(known2) - holdback) as nat } else { 0 };
    lemma_fitting(text, limit);
    lemma_fitting(later, limit2);
    let m = fitting(text, limit) as int;
    if m > known.len() {
        lemma_size_of_prefix(text, known.len() as int, m);
    }
    assert(later.take(m) =~= text.take(m)) by {
        assert forall|i: int| 0 <= i < m implies later[i] == text[i] by {
            assert(later.take(known.len() as int)[i] == later[i]);
            assert(text.take(known.len() as int)[i] == text[i]);
        }
    }
    lemma_size_of_prefix(later, m, fitting(later, limit2) as int);
}

/// What is stable stays stable.
proof fn lemma_stable_kept(text: Seq<char>, later: Seq<char>)
    requires
        keeps(text, later),
    ensures
        stable(text).len() <= stable(later).len(),
    decreases later.len(),
{
    lemma_stable_last(text);
    let known = stable(text);
    if later.len() > 0 && later.last() == '\u{FFFD}' {
        if later.len() > known.len() {
            let shorter = later.drop_last();
            assert(shorter.take(known.len() as int) =~= later.take(known.len() as int));
            lemma_stable_kept(text, shorter);
        } else {
            assert(later.take(known.len() as int) =~= later);
            assert(later.last() == known.last());
        }
    }
}

proof fn lemma_stable_last(text: Seq<char>)
    ensures
        stable(text).len() > 0 ==> stable(text).last() != '\u{FFFD}',
    decreases text.len(),
{
    if text.len() > 0 && text.last() == '\u{FFFD}' {
        lemma_stable_last(text.drop_last());
    }
}

/// A prefix whose size is exactly `limit` is the longest within and the shortest reaching it.
proof fn lemma_exact_prefix(text: Seq<char>, n: int)
    requires
        0 <= n <= text.len(),
    ensures
        fitting(text, size(text.take(n))) == n,
        reaching(text, size(text.take(n))) == n,
{
    let limit = size(text.take(n));
    lemma_fitting(text, limit);
    lemma_reaching(text, limit);
    let f = fitting(text, limit) as int;
    if f > n {
        lemma_size_of_prefix(text, n, f);
    }
    let r = reaching(text, limit) as int;
    assert(text.take(text.len() as int) =~= text);
    lemma_size_of_prefix(text, n, text.len() as int);
    if r < n {
        lemma_size_of_prefix(text, r, n);
    } else if r > n {
        assert(size(text.take(n)) < limit);
    }
}

/// One more decoded text keeps an answer streamed.
proof fn lemma_streams(
    before: AnswerModel,
    text: Seq<char>,
    raw: Seq<char>,
    trim: bool,
    stops: Seq<Seq<char>>,
    holdback: nat,
    last: bool,
    told: Seq<char>,
)
    requires
        held_back(stops, holdback),
        streamed(before, holdback, told),
        !before.stopped,
        before.text == text,
        cut_from(text, stops, 0) is None,
        keeps(text, trimmed(raw, trim)),
    ensures
        ({
            let after = advanced(before, raw, trim, stops, holdback, last);
            let n = fitting(after.text, after.emitted) as int;
            let heard = told + passed_on(before, after);
            &&& heard == after.text.take(n)
            &&& size(after.text.take(n)) == after.emitted
            &&& after.emitted == settled_size(after.text, holdback, last || after.stopped)
        }),
{
    let later = trimmed(raw, trim);
    let after = advanced(before, raw, trim, stops, holdback, last);
    let kept = before_cut(later, stops);
    let sent = before.emitted;
    law_stop_sequences_are_never_streamed(text, later, stops, holdback);
    let n = fitting(text, sent) as int;
    assert(kept.take(n) == text.take(n));
    lemma_exact_prefix(kept, n);
    let end = settled_size(kept, holdback, last || after.stopped);
    assert(sent <= end) by {
        if !(last || after.stopped) {
            lemma_cut(later, stops, 0);
            assert(kept == later);
            lemma_settled_grows(text, later, holdback);
        }
    }
    assert(after.emitted == end);
    // The end lies at a character.
    let m = if last || after.stopped {
        kept.len() as int
    } else {
        let known = size(stable(kept));
        let limit = if known >= holdback { (known - holdback) as nat } else { 0 };
        lemma_fitting(kept, limit);
        fitting(kept, limit) as int
    };
    assert(kept.take(kept.len() as int) =~= kept);
    assert(end == size(kept.take(m)));
    lemma_exact_prefix(kept, m);
    if end > sent {
        if m < n {
            lemma_size_of_prefix(kept, m, n);
        }
        assert(kept.take(n) + kept.subrange(n, m) =~= kept.take(m));
    } else {
        if m < n {
            lemma_size_of_prefix(kept, m, n);
        } else if n < m {
            lemma_size_of_prefix(kept, n, m);
        }
        assert(told + Seq::<char>::empty() =~= told);
    }
}

/// The first decoded text starts an answer's stream.
proof fn lemma_stream_starts(
    raw: Seq<char>,
    trim: bool,
    stops: Seq<Seq<char>>,
    holdback: nat,
    last: bool,
)
    requires
        held_back(stops, holdback),
    ensures
        ({
            let before = AnswerModel { text: Seq::empty(), emitted: 0, stopped: false, gone: false };
            let after = advanced(before, raw, trim, stops, holdback, last);
            let n = fitting(after.text, after.emitted) as int;
            &&& passed_on(before, after) == after.text.take(n)
            &&& size(after.text.take(n)) == after.emitted
            &&& after.emitted == settled_size(after.text, holdback, last || after.stopped)
        }),
{
    let before = AnswerModel { text: Seq::<char>::empty(), emitted: 0, stopped: false, gone: false };
    let after = advanced(before, raw, trim, stops, holdback, last);
    let kept = before_cut(trimmed(raw, trim), stops);
    let end = settled_size(kept, holdback, last || after.stopped);
    let m = if last || after.stopped {
        kept.len() as int
    } else {
        let known = size(stable(kept));
        let limit = if known >= holdback { (known - holdback) as nat } else { 0 };
        lemma_fitting(kept, limit);
        fitting(kept, limit) as int
    };
    assert(kept.take(kept.len() as int) =~= kept);
    assert(end == size(kept.take(m)));
    lemma_exact_prefix(kept, m);
    lemma_reaching(kept, 0);
    assert(reaching(kept, 0) == 0) by {
        if reaching(kept, 0) > 0 {
            assert(size(kept.take(0)) < 0);
        }
    }
    if end > 0 {
        assert(kept.subrange(0, m) =~= kept.take(m));
    } else {
        lemma_size_of_prefix(kept, 0, m);
        assert(kept.take(0) =~= Seq::<char>::empty());
    }
}

/// Decodes the tokens received so far and streams what can no longer change.
pub struct AnswerSink<'a> {
    pub tokens: Vec<i32>,
    pub answer: Answer,
    pub stops: &'a Vec<String>,
    pub holdback: usize,
    pub error: Option<Error>,
    /// What the listener had heard before.
    pub before: Ghost<Seq<char>>,
    /// What it had answered before.
    pub answers: Ghost<Seq<bool>>,
}

impl<'a, M: DiffusionModel, L: Listener> Sink<M, L> for AnswerSink<'a> {
    open spec fn received(&self) -> Seq<i32> {
        self.tokens@
    }

    open spec fn patient(&self) -> bool {
        false
    }

    open spec fn ended(&self) -> bool {
        self.error is Some || self.answer.stopped || self.answer.gone
    }

    open spec fn terms(&self) -> Terms {
        Terms {
            trim: self.answer.trim_start,
            stops: texts(self.stops@),
            holdback: self.holdback as nat,
            before: self.before@,
            answers: self.answers@,
        }
    }

    open spec fn sound(&self, card: Card, heard: Seq<char>, answers: Seq<bool>) -> bool {
        let trim = self.answer.trim_start;
        let stops = texts(self.stops@);
        &&& obeyed(self.answers@, answers)
        &&& self.answer.gone == refused(self.answers@, answers)
        &&& self.error matches Some(e) ==> (card.decode)(self.tokens@) == Err::<
            Seq<char>,
            ErrorModel,
        >(e@)
        &&& self.error is None ==> growing(card, self.tokens@, trim, stops, self.answer@)
        &&& self.error is None && steady(card, trim) && held_back(stops, self.holdback as nat) ==> {
            if self.tokens@.len() == 0 {
                heard == self.before@
            } else {
                exists|told: Seq<char>|
                    heard == self.before@ + told && #[trigger] streamed(
                        self.answer@,
                        self.holdback as nat,
                        told,
                    )
            }
        }
    }

    fn accept(&mut self, model: &M, tokens: &[i32], ear: &mut L) -> (r: bool) {
        let ghost card = model.card();
        let ghost before = self.tokens@;
        let ghost was = self.answer@;
        let ghost heard = ear.heard();
        let ghost trim = self.answer.trim_start;
        let ghost stops = texts(self.stops@);
        let ghost holdback = self.holdback as nat;
        let mut i: usize = 0;
        assert(before + tokens@.take(0) =~= before);
        while i < tokens.len()
            invariant
                i <= tokens@.len(),
                self.tokens@ == before + tokens@.take(i as int),
                self.answer == old(self).answer,
                self.stops == old(self).stops,
                self.holdback == old(self).holdback,
                self.error == old(self).error,
                self.before == old(self).before,
                self.answers == old(self).answers,
            decreases tokens@.len() - i,
        {
            self.tokens.push(tokens[i]);
            i += 1;
            assert(before + tokens@.take(i as int) =~= (before + tokens@.take(i - 1)).push(
                tokens@[i - 1],
            ));
        }
        assert(tokens@.take(i as int) =~= tokens@);
        match model.decode(&self.tokens) {
            Ok(text) => {
                let r: bool = self.answer.advance(
                    text.as_str(),
                    self.stops,
                    self.holdback,
                    false,
                    ear,
                );
                proof {
                    let (said, says) = (old(ear).answers(), ear.answers());
                    if says.len() > said.len() {
                        assert(says.take(self.answers@.len() as int) =~= said.take(
                            self.answers@.len() as int,
                        ));
                        assert forall|i: int|
                            self.answers@.len() <= i < says.len() - 1 implies #[trigger] says[i] by {
                            assert(says[i] == says.drop_last()[i]);
                        }
                    }
                    if steady(card, trim) && held_back(stops, holdback) {
                        let raw = text@;
                        let after = advanced(was, raw, trim, stops, holdback, false);
                        if before.len() == 0 {
                            assert(was.text =~= Seq::<char>::empty());
                            lemma_stream_starts(raw, trim, stops, holdback, false);
                            assert(streamed(
                                self.answer@,
                                holdback,
                                passed_on(was, after),
                            ));
                        } else {
                            let told = choose|told: Seq<char>|
                                heard == self.before@ + told && #[trigger] streamed(
                                    was,
                                    holdback,
                                    told,
                                );
                            let old_text = trimmed((card.decode)(before)->Ok_0, trim);
                            assert(self.tokens@.take(before.len() as int) =~= before);
                            lemma_cut(old_text, stops, 0);
                            lemma_streams(
                                was,
                                old_text,
                                raw,
                                trim,
                                stops,
                                holdback,
                                false,
                                told,
                            );
                            assert(streamed(
                                self.answer@,
                                holdback,
                                told + passed_on(was, after),
                            ));
                            assert(self.before@ + (told + passed_on(was, after)) =~= self.before@
                                + told + passed_on(was, after));
                        }
                    }
                }
                r
            },
            Err(error) => {
                self.error = Some(error);
                false
            },
        }
    }
}

/// Passing on the whole answer leaves nothing unheard.
pub proof fn lemma_stream_ends(
    card: Card,
    tokens: Seq<i32>,
    trim: bool,
    stops: Seq<Seq<char>>,
    holdback: nat,
    before: AnswerModel,
    told: Seq<char>,
)
    requires
        held_back(stops, holdback),
        steady(card, trim),
        growing(card, tokens, trim, stops, before),
        !before.stopped,
        (card.decode)(tokens) is Ok,
        if tokens.len() == 0 {
            told.len() == 0
        } else {
            streamed(before, holdback, told)
        },
    ensures
        ({
            let after = advanced(
                before,
                (card.decode)(tokens)->Ok_0,
                trim,
                stops,
                holdback,
                true,
            );
            told + passed_on(before, after) == after.text
        }),
{
    let raw = (card.decode)(tokens)->Ok_0;
    let text = trimmed(raw, trim);
    let after = advanced(before, raw, trim, stops, holdback, true);
    lemma_cut(text, stops, 0);
    assert(after.text.take(after.text.len() as int) =~= after.text);
    if tokens.len() == 0 {
        assert(before.text =~= Seq::<char>::empty());
        assert(before == (AnswerModel {
            text: Seq::<char>::empty(),
            emitted: 0,
            stopped: false,
            gone: false,
        }));
        lemma_stream_starts(raw, trim, stops, holdback, true);
        lemma_exact_prefix(after.text, after.text.len() as int);
        assert(told + passed_on(before, after) =~= passed_on(before, after));
    } else {
        assert(tokens.take(tokens.len() as int) =~= tokens);
        assert((card.decode)(tokens) is Ok);
        assert(keeps(text, text));
        lemma_streams(before, text, raw, trim, stops, holdback, true, told);
        lemma_exact_prefix(after.text, after.text.len() as int);
    }
}

} // verus!
