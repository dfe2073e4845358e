//! Transcription of whole recordings over any speech model.
//!
//! Windows overlap by a context on each side. Each window keeps the words that start in its
//! central span, so every word is decoded with context on both sides and appears once.
use crate::engine::model::{obeyed, text_outcome};
use crate::error::{ErrorModel, Result};
use crate::speech::segments::{ends_of, law_segments_partition_the_words, segment_ends};
use crate::speech::words::{
    token_models, word_models, words, words_of, SpeechToken, TokenModel, Word, WordModel,
};
use crate::text::{trim, trim_text};
use vstd::prelude::*;
use vstd::slice::slice_subrange;

verus! {

/// Seconds that each window sees past the span it keeps, on each side.
pub const CONTEXT_SECONDS: u32 = 5;

/// A speech model's description.
#[derive(Debug)]
pub struct SpeechInfo {
    pub architecture: &'static str,
    pub display_name: String,
    pub sample_rate: u32,
    /// Samples per encoder frame.
    pub frame_samples: u64,
    /// Longest audio of one pass.
    pub max_window_samples: u64,
    pub languages: Vec<String>,
}

/// How a model spells token ids.
pub type Spelling = spec_fn(Seq<u32>) -> core::result::Result<Seq<char>, ErrorModel>;

/// Which tokens, or which error, a model may give for the samples of a window.
pub type Hearing = spec_fn(
    Seq<u32>,
    core::result::Result<Seq<TokenModel>, ErrorModel>,
) -> bool;

/// The mathematical model of a pass.
pub open spec fn pass_outcome(r: Result<Vec<SpeechToken>>) -> core::result::Result<
    Seq<TokenModel>,
    ErrorModel,
> {
    match r {
        Ok(tokens) => Ok(token_models(tokens@)),
        Err(e) => Err(e@),
    }
}

/// A model that transcribes one window of samples (single-precision bit patterns).
pub trait SpeechModel {
    /// Its description.
    open spec fn about(&self) -> SpeechInfo {
        arbitrary()
    }

    /// How it spells token ids: this stays the same while it is used.
    open spec fn spelling(&self) -> Spelling {
        arbitrary()
    }

    /// What it may hear: this stays the same while it is used.
    open spec fn hearing(&self) -> Hearing {
        arbitrary()
    }

    fn info(&self) -> (r: &SpeechInfo)
        ensures
            *r == self.about(),
    ;

    /// Tokens of one pass over at most the longest window, with times from its start.
    fn transcribe(&mut self, samples: &[u32]) -> (r: Result<Vec<SpeechToken>>)
        ensures
            final(self).about() == old(self).about(),
            final(self).spelling() == old(self).spelling(),
            final(self).hearing() == old(self).hearing(),
            (old(self).hearing())(samples@, pass_outcome(r)),
    ;

    fn detokenize(&self, ids: &Vec<u32>) -> (r: Result<String>)
        ensures
            text_outcome(r) == (self.spelling())(ids@),
    ;
}

/// A run of words that was closed. The log probabilities of its tokens are kept by their bits.
#[derive(Debug)]
pub struct Segment {
    pub id: usize,
    pub start: u64,
    pub end: u64,
    pub text: String,
    pub tokens: Vec<u32>,
    pub logprobs: Vec<u32>,
}

/// The mathematical model of a [`Segment`].
#[verifier::ext_equal]
pub struct SegmentModel {
    pub id: nat,
    pub start: u64,
    pub end: u64,
    pub text: Seq<char>,
    pub tokens: Seq<u32>,
    pub logprobs: Seq<u32>,
}

impl View for Segment {
    type V = SegmentModel;

    open spec fn view(&self) -> SegmentModel {
        SegmentModel {
            id: self.id as nat,
            start: self.start,
            end: self.end,
            text: self.text@,
            tokens: self.tokens@,
            logprobs: self.logprobs@,
        }
    }
}

/// The models of segments.
pub open spec fn segment_models(segments: Seq<Segment>) -> Seq<SegmentModel> {
    Seq::new(segments.len(), |i: int| segments[i]@)
}

/// The ids of the tokens of words, in order.
pub open spec fn ids_of(words: Seq<WordModel>) -> Seq<u32>
    decreases words.len(),
{
    if words.len() == 0 {
        Seq::empty()
    } else {
        let tokens = words.last().tokens;
        ids_of(words.drop_last()) + Seq::new(tokens.len(), |i: int| tokens[i].id)
    }
}

/// The log probabilities of the tokens of words, in order.
pub open spec fn logprobs_of(words: Seq<WordModel>) -> Seq<u32>
    decreases words.len(),
{
    if words.len() == 0 {
        Seq::empty()
    } else {
        let tokens = words.last().tokens;
        logprobs_of(words.drop_last()) + Seq::new(tokens.len(), |i: int| tokens[i].logprob)
    }
}

/// The text of words, with the model's spelling.
pub open spec fn text_of(spelling: Spelling, words: Seq<WordModel>) -> core::result::Result<
    Seq<char>,
    ErrorModel,
> {
    match spelling(ids_of(words)) {
        Ok(text) => Ok(trim(text)),
        Err(e) => Err(e),
    }
}

/// Segment `id` of these words.
pub open spec fn segment_of(
    spelling: Spelling,
    id: nat,
    words: Seq<WordModel>,
) -> core::result::Result<SegmentModel, ErrorModel> {
    match text_of(spelling, words) {
        Err(e) => Err(e),
        Ok(text) => Ok(
            SegmentModel {
                id,
                start: if words.len() > 0 {
                    words[0].start
                } else {
                    0
                },
                end: if words.len() > 0 {
                    words.last().end
                } else {
                    0
                },
                text,
                tokens: ids_of(words),
                logprobs: logprobs_of(words),
            },
        ),
    }
}

// ---------------------------------------------------------------------------------------------
// Windows
// ---------------------------------------------------------------------------------------------

/// The windows of a model: the samples of a second, and those of a window.
#[verifier::ext_equal]
pub struct Windows {
    pub rate: u32,
    pub samples: u64,
}

impl Windows {
    /// Samples of a window.
    pub open spec fn size(self) -> int {
        self.samples as int
    }

    /// Samples of the context on each side.
    pub open spec fn context(self) -> int {
        CONTEXT_SECONDS * self.rate
    }

    /// Samples between the starts of windows.
    pub open spec fn stride(self) -> int {
        self.size() - 2 * self.context()
    }

    /// A window is longer than its context.
    pub open spec fn valid(self) -> bool {
        self.rate > 0 && self.samples > 2 * CONTEXT_SECONDS * self.rate
    }

    /// The window from `begin` on keeps what starts at sample `t`.
    pub open spec fn keeps(self, begin: int, last: bool, t: int) -> bool {
        &&& begin == 0 || t >= begin + self.context()
        &&& last || t < begin + self.context() + self.stride()
    }
}

impl Windows {
    /// Window `k` of those up to `last` keeps what starts at sample `t`.
    pub open spec fn kept_by(self, k: int, last: int, t: int) -> bool {
        self.keeps(k * self.stride(), k == last, t)
    }
}

/// The windows of a described model.
pub open spec fn windows_of(info: SpeechInfo) -> Windows {
    Windows { rate: info.sample_rate, samples: info.max_window_samples }
}

/// Of the windows of a recording, the first to the `last`th, exactly one keeps what starts at
/// sample `t`.
pub proof fn law_every_instant_is_kept_by_one_window(w: Windows, last: nat, t: int)
    requires
        w.valid(),
    ensures
        exists|k: int|
            0 <= k <= last && #[trigger] w.kept_by(k, last as int, t),
        forall|j: int, k: int|
            0 <= j <= last && 0 <= k <= last && #[trigger] w.kept_by(j, last as int, t)
                && #[trigger] w.kept_by(k, last as int, t) ==> j == k,
{
    let s = w.stride();
    let c = w.context();
    assert(s > 0);
    let q = (t - c) / s;
    let k = if q < 0 {
        0
    } else if q > last {
        last as int
    } else {
        q
    };
    assert(q * s <= t - c < q * s + s) by (nonlinear_arith)
        requires
            q == (t - c) / s,
            s > 0,
    ;
    assert(0 * s == 0);
    if 0 < k {
        assert(k * s <= q * s) by (nonlinear_arith)
            requires
                k <= q,
                s > 0,
        ;
    }
    if k < last {
        assert(q * s <= k * s) by (nonlinear_arith)
            requires
                q <= k,
                s > 0,
        ;
    }
    assert(w.kept_by(k, last as int, t));
    assert forall|i: int, j: int|
        0 <= i <= last && 0 <= j <= last && #[trigger] w.kept_by(i, last as int, t)
            && #[trigger] w.kept_by(j, last as int, t) implies i == j by {
        if i < j {
            assert(i * s + s <= j * s && j * s > 0) by (nonlinear_arith)
                requires
                    0 <= i,
                    i + 1 <= j,
                    s > 0,
            ;
        }
        if j < i {
            assert(j * s + s <= i * s && i * s > 0) by (nonlinear_arith)
                requires
                    0 <= j,
                    j + 1 <= i,
                    s > 0,
            ;
        }
    }
}

/// A time later by `offset` samples.
pub open spec fn later(t: u64, offset: nat) -> u64 {
    if t + offset > u64::MAX {
        u64::MAX
    } else {
        (t + offset) as u64
    }
}

/// Tokens of a window that starts at `offset`.
pub open spec fn shifted(tokens: Seq<TokenModel>, offset: nat) -> Seq<TokenModel> {
    Seq::new(
        tokens.len(),
        |i: int|
            TokenModel {
                start: later(tokens[i].start, offset),
                end: later(tokens[i].end, offset),
                ..tokens[i]
            },
    )
}

/// The words among the first `n` that a window keeps.
pub open spec fn kept_of(
    found: Seq<WordModel>,
    w: Windows,
    begin: nat,
    last: bool,
    n: nat,
) -> Seq<WordModel>
    decreases n,
{
    if n == 0 {
        Seq::empty()
    } else {
        let before = kept_of(found, w, begin, last, (n - 1) as nat);
        if w.keeps(begin as int, last, found[n - 1].start as int) {
            before.push(found[n - 1])
        } else {
            before
        }
    }
}

// ---------------------------------------------------------------------------------------------
// The job
// ---------------------------------------------------------------------------------------------

/// A windowed transcription in progress; [`Transcriber::step`] decodes one window at a time, so a
/// caller can do other work between windows.
#[derive(Debug)]
pub struct Transcription {
    samples: Vec<u32>,
    /// Start of the next window, in samples.
    begin: usize,
    kept: Vec<Word>,
    segments: Vec<Segment>,
    /// The end of each segment in `kept`.
    ends: Vec<usize>,
    done: bool,
}

/// The mathematical model of a [`Transcription`].
#[verifier::ext_equal]
pub struct JobModel {
    pub samples: Seq<u32>,
    pub begin: nat,
    pub kept: Seq<WordModel>,
    pub segments: Seq<SegmentModel>,
    pub ends: Seq<usize>,
    pub done: bool,
}

impl View for Transcription {
    type V = JobModel;

    closed spec fn view(&self) -> JobModel {
        JobModel {
            samples: self.samples@,
            begin: self.begin as nat,
            kept: word_models(self.kept@),
            segments: segment_models(self.segments@),
            ends: self.ends@,
            done: self.done,
        }
    }
}

/// Where the first word after the closed segments is.
pub open spec fn settled_of(ends: Seq<usize>) -> nat {
    if ends.len() == 0 {
        0
    } else {
        ends.last() as nat
    }
}

/// Where segment `i` starts.
pub open spec fn segment_start(ends: Seq<usize>, i: int) -> int {
    if i == 0 {
        0
    } else {
        ends[i - 1] as int
    }
}

/// Ends that grow within `n` words.
pub open spec fn growing(ends: Seq<usize>, n: nat) -> bool {
    &&& forall|i: int| 0 <= i < ends.len() ==> 0 < (#[trigger] ends[i]) <= n
    &&& forall|i: int, j: int|
        0 <= i < j < ends.len() ==> (#[trigger] ends[i]) < (#[trigger] ends[j])
}

impl JobModel {
    /// Segments follow each other in the kept words, each with the words it is made of.
    pub open spec fn sound(self, spelling: Spelling) -> bool {
        &&& self.begin <= self.samples.len()
        &&& self.segments.len() == self.ends.len()
        &&& settled_of(self.ends) <= self.kept.len()
        &&& growing(self.ends, self.kept.len())
        &&& forall|i: int|
            0 <= i < self.ends.len() ==> segment_of(
                spelling,
                i as nat,
                self.kept.subrange(segment_start(self.ends, i), self.ends[i] as int),
            ) == Ok::<SegmentModel, ErrorModel>(#[trigger] self.segments[i])
    }

    /// A window from here reaches the end.
    pub open spec fn at_last(self, w: Windows) -> bool {
        self.begin + w.size() >= self.samples.len()
    }

    /// The samples of the next window.
    pub open spec fn window(self, w: Windows) -> Seq<u32> {
        self.samples.subrange(
            self.begin as int,
            if self.at_last(w) {
                self.samples.len() as int
            } else {
                self.begin + w.size()
            },
        )
    }

    /// The job ended after segment `id`, without later words.
    pub open spec fn stopped_after(self, id: nat) -> JobModel {
        let n = id as int + 1;
        let ends = if self.ends.len() > n {
            self.ends.take(n)
        } else {
            self.ends
        };
        JobModel {
            done: true,
            ends,
            segments: if self.segments.len() > n {
                self.segments.take(n)
            } else {
                self.segments
            },
            kept: if self.kept.len() > settled_of(ends) {
                self.kept.take(settled_of(ends) as int)
            } else {
                self.kept
            },
            ..self
        }
    }

    /// The words kept once a window has given these tokens.
    pub open spec fn kept_after(self, w: Windows, tokens: Seq<TokenModel>) -> Seq<WordModel> {
        let found = words_of(shifted(tokens, self.begin));
        self.kept + kept_of(found, w, self.begin, self.at_last(w), found.len())
    }

    /// The ends of the segments of the words that are not settled, counted from them.
    pub open spec fn open_ends(self, w: Windows, kept: Seq<WordModel>) -> Seq<usize> {
        ends_of(kept.skip(settled_of(self.ends) as int), w.rate)
    }

    /// How many segments a window closes: the last may continue into the next window.
    pub open spec fn closing(self, w: Windows, kept: Seq<WordModel>) -> nat {
        let ends = self.open_ends(w, kept);
        if self.at_last(w) {
            ends.len()
        } else if ends.len() == 0 {
            0
        } else {
            (ends.len() - 1) as nat
        }
    }

    /// The job with the first `k` of the open segments closed.
    pub open spec fn closed_to(
        self,
        w: Windows,
        spelling: Spelling,
        kept: Seq<WordModel>,
        k: nat,
    ) -> core::result::Result<JobModel, (ErrorModel, JobModel)>
        decreases k,
    {
        if k == 0 {
            Ok(JobModel { kept, ..self })
        } else {
            match self.closed_to(w, spelling, kept, (k - 1) as nat) {
                Err(failure) => Err(failure),
                Ok(job) => {
                    let end = settled_of(self.ends) + self.open_ends(w, kept)[k - 1];
                    match segment_of(
                        spelling,
                        job.segments.len(),
                        kept.subrange(settled_of(job.ends) as int, end as int),
                    ) {
                        Err(e) => Err((e, job)),
                        Ok(segment) => Ok(
                            JobModel {
                                segments: job.segments.push(segment),
                                ends: job.ends.push(end as usize),
                                ..job
                            },
                        ),
                    }
                },
            }
        }
    }

    /// The job after a window gave these tokens; where a text cannot be spelled, the error and
    /// the job as it is then.
    pub open spec fn after(self, w: Windows, spelling: Spelling, tokens: Seq<TokenModel>) -> core::result::Result<
        JobModel,
        (ErrorModel, JobModel),
    > {
        let kept = self.kept_after(w, tokens);
        match self.closed_to(w, spelling, kept, self.closing(w, kept)) {
            Err(failure) => Err(failure),
            Ok(job) => Ok(
                JobModel {
                    done: self.done || self.at_last(w),
                    begin: if self.at_last(w) {
                        self.begin
                    } else {
                        (self.begin + w.stride()) as nat
                    },
                    ..job
                },
            ),
        }
    }
}

proof fn lemma_push_word(list: Seq<Word>, word: Word)
    ensures
        word_models(list.push(word)) == word_models(list).push(word@),
{
    assert(word_models(list.push(word)) =~= word_models(list).push(word@));
}

/// More kept words keep a job sound.
proof fn lemma_more_kept(job: JobModel, spelling: Spelling, kept: Seq<WordModel>)
    requires
        job.sound(spelling),
        job.kept.is_prefix_of(kept),
    ensures
        (JobModel { kept, ..job }).sound(spelling),
{
    let after = JobModel { kept, ..job };
    assert forall|i: int| 0 <= i < after.ends.len() implies segment_of(
        spelling,
        i as nat,
        after.kept.subrange(segment_start(after.ends, i), after.ends[i] as int),
    ) == Ok::<SegmentModel, ErrorModel>(#[trigger] after.segments[i]) by {
        assert(job.ends[i] <= job.kept.len());
        if i > 0 {
            assert(job.ends[i - 1] < job.ends[i]);
        }
        assert(kept.subrange(segment_start(job.ends, i), job.ends[i] as int)
            =~= job.kept.subrange(segment_start(job.ends, i), job.ends[i] as int));
        assert(job.segments[i] == after.segments[i]);
    }
}

/// One more segment keeps a job sound.
proof fn lemma_push_segment(
    before: JobModel,
    spelling: Spelling,
    end: usize,
    segment: SegmentModel,
)
    requires
        before.sound(spelling),
        settled_of(before.ends) < end <= before.kept.len(),
        segment_of(
            spelling,
            before.segments.len(),
            before.kept.subrange(settled_of(before.ends) as int, end as int),
        ) == Ok::<SegmentModel, ErrorModel>(segment),
    ensures
        (JobModel {
            segments: before.segments.push(segment),
            ends: before.ends.push(end),
            ..before
        }).sound(spelling),
{
    let after = JobModel {
        segments: before.segments.push(segment),
        ends: before.ends.push(end),
        ..before
    };
    assert forall|i: int, j: int| 0 <= i < j < after.ends.len() implies (#[trigger] after.ends[i])
        < (#[trigger] after.ends[j]) by {
        assert(after.ends[i] == before.ends[i]);
        if j < before.ends.len() {
            assert(after.ends[j] == before.ends[j]);
        } else if i < before.ends.len() - 1 {
            assert(before.ends[i] < before.ends[before.ends.len() - 1]);
        }
    }
    assert forall|i: int| 0 <= i < after.ends.len() implies segment_of(
        spelling,
        i as nat,
        after.kept.subrange(segment_start(after.ends, i), after.ends[i] as int),
    ) == Ok::<SegmentModel, ErrorModel>(#[trigger] after.segments[i]) by {
        if i > 0 {
            assert(after.ends[i - 1] == before.ends[i - 1]);
        }
        if i < before.ends.len() {
            assert(after.ends[i] == before.ends[i]);
            assert(after.segments[i] == before.segments[i]);
            assert(segment_start(after.ends, i) == segment_start(before.ends, i));
        } else {
            assert(segment_start(after.ends, i) == settled_of(before.ends));
        }
    }
}

/// The open segments end within the words.
proof fn lemma_open_ends(job: JobModel, w: Windows, kept: Seq<WordModel>)
    requires
        settled_of(job.ends) <= kept.len() <= usize::MAX,
    ensures
        forall|i: int|
            0 <= i < job.open_ends(w, kept).len() ==> 0 < (#[trigger] job.open_ends(w, kept)[i])
                && settled_of(job.ends) + job.open_ends(w, kept)[i] <= kept.len(),
        forall|i: int, j: int|
            0 <= i < j < job.open_ends(w, kept).len() ==> (#[trigger] job.open_ends(w, kept)[i]) < (
            #[trigger] job.open_ends(w, kept)[j]),
{
    let rest = kept.skip(settled_of(job.ends) as int);
    law_segments_partition_the_words(rest, w.rate);
    let open = job.open_ends(w, kept);
    assert forall|i: int| 0 <= i < open.len() implies 0 < (#[trigger] open[i]) && settled_of(
        job.ends,
    ) + open[i] <= kept.len() by {
        if i > 0 {
            assert(open[0] < open[i]);
        }
        if i < open.len() - 1 {
            assert(open[i] < open[open.len() - 1]);
        }
    }
}

/// What closing segments leaves alone.
pub open spec fn grown(job: JobModel, kept: Seq<WordModel>, after: JobModel) -> bool {
    &&& after.kept == kept
    &&& after.begin == job.begin
    &&& after.done == job.done
    &&& after.samples == job.samples
    &&& job.ends.is_prefix_of(after.ends)
    &&& job.segments.is_prefix_of(after.segments)
}

/// Closing keeps a job sound.
proof fn lemma_closed_sound(
    job: JobModel,
    w: Windows,
    spelling: Spelling,
    kept: Seq<WordModel>,
    k: nat,
)
    requires
        job.sound(spelling),
        job.kept.is_prefix_of(kept),
        kept.len() <= usize::MAX,
        k <= job.open_ends(w, kept).len(),
    ensures
        job.closed_to(w, spelling, kept, k) matches Err((e, j)) ==> j.sound(spelling) && grown(
            job,
            kept,
            j,
        ),
        job.closed_to(w, spelling, kept, k) matches Ok(j) ==> j.sound(spelling) && grown(
            job,
            kept,
            j,
        ) && j.ends.len() == job.ends.len() + k && settled_of(j.ends) == settled_of(job.ends)
            + if k == 0 {
            0
        } else {
            job.open_ends(w, kept)[k - 1] as int
        },
    decreases k,
{
    let settled = settled_of(job.ends) as int;
    let open = job.open_ends(w, kept);
    if k == 0 {
        lemma_more_kept(job, spelling, kept);
    } else {
        lemma_closed_sound(job, w, spelling, kept, (k - 1) as nat);
        lemma_open_ends(job, w, kept);
        if let Ok(before) = job.closed_to(w, spelling, kept, (k - 1) as nat) {
            let end = settled + open[k - 1];
            if k >= 2 {
                assert(open[k - 2] < open[k - 1]);
            }
            assert(0 < open[k - 1]);
            let words = kept.subrange(settled_of(before.ends) as int, end as int);
            if let Ok(segment) = segment_of(spelling, before.segments.len(), words) {
                lemma_push_segment(before, spelling, end as usize, segment);
                let after = JobModel {
                    segments: before.segments.push(segment),
                    ends: before.ends.push(end as usize),
                    ..before
                };
                assert(after.ends.take(job.ends.len() as int) =~= before.ends.take(
                    job.ends.len() as int,
                ));
                assert(after.segments.take(job.segments.len() as int) =~= before.segments.take(
                    job.segments.len() as int,
                ));
            }
        }
    }
}

/// A window leaves a job sound, only adds words and segments, and the last window settles every
/// word.
pub proof fn law_steps_only_add(
    job: JobModel,
    w: Windows,
    spelling: Spelling,
    tokens: Seq<TokenModel>,
)
    requires
        w.valid(),
        job.sound(spelling),
        job.kept_after(w, tokens).len() <= usize::MAX,
        job.after(w, spelling, tokens) is Ok,
    ensures
        ({
            let after = job.after(w, spelling, tokens)->Ok_0;
            &&& after.sound(spelling)
            &&& job.kept.is_prefix_of(after.kept)
            &&& job.segments.is_prefix_of(after.segments)
            &&& job.ends.is_prefix_of(after.ends)
            &&& job.at_last(w) ==> after.done && settled_of(after.ends) == after.kept.len()
        }),
{
    let kept = job.kept_after(w, tokens);
    let k = job.closing(w, kept);
    assert(job.kept.is_prefix_of(kept)) by {
        assert(kept.take(job.kept.len() as int) =~= job.kept);
    }
    lemma_closed_sound(job, w, spelling, kept, k);
    let after = job.after(w, spelling, tokens)->Ok_0;
    let closed = job.closed_to(w, spelling, kept, k)->Ok_0;
    if !job.at_last(w) {
        assert(w.stride() <= w.size()) by (nonlinear_arith)
            requires
                w.stride() == w.size() - 2 * (5 * w.rate),
                w.rate >= 0,
        ;
        assert(w.stride() > 0);
    } else {
        law_segments_partition_the_words(kept.skip(settled_of(job.ends) as int), w.rate);
    }
    assert(after.sound(spelling)) by {
        assert forall|i: int| 0 <= i < after.ends.len() implies segment_of(
            spelling,
            i as nat,
            after.kept.subrange(segment_start(after.ends, i), after.ends[i] as int),
        ) == Ok::<SegmentModel, ErrorModel>(#[trigger] after.segments[i]) by {
            assert(closed.segments[i] == after.segments[i]);
        }
    }
}

/// A job over these samples before its first window.
pub open spec fn fresh(samples: Seq<u32>) -> JobModel {
    JobModel {
        samples,
        begin: 0,
        kept: Seq::empty(),
        segments: Seq::empty(),
        ends: Seq::empty(),
        done: false,
    }
}

impl Transcription {
    pub fn new(samples: Vec<u32>) -> (r: Self)
        ensures
            r@ == fresh(samples@),
            forall|s: Spelling| r@.sound(s),
    {
        let job: Transcription = Transcription {
            samples,
            begin: 0,
            kept: Vec::new(),
            segments: Vec::new(),
            ends: Vec::new(),
            done: false,
        };
        assert(job@.kept =~= Seq::empty());
        assert(job@.segments =~= Seq::empty());
        assert(job@.ends =~= Seq::empty());
        job
    }

    pub fn is_done(&self) -> (r: bool)
        ensures
            r == self@.done,
    {
        self.done
    }

    /// Ends the job after segment `id`, dropping later words.
    pub fn stop_after(&mut self, id: usize)
        requires
            id < usize::MAX,
        ensures
            final(self)@ == old(self)@.stopped_after(id as nat),
    {
        let ghost before = self@;
        self.segments.truncate(id + 1);
        self.ends.truncate(id + 1);
        let settled: usize = if self.ends.len() == 0 {
            0
        } else {
            self.ends[self.ends.len() - 1]
        };
        self.kept.truncate(settled);
        self.done = true;
        proof {
            let n = id + 1;
            if before.segments.len() > n {
                assert(self@.segments =~= before.segments.take(n));
            } else {
                assert(self@.segments =~= before.segments);
            }
            if before.ends.len() > n {
                assert(self@.ends =~= before.ends.take(n));
            } else {
                assert(self@.ends =~= before.ends);
            }
            if before.kept.len() > settled {
                assert(self@.kept =~= before.kept.take(settled as int));
            } else {
                assert(self@.kept =~= before.kept);
            }
        }
    }
}

// ---------------------------------------------------------------------------------------------
// The transcriber
// ---------------------------------------------------------------------------------------------

/// The transcript of a recording.
#[derive(Debug)]
pub struct Transcript {
    pub text: String,
    /// Samples of the recording.
    pub duration: usize,
    pub words: Vec<Word>,
    pub segments: Vec<Segment>,
}

/// Receives each closed segment with its words; false to stop.
pub trait SegmentListener {
    /// The segments received so far, each with its words.
    open spec fn received(&self) -> Seq<(SegmentModel, Seq<WordModel>)> {
        arbitrary()
    }

    /// What it answered to each of them.
    open spec fn answers(&self) -> Seq<bool> {
        arbitrary()
    }

    /// Takes a closed segment; false to stop.
    fn on_segment(&mut self, segment: &Segment, words: &Vec<Word>) -> (r: bool)
        ensures
            final(self).received() == old(self).received().push((segment@, word_models(words@))),
            final(self).answers() == old(self).answers().push(r),
    ;
}

/// A listener that takes every segment.
pub struct ToTheEnd {
    taken: Ghost<Seq<(SegmentModel, Seq<WordModel>)>>,
    given: Ghost<Seq<bool>>,
}

impl ToTheEnd {
    pub fn new() -> (r: Self)
        ensures
            r.received() == Seq::<(SegmentModel, Seq<WordModel>)>::empty(),
            r.answers() == Seq::<bool>::empty(),
    {
        ToTheEnd { taken: Ghost(Seq::empty()), given: Ghost(Seq::empty()) }
    }
}

impl SegmentListener for ToTheEnd {
    closed spec fn received(&self) -> Seq<(SegmentModel, Seq<WordModel>)> {
        self.taken@
    }

    closed spec fn answers(&self) -> Seq<bool> {
        self.given@
    }

    fn on_segment(&mut self, segment: &Segment, words: &Vec<Word>) -> (r: bool)
        ensures
            r,
    {
        self.given = Ghost(self.given@.push(true));
        self.taken = Ghost(self.taken@.push((segment@, word_models(words@))));
        true
    }
}

/// Transcribes with one model.
pub struct Transcriber<M: SpeechModel> {
    pub model: M,
}

/// The words of closed segments.
pub open spec fn closed_models(list: Seq<(Segment, Vec<Word>)>) -> Seq<
    (SegmentModel, Seq<WordModel>),
> {
    Seq::new(list.len(), |i: int| (list[i].0@, word_models(list[i].1@)))
}

/// The segments that are in `after` and not in `before`, each with its words.
pub open spec fn new_segments(before: JobModel, after: JobModel) -> Seq<
    (SegmentModel, Seq<WordModel>),
> {
    let n = before.segments.len();
    Seq::new(
        (after.segments.len() - n) as nat,
        |i: int|
            (
                after.segments[n + i],
                after.kept.subrange(segment_start(after.ends, n + i), after.ends[n + i] as int),
            ),
    )
}

fn append_ids(word: &Word, ids: &mut Vec<u32>, logprobs: &mut Vec<u32>)
    ensures
        final(ids)@ == old(ids)@ + Seq::new(word@.tokens.len(), |i: int| word@.tokens[i].id),
        final(logprobs)@ == old(logprobs)@ + Seq::new(
            word@.tokens.len(),
            |i: int| word@.tokens[i].logprob,
        ),
{
    let ghost a = ids@;
    let ghost b = logprobs@;
    let ghost all = word@.tokens;
    let ghost more = Seq::new(all.len(), |i: int| all[i].id);
    let ghost probs = Seq::new(all.len(), |i: int| all[i].logprob);
    let mut i: usize = 0;
    assert(a + more.take(0) =~= a);
    assert(b + probs.take(0) =~= b);
    while i < word.tokens.len()
        invariant
            i <= word.tokens@.len(),
            all == word@.tokens,
            more == Seq::new(all.len(), |i: int| all[i].id),
            probs == Seq::new(all.len(), |i: int| all[i].logprob),
            ids@ == a + more.take(i as int),
            logprobs@ == b + probs.take(i as int),
        decreases word.tokens@.len() - i,
    {
        assert(all[i as int] == word.tokens@[i as int]@);
        ids.push(word.tokens[i].id);
        logprobs.push(word.tokens[i].logprob);
        assert(more.take(i + 1) =~= more.take(i as int).push(more[i as int]));
        assert(probs.take(i + 1) =~= probs.take(i as int).push(probs[i as int]));
        assert(ids@ =~= a + more.take(i + 1));
        assert(logprobs@ =~= b + probs.take(i + 1));
        i += 1;
    }
    assert(more.take(i as int) =~= more);
    assert(probs.take(i as int) =~= probs);
}

/// The ids and log probabilities of the tokens of `words[from..to]`.
fn collect_ids(words: &Vec<Word>, from: usize, to: usize) -> (r: (Vec<u32>, Vec<u32>))
    requires
        from <= to <= words@.len(),
    ensures
        r.0@ == ids_of(word_models(words@).subrange(from as int, to as int)),
        r.1@ == logprobs_of(word_models(words@).subrange(from as int, to as int)),
{
    let ghost all = word_models(words@);
    let mut ids: Vec<u32> = Vec::new();
    let mut logprobs: Vec<u32> = Vec::new();
    let mut i: usize = from;
    assert(all.subrange(from as int, from as int) =~= Seq::<WordModel>::empty());
    while i < to
        invariant
            from <= i <= to <= words@.len(),
            all == word_models(words@),
            ids@ == ids_of(all.subrange(from as int, i as int)),
            logprobs@ == logprobs_of(all.subrange(from as int, i as int)),
        decreases to - i,
    {
        proof {
            let next = all.subrange(from as int, i + 1);
            assert(next.drop_last() =~= all.subrange(from as int, i as int));
            assert(next.last() == words@[i as int]@);
        }
        append_ids(&words[i], &mut ids, &mut logprobs);
        i += 1;
    }
    (ids, logprobs)
}

fn copy_words(words: &Vec<Word>, from: usize, to: usize) -> (r: Vec<Word>)
    requires
        from <= to <= words@.len(),
    ensures
        word_models(r@) == word_models(words@).subrange(from as int, to as int),
{
    let ghost all = word_models(words@);
    let mut copy: Vec<Word> = Vec::new();
    let mut i: usize = from;
    assert(word_models(copy@) =~= all.subrange(from as int, from as int));
    while i < to
        invariant
            from <= i <= to <= words@.len(),
            all == word_models(words@),
            word_models(copy@) == all.subrange(from as int, i as int),
        decreases to - i,
    {
        let word: Word = words[i].duplicate();
        proof {
            lemma_push_word(copy@, word);
            assert(word@ == all[i as int]);
            assert(all.subrange(from as int, i + 1) =~= all.subrange(from as int, i as int).push(
                all[i as int],
            ));
        }
        copy.push(word);
        i += 1;
    }
    copy
}

fn copy_numbers(list: &Vec<u32>) -> (r: Vec<u32>)
    ensures
        r@ == list@,
{
    let mut copy: Vec<u32> = Vec::new();
    let mut i: usize = 0;
    while i < list.len()
        invariant
            i <= list@.len(),
            copy@ == list@.take(i as int),
        decreases list@.len() - i,
    {
        copy.push(list[i]);
        assert(list@.take(i + 1) =~= list@.take(i as int).push(list@[i as int]));
        i += 1;
    }
    assert(list@.take(i as int) =~= list@);
    copy
}

impl Segment {
    /// An equal segment of its own.
    pub fn duplicate(&self) -> (r: Self)
        ensures
            r@ == self@,
    {
        Segment {
            id: self.id,
            start: self.start,
            end: self.end,
            text: self.text.as_str().to_owned(),
            tokens: copy_numbers(&self.tokens),
            logprobs: copy_numbers(&self.logprobs),
        }
    }
}

fn shift_tokens(tokens: Vec<SpeechToken>, offset: u64) -> (r: Vec<SpeechToken>)
    ensures
        token_models(r@) == shifted(token_models(tokens@), offset as nat),
{
    let ghost all = token_models(tokens@);
    let ghost want = shifted(all, offset as nat);
    let mut list: Vec<SpeechToken> = Vec::new();
    assert(token_models(list@) =~= want.take(0));
    for token in it: tokens
        invariant
            all == token_models(it.seq()),
            want == shifted(all, offset as nat),
            token_models(list@) == want.take(it.index() as int),
    {
        let ghost before = list@;
        let ghost i = it.index() as int;
        assert(token@ == all[i]);
        let moved: SpeechToken = SpeechToken {
            id: token.id,
            piece: token.piece,
            start: token.start.saturating_add(offset),
            end: token.end.saturating_add(offset),
            logprob: token.logprob,
        };
        assert(moved@ =~= want[i]);
        list.push(moved);
        assert(token_models(list@) =~= token_models(before).push(want[i]));
        assert(want.take(i + 1) =~= want.take(i).push(want[i]));
    }
    assert(want.take(want.len() as int) =~= want);
    list
}

/// Adds the words that a window keeps.
fn keep_words(
    kept: &mut Vec<Word>,
    found: Vec<Word>,
    from: u128,
    to: u128,
    first: bool,
    last: bool,
    Ghost(w): Ghost<Windows>,
    Ghost(begin): Ghost<nat>,
)
    requires
        first == (begin == 0),
        from == begin + w.context(),
        to == begin + w.context() + w.stride(),
    ensures
        word_models(final(kept)@) == word_models(old(kept)@) + kept_of(
            word_models(found@),
            w,
            begin,
            last,
            found@.len(),
        ),
{
    let ghost before = word_models(kept@);
    let ghost all = word_models(found@);
    assert(before + kept_of(all, w, begin, last, 0) =~= before);
    for word in it: found
        invariant
            all == word_models(it.seq()),
            first == (begin == 0),
            from == begin + w.context(),
            to == begin + w.context() + w.stride(),
            word_models(kept@) == before + kept_of(all, w, begin, last, it.index() as nat),
    {
        let ghost i = it.index() as int;
        assert(word@ == all[i]);
        let t: u128 = word.start as u128;
        if (first || t >= from) && (last || t < to) {
            proof {
                lemma_push_word(kept@, word);
            }
            kept.push(word);
            assert(word_models(kept@) =~= before + kept_of(
                all,
                w,
                begin,
                last,
                (i + 1) as nat,
            ));
        }
    }
}

impl<M: SpeechModel> Transcriber<M> {
    pub fn new(model: M) -> (r: Self)
        ensures
            r.model == model,
    {
        Transcriber { model }
    }

    pub fn info(&self) -> (r: &SpeechInfo)
        ensures
            *r == self.model.about(),
    {
        self.model.info()
    }

    /// Tokens of one pass over at most one window of audio.
    pub fn pass(&mut self, samples: &[u32]) -> (r: Result<Vec<SpeechToken>>)
        ensures
            final(self).model.about() == old(self).model.about(),
            final(self).model.spelling() == old(self).model.spelling(),
            final(self).model.hearing() == old(self).model.hearing(),
            (old(self).model.hearing())(samples@, pass_outcome(r)),
    {
        self.model.transcribe(samples)
    }

    /// The text of words, with the model's spelling.
    pub fn text(&self, words: &Vec<Word>) -> (r: Result<String>)
        ensures
            text_outcome(r) == text_of(self.model.spelling(), word_models(words@)),
    {
        let (ids, _): (Vec<u32>, Vec<u32>) = collect_ids(words, 0, words.len());
        proof {
            assert(word_models(words@).subrange(0, words@.len() as int) =~= word_models(words@));
        }
        match self.model.detokenize(&ids) {
            Ok(text) => Ok(trim_text(text.as_str())),
            Err(e) => Err(e),
        }
    }

    /// Segment `id` of `words[from..to]`.
    fn segment(&self, id: usize, words: &Vec<Word>, from: usize, to: usize) -> (r: Result<Segment>)
        requires
            from <= to <= words@.len(),
        ensures
            r matches Ok(segment) ==> segment_of(
                self.model.spelling(),
                id as nat,
                word_models(words@).subrange(from as int, to as int),
            ) == Ok::<SegmentModel, ErrorModel>(segment@),
            r matches Err(e) ==> segment_of(
                self.model.spelling(),
                id as nat,
                word_models(words@).subrange(from as int, to as int),
            ) == Err::<SegmentModel, ErrorModel>(e@),
    {
        let ghost part = word_models(words@).subrange(from as int, to as int);
        let (ids, logprobs): (Vec<u32>, Vec<u32>) = collect_ids(words, from, to);
        let text: String = match self.model.detokenize(&ids) {
            Ok(text) => trim_text(text.as_str()),
            Err(e) => {
                return Err(e);
            },
        };
        let mut start: u64 = 0;
        let mut end: u64 = 0;
        if from < to {
            start = words[from].start;
            end = words[to - 1].end;
            assert(part[0] == words@[from as int]@);
            assert(part.last() == words@[to - 1]@);
        }
        Ok(Segment { id, start, end, text, tokens: ids, logprobs })
    }

    /// Closes the first `count` of the segments that end at `ends`, counted from `settled`.
    fn close(
        &self,
        job: &mut Transcription,
        settled: usize,
        ends: &Vec<usize>,
        count: usize,
        Ghost(was): Ghost<JobModel>,
        Ghost(w): Ghost<Windows>,
    ) -> (r: Result<Vec<(Segment, Vec<Word>)>>)
        requires
            was.sound(self.model.spelling()),
            was.kept.is_prefix_of(old(job)@.kept),
            old(job)@ == (JobModel { kept: old(job)@.kept, ..was }),
            settled == settled_of(was.ends),
            ends@ == was.open_ends(w, old(job)@.kept),
            count <= ends@.len(),
        ensures
            r matches Ok(list) ==> was.closed_to(
                w,
                self.model.spelling(),
                old(job)@.kept,
                count as nat,
            ) == Ok::<JobModel, (ErrorModel, JobModel)>(final(job)@) && closed_models(list@)
                == new_segments(was, final(job)@),
            r matches Err(e) ==> was.closed_to(
                w,
                self.model.spelling(),
                old(job)@.kept,
                count as nat,
            ) == Err::<JobModel, (ErrorModel, JobModel)>((e@, final(job)@)),
    {
        let ghost kept = job@.kept;
        let ghost spelling = self.model.spelling();
        let words_len: usize = job.kept.len();
        let mut out: Vec<(Segment, Vec<Word>)> = Vec::new();
        let mut start: usize = settled;
        let mut i: usize = 0;
        proof {
            lemma_open_ends(was, w, kept);
            assert(closed_models(out@) =~= new_segments(was, job@));
        }
        while i < count
            invariant
                i <= count <= ends@.len(),
                words_len == kept.len(),
                kept == old(job)@.kept,
                spelling == self.model.spelling(),
                was.sound(spelling),
                was.kept.is_prefix_of(kept),
                settled == settled_of(was.ends),
                ends@ == was.open_ends(w, kept),
                job@.kept == kept,
                was.closed_to(w, spelling, kept, i as nat) == Ok::<
                    JobModel,
                    (ErrorModel, JobModel),
                >(job@),
                start == settled_of(job@.ends),
                start <= kept.len(),
                closed_models(out@) == new_segments(was, job@),
            decreases count - i,
        {
            proof {
                lemma_open_ends(was, w, kept);
                lemma_closed_sound(was, w, spelling, kept, i as nat);
                lemma_closed_sound(was, w, spelling, kept, (i + 1) as nat);
                assert(0 < ends@[i as int] && settled + ends@[i as int] <= kept.len());
                if i > 0 {
                    assert(ends@[i - 1] < ends@[i as int]);
                }
            }
            let end: usize = settled + ends[i];
            let words: Vec<Word> = copy_words(&job.kept, start, end);
            let ghost before = job@;
            match self.segment(job.segments.len(), &job.kept, start, end) {
                Err(e) => {
                    proof {
                        lemma_closing_fails(was, w, spelling, kept, (i + 1) as nat, count as nat);
                    }
                    return Err(e);
                },
                Ok(segment) => {
                    let ghost model = segment@;
                    let ghost text = word_models(words@);
                    let copy: Segment = segment.duplicate();
                    let ghost had = job.segments@;
                    let ghost listed = out@;
                    job.segments.push(copy);
                    job.ends.push(end);
                    assert(segment_models(job.segments@) =~= segment_models(had).push(model));
                    out.push((segment, words));
                    proof {
                        assert(job@ =~= JobModel {
                            segments: before.segments.push(model),
                            ends: before.ends.push(end),
                            ..before
                        });
                        lemma_new_segment(was, before, job@, model, end);
                        assert(closed_models(out@) =~= closed_models(listed).push((model, text)));
                    }
                },
            }
            start = end;
            i += 1;
        }
        Ok(out)
    }

    /// Decodes the next window of `job` and returns the segments it closed, each with its words.
    /// Segments are closed once no later window can change them.
    pub fn step(&mut self, job: &mut Transcription) -> (r: Result<Vec<(Segment, Vec<Word>)>>)
        requires
            !old(job)@.done,
            old(job)@.sound(old(self).model.spelling()),
            windows_of(old(self).model.about()).valid(),
        ensures
            final(self).model.about() == old(self).model.about(),
            final(self).model.spelling() == old(self).model.spelling(),
            final(self).model.hearing() == old(self).model.hearing(),
            final(job)@.sound(old(self).model.spelling()),
            final(job)@.samples == old(job)@.samples,
            r matches Ok(list) ==> closed_models(list@) == new_segments(old(job)@, final(job)@)
                && took_window(
                old(job)@,
                windows_of(old(self).model.about()),
                old(self).model.spelling(),
                old(self).model.hearing(),
                Ok(final(job)@),
            ),
            r matches Err(e) ==> {
                ||| final(job)@ == old(job)@ && (old(self).model.hearing())(
                    old(job)@.window(windows_of(old(self).model.about())),
                    Err(e@),
                )
                ||| took_window(
                    old(job)@,
                    windows_of(old(self).model.about()),
                    old(self).model.spelling(),
                    old(self).model.hearing(),
                    Err((e@, final(job)@)),
                )
            },
    {
        let ghost was = job@;
        let ghost w = windows_of(self.model.about());
        let ghost spelling = self.model.spelling();
        let ghost hearing = self.model.hearing();
        let rate: u32 = self.model.info().sample_rate;
        let window: u64 = self.model.info().max_window_samples;
        proof {
            lemma_window_sizes(w);
        }
        let context: u64 = CONTEXT_SECONDS as u64 * rate as u64;
        let stride: u64 = window - 2 * context;
        let size: usize = job.samples.len();
        let begin: usize = job.begin;
        let last: bool = begin as u128 + window as u128 >= size as u128;
        let to: usize = if last {
            size
        } else {
            begin + window as usize
        };
        let part: &[u32] = slice_subrange(job.samples.as_slice(), begin, to);
        assert(part@ == was.window(w));
        let tokens: Vec<SpeechToken> = self.model.transcribe(part)?;
        let ghost models = token_models(tokens@);
        let found: Vec<Word> = words(&shift_tokens(tokens, begin as u64));
        let from: u128 = begin as u128 + context as u128;
        keep_words(
            &mut job.kept,
            found,
            from,
            from + stride as u128,
            begin == 0,
            last,
            Ghost(w),
            Ghost(begin as nat),
        );
        let ghost kept = was.kept_after(w, models);
        let words_len: usize = job.kept.len();
        assert(job@ =~= JobModel { kept, ..was });
        assert(was.kept.is_prefix_of(kept)) by {
            assert(kept.take(was.kept.len() as int) =~= was.kept);
        }
        let settled: usize = if job.ends.len() == 0 {
            0
        } else {
            job.ends[job.ends.len() - 1]
        };
        let ends: Vec<usize> = segment_ends(&job.kept, settled, rate);
        let count: usize = if last || ends.len() == 0 {
            ends.len()
        } else {
            ends.len() - 1
        };
        proof {
            lemma_closed_sound(was, w, spelling, kept, count as nat);
        }
        let out: Vec<(Segment, Vec<Word>)> = match self.close(
            job,
            settled,
            &ends,
            count,
            Ghost(was),
            Ghost(w),
        ) {
            Ok(out) => out,
            Err(e) => {
                proof {
                    assert(was.after(w, spelling, models) == Err::<
                        JobModel,
                        (ErrorModel, JobModel),
                    >((e@, job@)));
                    assert(took_window(was, w, spelling, hearing, Err((e@, job@))));
                }
                return Err(e);
            },
        };
        let ghost closed = job@;
        if last {
            job.done = true;
        } else {
            job.begin = begin + stride as usize;
        }
        proof {
            assert(was.after(w, spelling, models) == Ok::<JobModel, (ErrorModel, JobModel)>(job@));
            law_steps_only_add(was, w, spelling, models);
            assert(new_segments(was, closed) =~= new_segments(was, job@));
            assert(took_window(was, w, spelling, hearing, Ok(job@)));
        }
        Ok(out)
    }

    /// The transcript of a finished (or stopped) job.
    pub fn finish(&self, job: Transcription) -> (r: Result<Transcript>)
        ensures
            r matches Ok(t) ==> t.duration == job@.samples.len() && word_models(t.words@)
                == job@.kept && segment_models(t.segments@) == job@.segments && text_of(
                self.model.spelling(),
                job@.kept,
            ) == Ok::<Seq<char>, ErrorModel>(t.text@),
            r matches Err(e) ==> text_of(self.model.spelling(), job@.kept) == Err::<
                Seq<char>,
                ErrorModel,
            >(e@),
    {
        let text: String = self.text(&job.kept)?;
        Ok(
            Transcript {
                text,
                duration: job.samples.len(),
                words: job.kept,
                segments: job.segments,
            },
        )
    }
}

impl<M: SpeechModel> Transcriber<M> {
    /// Transcribes a whole recording. `listener` receives each closed segment with its words and
    /// returns `false` to stop (the transcript then ends with that segment).
    pub fn transcribe<L: SegmentListener>(&mut self, samples: Vec<u32>, listener: &mut L) -> (r:
        Result<Transcript>)
        requires
            windows_of(old(self).model.about()).valid(),
        ensures
            final(self).model.about() == old(self).model.about(),
            final(self).model.spelling() == old(self).model.spelling(),
            final(self).model.hearing() == old(self).model.hearing(),
            r matches Ok(t) ==> {
                &&& complete(old(self).model.spelling(), t)
                &&& old(listener).received().is_prefix_of(final(listener).received())
                &&& transcript_of(
                    fresh(samples@),
                    windows_of(old(self).model.about()),
                    old(self).model.spelling(),
                    old(self).model.hearing(),
                    t,
                    final(listener).received().skip(old(listener).received().len() as int),
                    final(listener).answers().skip(old(listener).answers().len() as int),
                )
            },
            obeyed(old(listener).answers(), final(listener).answers()),
            r matches Err(e) ==> transcription_fails(
                fresh(samples@),
                windows_of(old(self).model.about()),
                old(self).model.spelling(),
                old(self).model.hearing(),
                e@,
            ),
    {
        let ghost spelling = self.model.spelling();
        let ghost hearing = self.model.hearing();
        let ghost about = self.model.about();
        let ghost n = samples@.len();
        let ghost start = fresh(samples@);
        let ghost known = listener.received();
        let ghost says = listener.answers();
        let mut job: Transcription = Transcription::new(samples);
        let ghost w = windows_of(about);
        let ghost mut course: Seq<JobModel> = seq![job@];
        let ghost mut cut: Option<nat> = None;
        proof {
            lemma_window_sizes(w);
            assert(known + new_segments(start, job@) =~= known);
            assert(says.take(says.len() as int) =~= says);
        }
        let size: usize = job.samples.len();
        while !job.is_done()
            invariant
                self.model.spelling() == spelling,
                self.model.hearing() == hearing,
                self.model.about() == about,
                spelling == old(self).model.spelling(),
                hearing == old(self).model.hearing(),
                about == old(self).model.about(),
                start == fresh(samples@),
                known == old(listener).received(),
                w == windows_of(about),
                w.valid(),
                size == n,
                job@.samples.len() == n,
                job@.sound(spelling),
                job@.done ==> settled_of(job@.ends) == job@.kept.len(),
                is_course(course, start, w, spelling, hearing),
                !job@.done ==> job@ == course.last(),
                job@.done ==> ended(course.last(), cut) == Some(job@),
                listener.received() == known + new_segments(start, job@),
                says == old(listener).answers(),
                says.len() <= listener.answers().len(),
                listener.answers().take(says.len() as int) == says,
                cut_by(
                    listener.answers().skip(says.len() as int),
                    cut,
                    new_segments(start, job@).len(),
                ),
                !job@.done ==> cut is None,
                cut matches Some(id) ==> says.len() + id + 1 == listener.answers().len(),
            decreases
                    (if job@.done {
                        0int
                    } else {
                        1
                    }),
                    n - job@.begin,
        {
            let ghost before = job@;
            let closed: Vec<(Segment, Vec<Word>)> = match self.step(&mut job) {
                Ok(closed) => closed,
                Err(e) => {
                    proof {
                        lemma_cut_obeys(says, listener.answers(), None);
                        assert(spoiled(before, w, spelling, hearing, e@));
                        assert(transcription_fails(start, w, spelling, hearing, e@));
                    }
                    return Err(e);
                },
            };
            let ghost after = job@;
            let kept_len: usize = job.kept.len();
            proof {
                assert(kept_len == job@.kept.len());
                let tokens = choose|tokens: Seq<TokenModel>| #[trigger]
                    before.after(w, spelling, tokens) == Ok::<JobModel, (ErrorModel, JobModel)>(
                        job@,
                    );
                lemma_window_sizes(w);
                lemma_settles(before, w, spelling, tokens);
                lemma_course_goes_on(course, start, w, spelling, hearing, after);
                course = course.push(after);
                lemma_new_segments_join(start, before, after);
            }
            let ghost delivered = listener.received();
            let ghost given = listener.answers();
            let ghost count: nat = new_segments(start, before).len();
            let mut i: usize = 0;
            let mut stopped: Option<usize> = None;
            assert(delivered + new_segments(before, after).take(0) =~= delivered);
            while i < closed.len() && stopped.is_none()
                invariant
                    i <= closed@.len(),
                    job@ == after,
                    closed_models(closed@) == new_segments(before, after),
                    before.segments.len() <= after.segments.len(),
                    after.sound(spelling),
                    listener.received() == delivered + new_segments(before, after).take(i as int),
                    says.len() <= listener.answers().len(),
                    listener.answers().take(says.len() as int) == says,
                    count == before.segments.len(),
                    cut_by(
                        listener.answers().skip(says.len() as int),
                        match stopped {
                            Some(id) => Some(id as nat),
                            None => None,
                        },
                        count + i as nat,
                    ),
                    stopped matches Some(id) ==> i > 0 && id < after.segments.len() && id + 1
                        == before.segments.len() + i,
                decreases closed@.len() - i + if stopped.is_none() {
                    1int
                } else {
                    0int
                },
            {
                proof {
                    let all = new_segments(before, after);
                    assert(closed_models(closed@)[i as int] == (
                        closed@[i as int].0@,
                        word_models(closed@[i as int].1@),
                    ));
                    lemma_segment_ids(before, after, spelling, i as int);
                    assert((delivered + all.take(i as int)).push(all[i as int]) =~= delivered
                        + all.take(i + 1));
                }
                let ghost had = listener.answers();
                if !listener.on_segment(&closed[i].0, &closed[i].1) {
                    stopped = Some(closed[i].0.id);
                }
                proof {
                    let now = listener.answers();
                    assert(now.take(says.len() as int) =~= had.take(says.len() as int));
                    assert(now.skip(says.len() as int) =~= had.skip(says.len() as int).push(
                        now.last(),
                    ));
                }
                i += 1;
            }
            match stopped {
                Some(id) => {
                    let count: usize = job.segments.len();
                    job.stop_after(id);
                    proof {
                        lemma_stopped(after, job@, spelling, id as nat);
                        cut = Some(id as nat);
                        lemma_stopped_segments(start, before, after, spelling, id as nat);
                        assert(listener.received() =~= known + new_segments(start, job@));
                    }
                },
                None => {
                    proof {
                        cut = None;
                        assert(new_segments(before, after).take(i as int) =~= new_segments(
                            before,
                            after,
                        ));
                        assert(listener.received() =~= known + new_segments(start, job@));
                    }
                },
            }
        }
        let ghost done = job@;
        proof {
            lemma_cut_obeys(says, listener.answers(), cut);
        }
        match self.finish(job) {
            Ok(transcript) => {
                proof {
                    assert(done.sound(spelling));
                    assert(complete_with(spelling, transcript, done.ends));
                    let received = listener.received().skip(known.len() as int);
                    assert(received =~= new_segments(start, done));
                    assert(listener.received().take(known.len() as int) =~= known);
                    let said = listener.answers().skip(says.len() as int);
                    assert(listener.answers().take(says.len() as int) =~= says);
                    assert(transcribed(
                        start,
                        course.last(),
                        cut,
                        spelling,
                        transcript,
                        received,
                        said,
                    ));
                    assert(transcript_of(start, w, spelling, hearing, transcript, received, said));
                }
                Ok(transcript)
            },
            Err(e) => {
                proof {
                    assert(ended(course.last(), cut) == Some(done));
                    assert(spoiled(course.last(), w, spelling, hearing, e@));
                    assert(transcription_fails(start, w, spelling, hearing, e@));
                }
                Err(e)
            },
        }
    }
}

/// A listener that is cut off at its answer is obeyed.
proof fn lemma_cut_obeys(before: Seq<bool>, after: Seq<bool>, cut: Option<nat>)
    requires
        before.len() <= after.len(),
        after.take(before.len() as int) == before,
        cut_by(after.skip(before.len() as int), cut, (after.len() - before.len()) as nat),
        cut matches Some(id) ==> before.len() + id + 1 == after.len(),
    ensures
        obeyed(before, after),
{
    assert forall|i: int| before.len() <= i < after.len() - 1 implies #[trigger] after[i] by {
        assert(after.skip(before.len() as int)[i - before.len()] == after[i]);
    }
}

/// One more window.
proof fn lemma_course_goes_on(
    course: Seq<JobModel>,
    start: JobModel,
    w: Windows,
    spelling: Spelling,
    hearing: Hearing,
    after: JobModel,
)
    requires
        is_course(course, start, w, spelling, hearing),
        !course.last().done,
        took_window(course.last(), w, spelling, hearing, Ok(after)),
    ensures
        is_course(course.push(after), start, w, spelling, hearing),
{
    let longer = course.push(after);
    assert forall|i: int| 0 <= i < longer.len() - 1 implies #[trigger] advances(
        longer,
        i,
        w,
        spelling,
        hearing,
    ) by {
        if i < course.len() - 1 {
            assert(advances(course, i, w, spelling, hearing));
        }
    }
}

/// The segments of two stretches of windows are those of both.
proof fn lemma_new_segments_join(start: JobModel, before: JobModel, after: JobModel)
    requires
        start.segments.len() == 0,
        before.segments.len() == before.ends.len(),
        growing(before.ends, before.kept.len()),
        before.kept.is_prefix_of(after.kept),
        before.segments.is_prefix_of(after.segments),
        before.ends.is_prefix_of(after.ends),
    ensures
        new_segments(start, after) == new_segments(start, before) + new_segments(before, after),
{
    let joined = new_segments(start, before) + new_segments(before, after);
    assert(new_segments(start, after).len() == joined.len());
    assert forall|i: int| 0 <= i < joined.len() implies new_segments(start, after)[i]
        == joined[i] by {
        if i < before.segments.len() {
            assert(after.segments[i] == before.segments[i]);
            assert(after.ends[i] == before.ends[i]);
            assert(before.ends[i] <= before.kept.len());
            if i > 0 {
                assert(after.ends[i - 1] == before.ends[i - 1]);
                assert(before.ends[i - 1] < before.ends[i]);
            }
            assert(after.kept.subrange(segment_start(after.ends, i), after.ends[i] as int)
                =~= before.kept.subrange(segment_start(before.ends, i), before.ends[i] as int));
        }
    }
    assert(new_segments(start, after) =~= joined);
}

/// What a listener that ends a job has received are the segments of the ended job.
proof fn lemma_stopped_segments(
    start: JobModel,
    before: JobModel,
    after: JobModel,
    spelling: Spelling,
    id: nat,
)
    requires
        start.segments.len() == 0,
        before.segments.len() <= id < after.segments.len(),
        after.sound(spelling),
        new_segments(start, after) == new_segments(start, before) + new_segments(before, after),
    ensures
        new_segments(start, after.stopped_after(id)) == new_segments(start, before)
            + new_segments(before, after).take(id + 1 - before.segments.len()),
{
    let end = after.stopped_after(id);
    let n = id + 1 - before.segments.len();
    let shown = new_segments(start, before) + new_segments(before, after).take(n);
    assert(end.segments.len() == id + 1);
    assert forall|i: int| 0 <= i < shown.len() implies new_segments(start, end)[i]
        == shown[i] by {
        assert(shown[i] == (new_segments(start, before) + new_segments(before, after))[i]);
        assert(shown[i] == new_segments(start, after)[i]);
        assert(end.segments[i] == after.segments[i]);
        assert(end.ends[i] == after.ends[i]);
        assert(end.ends[id as int] == after.ends[id as int]);
        assert(settled_of(end.ends) == after.ends[id as int]);
        assert(after.ends[i] <= after.ends[id as int]);
        if i > 0 {
            assert(end.ends[i - 1] == after.ends[i - 1]);
            assert(after.ends[i - 1] < after.ends[i]);
        }
        assert(end.kept.subrange(segment_start(end.ends, i), end.ends[i] as int)
            =~= after.kept.subrange(segment_start(after.ends, i), after.ends[i] as int));
    }
    assert(new_segments(start, end) =~= shown);
}

/// The segments of the transcript follow each other from the first word to the last, each with
/// the words it is made of, and the text is that of all words.
pub open spec fn complete_with(spelling: Spelling, t: Transcript, ends: Seq<usize>) -> bool {
    let words = word_models(t.words@);
    &&& growing(ends, words.len())
    &&& settled_of(ends) == words.len()
    &&& ends.len() == t.segments@.len()
    &&& forall|i: int|
        0 <= i < ends.len() ==> segment_of(
            spelling,
            i as nat,
            words.subrange(segment_start(ends, i), ends[i] as int),
        ) == Ok::<SegmentModel, ErrorModel>(#[trigger] segment_models(t.segments@)[i])
    &&& text_of(spelling, words) == Ok::<Seq<char>, ErrorModel>(t.text@)
}

/// Its segments partition the words of a transcript.
pub open spec fn complete(spelling: Spelling, t: Transcript) -> bool {
    exists|ends: Seq<usize>| #[trigger] complete_with(spelling, t, ends)
}

proof fn lemma_settles(job: JobModel, w: Windows, spelling: Spelling, tokens: Seq<TokenModel>)
    requires
        w.valid(),
        !job.done,
        job.sound(spelling),
        job.after(w, spelling, tokens) is Ok,
        job.after(w, spelling, tokens)->Ok_0.kept.len() <= usize::MAX,
    ensures
        ({
            let after = job.after(w, spelling, tokens)->Ok_0;
            &&& after.samples == job.samples
            &&& after.done ==> settled_of(after.ends) == after.kept.len()
            &&& !after.done ==> after.begin > job.begin
            &&& job.kept.is_prefix_of(after.kept)
            &&& job.segments.is_prefix_of(after.segments)
            &&& job.ends.is_prefix_of(after.ends)
        }),
{
    lemma_window_sizes(w);
    let kept = job.kept_after(w, tokens);
    lemma_after_kept(job, w, spelling, kept, job.closing(w, kept));
    law_steps_only_add(job, w, spelling, tokens);
}

proof fn lemma_after_kept(
    job: JobModel,
    w: Windows,
    spelling: Spelling,
    kept: Seq<WordModel>,
    k: nat,
)
    ensures
        job.closed_to(w, spelling, kept, k) matches Ok(j) ==> j.kept == kept && j.samples
            == job.samples,
    decreases k,
{
    if k > 0 {
        lemma_after_kept(job, w, spelling, kept, (k - 1) as nat);
    }
}

proof fn lemma_segment_ids(before: JobModel, after: JobModel, spelling: Spelling, i: int)
    requires
        after.sound(spelling),
        before.segments.len() <= after.segments.len(),
        0 <= i < new_segments(before, after).len(),
    ensures
        new_segments(before, after)[i].0.id == before.segments.len() + i,
        before.segments.len() + i < after.segments.len(),
{
    let k = before.segments.len() + i;
    assert(new_segments(before, after)[i].0 == after.segments[k]);
}

proof fn lemma_stopped(all: JobModel, job: JobModel, spelling: Spelling, id: nat)
    requires
        all.sound(spelling),
        id < all.segments.len(),
        job.samples == all.samples,
        job.begin == all.begin,
        job.done,
        job.ends == if all.ends.len() > id + 1 {
            all.ends.take(id as int + 1)
        } else {
            all.ends
        },
        job.segments == if all.segments.len() > id + 1 {
            all.segments.take(id as int + 1)
        } else {
            all.segments
        },
        job.kept == if all.kept.len() > settled_of(job.ends) {
            all.kept.take(settled_of(job.ends) as int)
        } else {
            all.kept
        },
    ensures
        job.sound(spelling),
        settled_of(job.ends) == job.kept.len(),
{
    assert(job.ends =~= all.ends.take(id as int + 1));
    assert(job.segments =~= all.segments.take(id as int + 1));
    let n = settled_of(job.ends) as int;
    assert(job.ends.last() == all.ends[id as int]);
    assert(job.kept =~= all.kept.take(n));
    assert forall|i: int| 0 <= i < job.ends.len() implies 0 < (#[trigger] job.ends[i])
        <= job.kept.len() by {
        assert(job.ends[i] == all.ends[i]);
        if i < id {
            assert(all.ends[i] < all.ends[id as int]);
        }
    }
    assert forall|i: int| 0 <= i < job.ends.len() implies segment_of(
        spelling,
        i as nat,
        job.kept.subrange(segment_start(job.ends, i), job.ends[i] as int),
    ) == Ok::<SegmentModel, ErrorModel>(#[trigger] job.segments[i]) by {
        assert(job.segments[i] == all.segments[i]);
        assert(job.ends[i] == all.ends[i]);
        if i > 0 {
            assert(job.ends[i - 1] == all.ends[i - 1]);
            assert(all.ends[i - 1] < all.ends[i]);
        }
        if i < id {
            assert(all.ends[i] < all.ends[id as int]);
        }
        assert(job.kept.subrange(segment_start(job.ends, i), job.ends[i] as int)
            =~= all.kept.subrange(segment_start(all.ends, i), all.ends[i] as int));
    }
}

/// Tokens that the model may hear in the next window lead to this outcome.
pub open spec fn took_window(
    job: JobModel,
    w: Windows,
    spelling: Spelling,
    hearing: Hearing,
    outcome: core::result::Result<JobModel, (ErrorModel, JobModel)>,
) -> bool {
    exists|tokens: Seq<TokenModel>| #[trigger]
        job.after(w, spelling, tokens) == outcome && hearing(job.window(w), Ok(tokens))
}

/// Window `i` leads from one job of the course to the next.
pub open spec fn advances(
    course: Seq<JobModel>,
    i: int,
    w: Windows,
    spelling: Spelling,
    hearing: Hearing,
) -> bool {
    !course[i].done && took_window(course[i], w, spelling, hearing, Ok(course[i + 1]))
}

/// The jobs after each window, from `start` on.
pub open spec fn is_course(
    course: Seq<JobModel>,
    start: JobModel,
    w: Windows,
    spelling: Spelling,
    hearing: Hearing,
) -> bool {
    &&& course.len() > 0
    &&& course[0] == start
    &&& forall|i: int|
        0 <= i < course.len() - 1 ==> #[trigger] advances(course, i, w, spelling, hearing)
}

/// The job that a transcript is made of: all windows were taken, or the listener ended it after
/// segment `cut`.
pub open spec fn ended(job: JobModel, cut: Option<nat>) -> Option<JobModel> {
    match cut {
        None => if job.done {
            Some(job)
        } else {
            None
        },
        Some(id) => if id < job.segments.len() {
            Some(job.stopped_after(id))
        } else {
            None
        },
    }
}

/// There are `count` answers, all to go on but the one to segment `cut`.
pub open spec fn cut_by(said: Seq<bool>, cut: Option<nat>, count: nat) -> bool {
    &&& said.len() == count
    &&& forall|i: int| 0 <= i < count ==> #[trigger] said[i] == (cut != Some(i as nat))
}

/// The transcript of a job that has ended, each of whose segments the listener received: all of
/// them, or up to the one that it answered with a stop.
pub open spec fn transcribed(
    start: JobModel,
    job: JobModel,
    cut: Option<nat>,
    spelling: Spelling,
    t: Transcript,
    received: Seq<(SegmentModel, Seq<WordModel>)>,
    said: Seq<bool>,
) -> bool {
    match ended(job, cut) {
        None => false,
        Some(end) => {
            &&& t.duration == end.samples.len()
            &&& word_models(t.words@) == end.kept
            &&& segment_models(t.segments@) == end.segments
            &&& text_of(spelling, end.kept) == Ok::<Seq<char>, ErrorModel>(t.text@)
            &&& received == new_segments(start, end)
            &&& cut_by(said, cut, received.len())
        },
    }
}

/// Some windows of the recording lead to this transcript.
pub open spec fn transcript_of(
    start: JobModel,
    w: Windows,
    spelling: Spelling,
    hearing: Hearing,
    t: Transcript,
    received: Seq<(SegmentModel, Seq<WordModel>)>,
    said: Seq<bool>,
) -> bool {
    exists|course: Seq<JobModel>, cut: Option<nat>|
        #![trigger is_course(course, start, w, spelling, hearing), ended(course.last(), cut)]
        is_course(course, start, w, spelling, hearing) && transcribed(
            start,
            course.last(),
            cut,
            spelling,
            t,
            received,
            said,
        )
}

/// A job fails: the model cannot hear the next window, or cannot spell a segment or the whole text.
pub open spec fn spoiled(
    job: JobModel,
    w: Windows,
    spelling: Spelling,
    hearing: Hearing,
    e: ErrorModel,
) -> bool {
    ||| !job.done && hearing(job.window(w), Err(e))
    ||| !job.done && exists|left: JobModel|
        took_window(job, w, spelling, hearing, Err((e, left)))
    ||| exists|cut: Option<nat>| #[trigger]
        ended(job, cut) matches Some(end) && text_of(spelling, end.kept) == Err::<
            Seq<char>,
            ErrorModel,
        >(e)
}

/// Some windows of the recording lead to this error.
pub open spec fn transcription_fails(
    start: JobModel,
    w: Windows,
    spelling: Spelling,
    hearing: Hearing,
    e: ErrorModel,
) -> bool {
    exists|course: Seq<JobModel>| #[trigger]
        is_course(course, start, w, spelling, hearing) && spoiled(
            course.last(),
            w,
            spelling,
            hearing,
            e,
        )
}

proof fn lemma_window_sizes(w: Windows)
    requires
        w.valid(),
    ensures
        0 < w.stride() <= w.size() <= u64::MAX,
        w.context() <= 5 * u32::MAX,
        2 * w.context() < w.size(),
{
}

proof fn lemma_closing_fails(
    job: JobModel,
    w: Windows,
    spelling: Spelling,
    kept: Seq<WordModel>,
    i: nat,
    n: nat,
)
    requires
        i <= n,
        job.closed_to(w, spelling, kept, i) is Err,
    ensures
        job.closed_to(w, spelling, kept, n) == job.closed_to(w, spelling, kept, i),
    decreases n - i,
{
    if i < n {
        lemma_closing_fails(job, w, spelling, kept, i, (n - 1) as nat);
    }
}

proof fn lemma_new_segment(
    was: JobModel,
    before: JobModel,
    after: JobModel,
    segment: SegmentModel,
    end: usize,
)
    requires
        was.segments.len() <= before.segments.len(),
        before.segments.len() == before.ends.len(),
        after == (JobModel {
            segments: before.segments.push(segment),
            ends: before.ends.push(end),
            ..before
        }),
    ensures
        new_segments(was, after) == new_segments(was, before).push(
            (segment, after.kept.subrange(settled_of(before.ends) as int, end as int)),
        ),
{
    let a = new_segments(was, before);
    let b = new_segments(was, after);
    let n = was.segments.len();
    let added = (segment, after.kept.subrange(settled_of(before.ends) as int, end as int));
    assert forall|i: int| 0 <= i < b.len() implies b[i] == a.push(added)[i] by {
        if n + i > 0 {
            assert(after.ends[n + i - 1] == before.ends[n + i - 1]);
        }
        if i < a.len() {
            assert(after.segments[n + i] == before.segments[n + i]);
            assert(after.ends[n + i] == before.ends[n + i]);
        }
    }
    assert(b =~= a.push(added));
}

/// Closing segments keeps the recording and where the job stands.
pub proof fn lemma_closed_samples(
    job: JobModel,
    w: Windows,
    spelling: Spelling,
    kept: Seq<WordModel>,
    k: nat,
)
    ensures
        job.closed_to(w, spelling, kept, k) matches Ok(after) ==> after.samples == job.samples
            && after.done == job.done && after.begin == job.begin && after.kept == kept,
    decreases k,
{
    if k > 0 {
        lemma_closed_samples(job, w, spelling, kept, (k - 1) as nat);
    }
}

} // verus!
