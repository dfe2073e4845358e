//! One live session: the input audio buffer at the model's rate, server-side turns, and items
//! waiting for their transcription.
//!
//! While a turn is live, passes over the utterance so far give words, and those that two
//! consecutive passes agree on are sent as deltas. A committed turn is transcribed in full.
use crate::realtime::agreement::{agreed, agreement, law_agreed_words_are_the_same_in_both_passes};
use crate::sequences::texts;
use crate::text::{
    decimal, digits, has_prefix, same_text, strip_start, text_in, trim, trim_before,
    trim_start_text, trim_text,
};
use vstd::prelude::*;
use vstd::string::*;

verus! {

/// Turns longer than this many seconds get no more live deltas until they are committed.
pub const PARTIAL_LIMIT_SECONDS: u64 = 30;

/// A live turn: speech detected, not yet committed.
#[derive(Debug)]
pub struct Turn {
    pub item_id: String,
    /// Absolute sample where the turn starts.
    pub start: usize,
    /// Absolute sample of the last live pass.
    pub passed_at: usize,
    /// The words of the last live pass.
    pub hypothesis: Vec<String>,
    /// Words already sent as deltas, and their text.
    pub agreed: usize,
    pub sent: String,
}

/// The mathematical model of a [`Turn`].
#[verifier::ext_equal]
pub struct TurnModel {
    pub item_id: Seq<char>,
    pub start: usize,
    pub passed_at: usize,
    pub hypothesis: Seq<Seq<char>>,
    pub agreed: usize,
    pub sent: Seq<char>,
}

impl View for Turn {
    type V = TurnModel;

    open spec fn view(&self) -> TurnModel {
        TurnModel {
            item_id: self.item_id@,
            start: self.start,
            passed_at: self.passed_at,
            hypothesis: texts(self.hypothesis@),
            agreed: self.agreed,
            sent: self.sent@,
        }
    }
}

/// A committed turn waiting for, or in, its full transcription.
#[derive(Debug)]
pub struct Committed {
    pub item_id: String,
    pub previous: Option<String>,
    /// Its samples, as bit patterns.
    pub samples: Vec<u32>,
    /// Delta text already sent for the item.
    pub sent: String,
    /// Whether segments are streamed as deltas (no live deltas were sent).
    pub stream_segments: bool,
}

/// The mathematical model of a [`Committed`].
#[verifier::ext_equal]
pub struct CommittedModel {
    pub item_id: Seq<char>,
    pub previous: Option<Seq<char>>,
    pub samples: Seq<u32>,
    pub sent: Seq<char>,
    pub stream_segments: bool,
}

impl View for Committed {
    type V = CommittedModel;

    open spec fn view(&self) -> CommittedModel {
        CommittedModel {
            item_id: self.item_id@,
            previous: text_in(self.previous),
            samples: self.samples@,
            sent: self.sent@,
            stream_segments: self.stream_segments,
        }
    }
}

/// The models of committed turns.
pub open spec fn committed_models(list: Seq<Committed>) -> Seq<CommittedModel> {
    Seq::new(list.len(), |i: int| list[i]@)
}

/// What the client is told.
#[derive(Debug)]
pub enum Event {
    /// The buffer exceeded so many samples and was cleared.
    TooLong { samples: u64 },
    /// A buffer of less than 100 ms cannot be committed.
    TooShort,
    SpeechStarted { item_id: String, audio_start_ms: u64 },
    SpeechStopped { item_id: String, audio_end_ms: u64 },
    Committed { item_id: String, previous: Option<String> },
    /// More text of an item; from words `from..to` of the last pass.
    Delta { item_id: String, delta: String, from: usize, to: usize },
    Completed { item_id: String, previous: Option<String>, transcript: String },
    Failed { item_id: String, message: String },
}

/// The mathematical model of an [`Event`].
#[verifier::ext_equal]
pub enum EventModel {
    TooLong { samples: u64 },
    TooShort,
    SpeechStarted { item_id: Seq<char>, audio_start_ms: u64 },
    SpeechStopped { item_id: Seq<char>, audio_end_ms: u64 },
    Committed { item_id: Seq<char>, previous: Option<Seq<char>> },
    Delta { item_id: Seq<char>, delta: Seq<char>, from: usize, to: usize },
    Completed { item_id: Seq<char>, previous: Option<Seq<char>>, transcript: Seq<char> },
    Failed { item_id: Seq<char>, message: Seq<char> },
}

impl View for Event {
    type V = EventModel;

    open spec fn view(&self) -> EventModel {
        match self {
            Event::TooLong { samples } => EventModel::TooLong { samples: *samples },
            Event::TooShort => EventModel::TooShort,
            Event::SpeechStarted { item_id, audio_start_ms } => EventModel::SpeechStarted {
                item_id: item_id@,
                audio_start_ms: *audio_start_ms,
            },
            Event::SpeechStopped { item_id, audio_end_ms } => EventModel::SpeechStopped {
                item_id: item_id@,
                audio_end_ms: *audio_end_ms,
            },
            Event::Committed { item_id, previous } => EventModel::Committed {
                item_id: item_id@,
                previous: text_in(*previous),
            },
            Event::Delta { item_id, delta, from, to } => EventModel::Delta {
                item_id: item_id@,
                delta: delta@,
                from: *from,
                to: *to,
            },
            Event::Completed { item_id, previous, transcript } => EventModel::Completed {
                item_id: item_id@,
                previous: text_in(*previous),
                transcript: transcript@,
            },
            Event::Failed { item_id, message } => EventModel::Failed {
                item_id: item_id@,
                message: message@,
            },
        }
    }
}

/// The models of events.
pub open spec fn event_models(list: Seq<Event>) -> Seq<EventModel> {
    Seq::new(list.len(), |i: int| list[i]@)
}

/// A live session.
#[derive(Debug)]
pub struct Live {
    /// Samples per second of the model.
    pub rate: u32,
    /// Samples between live passes over a turn.
    pub interval: usize,
    /// Longest buffer in samples.
    pub max_samples: u64,
    /// With turn detection, the samples to keep between turns: what a new turn's prefix padding
    /// could reach back to.
    pub keep: Option<usize>,
    /// Absolute sample where the detector started counting.
    pub vad_base: usize,
    /// The input audio buffer; `buffer[0]` is absolute sample `buffer_start`.
    pub buffer: Vec<u32>,
    pub buffer_start: usize,
    pub turn: Option<Turn>,
    pub previous_item: Option<String>,
    pub items: u64,
    /// The item of a live pass that runs.
    pub partial: Option<String>,
    /// Committed turns, the oldest first.
    pub committed: Vec<Committed>,
    /// The turn in transcription.
    pub active: Option<Committed>,
}

/// The mathematical model of a [`Live`].
#[verifier::ext_equal]
pub struct LiveModel {
    pub rate: u32,
    pub interval: usize,
    pub max_samples: u64,
    pub keep: Option<usize>,
    pub vad_base: usize,
    pub buffer: Seq<u32>,
    pub buffer_start: usize,
    pub turn: Option<TurnModel>,
    pub previous_item: Option<Seq<char>>,
    pub items: u64,
    pub partial: Option<Seq<char>>,
    pub committed: Seq<CommittedModel>,
    pub active: Option<CommittedModel>,
}

impl View for Live {
    type V = LiveModel;

    open spec fn view(&self) -> LiveModel {
        LiveModel {
            rate: self.rate,
            interval: self.interval,
            max_samples: self.max_samples,
            keep: self.keep,
            vad_base: self.vad_base,
            buffer: self.buffer@,
            buffer_start: self.buffer_start,
            turn: match self.turn {
                None => None,
                Some(turn) => Some(turn@),
            },
            previous_item: text_in(self.previous_item),
            items: self.items,
            partial: text_in(self.partial),
            committed: committed_models(self.committed@),
            active: match self.active {
                None => None,
                Some(c) => Some(c@),
            },
        }
    }
}

impl LiveModel {
    /// The absolute sample after the buffer.
    pub open spec fn end(self) -> int {
        self.buffer_start + self.buffer.len()
    }

    /// Samples are counted within the machine's sizes, and there is a rate.
    pub open spec fn sound(self) -> bool {
        self.end() <= usize::MAX && self.rate > 0
    }

    /// Without audio, turn and pass.
    pub open spec fn emptied(self) -> LiveModel {
        LiveModel {
            buffer: Seq::empty(),
            buffer_start: self.end() as usize,
            turn: None,
            partial: None,
            ..self
        }
    }

    /// Where a turn starts in the buffer.
    pub open spec fn turn_from(self, turn: TurnModel) -> int {
        let from = if turn.start > self.buffer_start {
            turn.start - self.buffer_start
        } else {
            0
        };
        if from < self.buffer.len() {
            from
        } else {
            self.buffer.len() as int
        }
    }

    /// Where a turn that ends at absolute sample `end` ends in the buffer.
    pub open spec fn turn_to(self, turn: TurnModel, end: usize) -> int {
        let to = if end > self.buffer_start {
            end - self.buffer_start
        } else {
            0
        };
        if to < self.turn_from(turn) {
            self.turn_from(turn)
        } else if to > self.buffer.len() {
            self.buffer.len() as int
        } else {
            to
        }
    }

    /// What is committed of a turn.
    pub open spec fn committed_turn(self, turn: TurnModel, end: usize) -> CommittedModel {
        CommittedModel {
            item_id: turn.item_id,
            previous: self.previous_item,
            samples: self.buffer.subrange(self.turn_from(turn), self.turn_to(turn, end)),
            sent: turn.sent,
            stream_segments: turn.sent.len() == 0,
        }
    }

    /// The session after `turn` is committed up to absolute sample `end`: its audio and all before
    /// it leave the buffer, and it waits behind the turns committed before.
    pub open spec fn after_commit(self, turn: TurnModel, end: usize) -> LiveModel {
        let to = self.turn_to(turn, end);
        LiveModel {
            buffer: self.buffer.skip(to),
            buffer_start: (self.buffer_start + to) as usize,
            turn: None,
            previous_item: Some(turn.item_id),
            partial: if self.partial == Some(turn.item_id) {
                None
            } else {
                self.partial
            },
            committed: self.committed.push(self.committed_turn(turn, end)),
            ..self
        }
    }
}

/// The time of a sample in milliseconds.
pub open spec fn millis_of(sample: nat, rate: u32) -> u64 {
    let ms = sample * 1000 / rate as nat;
    if ms <= u64::MAX {
        ms as u64
    } else {
        u64::MAX
    }
}

/// The id of an item: its number and a random suffix.
pub open spec fn item_name(number: u64, suffix: Seq<char>) -> Seq<char> {
    "item_"@ + digits(number as nat) + "_"@ + suffix
}

/// One more item.
pub open spec fn next_number(items: u64) -> u64 {
    if items == u64::MAX {
        u64::MAX
    } else {
        (items + 1) as u64
    }
}

/// A turn without passes.
pub open spec fn fresh_turn(item_id: Seq<char>, start: usize) -> TurnModel {
    TurnModel {
        item_id,
        start,
        passed_at: start,
        hypothesis: Seq::empty(),
        agreed: 0,
        sent: Seq::empty(),
    }
}

// ---------------------------------------------------------------------------------------------
// Laws
// ---------------------------------------------------------------------------------------------

/// Committing loses no audio: what leaves the buffer and what stays are together what was there,
/// the committed samples end where the buffer goes on, and the end of the audio stays where it is.
pub proof fn law_commits_keep_the_audio(live: LiveModel, turn: TurnModel, end: usize)
    requires
        live.sound(),
    ensures
        ({
            let after = live.after_commit(turn, end);
            let to = live.turn_to(turn, end);
            &&& 0 <= live.turn_from(turn) <= to <= live.buffer.len()
            &&& live.buffer == live.buffer.take(to) + after.buffer
            &&& live.committed_turn(turn, end).samples == live.buffer.take(to).skip(
                live.turn_from(turn),
            )
            &&& after.end() == live.end()
            &&& after.sound()
        }),
{
    let to = live.turn_to(turn, end);
    let from = live.turn_from(turn);
    assert(live.buffer =~= live.buffer.take(to) + live.buffer.skip(to));
    assert(live.buffer.subrange(from, to) =~= live.buffer.take(to).skip(from));
}

/// Items are chained: a committed turn names the one committed before it, and turns are
/// transcribed in the order of their commits.
pub proof fn law_commits_are_chained(
    live: LiveModel,
    first: TurnModel,
    first_end: usize,
    second: TurnModel,
    second_end: usize,
)
    ensures
        ({
            let mid = live.after_commit(first, first_end);
            let after = mid.after_commit(second, second_end);
            let n = live.committed.len();
            &&& after.committed.len() == n + 2
            &&& after.committed.take(n as int) == live.committed
            &&& after.committed[n as int].item_id == first.item_id
            &&& after.committed[n as int].previous == live.previous_item
            &&& after.committed[n as int + 1].item_id == second.item_id
            &&& after.committed[n as int + 1].previous == Some(first.item_id)
        }),
{
    let mid = live.after_commit(first, first_end);
    let after = mid.after_commit(second, second_end);
    let n = live.committed.len();
    assert(after.committed.take(n as int) =~= live.committed);
}

// ---------------------------------------------------------------------------------------------
// The session
// ---------------------------------------------------------------------------------------------

fn millis(sample: usize, rate: u32) -> (r: u64)
    requires
        rate > 0,
    ensures
        r == millis_of(sample as nat, rate),
{
    let ms: u128 = sample as u128 * 1000 / rate as u128;
    if ms <= u64::MAX as u128 {
        ms as u64
    } else {
        u64::MAX
    }
}

fn copy_text(text: &Option<String>) -> (r: Option<String>)
    ensures
        text_in(r) == text_in(*text),
{
    match text {
        None => None,
        Some(s) => Some(s.as_str().to_owned()),
    }
}

fn empty_text() -> (r: String)
    ensures
        r@ == Seq::<char>::empty(),
{
    proof {
        reveal_strlit("");
        assert(""@ =~= Seq::<char>::empty());
    }
    "".to_owned()
}

fn new_turn(item_id: String, start: usize) -> (r: Turn)
    ensures
        r@ == fresh_turn(item_id@, start),
{
    let turn: Turn = Turn {
        item_id,
        start,
        passed_at: start,
        hypothesis: Vec::new(),
        agreed: 0,
        sent: empty_text(),
    };
    assert(turn@.hypothesis =~= Seq::empty());
    turn
}

impl Live {
    /// A session without audio. `keep` is none without turn detection.
    pub fn new(rate: u32, interval: usize, max_samples: u64, keep: Option<usize>) -> (r: Self)
        requires
            rate > 0,
        ensures
            r@ == (LiveModel {
                rate,
                interval,
                max_samples,
                keep,
                vad_base: 0,
                buffer: Seq::empty(),
                buffer_start: 0,
                turn: None,
                previous_item: None,
                items: 0,
                partial: None,
                committed: Seq::empty(),
                active: None,
            }),
            r@.sound(),
    {
        let live: Live = Live {
            rate,
            interval,
            max_samples,
            keep,
            vad_base: 0,
            buffer: Vec::new(),
            buffer_start: 0,
            turn: None,
            previous_item: None,
            items: 0,
            partial: None,
            committed: Vec::new(),
            active: None,
        };
        assert(live@.buffer =~= Seq::empty());
        assert(live@.committed =~= Seq::empty());
        live
    }

    /// Turn detection was changed: it restarts with the audio that follows.
    pub fn redetect(&mut self, keep: Option<usize>)
        requires
            old(self)@.sound(),
        ensures
            final(self)@ == (LiveModel {
                keep,
                vad_base: old(self)@.end() as usize,
                turn: None,
                partial: None,
                ..old(self)@
            }),
    {
        self.keep = keep;
        self.vad_base = self.buffer_start + self.buffer.len();
        self.turn = None;
        self.partial = None;
    }

    /// Drops the buffered audio, and the turn with it.
    pub fn clear(&mut self)
        requires
            old(self)@.sound(),
        ensures
            final(self)@ == old(self)@.emptied(),
            final(self)@.sound(),
    {
        self.buffer_start = self.buffer_start + self.buffer.len();
        self.buffer.clear();
        self.turn = None;
        self.partial = None;
        assert(self@ =~= old(self)@.emptied());
    }

    /// Buffers samples. A buffer that exceeds its limit is cleared, and the client is told.
    pub fn append(&mut self, samples: &Vec<u32>) -> (r: Option<Event>)
        requires
            old(self)@.sound(),
            old(self)@.end() + samples@.len() <= usize::MAX,
        ensures
            ({
                let longer = LiveModel { buffer: old(self)@.buffer + samples@, ..old(self)@ };
                let over = longer.buffer.len() > old(self)@.max_samples;
                &&& r is Some <==> over
                &&& r matches Some(e) ==> e@ == (EventModel::TooLong {
                    samples: old(self)@.max_samples,
                })
                &&& final(self)@ == if over {
                    longer.emptied()
                } else {
                    longer
                }
            }),
            final(self)@.sound(),
    {
        let ghost before = self@;
        let mut i: usize = 0;
        assert(before.buffer + samples@.take(0) =~= before.buffer);
        while i < samples.len()
            invariant
                i <= samples@.len(),
                self@ == (LiveModel { buffer: before.buffer + samples@.take(i as int), ..before }),
            decreases samples@.len() - i,
        {
            self.buffer.push(samples[i]);
            assert(samples@.take(i + 1) =~= samples@.take(i as int).push(samples@[i as int]));
            assert(self@ =~= LiveModel {
                buffer: before.buffer + samples@.take(i + 1),
                ..before
            });
            i += 1;
        }
        assert(samples@.take(i as int) =~= samples@);
        if self.buffer.len() as u64 > self.max_samples {
            let limit: u64 = self.max_samples;
            self.clear();
            return Some(Event::TooLong { samples: limit });
        }
        None
    }

    fn new_item(&mut self, suffix: &str) -> (r: String)
        ensures
            r@ == item_name(next_number(old(self)@.items), suffix@),
            final(self)@ == (LiveModel { items: next_number(old(self)@.items), ..old(self)@ }),
    {
        self.items = self.items.saturating_add(1);
        "item_".to_owned().concat(decimal(self.items).as_str()).concat("_").concat(suffix)
    }

    /// Speech started at a sample of the detector: a turn begins, with a new item.
    pub fn speech_started(&mut self, sample: usize, suffix: &str) -> (r: Event)
        requires
            old(self)@.sound(),
        ensures
            ({
                let at = if old(self)@.vad_base + sample > usize::MAX {
                    usize::MAX
                } else {
                    (old(self)@.vad_base + sample) as usize
                };
                let start = if at > old(self)@.buffer_start {
                    at
                } else {
                    old(self)@.buffer_start
                };
                let number = next_number(old(self)@.items);
                let item_id = item_name(number, suffix@);
                &&& r@ == (EventModel::SpeechStarted {
                    item_id,
                    audio_start_ms: millis_of(start as nat, old(self)@.rate),
                })
                &&& final(self)@ == (LiveModel {
                    items: number,
                    turn: Some(fresh_turn(item_id, start)),
                    ..old(self)@
                })
            }),
    {
        let at: usize = self.vad_base.saturating_add(sample);
        let start: usize = if at > self.buffer_start {
            at
        } else {
            self.buffer_start
        };
        let item_id: String = self.new_item(suffix);
        let audio_start_ms: u64 = millis(start, self.rate);
        self.turn = Some(new_turn(item_id.as_str().to_owned(), start));
        Event::SpeechStarted { item_id, audio_start_ms }
    }

    /// Speech stopped at a sample of the detector: the turn, where there is one, is committed.
    pub fn speech_stopped(&mut self, sample: usize) -> (r: Option<(Event, Event)>)
        requires
            old(self)@.sound(),
        ensures
            final(self)@.sound(),
            ({
                let end = if old(self)@.vad_base + sample > usize::MAX {
                    usize::MAX
                } else {
                    (old(self)@.vad_base + sample) as usize
                };
                match old(self)@.turn {
                    None => r is None && final(self)@ == old(self)@,
                    Some(turn) => {
                        &&& r matches Some((stopped, committed)) && stopped@ == (
                        EventModel::SpeechStopped {
                            item_id: turn.item_id,
                            audio_end_ms: millis_of(end as nat, old(self)@.rate),
                        }) && committed@ == (EventModel::Committed {
                            item_id: turn.item_id,
                            previous: old(self)@.previous_item,
                        })
                        &&& final(self)@ == old(self)@.after_commit(turn, end)
                    },
                }
            }),
    {
        let end: usize = self.vad_base.saturating_add(sample);
        match self.turn.take() {
            None => None,
            Some(turn) => {
                let stopped: Event = Event::SpeechStopped {
                    item_id: turn.item_id.as_str().to_owned(),
                    audio_end_ms: millis(end, self.rate),
                };
                let committed: Event = self.commit(turn, end);
                Some((stopped, committed))
            },
        }
    }

    /// Between turns, drops audio that no new turn can reach back to.
    pub fn trim_idle(&mut self)
        requires
            old(self)@.sound(),
        ensures
            final(self)@.sound(),
            ({
                let before = old(self)@;
                let kept = before.keep->Some_0;
                if before.turn is None && before.keep is Some && before.buffer.len() > kept {
                    let drop = before.buffer.len() - kept;
                    final(self)@ == (LiveModel {
                        buffer: before.buffer.skip(drop),
                        buffer_start: (before.buffer_start + drop) as usize,
                        ..before
                    })
                } else {
                    final(self)@ == before
                }
            }),
    {
        let ghost before = self@;
        if self.turn.is_some() {
            return ;
        }
        match self.keep {
            None => {},
            Some(kept) => {
                if self.buffer.len() > kept {
                    let drop: usize = self.buffer.len() - kept;
                    self.drop_front(drop);
                }
            },
        }
    }

    fn drop_front(&mut self, count: usize)
        requires
            count <= old(self).buffer@.len(),
            old(self)@.sound(),
        ensures
            final(self)@ == (LiveModel {
                buffer: old(self)@.buffer.skip(count as int),
                buffer_start: (old(self)@.buffer_start + count) as usize,
                ..old(self)@
            }),
            final(self)@.sound(),
    {
        let rest: Vec<u32> = self.buffer.split_off(count);
        self.buffer = rest;
        self.buffer_start = self.buffer_start + count;
        assert(self@ =~= LiveModel {
            buffer: old(self)@.buffer.skip(count as int),
            buffer_start: (old(self)@.buffer_start + count) as usize,
            ..old(self)@
        });
    }

    /// Commits `turn`, which is no longer live, up to absolute sample `end`.
    fn commit(&mut self, turn: Turn, end: usize) -> (r: Event)
        requires
            old(self)@.sound(),
            old(self)@.turn is None,
        ensures
            final(self)@ == old(self)@.after_commit(turn@, end),
            final(self)@.sound(),
            r@ == (EventModel::Committed {
                item_id: turn@.item_id,
                previous: old(self)@.previous_item,
            }),
    {
        let ghost before = self@;
        let ghost model = turn@;
        let size: usize = self.buffer.len();
        let offset: usize = turn.start.saturating_sub(self.buffer_start);
        let from: usize = if offset < size {
            offset
        } else {
            size
        };
        let until: usize = end.saturating_sub(self.buffer_start);
        let to: usize = if until < from {
            from
        } else if until > size {
            size
        } else {
            until
        };
        let mut samples: Vec<u32> = Vec::new();
        let mut i: usize = from;
        assert(samples@ =~= before.buffer.subrange(from as int, from as int));
        while i < to
            invariant
                from <= i <= to <= self.buffer@.len(),
                self@ == before,
                samples@ == before.buffer.subrange(from as int, i as int),
            decreases to - i,
        {
            samples.push(self.buffer[i]);
            assert(samples@ =~= before.buffer.subrange(from as int, i + 1));
            i += 1;
        }
        self.drop_front(to);
        let own: bool = match &self.partial {
            Some(item) => same_text(item.as_str(), turn.item_id.as_str()),
            None => false,
        };
        if own {
            self.partial = None;
        }
        let previous: Option<String> = copy_text(&self.previous_item);
        self.previous_item = Some(turn.item_id.as_str().to_owned());
        let told: Event = Event::Committed {
            item_id: turn.item_id.as_str().to_owned(),
            previous: copy_text(&previous),
        };
        let stream_segments: bool = turn.sent.as_str().unicode_len() == 0;
        let item: Committed = Committed {
            item_id: turn.item_id,
            previous,
            samples,
            sent: turn.sent,
            stream_segments,
        };
        let ghost listed = self.committed@;
        let ghost added = item@;
        self.committed.push(item);
        proof {
            assert(committed_models(self.committed@) =~= committed_models(listed).push(added));
            assert(added =~= before.committed_turn(model, end));
            assert(self@ =~= before.after_commit(model, end));
        }
        told
    }

    /// The client commits the buffer, or the turn that is live in it.
    pub fn commit_manually(&mut self, suffix: &str) -> (r: Event)
        requires
            old(self)@.sound(),
        ensures
            final(self)@.sound(),
            ({
                let before = old(self)@;
                let start = match before.turn {
                    Some(turn) => turn.start,
                    None => before.buffer_start,
                };
                let number = next_number(before.items);
                let turn = match before.turn {
                    Some(turn) => turn,
                    None => fresh_turn(item_name(number, suffix@), start),
                };
                if (before.end() - start) * 10 < before.rate {
                    r@ == EventModel::TooShort && final(self)@ == before
                } else {
                    &&& r@ == (EventModel::Committed {
                        item_id: turn.item_id,
                        previous: before.previous_item,
                    })
                    &&& final(self)@ == (LiveModel {
                        items: if before.turn is None {
                            number
                        } else {
                            before.items
                        },
                        ..before
                    }).after_commit(turn, before.end() as usize)
                }
            }),
    {
        let ghost before = self@;
        let end: usize = self.buffer_start + self.buffer.len();
        let start: usize = match &self.turn {
            Some(turn) => turn.start,
            None => self.buffer_start,
        };
        if end < start || ((end - start) as u128) * 10 < self.rate as u128 {
            return Event::TooShort;
        }
        let turn: Turn = match self.turn.take() {
            Some(turn) => turn,
            None => {
                let item_id: String = self.new_item(suffix);
                new_turn(item_id, start)
            },
        };
        let ghost mid = self@;
        let told: Event = self.commit(turn, end);
        proof {
            let numbered = LiveModel {
                items: mid.items,
                ..before
            };
            assert(mid.after_commit(turn@, end) =~= numbered.after_commit(turn@, end));
        }
        told
    }

    /// Takes the next committed turn into transcription where none is in it. Tells whether there
    /// is one to start.
    pub fn start_transcription(&mut self) -> (r: bool)
        ensures
            r <==> old(self)@.active is None && old(self)@.committed.len() > 0,
            final(self)@ == if r {
                LiveModel {
                    active: Some(old(self)@.committed[0]),
                    committed: old(self)@.committed.drop_first(),
                    ..old(self)@
                }
            } else {
                old(self)@
            },
    {
        if self.active.is_some() || self.committed.len() == 0 {
            return false;
        }
        let ghost before = self@;
        let ghost listed = self.committed@;
        let next: Committed = self.committed.remove(0);
        proof {
            assert(next@ == before.committed[0]);
            assert(committed_models(self.committed@) =~= before.committed.drop_first());
        }
        self.active = Some(next);
        true
    }

    /// The queue of the speech worker is full: the turn in transcription fails.
    pub fn refuse_transcription(&mut self) -> (r: Option<Event>)
        ensures
            final(self)@ == (LiveModel { active: None, ..old(self)@ }),
            r is Some <==> old(self)@.active is Some,
            r matches Some(e) ==> e@ == (EventModel::Failed {
                item_id: old(self)@.active->Some_0.item_id,
                message: "The transcription queue is full. Retry later."@,
            }),
    {
        self.fail("The transcription queue is full. Retry later.")
    }

    fn fail(&mut self, message: &str) -> (r: Option<Event>)
        ensures
            final(self)@ == (LiveModel { active: None, ..old(self)@ }),
            r is Some <==> old(self)@.active is Some,
            r matches Some(e) ==> e@ == (EventModel::Failed {
                item_id: old(self)@.active->Some_0.item_id,
                message: message@,
            }),
    {
        match self.active.take() {
            None => None,
            Some(c) => Some(Event::Failed { item_id: c.item_id, message: message.to_owned() }),
        }
    }

    /// Whether a live pass over the turn is due, and from where in the buffer: none runs, no turn
    /// is in transcription, enough audio came since the last pass, and the turn is not too long.
    pub fn start_pass(&mut self) -> (r: Option<usize>)
        requires
            old(self)@.sound(),
        ensures
            r is Some <==> pass_due(old(self)@),
            r matches Some(from) ==> {
                let turn = old(self)@.turn->Some_0;
                &&& from == if turn.start > old(self)@.buffer_start {
                    (turn.start - old(self)@.buffer_start) as usize
                } else {
                    0
                }
                &&& final(self)@ == (LiveModel {
                    turn: Some(TurnModel { passed_at: old(self)@.end() as usize, ..turn }),
                    ..old(self)@
                })
            },
            r is None ==> final(self)@ == old(self)@,
    {
        let end: usize = self.buffer_start + self.buffer.len();
        let limit: u64 = PARTIAL_LIMIT_SECONDS * self.rate as u64;
        if self.partial.is_some() || self.active.is_some() {
            return None;
        }
        match self.turn.take() {
            None => None,
            Some(turn) => {
                let due: bool = turn.passed_at <= end && end - turn.passed_at >= self.interval
                    && turn.start <= end && (end - turn.start) as u64 <= limit;
                let from: usize = turn.start.saturating_sub(self.buffer_start);
                let passed_at: usize = if due {
                    end
                } else {
                    turn.passed_at
                };
                self.turn = Some(
                    Turn {
                        item_id: turn.item_id,
                        start: turn.start,
                        passed_at,
                        hypothesis: turn.hypothesis,
                        agreed: turn.agreed,
                        sent: turn.sent,
                    },
                );
                if due {
                    Some(from)
                } else {
                    None
                }
            },
        }
    }

    /// The live pass that was due runs.
    pub fn pass_started(&mut self)
        ensures
            final(self)@ == match old(self)@.turn {
                None => old(self)@,
                Some(turn) => LiveModel { partial: Some(turn.item_id), ..old(self)@ },
            },
    {
        match &self.turn {
            None => {},
            Some(turn) => {
                self.partial = Some(turn.item_id.as_str().to_owned());
            },
        }
    }

    /// The live pass ended: gives its item.
    pub fn pass_ended(&mut self) -> (r: Option<String>)
        ensures
            text_in(r) == old(self)@.partial,
            final(self)@ == (LiveModel { partial: None, ..old(self)@ }),
    {
        self.partial.take()
    }

    /// The words of a live pass over the turn `item_id`: those that it agrees on with the pass
    /// before, beyond what was sent, are sent.
    pub fn on_partial(&mut self, item_id: &str, words: Vec<String>) -> (r: Option<Event>)
        ensures
            (final(self)@, event_in(r)) == after_pass(old(self)@, item_id@, texts(words@)),
            ({
                let before = old(self)@;
                let turn = before.turn->Some_0;
                let found = texts(words@);
                let n = agreed(turn.hypothesis, found, turn.agreed as nat);
                if before.turn is None || turn.item_id != item_id@ {
                    r is None && final(self)@ == before
                } else if n <= turn.agreed {
                    r is None && final(self)@ == (LiveModel {
                        turn: Some(TurnModel { hypothesis: found, ..turn }),
                        ..before
                    })
                } else {
                    let delta = delta_of(turn.sent, joined_words(found, turn.agreed as int, n as int));
                    &&& r matches Some(e) && e@ == (EventModel::Delta {
                        item_id: turn.item_id,
                        delta,
                        from: turn.agreed,
                        to: n as usize,
                    })
                    &&& final(self)@ == (LiveModel {
                        turn: Some(
                            TurnModel {
                                hypothesis: found,
                                agreed: n as usize,
                                sent: turn.sent + delta,
                                ..turn
                            },
                        ),
                        ..before
                    })
                }
            }),
    {
        let ghost before = self@;
        let own: bool = match &self.turn {
            Some(turn) => same_text(turn.item_id.as_str(), item_id),
            None => false,
        };
        if !own {
            return None;
        }
        match self.turn.take() {
            None => None,
            Some(turn) => {
                let n: usize = agreement(&turn.hypothesis, &words, turn.agreed);
                let ghost found = texts(words@);
                proof {
                    law_agreed_words_are_the_same_in_both_passes(
                        texts(turn.hypothesis@),
                        found,
                        turn.agreed as nat,
                    );
                }
                if n <= turn.agreed {
                    self.turn = Some(
                        Turn {
                            item_id: turn.item_id,
                            start: turn.start,
                            passed_at: turn.passed_at,
                            hypothesis: words,
                            agreed: turn.agreed,
                            sent: turn.sent,
                        },
                    );
                    return None;
                }
                let text: String = join_words(&words, turn.agreed, n);
                let delta: String = spaced_after(turn.sent.as_str(), text);
                let from: usize = turn.agreed;
                let told: Event = Event::Delta {
                    item_id: turn.item_id.as_str().to_owned(),
                    delta: delta.as_str().to_owned(),
                    from,
                    to: n,
                };
                self.turn = Some(
                    Turn {
                        item_id: turn.item_id,
                        start: turn.start,
                        passed_at: turn.passed_at,
                        hypothesis: words,
                        agreed: n,
                        sent: turn.sent.as_str().to_owned().concat(delta.as_str()),
                    },
                );
                Some(told)
            },
        }
    }

    /// A segment of the turn in transcription was closed: it is sent unless live deltas were.
    pub fn on_segment(&mut self, text: &str) -> (r: Option<Event>)
        ensures
            (final(self)@, event_in(r)) == after_segment(old(self)@, text@),
            match old(self)@.active {
                None => r is None && final(self)@ == old(self)@,
                Some(c) => if !c.stream_segments {
                    r is None && final(self)@ == old(self)@
                } else {
                    let delta = delta_of(c.sent, text@);
                    &&& r matches Some(e) && e@ == (EventModel::Delta {
                        item_id: c.item_id,
                        delta,
                        from: 0,
                        to: 0,
                    })
                    &&& final(self)@ == (LiveModel {
                        active: Some(CommittedModel { sent: c.sent + delta, ..c }),
                        ..old(self)@
                    })
                },
            },
    {
        let streams: bool = match &self.active {
            Some(c) => c.stream_segments,
            None => false,
        };
        if !streams {
            return None;
        }
        match self.active.take() {
            None => None,
            Some(c) => {
                let delta: String = spaced_after(c.sent.as_str(), text.to_owned());
                let told: Event = Event::Delta {
                    item_id: c.item_id.as_str().to_owned(),
                    delta: delta.as_str().to_owned(),
                    from: 0,
                    to: 0,
                };
                self.active = Some(
                    Committed {
                        item_id: c.item_id,
                        previous: c.previous,
                        samples: c.samples,
                        sent: c.sent.as_str().to_owned().concat(delta.as_str()),
                        stream_segments: c.stream_segments,
                    },
                );
                Some(told)
            },
        }
    }

    /// The transcription is complete: the deltas are finished where they are a prefix of the
    /// final text, and the item is completed with it.
    pub fn on_completed(&mut self, text: &str) -> (r: Vec<Event>)
        ensures
            final(self)@ == (LiveModel { active: None, ..old(self)@ }),
            event_models(r@) == match old(self)@.active {
                None => Seq::<EventModel>::empty(),
                Some(c) => completion(c, text@),
            },
    {
        let mut out: Vec<Event> = Vec::new();
        match self.active.take() {
            None => {
                assert(event_models(out@) =~= Seq::<EventModel>::empty());
            },
            Some(c) => {
                let ghost model = c@;
                match strip_start(text, c.sent.as_str()) {
                    None => {},
                    Some(rest) => {
                        if trim_text(rest.as_str()).as_str().unicode_len() > 0 {
                            let first: bool = c.sent.as_str().unicode_len() == 0;
                            let delta: String = if first {
                                trim_start_text(rest.as_str())
                            } else {
                                rest
                            };
                            out.push(
                                Event::Delta {
                                    item_id: c.item_id.as_str().to_owned(),
                                    delta,
                                    from: 0,
                                    to: 0,
                                },
                            );
                        }
                    },
                }
                out.push(
                    Event::Completed {
                        item_id: c.item_id,
                        previous: c.previous,
                        transcript: text.to_owned(),
                    },
                );
                assert(event_models(out@) =~= completion(model, text@));
            },
        }
        out
    }

    /// The audio of the turn in transcription could not be transcribed.
    pub fn on_failed(&mut self) -> (r: Option<Event>)
        ensures
            final(self)@ == (LiveModel { active: None, ..old(self)@ }),
            r is Some <==> old(self)@.active is Some,
            r matches Some(e) ==> e@ == (EventModel::Failed {
                item_id: old(self)@.active->Some_0.item_id,
                message: "The audio could not be transcribed."@,
            }),
    {
        self.fail("The audio could not be transcribed.")
    }

    /// The speech worker stopped during the transcription.
    pub fn on_worker_stopped(&mut self) -> (r: Option<Event>)
        ensures
            final(self)@ == (LiveModel { active: None, ..old(self)@ }),
            r is Some <==> old(self)@.active is Some,
            r matches Some(e) ==> e@ == (EventModel::Failed {
                item_id: old(self)@.active->Some_0.item_id,
                message: "The speech worker stopped."@,
            }),
    {
        self.fail("The speech worker stopped.")
    }
}

/// A live pass is due.
pub open spec fn pass_due(live: LiveModel) -> bool {
    live.partial is None && live.active is None && (live.turn matches Some(turn) && turn.passed_at
        <= live.end() && live.end() - turn.passed_at >= live.interval && turn.start <= live.end()
        && live.end() - turn.start <= PARTIAL_LIMIT_SECONDS * live.rate)
}

/// The model of an event, where there is one.
pub open spec fn event_in(event: Option<Event>) -> Option<EventModel> {
    match event {
        None => None,
        Some(e) => Some(e@),
    }
}

/// The session after a live pass over the turn `item_id` found `words`, and what the client is told.
pub open spec fn after_pass(
    live: LiveModel,
    item_id: Seq<char>,
    words: Seq<Seq<char>>,
) -> (LiveModel, Option<EventModel>) {
    match live.turn {
        Some(turn) if turn.item_id == item_id => {
            let n = agreed(turn.hypothesis, words, turn.agreed as nat);
            if n <= turn.agreed {
                let heard = TurnModel { hypothesis: words, ..turn };
                (LiveModel { turn: Some(heard), ..live }, None)
            } else {
                let delta = delta_of(turn.sent, joined_words(words, turn.agreed as int, n as int));
                let heard = TurnModel {
                    hypothesis: words,
                    agreed: n as usize,
                    sent: turn.sent + delta,
                    ..turn
                };
                let told = EventModel::Delta { item_id, delta, from: turn.agreed, to: n as usize };
                (LiveModel { turn: Some(heard), ..live }, Some(told))
            }
        },
        _ => (live, None),
    }
}

/// The session after a segment of the turn in transcription was closed, and what the client is told.
pub open spec fn after_segment(live: LiveModel, text: Seq<char>) -> (LiveModel, Option<EventModel>) {
    match live.active {
        Some(c) if c.stream_segments => {
            let delta = delta_of(c.sent, text);
            let told = EventModel::Delta { item_id: c.item_id, delta, from: 0, to: 0 };
            let heard = CommittedModel { sent: c.sent + delta, ..c };
            (LiveModel { active: Some(heard), ..live }, Some(told))
        },
        _ => (live, None),
    }
}

/// More text after what was sent: with a space between them.
pub open spec fn delta_of(sent: Seq<char>, text: Seq<char>) -> Seq<char> {
    if sent.len() == 0 {
        text
    } else {
        seq![' '] + text
    }
}

/// Words `from..to` with a space between them.
pub open spec fn joined_words(words: Seq<Seq<char>>, from: int, to: int) -> Seq<char>
    decreases to - from,
{
    if to <= from {
        Seq::empty()
    } else if to == from + 1 {
        words[from]
    } else {
        joined_words(words, from, to - 1) + seq![' '] + words[to - 1]
    }
}

/// What the client is told at the end of a transcription.
pub open spec fn completion(c: CommittedModel, text: Seq<char>) -> Seq<EventModel> {
    let rest = text.skip(c.sent.len() as int);
    (if has_prefix(text, c.sent) && trim(rest).len() > 0 {
        seq![
            EventModel::Delta {
                item_id: c.item_id,
                delta: if c.sent.len() == 0 {
                    trim_before(rest)
                } else {
                    rest
                },
                from: 0,
                to: 0,
            },
        ]
    } else {
        Seq::empty()
    }) + seq![
        EventModel::Completed { item_id: c.item_id, previous: c.previous, transcript: text },
    ]
}

fn spaced_after(sent: &str, text: String) -> (r: String)
    ensures
        r@ == delta_of(sent@, text@),
{
    if sent.unicode_len() == 0 {
        return text;
    }
    proof {
        reveal_strlit(" ");
        assert(" "@ =~= seq![' ']);
    }
    " ".to_owned().concat(text.as_str())
}

fn join_words(words: &Vec<String>, from: usize, to: usize) -> (r: String)
    requires
        from < to <= words@.len(),
    ensures
        r@ == joined_words(texts(words@), from as int, to as int),
{
    let ghost all = texts(words@);
    let mut text: String = words[from].as_str().to_owned();
    let mut i: usize = from + 1;
    assert(all[from as int] == words@[from as int]@);
    while i < to
        invariant
            from < i <= to <= words@.len(),
            all == texts(words@),
            text@ == joined_words(all, from as int, i as int),
        decreases to - i,
    {
        assert(all[i as int] == words@[i as int]@);
        proof {
            reveal_strlit(" ");
            assert(" "@ =~= seq![' ']);
        }
        text = text.concat(" ").concat(words[i].as_str());
        i += 1;
    }
    text
}

/// The deltas of a turn are its text: with no words sent twice, what a pass adds follows what was
/// sent, and at the end of a transcription that continues it the rest follows.
pub proof fn law_deltas_add_up_to_the_final_text(c: CommittedModel, text: Seq<char>)
    requires
        has_prefix(text, c.sent),
        c.sent.len() > 0,
        trim(text.skip(c.sent.len() as int)).len() > 0,
    ensures
        completion(c, text).len() == 2,
        completion(c, text)[0] matches EventModel::Delta { delta, .. } && c.sent + delta == text,
{
    assert(c.sent + text.skip(c.sent.len() as int) =~= text) by {
        assert(text.take(c.sent.len() as int) == c.sent);
        assert(text =~= text.take(c.sent.len() as int) + text.skip(c.sent.len() as int));
    }
}

} // verus!
