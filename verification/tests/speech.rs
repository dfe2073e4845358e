use jevons::error::{Error, Result};
use jevons::parakeet::encoder::{check_window, speech_token};
use jevons::parakeet::decoder::Emission;
use jevons::realtime::agreement::{agreement, normalized};
use jevons::realtime::live::{Event, Live};
use jevons::speech::segments::{ends_sentence, segment_ends};
use jevons::speech::transcriber::{
    Segment, SegmentListener, SpeechInfo, SpeechModel, ToTheEnd, Transcriber, Transcription,
};
use jevons::speech::words::{words, SpeechToken, Word};

/// Emits one word per second of audio at the second's start, reading the second from a marker
/// sample so windows see absolute time. There are 100 samples per second.
struct Metronome {
    info: SpeechInfo,
}

fn metronome(window: u32) -> Metronome {
    Metronome {
        info: SpeechInfo {
            architecture: "test",
            display_name: "test".to_string(),
            sample_rate: 100,
            frame_samples: 1,
            max_window_samples: window as u64 * 100,
            languages: vec!["en".to_string()],
        },
    }
}

impl SpeechModel for Metronome {
    fn info(&self) -> &SpeechInfo {
        &self.info
    }

    fn transcribe(&mut self, samples: &[u32]) -> Result<Vec<SpeechToken>> {
        if samples.len() as u64 > self.info.max_window_samples {
            return Err(Error::InvalidInput("window too long".to_string()));
        }
        Ok(samples
            .iter()
            .enumerate()
            .filter(|(i, _)| i % 100 == 0)
            .map(|(i, &second)| {
                // Every fifth word ends a sentence.
                let piece = if second % 5 == 4 {
                    format!("\u{2581}w{second}.")
                } else {
                    format!("\u{2581}w{second}")
                };
                SpeechToken {
                    id: second,
                    piece,
                    start: i as u64,
                    end: i as u64 + 50,
                    logprob: (-0.1f32).to_bits(),
                }
            })
            .collect())
    }

    fn detokenize(&self, ids: &Vec<u32>) -> Result<String> {
        Ok(ids
            .iter()
            .map(|id| {
                if id % 5 == 4 {
                    format!(" w{id}.")
                } else {
                    format!(" w{id}")
                }
            })
            .collect())
    }
}

/// `seconds` of audio whose samples hold their second.
fn audio(seconds: usize) -> Vec<u32> {
    (0..seconds * 100).map(|i| (i / 100) as u32).collect()
}

struct Heard {
    segments: Vec<Segment>,
    limit: usize,
}

impl SegmentListener for Heard {
    fn on_segment(&mut self, segment: &Segment, words: &Vec<Word>) -> bool {
        assert_eq!(segment.tokens.len(), words.len());
        self.segments.push(segment.duplicate());
        segment.id < self.limit
    }
}

fn listener(limit: usize) -> Heard {
    Heard {
        segments: Vec::new(),
        limit,
    }
}

#[test]
fn long_audio_is_windowed_and_every_word_is_kept_once_in_order() {
    let mut transcriber = Transcriber::new(metronome(20));
    let mut heard = listener(usize::MAX);
    let transcript = transcriber.transcribe(audio(47), &mut heard).unwrap();
    let seconds: Vec<u32> = transcript
        .words
        .iter()
        .flat_map(|w| w.tokens.iter().map(|t| t.id))
        .collect();
    assert_eq!(seconds, (0..47).collect::<Vec<_>>());
    for (i, word) in transcript.words.iter().enumerate() {
        assert_eq!(word.start, i as u64 * 100, "{}", word.text);
    }
    assert_eq!(transcript.duration, 4700);
    // Five-word sentences, each streamed exactly once, in order.
    assert_eq!(heard.segments.len(), transcript.segments.len());
    for (a, b) in heard.segments.iter().zip(&transcript.segments) {
        assert_eq!((a.id, &a.text, &a.tokens), (b.id, &b.text, &b.tokens));
    }
    assert_eq!(transcript.segments.len(), 10);
    assert_eq!(transcript.segments[1].text, "w5 w6 w7 w8 w9.");
    assert_eq!(
        (transcript.segments[1].start, transcript.segments[1].end),
        (500, 950)
    );
    assert!(transcript.text.starts_with("w0 w1"));
}

#[test]
fn short_audio_takes_one_pass() {
    let mut model = metronome(20);
    let tokens = model.transcribe(&audio(3)).unwrap();
    assert_eq!(tokens.len(), 3);
    let mut transcriber = Transcriber::new(model);
    let transcript = transcriber
        .transcribe(audio(12), &mut listener(usize::MAX))
        .unwrap();
    assert_eq!(transcript.words.len(), 12);
    assert_eq!(transcript.segments.len(), 3);
}

#[test]
fn a_false_callback_stops_after_that_segment() {
    let mut transcriber = Transcriber::new(metronome(20));
    let transcript = transcriber
        .transcribe(audio(47), &mut listener(1))
        .unwrap();
    assert_eq!(transcript.segments.len(), 2);
    assert_eq!(transcript.words.len(), 10);
}

#[test]
fn words_join_continuation_pieces_and_segments_split_at_pauses() {
    // Ten samples per second.
    let token = |piece: &str, start: u64| SpeechToken {
        id: 0,
        piece: piece.to_string(),
        start,
        end: start + 1,
        logprob: (-1.0f32).to_bits(),
    };
    let words = words(&vec![
        token("\u{2581}Ho", 0),
        token("la", 1),
        token(",", 2),
        token("\u{2581}qu\u{e9}", 3),
        token("\u{2581}tal", 20),
    ]);
    let texts: Vec<&str> = words.iter().map(|w| w.text.as_str()).collect();
    assert_eq!(texts, vec!["Hola,", "qu\u{e9}", "tal"]);
    assert_eq!((words[0].start, words[0].end), (0, 3));
    assert_eq!(segment_ends(&words, 0, 10), vec![2, 3]);
    assert!(!ends_sentence("Mr.") && !ends_sentence("Sra.") && ends_sentence("gospel."));
    assert!(ends_sentence("\u{bf}qu\u{e9}?") && ends_sentence("no.") && !ends_sentence("ni\u{f1}os,"));
}

#[test]
fn a_failed_window_leaves_the_job_as_it_is() {
    struct Broken(Metronome);
    impl SpeechModel for Broken {
        fn info(&self) -> &SpeechInfo {
            self.0.info()
        }
        fn transcribe(&mut self, _: &[u32]) -> Result<Vec<SpeechToken>> {
            Err(Error::Backend("no device".to_string()))
        }
        fn detokenize(&self, ids: &Vec<u32>) -> Result<String> {
            self.0.detokenize(ids)
        }
    }
    let mut transcriber = Transcriber::new(Broken(metronome(20)));
    let mut job = Transcription::new(audio(5));
    assert!(transcriber.step(&mut job).is_err());
    assert!(!job.is_done());
    job.stop_after(3);
    assert!(job.is_done());
    assert_eq!(transcriber.finish(job).unwrap().text, "");
}

#[test]
fn agreement_skips_sent_revisions_and_holds_back_the_last_word() {
    let words = |text: &str| text.split(' ').map(String::from).collect::<Vec<_>>();
    let a = words("Cap\u{ed}tulo 6 de Jos\u{e9} Santie Esteban.");
    let b = words("Cap\u{ed}tulo 6 de Jos\u{e9} Santi Esteban Esta grabaci\u{f3}n");
    let c = words("Cap\u{ed}tulo 6 de Jos\u{e9} Santi Esteban. Esta grabaci\u{f3}n de");
    // Nothing sent: the prefix up to the revision.
    assert_eq!(agreement(&a, &b, 0), 4);
    // "Santie" was sent; its revision does not block later words, and punctuation or
    // case changes are the same word. The last word of `c` waits.
    assert_eq!(agreement(&b, &c, 5), 8);
    assert_eq!(agreement(&b, &c, 8), 8);
    assert_eq!(agreement(&vec![], &words("Hola"), 0), 0);
    assert_eq!(normalized("\u{bf}QU\u{c9}?!"), "qu\u{e9}");
}

#[test]
fn live_turns_are_committed_in_order_and_keep_their_audio() {
    // Ten samples per second; passes every seven samples; one second kept between turns.
    let mut live = Live::new(10, 7, 600, Some(10));
    assert!(live.append(&(0..20).collect()).is_none());
    let started = live.speech_started(12, "ab");
    match started {
        Event::SpeechStarted {
            item_id,
            audio_start_ms,
        } => assert_eq!((item_id.as_str(), audio_start_ms), ("item_1_ab", 1200)),
        other => panic!("{other:?}"),
    }
    assert_eq!(live.start_pass(), Some(12));
    live.pass_started();
    let item = live.pass_ended().unwrap();
    let said = |text: &str| text.split(' ').map(String::from).collect::<Vec<String>>();
    assert!(live.on_partial(&item, said("Hello big")).is_none());
    match live.on_partial(&item, said("hello, big world")).unwrap() {
        Event::Delta {
            delta, from, to, ..
        } => assert_eq!((delta.as_str(), from, to), ("hello, big", 0, 2)),
        other => panic!("{other:?}"),
    }
    let (stopped, committed) = live.speech_stopped(18).unwrap();
    assert!(matches!(stopped, Event::SpeechStopped { audio_end_ms: 1800, .. }));
    assert!(matches!(committed, Event::Committed { previous: None, .. }));
    assert_eq!(live.committed[0].samples, (12..18).collect::<Vec<u32>>());
    assert_eq!(live.buffer, vec![18, 19]);
    assert_eq!(live.buffer_start, 18);
    assert!(live.start_transcription());
    assert!(!live.start_transcription());
    // Live deltas were sent, so segments are not.
    assert!(live.on_segment("hello, big").is_none());
    let events = live.on_completed("hello, big world.");
    assert!(matches!(&events[0], Event::Delta { delta, .. } if delta == " world."));
    assert!(matches!(&events[1], Event::Completed { transcript, .. } if transcript == "hello, big world."));
    assert!(live.append(&(20..40).collect()).is_none());
    match live.commit_manually("cd") {
        Event::Committed { item_id, previous } => {
            assert_eq!(item_id, "item_2_cd");
            assert_eq!(previous.as_deref(), Some("item_1_ab"));
        }
        other => panic!("{other:?}"),
    }
    assert!(matches!(live.commit_manually("ef"), Event::TooShort));
    assert!(live.start_transcription());
    assert!(matches!(
        live.refuse_transcription(),
        Some(Event::Failed { message, .. }) if message == "The transcription queue is full. Retry later."
    ));
    assert!(live.on_failed().is_none());
    assert!(live.append(&(0..30).collect()).is_none());
    live.trim_idle();
    assert_eq!((live.buffer.len(), live.buffer_start), (10, 60));
    assert!(matches!(
        live.append(&vec![0; 600]),
        Some(Event::TooLong { samples: 600 })
    ));
    assert!(live.buffer.is_empty());
}

#[test]
fn emissions_become_tokens_in_samples() {
    let e = Emission {
        token: 7,
        frame: 3,
        frames: 2,
        logprob: 0,
    };
    let token = speech_token(&e, "x".to_string(), 1280);
    assert_eq!((token.id, token.start, token.end), (7, 3840, 6400));
    assert!(check_window(120 * 16000, 16000).is_ok());
    assert!(matches!(
        check_window(120 * 16000 + 1, 16000),
        Err(Error::InvalidInput(m)) if m == "A transcription window is at most 120 seconds"
    ));
}

#[test]
fn detection_restarts_with_the_audio_that_follows() {
    let mut live = Live::new(10, 7, 600, Some(10));
    assert!(live.append(&(0..20).collect()).is_none());
    live.speech_started(12, "ab");
    live.redetect(None);
    assert!(live.turn.is_none() && live.partial.is_none());
    assert_eq!((live.vad_base, live.buffer.len()), (20, 20));
    assert!(live.on_worker_stopped().is_none());
    assert!(matches!(live.commit_manually("cd"), Event::Committed { .. }));
    assert!(live.start_transcription());
    assert!(matches!(
        live.on_worker_stopped(),
        Some(Event::Failed { message, .. }) if message == "The speech worker stopped."
    ));
}

#[test]
fn a_listener_that_takes_everything_hears_the_whole_recording() {
    let mut transcriber = Transcriber::new(metronome(20));
    let whole = transcriber.transcribe(audio(47), &mut ToTheEnd::new()).unwrap();
    assert_eq!(whole.words.len(), 47);
    let stopped = transcriber.transcribe(audio(47), &mut listener(1)).unwrap();
    assert!(stopped.words.len() < 47 && stopped.segments.len() == 2);
}

#[test]
fn a_declined_segment_is_the_last_one_heard() {
    for limit in 0..4 {
        let mut transcriber = Transcriber::new(metronome(20));
        let mut heard = listener(limit);
        let transcript = transcriber.transcribe(audio(47), &mut heard).unwrap();
        assert_eq!(heard.segments.len(), limit + 1);
        assert_eq!(transcript.segments.len(), limit + 1);
        assert_eq!(heard.segments[limit].id, limit);
    }
}

#[test]
fn windows_may_end_within_a_second() {
    let mut model = metronome(20);
    model.info.max_window_samples = 1950;
    let mut transcriber = Transcriber::new(model);
    let whole = transcriber.transcribe(audio(19), &mut ToTheEnd::new()).unwrap();
    assert_eq!(whole.words.len(), 19);
    // No pass exceeds the window: the model would refuse it.
    assert!(transcriber.transcribe(audio(47), &mut ToTheEnd::new()).is_ok());
    let mut live = Live::new(10, 7, 15, None);
    assert!(live.append(&vec![0; 15]).is_none());
    assert!(matches!(
        live.append(&vec![0; 1]),
        Some(Event::TooLong { samples: 15 })
    ));
    assert!(live.buffer.is_empty());
}
