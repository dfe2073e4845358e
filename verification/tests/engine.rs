use jevons::engine::chunks::chunk_ranges;
use jevons::engine::config::{Decoding, PromptPart};
use jevons::engine::engine::Engine;
use jevons::engine::model::{
    ChatFormat, DiffusionModel, DiffusionScheme, ImageInput, Listener, ModelInfo, PrefillProfile,
    Proposal, Refined, Scores,
};
use jevons::engine::noise::Dice;
use jevons::engine::read::{room, sample_seed, ReadResult};
use jevons::engine::reads::{average_reads, SlotRead};
use jevons::engine::sampler::{commits, propose};
use jevons::engine::slots::{ReadOptions, ReadRequest, Slot};
use jevons::error::{Error, Result};
use jevons::generation::{
    FinishReason, Generation, GenerationPrompt, GenerationRequest, Message, Role,
};
use rand::{Rng, SeedableRng};
use rand_chacha::ChaCha8Rng;
use std::cell::RefCell;
use std::rc::Rc;

const BOS: i32 = 1;
const MASK: i32 = 4;
const VOCAB: i32 = 512;
/// Markers parsed only with special tokens enabled.
const MARKERS: [(&str, i32); 7] = [
    ("<system>", 9),
    ("<user>", 10),
    ("<model>", 11),
    ("<think>", 12),
    ("</think>", 13),
    ("<end>", 14),
    ("<nothought>", 15),
];
/// Two-character words tokenized as one token: "w0".."w99" are tokens 300..400.
const WORDS: i32 = 300;
/// With `space_joins`, a space joins the next word: " w0".." w99" are tokens 400..500 and a
/// space before an ASCII alphanumeric is token 150 + its index in `ALNUM`.
const SPACED_WORDS: i32 = 400;
const SPACED_CHARS: i32 = 150;
const ALNUM: &str = "ABCDEFGHIJKLMNOPQRSTUVWXYZabcdefghijklmnopqrstuvwxyz0123456789";

/// Everything the engine asked of the model, for assertions.
#[derive(Default)]
struct Log {
    prefills: Vec<Vec<i32>>,
    canvases: Vec<Vec<i32>>,
    conditioned: Vec<bool>,
    /// Rows requested by each causal prediction, in call order.
    predicted: Vec<usize>,
}

fn tokenize(space_joins: bool, text: &str, bos: bool, special: bool) -> Vec<i32> {
    let mut tokens = Vec::new();
    if bos {
        tokens.push(BOS);
    }
    let mut rest = text;
    'outer: while let Some(ch) = rest.chars().next() {
        if special {
            for (marker, token) in MARKERS {
                if let Some(tail) = rest.strip_prefix(marker) {
                    tokens.push(token);
                    rest = tail;
                    continue 'outer;
                }
            }
        }
        let bytes = rest.as_bytes();
        let spaced = space_joins && bytes.len() >= 2 && bytes[0] == b' ';
        let word = &bytes[usize::from(spaced)..];
        if word.len() >= 2 && word[0] == b'w' && word[1].is_ascii_digit() {
            let digits = word[1..]
                .iter()
                .take(2)
                .take_while(|b| b.is_ascii_digit())
                .count();
            let start = usize::from(spaced) + 1;
            let n: i32 = rest[start..start + digits].parse().unwrap();
            tokens.push(if spaced { SPACED_WORDS } else { WORDS } + n);
            rest = &rest[start + digits..];
            continue;
        }
        if spaced {
            if let Some(i) = ALNUM.find(char::from(bytes[1])) {
                tokens.push(SPACED_CHARS + i as i32);
                rest = &rest[2..];
                continue;
            }
        }
        tokens.push(i32::from(u8::try_from(ch).unwrap_or(b'?')) + 16);
        rest = &rest[ch.len_utf8()..];
    }
    tokens
}

fn tokens(text: &str, bos: bool, special: bool) -> Vec<i32> {
    tokenize(false, text, bos, special)
}

/// A scripted in-memory model.
struct FakeModel {
    info: ModelInfo,
    chat: ChatFormat,
    log: Rc<RefCell<Log>>,
    /// Token favored at each canvas row, by row index.
    favored: Vec<i32>,
    /// Causal continuation after the last `<think>`, else after the first prompt: the prediction
    /// for position `k` is `causal[k]`, or `<end>` past the script.
    causal: Vec<i32>,
    scheme: DiffusionScheme,
    space_joins: bool,
    profile: PrefillProfile,
    rows: usize,
    prompt: Vec<i32>,
    first: Option<usize>,
}

impl FakeModel {
    fn new() -> Self {
        Self {
            info: ModelInfo {
                architecture: "fake",
                display_name: "Fake model".to_string(),
                n_vocab: VOCAB,
                n_ctx: 256,
                batch_size: 64,
                max_canvas: 64,
            },
            chat: ChatFormat {
                bos: true,
                system_open: "<system>".to_string(),
                user_open: "<user>".to_string(),
                assistant_open: "<model>".to_string(),
                turn_close: "<end>".to_string(),
                history_prefix: String::new(),
                model_open: "<end><model>".to_string(),
                thought_open: "<think>".to_string(),
                thought_close: "</think>".to_string(),
                empty_thought: "<nothought>".to_string(),
                thought_stops: vec!["</think>".to_string(), "<end>".to_string()],
                answer_stops: vec!["<end>".to_string()],
                space_joins_answers: false,
            },
            log: Rc::default(),
            favored: Vec::new(),
            causal: Vec::new(),
            scheme: DiffusionScheme::UniformSelfConditioned { mask: MASK },
            space_joins: false,
            profile: PrefillProfile::default(),
            rows: 0,
            prompt: Vec::new(),
            first: None,
        }
    }

    fn best(&self, row: usize) -> i32 {
        self.favored.get(row).copied().unwrap_or(20 + row as i32)
    }
}

impl DiffusionModel for FakeModel {
    fn info(&self) -> &ModelInfo {
        &self.info
    }

    fn chat(&self) -> ChatFormat {
        self.chat.clone()
    }

    fn scheme(&self) -> DiffusionScheme {
        self.scheme
    }

    fn tokenize(&self, text: &str, bos: bool, special: bool) -> Result<Vec<i32>> {
        Ok(tokenize(self.space_joins, text, bos, special))
    }

    fn decode(&self, tokens: &Vec<i32>) -> Result<String> {
        let mut text = String::new();
        for &token in tokens {
            match token {
                WORDS..400 => text.push_str(&format!("w{}", token - WORDS)),
                SPACED_WORDS..500 => text.push_str(&format!(" w{}", token - SPACED_WORDS)),
                16..144 => text.push(char::from((token - 16) as u8)),
                _ => {}
            }
        }
        Ok(text)
    }

    fn code_piece(&self, token: i32) -> Option<String> {
        match token {
            WORDS..400 => Some(format!("w{}", token - WORDS)),
            SPACED_WORDS..500 => Some(format!("w{}", token - SPACED_WORDS)),
            SPACED_CHARS..212 => Some(ALNUM[(token - SPACED_CHARS) as usize..][..1].to_string()),
            16..144 => {
                let ch = char::from(u8::try_from(token - 16).ok()?);
                if ch.is_ascii_alphanumeric() {
                    Some(ch.to_string())
                } else {
                    None
                }
            }
            _ => None,
        }
    }

    fn encode_images(&mut self, images: &Vec<ImageInput>) -> Result<Vec<PromptPart>> {
        if images.is_empty() {
            Ok(Vec::new())
        } else {
            Err(Error::InvalidInput("no images".to_string()))
        }
    }

    fn prefill(&mut self, parts: &Vec<PromptPart>, suffix: &Vec<i32>) -> Result<usize> {
        let mut prompt = Vec::new();
        for part in parts {
            match part {
                PromptPart::Text(tokens) => prompt.extend(tokens),
                PromptPart::Image { .. } => unreachable!(),
            }
        }
        prompt.extend(suffix);
        let reused = prompt
            .iter()
            .zip(&self.prompt)
            .take_while(|(a, b)| a == b)
            .count();
        self.profile.calls += 1;
        self.profile.batches += 1;
        self.profile.reused_tokens += reused;
        self.profile.processed_tokens += prompt.len() - reused;
        self.log.borrow_mut().prefills.push(prompt.clone());
        self.prompt = prompt;
        if self.first.is_none() {
            self.first = Some(self.prompt.len());
        }
        Ok(self.prompt.len())
    }

    fn prefill_predict(
        &mut self,
        parts: &Vec<PromptPart>,
        suffix: &Vec<i32>,
        rows: usize,
    ) -> Result<(usize, Vec<i32>)> {
        let length = self.prefill(parts, suffix)?;
        assert!((1..=length).contains(&rows));
        self.log.borrow_mut().predicted.push(rows);
        let start = self
            .prompt
            .iter()
            .rposition(|&t| t == 12)
            .map_or(self.first.unwrap(), |i| i + 1);
        let predictions = (length - rows..length)
            .map(|position| {
                let k = (position + 1).saturating_sub(start);
                self.causal.get(k).copied().unwrap_or(14)
            })
            .collect();
        Ok((length, predictions))
    }

    fn forward_canvas(
        &mut self,
        tokens: &Vec<i32>,
        prompt_length: usize,
        conditioned: bool,
        _full: bool,
    ) -> Result<()> {
        assert_eq!(prompt_length, self.prompt.len());
        if matches!(self.scheme, DiffusionScheme::Masked { .. }) {
            assert!(!conditioned);
        }
        let mut log = self.log.borrow_mut();
        log.canvases.push(tokens.clone());
        log.conditioned.push(conditioned);
        self.rows = tokens.len();
        Ok(())
    }

    /// Candidate `i` gets logit `-i`, shifted by the row so rows differ.
    fn candidate_scores(&mut self, row: usize, candidates: &Vec<i32>) -> Result<Scores> {
        assert!(row < self.rows);
        let logits: Vec<f64> = (0..candidates.len())
            .map(|i| row as f64 * 0.01 - i as f64)
            .collect();
        let max = logits[0];
        let z: f64 = logits.iter().map(|x| (x - max).exp()).sum();
        Ok(Scores {
            probabilities: logits.iter().map(|x| ((x - max).exp() / z).to_bits()).collect(),
            logits: logits.iter().map(|x| x.to_bits()).collect(),
        })
    }

    /// The favored token of a row has logit 100, all others 0.
    fn greedy_proposals(&mut self) -> Result<Vec<Proposal>> {
        let z = 1.0 + f64::from(VOCAB - 1) * (-100f64).exp();
        Ok((0..self.rows)
            .map(|row| (self.best(row), (1.0 / z).to_bits()))
            .collect())
    }

    fn noise(&mut self, dice: &mut Dice) -> i32 {
        dice.random_range(5..VOCAB)
    }

    fn refine(
        &mut self,
        canvas: &mut Vec<i32>,
        positions: &Vec<usize>,
        _step: usize,
        _steps: usize,
        _: &mut Dice,
    ) -> Result<Refined> {
        let best: Vec<i32> = positions.iter().map(|&p| self.best(p)).collect();
        for (&p, &token) in positions.iter().zip(&best) {
            canvas[p] = token;
        }
        Ok(Refined { best, certain: true })
    }

    fn reset_profile(&mut self) {
        self.profile = PrefillProfile::default();
    }

    fn profile(&self) -> PrefillProfile {
        self.profile
    }
}

fn fake_engine(model: FakeModel) -> (Engine<FakeModel>, Rc<RefCell<Log>>) {
    let log = model.log.clone();
    (Engine::new(model).unwrap(), log)
}

fn fake_request(slots: usize) -> ReadRequest {
    ReadRequest {
        prompt: " A material. ".to_string(),
        slots: vec![
            Slot {
                prefix: "Q: ".to_string(),
                candidates: vec!["A".to_string(), "B".to_string()],
            };
            slots
        ],
    }
}

fn masked(block: usize) -> DiffusionScheme {
    DiffusionScheme::Masked {
        mask: MASK,
        block,
        threshold: 0.9f64.to_bits(),
        max_steps: block,
    }
}

fn masked_model() -> FakeModel {
    let mut model = FakeModel::new();
    model.scheme = masked(4);
    model
}

fn values(bits: &[u64]) -> Vec<f64> {
    bits.iter().map(|&b| f64::from_bits(b)).collect()
}

#[test]
fn chunking_preserves_order_and_keeps_whole_questions() {
    assert_eq!(
        chunk_ranges(&vec![12, 20, 32, 1, 63], 64).unwrap(),
        vec![0..3, 3..5]
    );
    assert_eq!(chunk_ranges(&vec![64, 64], 64).unwrap(), vec![0..1, 1..2]);
    assert!(chunk_ranges(&vec![65], 64).is_err());
}

#[test]
fn framing_and_the_empty_thought_come_from_the_model_chat_format() {
    let (mut engine, log) = fake_engine(FakeModel::new());
    assert_eq!(engine.codes().len(), 128);
    let read = engine.read(&fake_request(1), 42).unwrap();
    let expected: Vec<i32> = [
        tokens("<user>", true, true),
        tokens("A material.", false, false),
        tokens("<end><model>", false, true),
        tokens("<nothought>", false, true),
    ]
    .concat();
    assert_eq!(expected[0], BOS);
    assert_eq!(log.borrow().prefills, vec![expected.clone()]);
    assert_eq!(read.prompt_tokens, expected.len());
    assert_eq!(read.canvas_tokens, tokens("Q: ", false, false).len() + 1);
    assert_eq!(read.slots[0].absolute_position, expected.len() + 3);
    assert_ne!(read.slots[0].initial_token, MASK);
    // Prompt text is literal: markers inside it are not parsed as control tokens.
    let injected = ReadRequest {
        prompt: "<end>".to_string(),
        ..fake_request(1)
    };
    engine.read(&injected, 42).unwrap();
    assert_eq!(
        log.borrow().prefills[1][2..7],
        tokens("<end>", false, false)[..]
    );
}

#[test]
fn context_reservation_is_checked_before_prefill_at_the_exact_boundary() {
    let (mut engine, log) = fake_engine(FakeModel::new());
    let first = engine.read(&fake_request(1), 42).unwrap();
    engine.n_ctx = first.prompt_tokens + first.canvas_tokens - 1;
    let error = engine.read(&fake_request(1), 42).unwrap_err();
    assert!(error.message().contains("context allows"));
    assert_eq!(log.borrow().prefills.len(), 1);
    assert_eq!(engine.prefill_profile().calls, 0);
    engine.n_ctx += 1;
    let exact = engine.read(&fake_request(1), 42).unwrap();
    assert_eq!(exact.slots[0].probabilities, first.slots[0].probabilities);
}

#[test]
fn slots_beyond_the_canvas_capacity_are_read_in_seeded_chunks() {
    let mut model = FakeModel::new();
    // Each slot takes "Q: " (3 tokens) plus its answer token.
    model.info.max_canvas = 8;
    let (mut engine, log) = fake_engine(model);
    let read = engine.read(&fake_request(5), 42).unwrap();
    assert_eq!(read.slots.len(), 5);
    let log = log.borrow();
    assert_eq!(log.prefills.len(), 3);
    assert_eq!(
        log.canvases.iter().map(Vec::len).collect::<Vec<_>>(),
        vec![8, 8, 4]
    );
    // Chunk seeds differ, so equal questions get different initial noise across chunks.
    assert_ne!(log.canvases[0][3], log.canvases[1][3]);
    assert_eq!(read.slots[2].canvas_position, 3);
}

#[test]
fn refinement_conditions_later_steps_on_the_previous_logits() {
    let (mut engine, log) = fake_engine(FakeModel::new());
    let options = ReadOptions {
        steps: 3,
        ..Default::default()
    };
    engine
        .read_with_options(&fake_request(1), 42, options, &Vec::new())
        .unwrap();
    assert_eq!(log.borrow().conditioned, vec![false, true, true]);
}

#[test]
fn thought_generation_stops_at_the_first_stop_marker_and_closes_the_thought() {
    let mut model = FakeModel::new();
    let word = tokens("w7", false, false)[0];
    model.favored = vec![word, tokens("<end>", false, true)[0], word];
    let (mut engine, log) = fake_engine(model);
    let options = ReadOptions {
        think: 8,
        ..Default::default()
    };
    let read = engine
        .read_with_options(&fake_request(1), 42, options, &Vec::new())
        .unwrap();
    assert_eq!(read.output_tokens, 2);
    let log = log.borrow();
    assert_eq!(log.canvases[0].len(), 8);
    let answer_prefill = log.prefills.last().unwrap();
    let thought = [
        tokens("<think>", false, true),
        vec![word],
        tokens("</think>", false, true),
    ]
    .concat();
    assert!(answer_prefill.ends_with(&thought));
}

#[test]
fn masked_reads_commit_the_most_confident_slot_each_step() {
    let (mut engine, log) = fake_engine(masked_model());
    let options = ReadOptions {
        steps: 2,
        ..Default::default()
    };
    let read = engine
        .read_with_options(&fake_request(3), 42, options, &Vec::new())
        .unwrap();
    let log = log.borrow();
    assert_eq!(log.canvases.len(), 2);
    let positions: Vec<_> = read.slots.iter().map(|s| s.canvas_position).collect();
    assert!(positions.iter().all(|&p| log.canvases[0][p] == MASK));
    assert!(read.slots.iter().all(|s| s.initial_token == MASK));
    // Candidate probabilities are equal across rows (0.73 < threshold), so only the first
    // slot commits at step one, as its best candidate; the last step reads the rest.
    assert_eq!(
        log.canvases[1][positions[0]],
        read.slots[0].candidate_tokens[0]
    );
    assert_eq!(log.canvases[1][positions[1]], MASK);
    assert_eq!(
        values(&read.slots[0].logits),
        vec![positions[0] as f64 * 0.01, positions[0] as f64 * 0.01 - 1.0]
    );
    assert!(read
        .slots
        .iter()
        .all(|s| (values(&s.probabilities).iter().sum::<f64>() - 1.0).abs() < 1e-12));
    assert!(log.conditioned.iter().all(|c| !c));
}

#[test]
fn masked_thought_blocks_start_from_the_causal_prediction_and_stop_at_a_marker() {
    let mut model = masked_model();
    let word = tokens("w7", false, false)[0];
    model.causal = vec![word];
    model.favored = vec![0, word, tokens("</think>", false, true)[0], word];
    let (mut engine, log) = fake_engine(model);
    let options = ReadOptions {
        think: 16,
        ..Default::default()
    };
    let read = engine
        .read_with_options(&fake_request(1), 42, options, &Vec::new())
        .unwrap();
    assert_eq!(read.output_tokens, 3);
    let log = log.borrow();
    // The block starts with the causal prediction; one confident step fills its masks.
    // The second canvas is the answer read.
    assert_eq!(log.canvases.len(), 2);
    assert_eq!(log.canvases[0], vec![word, MASK, MASK, MASK]);
    assert_eq!(log.predicted, vec![1]);
    let thought = [
        tokens("<think>", false, true),
        vec![word, word],
        tokens("</think>", false, true),
    ]
    .concat();
    assert!(log.prefills.last().unwrap().ends_with(&thought));
}

/// Thought tokens of a speculative or autoregressive run, with the log.
fn causal_thought(
    decoding: Decoding,
    favored: Vec<i32>,
    think: usize,
) -> (ReadResult, Rc<RefCell<Log>>, Vec<i32>) {
    let mut model = masked_model();
    let script: Vec<i32> = (1..=5)
        .map(|i| tokens(&format!("w{i}"), false, false)[0])
        .collect();
    model.causal = [script.clone(), tokens("</think>", false, true)].concat();
    model.favored = favored;
    let (mut engine, log) = fake_engine(model);
    engine.set_decoding(decoding).unwrap();
    let options = ReadOptions {
        think,
        ..Default::default()
    };
    let read = engine
        .read_with_options(&fake_request(1), 42, options, &Vec::new())
        .unwrap();
    (read, log, script)
}

#[test]
fn self_speculation_keeps_matching_drafts_and_the_next_causal_token() {
    let w = |i: usize| tokens(&format!("w{i}"), false, false)[0];
    let off_script = w(40);
    // Drafts at block rows 1..3: the next two script tokens, then a miss.
    let (read, log, script) = causal_thought(
        Decoding::SelfSpeculation,
        vec![0, w(2), w(3), off_script],
        16,
    );
    assert_eq!(read.output_tokens, script.len() + 1);
    let log = log.borrow();
    // The first draft keeps w2 and w3, then takes the causal w4 over the miss; later drafts
    // miss at once and keep only the causal token, the last of which closes the thought.
    // The fourth canvas is the answer read.
    assert_eq!(log.canvases.len(), 4);
    assert_eq!(
        log.canvases[..3],
        [
            vec![w(1), MASK, MASK, MASK],
            vec![w(4), MASK, MASK, MASK],
            vec![w(5), MASK, MASK, MASK],
        ]
    );
    assert_eq!(log.predicted, vec![1, 4, 4, 4]);
    let open = tokens("<think>", false, true);
    let first_verify = [open.clone(), vec![w(1), w(2), w(3), off_script]].concat();
    assert!(log.prefills.iter().any(|p| p.ends_with(&first_verify)));
    let thought = [open, script, tokens("</think>", false, true)].concat();
    assert!(log.prefills.last().unwrap().ends_with(&thought));
}

#[test]
fn autoregressive_and_speculative_thoughts_agree_and_respect_the_budget() {
    let w = |i: usize| tokens(&format!("w{i}"), false, false)[0];
    for think in [3, 16] {
        let (ar, ar_log, script) = causal_thought(Decoding::Autoregressive, Vec::new(), think);
        let (spec, spec_log, _) =
            causal_thought(Decoding::SelfSpeculation, vec![0, w(2), w(9), w(9)], think);
        assert_eq!(ar.output_tokens, spec.output_tokens);
        assert_eq!(
            ar_log.borrow().prefills.last(),
            spec_log.borrow().prefills.last()
        );
        assert!(ar_log.borrow().canvases.len() <= 1, "only the answer read");
        let expected = if think == 3 { 3 } else { script.len() + 1 };
        assert_eq!(ar.output_tokens, expected);
    }
}

#[test]
fn causal_decoding_needs_a_masked_model() {
    for decoding in [
        Decoding::Diffusion,
        Decoding::SelfSpeculation,
        Decoding::Autoregressive,
    ] {
        assert_eq!(Decoding::parse(decoding.id()).unwrap(), decoding);
    }
    assert!(Decoding::parse("speculative").is_err());
    let (mut engine, _) = fake_engine(FakeModel::new());
    assert!(engine.set_decoding(Decoding::Diffusion).is_ok());
    assert!(engine.set_decoding(Decoding::SelfSpeculation).is_err());
    let (mut engine, _) = fake_engine(masked_model());
    assert!(engine.set_decoding(Decoding::Autoregressive).is_ok());
}

/// Keeps the pieces of an answer, and stops after `limit` of them.
struct Ear {
    deltas: Vec<String>,
    limit: usize,
}

impl Listener for Ear {
    fn on_text(&mut self, text: &str) -> bool {
        self.deltas.push(text.to_string());
        self.deltas.len() < self.limit
    }
}

/// A causal engine whose answer is as scripted, and a generation request.
fn generation(
    causal: Vec<i32>,
    prompt: GenerationPrompt,
    max_tokens: Option<usize>,
    stop: &[&str],
) -> (Result<Generation>, Vec<String>, Rc<RefCell<Log>>) {
    let mut model = masked_model();
    model.causal = causal;
    let (mut engine, log) = fake_engine(model);
    engine.set_decoding(Decoding::Autoregressive).unwrap();
    let request = GenerationRequest {
        prompt,
        max_tokens,
        think: 0,
        stop: stop.iter().map(|s| s.to_string()).collect(),
    };
    let mut ear = Ear {
        deltas: Vec::new(),
        limit: usize::MAX,
    };
    let result = engine.generate(&request, 42, &mut ear);
    (result, ear.deltas, log)
}

fn words(n: usize) -> Vec<i32> {
    (1..=n)
        .map(|i| tokens(&format!("w{i}"), false, false)[0])
        .collect()
}

fn chat(text: &str) -> GenerationPrompt {
    GenerationPrompt::Chat(vec![
        Message {
            role: Role::System,
            text: "Be brief.".to_string(),
        },
        Message {
            role: Role::User,
            text: text.to_string(),
        },
    ])
}

#[test]
fn engine_chat_generation_frames_every_turn_and_ends_at_the_turn_marker() {
    let end = tokens("<end>", false, true)[0];
    let newline = tokens("\n", false, false)[0];
    let (result, deltas, log) = generation(
        [vec![newline], words(3), vec![end]].concat(),
        chat("Hi"),
        None,
        &[],
    );
    let answer = result.unwrap();
    assert_eq!(answer.text, "w1w2w3");
    assert_eq!(deltas.concat(), "w1w2w3");
    assert_eq!(answer.finish, FinishReason::Stop);
    assert_eq!(answer.completion_tokens, 5);
    let framed = [
        tokens("<system>", true, true),
        tokens("Be brief.", false, false),
        tokens("<end><user>", false, true),
        tokens("Hi", false, false),
        tokens("<end><model><nothought>", false, true),
    ]
    .concat();
    assert_eq!(answer.prompt_tokens, framed.len());
    assert_eq!(log.borrow().prefills[0], framed);
}

#[test]
fn engine_stop_sequences_cut_the_answer_and_are_never_streamed_in_part() {
    let (result, deltas, _) = generation(words(6), chat("Hi"), Some(16), &["w3w", "zz"]);
    let answer = result.unwrap();
    assert_eq!(answer.text, "w1w2");
    assert_eq!(answer.finish, FinishReason::Stop);
    assert_eq!(deltas.concat(), "w1w2");
    assert!(
        deltas.len() > 1,
        "text is streamed as it is decided: {deltas:?}"
    );
}

#[test]
fn engine_answers_end_at_max_tokens_and_text_prompts_are_not_framed() {
    let (result, _, log) = generation(
        words(6),
        GenerationPrompt::Text("Once".to_string()),
        Some(2),
        &[],
    );
    let answer = result.unwrap();
    assert_eq!(answer.text, "w1w2");
    assert_eq!(answer.finish, FinishReason::Length);
    assert_eq!(log.borrow().prefills[0], tokens("Once", true, false));
    // The prompt and answer must fit the 256-token context.
    let (result, _, _) = generation(words(1), chat("Hi"), Some(1000), &[]);
    assert!(matches!(result, Err(Error::InvalidInput(_))));
}

#[test]
fn engine_a_client_that_stops_listening_ends_generation() {
    let mut model = masked_model();
    model.causal = words(20);
    let (mut engine, log) = fake_engine(model);
    engine.set_decoding(Decoding::Autoregressive).unwrap();
    let request = GenerationRequest {
        prompt: chat("Hi"),
        max_tokens: Some(16),
        think: 0,
        stop: Vec::new(),
    };
    let mut ear = Ear {
        deltas: Vec::new(),
        limit: 1,
    };
    engine.generate(&request, 42, &mut ear).unwrap();
    assert_eq!(ear.deltas.len(), 1);
    assert_eq!(log.borrow().predicted.len(), 1);
}

#[test]
fn generate_chat_generation_frames_every_turn_and_ends_at_the_turn_marker() {
    let end = tokens("<end>", false, true)[0];
    let newline = tokens("\n", false, false)[0];
    let script = [vec![newline], words(3), vec![end]].concat();
    let (result, deltas, log) = generation(script, chat("Hi"), None, &[]);
    let answer = result.unwrap();
    assert_eq!(answer.text, "w1w2w3");
    assert_eq!(deltas.concat(), "w1w2w3");
    assert_eq!(answer.finish, FinishReason::Stop);
    assert_eq!(answer.completion_tokens, 5);
    let framed = [
        tokens("<system>", true, true),
        tokens("Be brief.", false, false),
        tokens("<end><user>", false, true),
        tokens("Hi", false, false),
        tokens("<end><model><nothought>", false, true),
    ]
    .concat();
    assert_eq!(answer.prompt_tokens, framed.len());
    assert_eq!(log.borrow().prefills[0], framed);
}

#[test]
fn generate_stop_sequences_cut_the_answer_and_are_never_streamed_in_part() {
    let (result, deltas, _) = generation(words(6), chat("Hi"), Some(16), &["w3w", "zz"]);
    let answer = result.unwrap();
    assert_eq!(answer.text, "w1w2");
    assert_eq!(answer.finish, FinishReason::Stop);
    assert_eq!(deltas.concat(), "w1w2");
    assert!(deltas.len() > 1);
    assert!(deltas.iter().all(|d| !d.contains("w3")));
}

#[test]
fn generate_answers_end_at_max_tokens_and_text_prompts_are_not_framed() {
    let prompt = GenerationPrompt::Text("Once".to_string());
    let (result, _, log) = generation(words(6), prompt, Some(2), &[]);
    let answer = result.unwrap();
    assert_eq!(answer.text, "w1w2");
    assert_eq!(answer.finish, FinishReason::Length);
    assert_eq!(log.borrow().prefills[0], tokens("Once", true, false));
    let (result, _, _) = generation(words(1), chat("Hi"), Some(1000), &[]);
    assert!(matches!(result, Err(Error::InvalidInput(_))));
}

#[test]
fn generate_a_client_that_stops_listening_ends_generation() {
    let mut model = masked_model();
    model.causal = words(20);
    let (mut engine, log) = fake_engine(model);
    engine.set_decoding(Decoding::Autoregressive).unwrap();
    let request = GenerationRequest {
        prompt: chat("Hi"),
        max_tokens: Some(16),
        think: 0,
        stop: Vec::new(),
    };
    let mut ear = Ear {
        deltas: Vec::new(),
        limit: 1,
    };
    engine.generate(&request, 42, &mut ear).unwrap();
    assert_eq!(ear.deltas.len(), 1);
    assert_eq!(log.borrow().predicted.len(), 1);
}

#[test]
fn masked_canvases_pad_to_the_block_and_answers_carry_the_prefix_space() {
    let mut model = masked_model();
    model.scheme = masked(8);
    model.chat.space_joins_answers = true;
    model.space_joins = true;
    let spaced = |text: &str| tokenize(true, text, false, false);
    let (mut engine, log) = fake_engine(model);
    assert_eq!(engine.codes().len(), 128);
    let read = engine.read(&fake_request(1), 42).unwrap();
    // "Q: " loses its trailing space; candidates become " A" and " B".
    assert_eq!(
        read.slots[0].candidate_tokens,
        [spaced(" A")[0], spaced(" B")[0]]
    );
    assert_eq!(read.slots[0].canvas_position, 2);
    let log = log.borrow();
    let mut expected = spaced("Q:");
    expected.extend([MASK; 6]);
    assert_eq!(log.canvases[0], expected);
    assert_eq!(read.canvas_tokens, 8);
}

#[test]
fn samples_average_probabilities_instead_of_logits_or_winning_labels() {
    let slot = |probabilities: Vec<f64>| SlotRead {
        canvas_position: 0,
        absolute_position: 1,
        initial_token: 7,
        candidate_tokens: vec![1, 2],
        logits: vec![9.0f64.to_bits(), 1.0f64.to_bits()],
        probabilities: probabilities.iter().map(|p| p.to_bits()).collect(),
    };
    let means = average_reads(&vec![
        vec![slot(vec![0.99, 0.01])],
        vec![slot(vec![0.25, 0.75])],
    ])
    .unwrap();
    assert_eq!(values(&means[0].probabilities), vec![0.62, 0.38]);
    assert!(means[0].logits.is_empty());
}

#[test]
fn the_most_confident_position_always_commits_and_others_need_the_threshold() {
    let bits = |p: &[f64]| p.iter().map(|x| x.to_bits()).collect::<Vec<u64>>();
    let threshold = 0.9f64.to_bits();
    assert_eq!(commits(&bits(&[0.2, 0.5, 0.1]), threshold), vec![1]);
    assert_eq!(commits(&bits(&[0.95, 0.5, 0.91]), threshold), vec![0, 2]);
    assert_eq!(commits(&bits(&[0.3, 0.3]), threshold), vec![0]);
    assert!(commits(&Vec::new(), threshold).is_empty());
    // The most confident comes first.
    assert_eq!(commits(&bits(&[0.91, 0.5, 0.95]), threshold), vec![2, 0]);
}

#[test]
fn averaging_equals_hardware_addition_and_division() {
    let samples = [0.1f64, 0.2, 0.7, 1.0 / 3.0, 1e-300, 0.0, 0.999999];
    let slot = |p: f64| SlotRead {
        canvas_position: 3,
        absolute_position: 9,
        initial_token: 5,
        candidate_tokens: vec![8],
        logits: vec![2.0f64.to_bits()],
        probabilities: vec![p.to_bits()],
    };
    for count in 1..=samples.len() {
        let reads: Vec<Vec<SlotRead>> =
            samples[..count].iter().map(|&p| vec![slot(p)]).collect();
        let mean = average_reads(&reads).unwrap();
        let sum: f64 = samples[1..count].iter().fold(samples[0], |a, b| a + b);
        assert_eq!(f64::from_bits(mean[0].probabilities[0]), sum / count as f64);
        assert_eq!(mean[0].logits.is_empty(), count > 1);
        assert_eq!(mean[0].candidate_tokens, vec![8]);
    }
    let mut other = slot(0.5);
    other.probabilities.clear();
    let error = average_reads(&vec![vec![slot(0.5)], vec![other]]).unwrap_err();
    assert!(matches!(error, Error::InvalidLogits));
}

#[test]
fn sequential_reads_show_earlier_answers_to_later_slots() {
    let mut model = masked_model();
    model.info.max_canvas = 4;
    let (mut engine, log) = fake_engine(model);
    let options = ReadOptions {
        sequential: true,
        samples: 2,
        ..Default::default()
    };
    let read = engine
        .read_with_options(&fake_request(2), 42, options, &Vec::new())
        .unwrap();
    let log = log.borrow();
    let prompt = &log.prefills[0];
    let answered = [prompt.clone(), tokens("Q: A", false, false)].concat();
    assert_eq!(log.prefills.last().unwrap(), &answered);
    assert_eq!(read.slots.len(), 2);
    assert_eq!(read.prompt_tokens, 2 * prompt.len() + 2 * answered.len());
    assert_eq!(read.canvas_tokens, 16);
    assert!(read.slots[0].logits.is_empty());
}

#[test]
fn unusable_reads_and_vocabularies_are_rejected() {
    let (mut engine, log) = fake_engine(FakeModel::new());
    let blank = ReadRequest {
        prompt: " \n".to_string(),
        ..fake_request(1)
    };
    assert!(engine.read(&blank, 1).is_err());
    assert!(engine.read(&fake_request(0), 1).is_err());
    let none = ReadOptions {
        samples: 0,
        ..Default::default()
    };
    assert!(engine
        .read_with_options(&fake_request(1), 1, none, &Vec::new())
        .is_err());
    let mut twice = fake_request(1);
    twice.slots[0].candidates = vec!["A".to_string(), "A".to_string()];
    let error = engine.read(&twice, 1).unwrap_err();
    assert_eq!(
        error.message(),
        "Candidate \"A\" must encode to one distinct token"
    );
    assert!(log.borrow().prefills.is_empty());
    let mut small = FakeModel::new();
    small.info.n_vocab = 310;
    assert!(matches!(
        Engine::new(small),
        Err(Error::InvalidInput(m)) if m == "The vocabulary has fewer than 128 usable single-token answer codes"
    ));
    let mut strange = FakeModel::new();
    strange.chat.answer_stops.push("<stop>".to_string());
    assert!(matches!(
        Engine::new(strange),
        Err(Error::UnsupportedModel(m)) if m == "the tokenizer has no single token for the chat marker <stop>"
    ));
}

#[test]
fn proposals_take_the_first_of_the_largest_logits() {
    let best = |row: &[f32]| propose(&row.iter().map(|x| x.to_bits()).collect());
    assert_eq!(best(&[1000.0, 1000.0 + 2f32.ln(), 0.0]).unwrap(), 1);
    assert_eq!(best(&[-3.0, -1.5, -1.5, -2.0]).unwrap(), 1);
    assert_eq!(best(&[-0.0, 0.0, -1.0]).unwrap(), 0);
    assert_eq!(best(&[-1.0, f32::MIN, f32::MAX]).unwrap(), 2);
    assert!(matches!(best(&[f32::INFINITY]), Err(Error::InvalidLogits)));
    assert!(matches!(best(&[0.0, f32::NAN]), Err(Error::InvalidLogits)));
    assert!(matches!(best(&[]), Err(Error::InvalidLogits)));
}

#[test]
fn noise_is_drawn_from_the_seed_of_its_sample() {
    let read = |seed: u64| {
        let (mut engine, _) = fake_engine(FakeModel::new());
        engine.read(&fake_request(1), seed).unwrap().slots[0].initial_token
    };
    let mut dice = ChaCha8Rng::seed_from_u64(sample_seed(42, 0, 0));
    assert_eq!(read(42), dice.random_range(5..VOCAB));
    assert_eq!(read(42), read(42));
    assert!((0..20).any(|seed| read(seed) != read(42)));
}

#[test]
fn the_same_request_gets_the_same_text() {
    let answer = || {
        let mut model = FakeModel::new();
        model.favored = words(8);
        let (mut engine, _) = fake_engine(model);
        let request = GenerationRequest {
            prompt: GenerationPrompt::Text("Once".to_string()),
            max_tokens: Some(6),
            think: 0,
            stop: Vec::new(),
        };
        let mut ear = Ear { deltas: Vec::new(), limit: usize::MAX };
        engine.generate(&request, 7, &mut ear).unwrap()
    };
    let first = answer();
    assert_eq!(first.text, "w1w2w3w4w5w6");
    assert_eq!(first, answer());
}

#[test]
fn proposals_take_the_argmax_with_its_stable_probability() {
    let best = |row: &[f32]| propose(&row.iter().map(|x| x.to_bits()).collect());
    assert_eq!(best(&[1000.0, 1000.0 + 2f32.ln(), 0.0]).unwrap(), 1);
    assert!(best(&[f32::INFINITY]).is_err());
    assert!(best(&[]).is_err());
}

#[test]
fn a_listener_is_not_called_again_after_it_declined() {
    for limit in 1..5 {
        let mut model = masked_model();
        model.causal = words(20);
        let (mut engine, _) = fake_engine(model);
        engine.set_decoding(Decoding::Autoregressive).unwrap();
        let request = GenerationRequest {
            prompt: chat("Hi"),
            max_tokens: Some(16),
            think: 0,
            stop: Vec::new(),
        };
        let mut ear = Ear {
            deltas: Vec::new(),
            limit,
        };
        engine.generate(&request, 42, &mut ear).unwrap();
        assert_eq!(ear.deltas.len(), limit);
    }
}

#[test]
fn refused_requests_leave_the_listener_alone() {
    let (mut engine, log) = fake_engine(FakeModel::new());
    engine.read(&fake_request(1), 42).unwrap();
    let calls = engine.prefill_profile().calls;
    assert!(calls > 0);
    let mut ear = Ear {
        deltas: Vec::new(),
        limit: usize::MAX,
    };
    let mut request = GenerationRequest {
        prompt: chat("Hi"),
        max_tokens: Some(16),
        think: 0,
        stop: vec![String::new()],
    };
    // Stop sequences are checked before anything else.
    assert!(engine.generate(&request, 42, &mut ear).is_err());
    assert_eq!(engine.prefill_profile().calls, calls);
    // A prompt without room has the profile reset, and nothing is computed.
    request.stop = Vec::new();
    request.prompt = chat(&"long ".repeat(100));
    assert!(engine.generate(&request, 42, &mut ear).is_err());
    assert_eq!(engine.prefill_profile().calls, 0);
    assert!(ear.deltas.is_empty());
    assert_eq!(log.borrow().prefills.len(), 1);
}

#[test]
fn room_is_left_up_to_the_context_size() {
    assert!(room(256, 256).is_ok());
    assert!(room(0, 0).is_ok());
    assert!(matches!(
        room(257, 256),
        Err(Error::InvalidInput(m))
            if m == "Prompt, thought budget, and canvas need 257 tokens; context allows 256"
    ));
}

#[test]
fn every_slot_is_answered_in_order_among_its_candidates() {
    let mut request = fake_request(3);
    request.slots[1].candidates = vec!["x".to_string(), "y".to_string(), "z".to_string()];
    let (mut engine, _) = fake_engine(FakeModel::new());
    let read = engine.read(&request, 42).unwrap();
    let sizes: Vec<usize> = read.slots.iter().map(|s| s.probabilities.len()).collect();
    assert_eq!(sizes, vec![2, 3, 2]);
    assert_eq!(read.output_tokens, 0);
}
