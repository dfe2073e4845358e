//! The engine: answer codes, thoughts and free-form answers over one model.
use crate::engine::answer::{
    advanced, before_cut, cut_from, fitting, held_back, lemma_cut, lemma_fitting,
    lemma_size_is_encoded_length, lemma_size_of_prefix, occurs, passed_on, settled_size, size, stops_at,
    trimmed, Answer,
};
use crate::engine::causal::{
    block_capacity, counted, extend, generate_causal, greedy, greedy_end,
    law_speculation_equals_autoregression, lemma_counts_agree,
};
use crate::engine::config::{parts_model, Decoding, Part, PromptPart};
use crate::engine::framing::{
    marker, piece_tokens, prepare, prepare_outcome, Prepared, PreparedModel, Tokens,
};
use crate::engine::generated::{clamp, Deaf, Generated, Silent};
use crate::engine::masked::{generate_masked, is_run, lemma_run_ends, run_of, Blocks};
use crate::engine::model::{
    no_work, obeyed, refused, tokens_outcome, Card, ChatFormat, DiffusionModel, DiffusionScheme,
    Listener, ModelInfo, PrefillProfile, Sink,
};
use crate::engine::stream::{lemma_stream_ends, steady, streamed, AnswerSink};
use crate::engine::uniform::{
    canvas_size, generate_uniform, law_seeds_decide_the_text, made_of_noise, NoiseTerms,
};
use crate::error::{Error, ErrorModel, Result};
use crate::generation::{
    stops_allowed, FinishReason, Generation, GenerationPrompt, GenerationRequest, RequestModel,
};
use crate::sequences::{lemma_try_map_fails, lemma_try_map_step, texts, try_map};
use vstd::prelude::*;
use vstd::string::*;

verus! {

/// Reads and generates with one model.
pub struct Engine<M: DiffusionModel> {
    pub model: M,
    pub chat: ChatFormat,
    /// Verified single-token codes used to represent arbitrary external labels.
    pub codes: Vec<String>,
    pub n_vocab: i32,
    pub scheme: DiffusionScheme,
    pub n_ctx: usize,
    pub batch_size: usize,
    pub max_canvas: usize,
    pub decoding: Decoding,
}

/// How an engine generates: everything but the model.
pub struct Mode {
    pub scheme: DiffusionScheme,
    pub decoding: Decoding,
    pub max_canvas: usize,
    pub batch_size: usize,
}

/// What generation after `prompt + start` made, within `budget` tokens and up to the first of
/// `stops`. Causal decoding is greedy; masked decoding is a run of blocks, and so is that of uniform
/// noise, which depends on the seed.
pub open spec fn made(
    card: Card,
    mode: Mode,
    parts: Seq<Part>,
    start: Seq<i32>,
    budget: usize,
    stops: Seq<i32>,
    seed: u64,
    g: Generated,
) -> bool {
    &&& g.tokens@.len() <= budget
    &&& g.stopped ==> g.tokens@.len() < budget
    &&& !g.cancelled && !g.stopped ==> g.tokens@.len() == budget
    &&& match mode.scheme {
        DiffusionScheme::UniformSelfConditioned { .. } => {
            &&& forall|i: int| 0 <= i < g.tokens@.len() ==> !stops.contains(#[trigger] g.tokens@[i])
            &&& made_of_noise(
                card,
                parts,
                start,
                (NoiseTerms {
                    stops,
                    seed,
                    capacity: canvas_size(mode.max_canvas as nat, mode.batch_size as nat),
                    budget: budget as nat,
                }),
                g,
            )
        },
        DiffusionScheme::Masked { mask, block, threshold, max_steps } => match mode.decoding {
            Decoding::Diffusion => exists|n: nat|
                is_run(
                    g,
                    #[trigger] run_of(
                        card,
                        parts,
                        start,
                        stops,
                        Blocks {
                            block: block as nat,
                            threshold,
                            max_steps: max_steps as nat,
                            max_canvas: mode.max_canvas as nat,
                            batch_size: mode.batch_size as nat,
                            mask,
                            budget: budget as nat,
                        },
                        n,
                    ),
                ),
            _ => {
                &&& greedy(card, parts, start, g.tokens@, stops)
                &&& !g.cancelled ==> greedy_end(
                    card,
                    parts,
                    start,
                    g.tokens@,
                    stops,
                    budget as nat,
                    g.stopped,
                )
                &&& counted(
                    card,
                    parts,
                    start,
                    block_capacity(
                        if mode.decoding is SelfSpeculation {
                            block as nat
                        } else {
                            1
                        },
                        mode.max_canvas as nat,
                        mode.batch_size as nat,
                    ),
                    budget as nat,
                    mask,
                    g,
                )
            },
        },
    }
}

impl<M: DiffusionModel> Engine<M> {
    /// Forwards take at least one token, and masked blocks too; sizes leave room to count.
    pub open spec fn ready(self) -> bool {
        &&& 0 < self.batch_size < usize::MAX
        &&& 0 < self.max_canvas
        &&& self.n_ctx < usize::MAX
        &&& self.scheme matches DiffusionScheme::Masked { block, .. } ==> block > 0
    }

    /// How it generates.
    pub open spec fn mode(self) -> Mode {
        Mode {
            scheme: self.scheme,
            decoding: self.decoding,
            max_canvas: self.max_canvas,
            batch_size: self.batch_size,
        }
    }

    /// Everything but the state of the model is as in `other`.
    pub open spec fn same_setup(self, other: Self) -> bool {
        &&& self.model.card() == other.model.card()
        &&& self.chat == other.chat
        &&& self.codes == other.codes
        &&& self.n_vocab == other.n_vocab
        &&& self.scheme == other.scheme
        &&& self.n_ctx == other.n_ctx
        &&& self.batch_size == other.batch_size
        &&& self.max_canvas == other.max_canvas
        &&& self.decoding == other.decoding
    }

    /// Selects how text is generated. Self-speculation and autoregressive decoding need a
    /// masked diffusion model with causal next-token predictions.
    pub fn set_decoding(&mut self, decoding: Decoding) -> (r: Result<()>)
        ensures
            r is Ok <==> decoding == Decoding::Diffusion || old(self).scheme is Masked,
            r is Ok ==> final(self).decoding == decoding,
            r matches Err(e) ==> final(self).decoding == old(self).decoding && e@
                == ErrorModel::InvalidInput(
                "Decoding "@ + decoding.name()
                    + " needs a masked diffusion model with causal predictions"@,
            ),
            final(self).same_setup(Engine { decoding: final(self).decoding, ..*old(self) }),
    {
        let masked: bool = match self.scheme {
            DiffusionScheme::Masked { .. } => true,
            _ => false,
        };
        if decoding != Decoding::Diffusion && !masked {
            return Err(
                Error::InvalidInput(
                    "Decoding ".to_owned().concat(decoding.id()).concat(
                        " needs a masked diffusion model with causal predictions",
                    ),
                ),
            );
        }
        self.decoding = decoding;
        Ok(())
    }

    pub fn decoding(&self) -> (r: Decoding)
        ensures
            r == self.decoding,
    {
        self.decoding
    }

    /// Verified single-token codes used to represent arbitrary external labels.
    pub fn codes(&self) -> (r: &Vec<String>)
        ensures
            *r == self.codes,
    {
        &self.codes
    }

    /// Architecture and description of the loaded model.
    pub fn model_info(&self) -> (r: &ModelInfo)
        ensures
            *r == self.model.about(),
    {
        self.model.info()
    }

    /// Prefill work of the last read or answer; independent of logical usage.
    pub fn prefill_profile(&self) -> (r: PrefillProfile)
        ensures
            r == self.model.work(),
    {
        self.model.profile()
    }

    /// Generates up to `budget` tokens after `prompt + start`, ending before the first of
    /// `stops`. `sink` receives each newly decided run of tokens.
    pub fn generate_tokens<L: Listener, S: Sink<M, L>>(
        &mut self,
        prompt: &Vec<PromptPart>,
        start: &Vec<i32>,
        budget: usize,
        stops: &Vec<i32>,
        seed: u64,
        sink: &mut S,
        ear: &mut L,
    ) -> (r: Result<Generated>)
        requires
            old(self).ready(),
            old(sink).sound(old(self).model.card(), old(ear).heard(), old(ear).answers()),
            !old(sink).ended(),
        ensures
            final(self).same_setup(*old(self)),
            r matches Err(e) ==> (old(self).model.card().fails)(e@),
            final(sink).sound(old(self).model.card(), final(ear).heard(), final(ear).answers()),
            final(sink).terms() == old(sink).terms(),
            r matches Ok(g) ==> {
                &&& made(
                    old(self).model.card(),
                    old(self).mode(),
                    parts_model(prompt@),
                    start@,
                    budget,
                    stops@,
                    seed,
                    g,
                )
                &&& final(sink).received() == old(sink).received() + g.tokens@
                &&& old(sink).patient() ==> !g.cancelled
                &&& final(sink).ended() == g.cancelled
            },
    {
        match self.scheme {
            DiffusionScheme::UniformSelfConditioned { .. } => generate_uniform(
                &mut self.model,
                prompt,
                start,
                budget,
                stops,
                seed,
                self.max_canvas,
                self.batch_size,
                sink,
                ear,
            ),
            DiffusionScheme::Masked { mask, block, threshold, max_steps } => match self.decoding {
                Decoding::Diffusion => generate_masked(
                    &mut self.model,
                    prompt,
                    start,
                    budget,
                    stops,
                    block,
                    threshold,
                    max_steps,
                    self.max_canvas,
                    self.batch_size,
                    mask,
                    sink,
                    ear,
                ),
                Decoding::SelfSpeculation => generate_causal(
                    &mut self.model,
                    prompt,
                    start,
                    budget,
                    stops,
                    block,
                    self.max_canvas,
                    self.batch_size,
                    mask,
                    sink,
                    ear,
                ),
                Decoding::Autoregressive => generate_causal(
                    &mut self.model,
                    prompt,
                    start,
                    budget,
                    stops,
                    1,
                    self.max_canvas,
                    self.batch_size,
                    mask,
                    sink,
                    ear,
                ),
            },
        }
    }
}

// ---------------------------------------------------------------------------------------------
// Markers
// ---------------------------------------------------------------------------------------------

/// The only token of a chat marker.
pub open spec fn marker_outcome(card: Card, text: Seq<char>) -> core::result::Result<
    i32,
    ErrorModel,
> {
    match piece_tokens(card, marker(text)) {
        Err(e) => Err(e),
        Ok(tokens) => if tokens.len() == 1 {
            Ok(tokens[0])
        } else {
            Err(
                ErrorModel::UnsupportedModel(
                    "the tokenizer has no single token for the chat marker "@ + text,
                ),
            )
        },
    }
}

/// The reader of chat markers.
pub open spec fn marker_reader(card: Card) -> spec_fn(Seq<char>) -> core::result::Result<
    i32,
    ErrorModel,
> {
    |text: Seq<char>| marker_outcome(card, text)
}

/// The tokens of chat markers.
pub open spec fn markers_outcome(card: Card, markers: Seq<Seq<char>>) -> Tokens {
    try_map(markers, marker_reader(card))
}

/// The only token of a chat marker.
pub fn single_token<M: DiffusionModel>(model: &M, text: &str) -> (r: Result<i32>)
    ensures
        r matches Ok(t) ==> marker_outcome(model.card(), text@) == Ok::<i32, ErrorModel>(t),
        r matches Err(e) ==> marker_outcome(model.card(), text@) == Err::<i32, ErrorModel>(e@),
{
    let tokens: Vec<i32> = model.tokenize(text, false, true)?;
    if tokens.len() == 1 {
        Ok(tokens[0])
    } else {
        Err(
            Error::UnsupportedModel(
                "the tokenizer has no single token for the chat marker ".to_owned().concat(text),
            ),
        )
    }
}

/// The tokens of chat markers.
pub fn marker_tokens<M: DiffusionModel>(model: &M, markers: &Vec<String>) -> (r: Result<Vec<i32>>)
    ensures
        tokens_outcome(r) == markers_outcome(model.card(), texts(markers@)),
{
    let ghost all = texts(markers@);
    let ghost f = marker_reader(model.card());
    let mut tokens: Vec<i32> = Vec::new();
    let mut i: usize = 0;
    assert(all.take(0) =~= Seq::<Seq<char>>::empty());
    while i < markers.len()
        invariant
            i <= markers@.len(),
            all == texts(markers@),
            f == marker_reader(model.card()),
            try_map(all.take(i as int), f) == Ok::<Seq<i32>, ErrorModel>(tokens@),
        decreases markers@.len() - i,
    {
        proof {
            lemma_try_map_step(all, f, i as int);
            assert(f(all[i as int]) == marker_outcome(model.card(), markers@[i as int]@));
        }
        match single_token(model, markers[i].as_str()) {
            Ok(token) => tokens.push(token),
            Err(e) => {
                proof {
                    lemma_try_map_fails(all, f, i + 1);
                }
                return Err(e);
            },
        }
        i += 1;
    }
    assert(all.take(i as int) =~= all);
    Ok(tokens)
}

// ---------------------------------------------------------------------------------------------
// Thoughts
// ---------------------------------------------------------------------------------------------

/// A thought that was generated and closed.
#[derive(Debug)]
pub struct Thought {
    /// Its opening, its tokens and its closing.
    pub suffix: Vec<i32>,
    pub input_tokens: usize,
    pub output_tokens: usize,
    /// Generation forwards and tokens per causal verification.
    pub forwards: usize,
    pub accepted: Vec<usize>,
}

/// A bounded thought after `parts`: opened, generated up to one of its stop markers, and closed.
/// A stop marker counts as one output token.
pub open spec fn thought_from(
    card: Card,
    mode: Mode,
    chat: ChatFormat,
    parts: Seq<Part>,
    budget: usize,
    seed: u64,
    thought: Thought,
    g: Generated,
) -> bool {
    let open = piece_tokens(card, marker(chat.thought_open@));
    let close = piece_tokens(card, marker(chat.thought_close@));
    let stops = markers_outcome(card, texts(chat.thought_stops@));
    &&& open is Ok && close is Ok && stops is Ok
    &&& made(card, mode, parts, open->Ok_0, budget, stops->Ok_0, seed, g)
    &&& !g.cancelled
    &&& thought.suffix@ == open->Ok_0 + g.tokens@ + close->Ok_0
    &&& thought.output_tokens == clamp(spent(g))
    &&& thought.input_tokens == g.input_tokens
    &&& thought.forwards == g.forwards
    &&& thought.accepted@ == g.accepted@
}

/// The tokens that generation decided, a stop marker among them.
pub open spec fn spent(g: Generated) -> nat {
    g.tokens@.len() + if g.stopped {
        1nat
    } else {
        0nat
    }
}

/// Some generation makes this thought.
pub open spec fn thought_of(
    card: Card,
    mode: Mode,
    chat: ChatFormat,
    parts: Seq<Part>,
    budget: usize,
    seed: u64,
    thought: Thought,
) -> bool {
    exists|g: Generated| #[trigger]
        thought_from(card, mode, chat, parts, budget, seed, thought, g)
}

/// An error of a thought: of its markers, or of a forward.
pub open spec fn thought_fault(card: Card, chat: ChatFormat, e: ErrorModel) -> bool {
    ||| piece_tokens(card, marker(chat.thought_open@)) == Err::<Seq<i32>, ErrorModel>(e)
    ||| piece_tokens(card, marker(chat.thought_close@)) == Err::<Seq<i32>, ErrorModel>(e)
    ||| markers_outcome(card, texts(chat.thought_stops@)) == Err::<Seq<i32>, ErrorModel>(e)
    ||| (card.fails)(e)
}

/// An error of an answer whose request was prepared: of a thought that was asked for, of the markers
/// that end an answer, of a text that cannot be decoded, or of a forward.
pub open spec fn answer_fault(card: Card, chat: ChatFormat, think: bool, e: ErrorModel) -> bool {
    ||| think && thought_fault(card, chat, e)
    ||| markers_outcome(card, texts(chat.answer_stops@)) == Err::<Seq<i32>, ErrorModel>(e)
    ||| exists|tokens: Seq<i32>| #[trigger] (card.decode)(tokens) == Err::<Seq<char>, ErrorModel>(e)
    ||| (card.fails)(e)
}

impl<M: DiffusionModel> Engine<M> {
    /// A bounded thought after `prompt`.
    pub fn think_with(&mut self, prompt: &Vec<PromptPart>, budget: usize, seed: u64) -> (r: Result<
        Thought,
    >)
        requires
            old(self).ready(),
        ensures
            final(self).same_setup(*old(self)),
            r matches Err(e) ==> thought_fault(old(self).model.card(), old(self).chat, e@),
            r matches Ok(thought) ==> thought_of(
                old(self).model.card(),
                old(self).mode(),
                old(self).chat,
                parts_model(prompt@),
                budget,
                seed,
                thought,
            ),
    {
        let ghost card = self.model.card();
        let ghost mode = self.mode();
        let open: Vec<i32> = self.model.tokenize(self.chat.thought_open.as_str(), false, true)?;
        let close: Vec<i32> = self.model.tokenize(self.chat.thought_close.as_str(), false, true)?;
        let stops: Vec<i32> = marker_tokens(&self.model, &self.chat.thought_stops)?;
        let mut sink: Silent = Silent::new();
        let mut ear: Deaf = Deaf::new();
        let generated: Generated = self.generate_tokens(
            prompt,
            &open,
            budget,
            &stops,
            seed,
            &mut sink,
            &mut ear,
        )?;
        let mut suffix: Vec<i32> = Vec::new();
        extend(&mut suffix, &open, 0, open.len());
        extend(&mut suffix, &generated.tokens, 0, generated.tokens.len());
        extend(&mut suffix, &close, 0, close.len());
        let output_tokens: usize = generated.tokens.len().saturating_add(
            if generated.stopped { 1 } else { 0 },
        );
        let ghost made_of = generated;
        let thought: Thought = Thought {
            suffix,
            input_tokens: generated.input_tokens,
            output_tokens,
            forwards: generated.forwards,
            accepted: generated.accepted,
        };
        proof {
            assert(thought.suffix@ =~= open@ + made_of.tokens@ + close@);
            assert(thought_from(
                card,
                mode,
                old(self).chat,
                parts_model(prompt@),
                budget,
                seed,
                thought,
                made_of,
            ));
        }
        Ok(thought)
    }
}

// ---------------------------------------------------------------------------------------------
// Answers
// ---------------------------------------------------------------------------------------------

/// As many bytes are held back as leave one byte of the longest stop sequence.
pub open spec fn is_holdback(stops: Seq<Seq<char>>, holdback: nat) -> bool {
    &&& held_back(stops, holdback)
    &&& stops.len() == 0 ==> holdback == 0
    &&& stops.len() > 0 ==> exists|k: int|
        0 <= k < stops.len() && size(#[trigger] stops[k]) == holdback + 1
}

fn hold_back(stops: &Vec<String>) -> (r: usize)
    requires
        forall|k: int| 0 <= k < stops@.len() ==> (#[trigger] texts(stops@)[k]).len() > 0,
    ensures
        is_holdback(texts(stops@), r as nat),
{
    let ghost all = texts(stops@);
    let mut longest: usize = 1;
    let mut i: usize = 0;
    while i < stops.len()
        invariant
            i <= stops@.len(),
            all == texts(stops@),
            longest >= 1,
            i == 0 ==> longest == 1,
            forall|k: int| 0 <= k < all.len() ==> (#[trigger] all[k]).len() > 0,
            forall|k: int| 0 <= k < i ==> size(#[trigger] all[k]) <= longest,
            i > 0 ==> exists|k: int| 0 <= k < i && size(#[trigger] all[k]) == longest,
        decreases stops@.len() - i,
    {
        let bytes: &[u8] = stops[i].as_str().as_bytes();
        let n: usize = bytes.len();
        proof {
            lemma_size_is_encoded_length(all[i as int]);
            assert(n == size(all[i as int]));
            lemma_size_of_prefix(all[i as int], 0, all[i as int].len() as int);
            assert(all[i as int].take(all[i as int].len() as int) =~= all[i as int]);
        }
        if n >= longest {
            longest = n;
        }
        i += 1;
    }
    longest - 1
}

/// What the answer is made of: the tokens `g` after `start`.
pub open spec fn answer_from(
    card: Card,
    mode: Mode,
    chat: ChatFormat,
    request: RequestModel,
    prepared: PreparedModel,
    start: Seq<i32>,
    reasoning: usize,
    seed: u64,
    g: Generated,
    answer: Generation,
) -> bool {
    let stops = markers_outcome(card, texts(chat.answer_stops@));
    let raw = (card.decode)(g.tokens@);
    let text = trimmed(raw->Ok_0, request.prompt is Chat);
    &&& stops is Ok && raw is Ok
    &&& made(
        card,
        mode,
        seq![Part::Text(prepared.prompt)],
        start,
        prepared.max_tokens,
        stops->Ok_0,
        seed,
        g,
    )
    &&& answer.text@ == before_cut(text, request.stop)
    &&& answer.prompt_tokens == clamp(prepared.prompt.len() + start.len())
    &&& answer.completion_tokens == clamp(reasoning as nat + spent(g))
    &&& answer.reasoning_tokens == reasoning
    &&& answer.finish == if g.stopped || cut_from(text, request.stop, 0) is Some {
        FinishReason::Stop
    } else {
        FinishReason::Length
    }
}

/// The front of a text that can no longer change.
pub open spec fn settled_text(text: Seq<char>, holdback: nat) -> Seq<char> {
    text.take(fitting(text, settled_size(text, holdback, false)) as int)
}

/// What the listener heard: the whole answer; or, where it asked to stop, all of it that could no
/// longer change.
pub open spec fn heard_answer(
    card: Card,
    request: RequestModel,
    g: Generated,
    answer: Generation,
    told: Seq<char>,
) -> bool {
    let text = trimmed((card.decode)(g.tokens@)->Ok_0, request.prompt is Chat);
    if g.cancelled && cut_from(text, request.stop, 0) is None {
        exists|holdback: nat| #[trigger]
            is_holdback(request.stop, holdback) && told == settled_text(answer.text@, holdback)
    } else {
        told == answer.text@
    }
}

/// The answer follows the framing, or a thought that was asked for.
pub open spec fn starts_answer(
    card: Card,
    mode: Mode,
    chat: ChatFormat,
    request: RequestModel,
    prepared: PreparedModel,
    start: Seq<i32>,
    reasoning: usize,
    seed: u64,
) -> bool {
    if request.think > 0 {
        exists|thought: Thought|
            #![trigger thought_of(card, mode, chat, seq![Part::Text(prepared.prompt)], request.think, seed, thought)]
            thought_of(
                card,
                mode,
                chat,
                seq![Part::Text(prepared.prompt)],
                request.think,
                seed,
                thought,
            ) && thought.suffix@ == start && thought.output_tokens == reasoning
    } else {
        start == prepared.framing && reasoning == 0
    }
}

/// A stop sequence stands in the text of the tokens.
pub open spec fn stop_found(card: Card, request: RequestModel, tokens: Seq<i32>) -> bool {
    cut_from(
        trimmed((card.decode)(tokens)->Ok_0, request.prompt is Chat),
        request.stop,
        0,
    ) is Some
}

/// What is known of an answer: generation ends before its own end only where a stop sequence was
/// found, or where the listener refused more.
pub open spec fn answered(
    card: Card,
    mode: Mode,
    chat: ChatFormat,
    request: RequestModel,
    prepared: PreparedModel,
    seed: u64,
    answer: Generation,
    before: Seq<char>,
    after: Seq<char>,
    refused: bool,
) -> bool {
    exists|start: Seq<i32>, g: Generated|
        {
            &&& starts_answer(
                card,
                mode,
                chat,
                request,
                prepared,
                start,
                answer.reasoning_tokens,
                seed,
            )
            &&& #[trigger] answer_from(
                card,
                mode,
                chat,
                request,
                prepared,
                start,
                answer.reasoning_tokens,
                seed,
                g,
                answer,
            )
            &&& g.cancelled ==> refused || stop_found(card, request, g.tokens@)
            &&& steady(card, request.prompt is Chat) ==> exists|told: Seq<char>|
                after == before + told && #[trigger] heard_answer(card, request, g, answer, told)
        }
}

impl<M: DiffusionModel> Engine<M> {
    /// Generates a free-form answer. `listener` receives the answer text in order as it is
    /// decided and may ask to stop. Text that could still become a stop sequence is held back
    /// until it cannot.
    #[verifier::spinoff_prover]
    #[verifier::rlimit(60)]
    pub fn generate<L: Listener>(
        &mut self,
        request: &GenerationRequest,
        seed: u64,
        listener: &mut L,
    ) -> (r: Result<Generation>)
        requires
            old(self).ready(),
        ensures
            final(self).same_setup(*old(self)),
            obeyed(old(listener).answers(), final(listener).answers()),
            !stops_allowed(request@.stop) ==> *final(self) == *old(self),
            ({
                let card = old(self).model.card();
                let prepared = prepare_outcome(card, old(self).chat, old(self).n_ctx, request@);
                &&& prepared matches Err(e) ==> {
                    &&& r matches Err(f) && f@ == e
                    &&& final(listener).heard() == old(listener).heard()
                    &&& final(listener).answers() == old(listener).answers()
                    &&& stops_allowed(request@.stop) ==> final(self).model.work() == no_work()
                }
                &&& r matches Err(e) ==> prepared is Err || answer_fault(
                    card,
                    old(self).chat,
                    request.think > 0,
                    e@,
                )
                &&& r matches Ok(answer) ==> prepared is Ok && answered(
                    card,
                    old(self).mode(),
                    old(self).chat,
                    request@,
                    prepared->Ok_0,
                    seed,
                    answer,
                    old(listener).heard(),
                    final(listener).heard(),
                    refused(old(listener).answers(), final(listener).answers()),
                )
            }),
    {
        let ghost card = self.model.card();
        let ghost mode = self.mode();
        let ghost chat = self.chat;
        let ghost before = listener.heard();
        let ghost said = listener.answers();
        assert(said.take(said.len() as int) =~= said);
        request.validate()?;
        self.model.reset_profile();
        let prepared: Prepared = prepare(&self.model, &self.chat, self.n_ctx, request)?;
        let ghost model = prepared@;
        let prompt_tokens: usize = prepared.prompt.len();
        let mut prompt: Vec<PromptPart> = Vec::new();
        prompt.push(PromptPart::Text(prepared.prompt));
        proof {
            assert(parts_model(prompt@) =~= seq![Part::Text(model.prompt)]);
        }
        let mut start: Vec<i32> = prepared.framing;
        let mut reasoning_tokens: usize = 0;
        if request.think > 0 {
            let thought: Thought = self.think_with(&prompt, request.think, seed)?;
            proof {
                assert(thought_of(
                    card,
                    mode,
                    chat,
                    seq![Part::Text(model.prompt)],
                    request.think,
                    seed,
                    thought,
                ));
            }
            reasoning_tokens = thought.output_tokens;
            start = thought.suffix;
        }
        assert(starts_answer(card, mode, chat, request@, model, start@, reasoning_tokens, seed));
        let stops: Vec<i32> = marker_tokens(&self.model, &self.chat.answer_stops)?;
        let holdback: usize = hold_back(&request.stop);
        let chatting: bool = match &request.prompt {
            GenerationPrompt::Chat(_) => true,
            GenerationPrompt::Text(_) => false,
        };
        let mut sink: AnswerSink = AnswerSink {
            tokens: Vec::new(),
            answer: Answer::new(chatting),
            stops: &request.stop,
            holdback,
            error: None,
            before: Ghost(before),
            answers: Ghost(said),
        };
        let generated: Generated = self.generate_tokens(
            &prompt,
            &start,
            prepared.max_tokens,
            &stops,
            seed,
            &mut sink,
            listener,
        )?;
        let ghost want = texts(request.stop@);
        proof {
            assert(Seq::<i32>::empty() + generated.tokens@ =~= generated.tokens@);
        }
        let AnswerSink { tokens, mut answer, error, .. } = sink;
        if let Some(error) = error {
            return Err(error);
        }
        let ghost was = answer@;
        let ghost trim = request@.prompt is Chat;
        let ghost heard = listener.heard();
        if !answer.stopped && !answer.gone {
            let text: String = self.model.decode(&tokens)?;
            proof {
                if steady(card, trim) {
                    let told = if tokens@.len() == 0 {
                        assert(before + Seq::<char>::empty() =~= before);
                        Seq::<char>::empty()
                    } else {
                        choose|told: Seq<char>|
                            heard == before + told && #[trigger] streamed(
                                was,
                                holdback as nat,
                                told,
                            )
                    };
                    lemma_stream_ends(card, tokens@, trim, want, holdback as nat, was, told);
                    let after = advanced(was, text@, trim, want, holdback as nat, true);
                    assert(before + told + passed_on(was, after) =~= before + (told + passed_on(
                        was,
                        after,
                    )));
                }
            }
            let ghost says = listener.answers();
            answer.advance(text.as_str(), &request.stop, holdback, true, listener);
            proof {
                let now = listener.answers();
                if now.len() > says.len() {
                    assert(now.take(said.len() as int) =~= says.take(said.len() as int));
                    assert forall|i: int| said.len() <= i < now.len() - 1 implies #[trigger] now[i] by {
                        assert(now[i] == now.drop_last()[i]);
                    }
                }
            }
        }
        let finish: FinishReason = if generated.stopped || answer.stopped {
            FinishReason::Stop
        } else {
            FinishReason::Length
        };
        let spent_tokens: usize = generated.tokens.len().saturating_add(
            if generated.stopped { 1 } else { 0 },
        );
        let result: Generation = Generation {
            text: answer.text,
            prompt_tokens: prompt_tokens.saturating_add(start.len()),
            completion_tokens: reasoning_tokens.saturating_add(spent_tokens),
            reasoning_tokens,
            finish,
        };
        proof {
            let raw = (card.decode)(generated.tokens@);
            let text = trimmed(raw->Ok_0, trim);
            assert(raw is Ok);
            assert(result.text@ == before_cut(text, request@.stop));
            assert(answer_from(
                card,
                mode,
                chat,
                request@,
                model,
                start@,
                reasoning_tokens,
                seed,
                generated,
                result,
            ));
            if steady(card, trim) {
                lemma_cut(text, want, 0);
                if was.stopped || was.gone {
                    let told = choose|told: Seq<char>|
                        heard == before + told && #[trigger] streamed(was, holdback as nat, told);
                    lemma_fitting(was.text, was.emitted);
                    if was.stopped {
                        assert(was.text.take(was.text.len() as int) =~= was.text);
                        assert(size(was.text.take(was.text.len() as int)) <= was.emitted);
                    }
                    assert(is_holdback(want, holdback as nat));
                    assert(heard_answer(card, request@, generated, result, told));
                } else {
                    assert(heard_answer(card, request@, generated, result, result.text@));
                }
            }
        }
        Ok(result)
    }
}

/// An answer holds no stop sequence, and a listener that never refuses hears exactly the answer.
pub proof fn law_answers_hold_no_stop_sequence(
    card: Card,
    mode: Mode,
    chat: ChatFormat,
    request: RequestModel,
    prepared: PreparedModel,
    seed: u64,
    answer: Generation,
    before: Seq<char>,
    after: Seq<char>,
    refused: bool,
)
    requires
        stops_allowed(request.stop),
        answered(card, mode, chat, request, prepared, seed, answer, before, after, refused),
    ensures
        forall|k: int, p: int|
            0 <= k < request.stop.len() && 0 <= p ==> !#[trigger] occurs(
                answer.text@,
                request.stop[k],
                p,
            ),
        steady(card, request.prompt is Chat) && !refused ==> after == before + answer.text@,
{
    let (start, g) = choose|start: Seq<i32>, g: Generated|
        #[trigger] answer_from(
            card,
            mode,
            chat,
            request,
            prepared,
            start,
            answer.reasoning_tokens,
            seed,
            g,
            answer,
        ) && (g.cancelled ==> refused || stop_found(card, request, g.tokens@)) && (steady(
            card,
            request.prompt is Chat,
        ) ==> exists|told: Seq<char>|
            after == before + told && #[trigger] heard_answer(card, request, g, answer, told));
    let text = trimmed((card.decode)(g.tokens@)->Ok_0, request.prompt is Chat);
    lemma_cut(text, request.stop, 0);
    assert forall|k: int, p: int| 0 <= k < request.stop.len() && 0 <= p implies !#[trigger] occurs(
        answer.text@,
        request.stop[k],
        p,
    ) by {
        if occurs(answer.text@, request.stop[k], p) {
            let stop = request.stop[k];
            assert(text.subrange(p, p + stop.len()) =~= answer.text@.subrange(p, p + stop.len()));
            assert(occurs(text, stop, p));
            assert(stops_at(text, request.stop, p));
        }
    }
}

/// The same prompt, limits and seed give the same text at the same cost, however it is decoded, unless
/// the client went away.
pub proof fn law_the_same_request_gets_the_same_text(
    card: Card,
    mode: Mode,
    parts: Seq<Part>,
    start: Seq<i32>,
    budget: usize,
    stops: Seq<i32>,
    seed: u64,
    a: Generated,
    b: Generated,
)
    requires
        made(card, mode, parts, start, budget, stops, seed, a),
        made(card, mode, parts, start, budget, stops, seed, b),
        !a.cancelled,
        !b.cancelled,
    ensures
        a.tokens@ == b.tokens@,
        a.stopped == b.stopped,
        a.accepted@ == b.accepted@,
        a.input_tokens == b.input_tokens,
        a.forwards == b.forwards,
{
    match mode.scheme {
        DiffusionScheme::UniformSelfConditioned { .. } => {
            let terms = NoiseTerms {
                stops,
                seed,
                capacity: canvas_size(mode.max_canvas as nat, mode.batch_size as nat),
                budget: budget as nat,
            };
            law_seeds_decide_the_text(card, parts, start, terms, a, b);
        },
        DiffusionScheme::Masked { mask, block, threshold, max_steps } => match mode.decoding {
            Decoding::Diffusion => {
                let blocks = Blocks {
                    block: block as nat,
                    threshold,
                    max_steps: max_steps as nat,
                    max_canvas: mode.max_canvas as nat,
                    batch_size: mode.batch_size as nat,
                    mask,
                    budget: budget as nat,
                };
                let m = choose|n: nat|
                    is_run(a, #[trigger] run_of(card, parts, start, stops, blocks, n));
                let n = choose|n: nat|
                    is_run(b, #[trigger] run_of(card, parts, start, stops, blocks, n));
                if m <= n {
                    lemma_run_ends(card, parts, start, stops, blocks, m, n);
                } else {
                    lemma_run_ends(card, parts, start, stops, blocks, n, m);
                }
            },
            _ => {
                law_speculation_equals_autoregression(
                    card,
                    parts,
                    start,
                    stops,
                    budget as nat,
                    a.tokens@,
                    a.stopped,
                    b.tokens@,
                    b.stopped,
                );
                lemma_counts_agree(
                    card,
                    parts,
                    start,
                    block_capacity(
                        if mode.decoding is SelfSpeculation {
                            block as nat
                        } else {
                            1
                        },
                        mode.max_canvas as nat,
                        mode.batch_size as nat,
                    ),
                    budget as nat,
                    mask,
                    a,
                    b,
                );
            },
        },
    }
}

} // verus!
