//! What the engine asks of a model.
use crate::double::ONE;
use crate::engine::config::{parts_model, total_size, Part, PromptPart};
use crate::engine::noise::Dice;
use crate::error::{ErrorModel, Result};
use vstd::prelude::*;

verus! {

/// How a model frames turns, thoughts and answers.
#[derive(Clone, Debug)]
pub struct ChatFormat {
    /// Prompts start with the beginning-of-sequence token.
    pub bos: bool,
    pub system_open: String,
    pub user_open: String,
    pub assistant_open: String,
    /// Closes a turn of a conversation.
    pub turn_close: String,
    /// Stands before the text of earlier answers.
    pub history_prefix: String,
    /// Closes the user turn and opens the model's.
    pub model_open: String,
    pub thought_open: String,
    pub thought_close: String,
    /// An opened and closed thought without text.
    pub empty_thought: String,
    /// Single-token markers that end a thought.
    pub thought_stops: Vec<String>,
    /// Single-token markers that end an answer.
    pub answer_stops: Vec<String>,
    /// Words carry the space before them.
    pub space_joins_answers: bool,
}

/// Architecture, description and limits of a loaded model.
#[derive(Clone, Debug)]
pub struct ModelInfo {
    pub architecture: &'static str,
    pub display_name: String,
    pub n_vocab: i32,
    /// Maximum prompt and canvas positions.
    pub n_ctx: usize,
    /// Maximum tokens evaluated in one forward.
    pub batch_size: usize,
    /// Maximum canvas tokens.
    pub max_canvas: usize,
}

/// How a model denoises a canvas.
#[derive(Clone, Copy, Debug, PartialEq, Eq, Structural)]
pub enum DiffusionScheme {
    /// Uniform noise, refined with the previous step's logits.
    UniformSelfConditioned { mask: i32 },
    /// Masks, unmasked by confidence: whole blocks of `block` tokens, positions at or above
    /// `threshold` (the bits of a double) together, at most `max_steps` steps.
    Masked { mask: i32, block: usize, threshold: u64, max_steps: usize },
}

impl DiffusionScheme {
    /// The token excluded from answer codes and noise.
    pub open spec fn mask_token(self) -> i32 {
        match self {
            DiffusionScheme::UniformSelfConditioned { mask } => mask,
            DiffusionScheme::Masked { mask, .. } => mask,
        }
    }

    pub fn mask(self) -> (r: i32)
        ensures
            r == self.mask_token(),
    {
        match self {
            DiffusionScheme::UniformSelfConditioned { mask } => mask,
            DiffusionScheme::Masked { mask, .. } => mask,
        }
    }
}

/// An image of a request, as its file's bytes.
#[derive(Clone, Debug)]
pub struct ImageInput {
    pub bytes: Vec<u8>,
}

/// The files of images.
pub open spec fn image_files(images: Seq<ImageInput>) -> Seq<Seq<u8>> {
    Seq::new(images.len(), |i: int| images[i].bytes@)
}

/// Prefill work since the profile was last reset.
#[derive(Clone, Copy, Debug, PartialEq, Eq, Structural)]
pub struct PrefillProfile {
    pub calls: usize,
    pub batches: usize,
    pub processed_tokens: usize,
    pub reused_tokens: usize,
}

/// No prefill work.
pub open spec fn no_work() -> PrefillProfile {
    PrefillProfile { calls: 0, batches: 0, processed_tokens: 0, reused_tokens: 0 }
}

impl Default for PrefillProfile {
    fn default() -> (r: Self)
        ensures
            r == (PrefillProfile {
                calls: 0,
                batches: 0,
                processed_tokens: 0,
                reused_tokens: 0,
            }),
    {
        PrefillProfile { calls: 0, batches: 0, processed_tokens: 0, reused_tokens: 0 }
    }
}

/// The logits and probabilities of a slot's candidates, as the bits of doubles. Probabilities
/// are nonnegative, so their bits are ordered as they are.
#[derive(Clone, Debug, PartialEq, Eq)]
pub struct Scores {
    pub logits: Vec<u64>,
    pub probabilities: Vec<u64>,
}

/// The mathematical model of [`Scores`].
#[verifier::ext_equal]
pub struct ScoresModel {
    pub logits: Seq<u64>,
    pub probabilities: Seq<u64>,
}

impl View for Scores {
    type V = ScoresModel;

    open spec fn view(&self) -> ScoresModel {
        ScoresModel { logits: self.logits@, probabilities: self.probabilities@ }
    }
}

/// What one refinement of a canvas predicts.
#[derive(Clone, Debug, PartialEq, Eq)]
pub struct Refined {
    /// The best token of each position.
    pub best: Vec<i32>,
    /// Whether the mean entropy of the predictions is below the bound.
    pub certain: bool,
}

/// The prompt that a model holds: its parts and the tokens after them.
#[verifier::ext_equal]
pub struct Resident {
    pub parts: Seq<Part>,
    pub suffix: Seq<i32>,
}

impl Resident {
    /// Its positions.
    pub open spec fn size(self) -> nat {
        total_size(self.parts) + self.suffix.len()
    }
}

/// A proposed token and its probability, as the bits of a nonnegative double.
pub type Proposal = (i32, u64);

/// The logits of a forward, and how they are fed back, as an abstract value.
pub type Mind = int;

/// The mathematical model of a refinement: the canvas and the predictions after it, and what the
/// model keeps of it.
#[verifier::ext_equal]
pub struct Refinement {
    pub canvas: Seq<i32>,
    pub best: Seq<i32>,
    pub certain: bool,
    pub mind: Mind,
    pub dice: Dice,
}

/// What a model computes, as functions: they stay the same while it is used.
pub struct Card {
    /// Text to tokens, with or without a beginning token and parsed markers.
    pub tokenize: spec_fn(Seq<char>, bool, bool) -> core::result::Result<Seq<i32>, ErrorModel>,
    /// Tokens to text.
    pub decode: spec_fn(Seq<i32>) -> core::result::Result<Seq<char>, ErrorModel>,
    /// The text of a token that can serve as an answer code.
    pub piece: spec_fn(i32) -> Option<Seq<char>>,
    /// Which prompt parts may stand for images, given by their files, and which errors they may
    /// give.
    pub picture: spec_fn(Seq<Seq<u8>>, core::result::Result<Seq<Part>, ErrorModel>) -> bool,
    /// The errors that a forward may give.
    pub fails: spec_fn(ErrorModel) -> bool,
    /// The greedy next token after a prompt.
    pub next: spec_fn(Resident) -> i32,
    /// The best token at each position of a canvas after a prompt, with its probability.
    pub propose: spec_fn(Resident, Seq<i32>) -> Seq<Proposal>,
    /// The scores of candidate tokens at a position of a canvas after a prompt.
    pub score: spec_fn(Resident, Seq<i32>, int, Seq<i32>) -> ScoresModel,
    /// The logits of a canvas after a prompt, conditioned on those of the step before or not.
    pub believe: spec_fn(Resident, Seq<i32>, Option<Mind>) -> Mind,
    /// The scores of candidate tokens at a position, from logits.
    pub read: spec_fn(Mind, int, Seq<i32>) -> ScoresModel,
    /// A random token, and the random numbers after it.
    pub roll: spec_fn(Dice) -> (i32, Dice),
    /// The refinement of the tokens at positions of a canvas, as a step of so many.
    pub refine: spec_fn(Mind, Dice, Seq<i32>, Seq<usize>, nat, nat) -> Refinement,
}

/// The model of what tokenizing returned.
pub open spec fn tokens_outcome(r: Result<Vec<i32>>) -> core::result::Result<Seq<i32>, ErrorModel> {
    match r {
        Ok(tokens) => Ok(tokens@),
        Err(e) => Err(e@),
    }
}

/// The model of what decoding returned.
pub open spec fn text_outcome(r: Result<String>) -> core::result::Result<Seq<char>, ErrorModel> {
    match r {
        Ok(text) => Ok(text@),
        Err(e) => Err(e@),
    }
}

/// The model of what encoding images returned.
pub open spec fn picture_outcome(r: Result<Vec<PromptPart>>) -> core::result::Result<
    Seq<Part>,
    ErrorModel,
> {
    match r {
        Ok(parts) => Ok(parts_model(parts@)),
        Err(e) => Err(e@),
    }
}

/// A diffusion language model: it tokenizes, holds a prompt, and scores canvases after it.
///
/// An implementation computes the functions of its card: what a call that succeeds returns
/// depends on the resident prompt and the canvas alone. A call may fail at any time, with one of the
/// errors of the card; a forward that may predict too few tokens may fail with invalid logits.
pub trait DiffusionModel {
    /// What the model computes.
    open spec fn card(&self) -> Card {
        arbitrary()
    }

    /// The prompt it holds.
    open spec fn resident(&self) -> Resident {
        arbitrary()
    }

    /// The canvas of the last forward.
    open spec fn canvas(&self) -> Seq<i32> {
        arbitrary()
    }

    /// The last forward did not feed back logits.
    open spec fn unconditioned(&self) -> bool {
        arbitrary()
    }

    /// The logits of the last forward.
    open spec fn mind(&self) -> Mind {
        arbitrary()
    }

    /// Its description and limits.
    open spec fn about(&self) -> ModelInfo {
        arbitrary()
    }

    /// How it frames a conversation.
    open spec fn framing(&self) -> ChatFormat {
        arbitrary()
    }

    /// How it denoises.
    open spec fn denoising(&self) -> DiffusionScheme {
        arbitrary()
    }

    /// The prefill work counted so far.
    open spec fn work(&self) -> PrefillProfile {
        arbitrary()
    }

    fn info(&self) -> (r: &ModelInfo)
        ensures
            *r == self.about(),
    ;

    fn chat(&self) -> (r: ChatFormat)
        ensures
            r == self.framing(),
    ;

    fn scheme(&self) -> (r: DiffusionScheme)
        ensures
            r == self.denoising(),
    ;

    fn tokenize(&self, text: &str, bos: bool, special: bool) -> (r: Result<Vec<i32>>)
        ensures
            tokens_outcome(r) == (self.card().tokenize)(text@, bos, special),
    ;

    fn decode(&self, tokens: &Vec<i32>) -> (r: Result<String>)
        ensures
            text_outcome(r) == (self.card().decode)(tokens@),
    ;

    /// Decoded text of a non-control token if it is 1..=16 ASCII alphanumerics.
    fn code_piece(&self, token: i32) -> (r: Option<String>)
        ensures
            r matches Some(s) ==> (self.card().piece)(token) == Some(s@),
            r is None ==> (self.card().piece)(token) is None,
    ;

    /// Encodes images and returns their prompt parts, delimiters included: none for no images. The
    /// parts stay valid until the next call.
    fn encode_images(&mut self, images: &Vec<ImageInput>) -> (r: Result<Vec<PromptPart>>)
        ensures
            final(self).card() == old(self).card(),
            final(self).work() == old(self).work(),
            (old(self).card().picture)(image_files(images@), picture_outcome(r)),
            images@.len() == 0 ==> (r matches Ok(parts) && parts@.len() == 0),
    ;

    /// Makes `parts + suffix` the resident prompt; returns its length.
    fn prefill(&mut self, parts: &Vec<PromptPart>, suffix: &Vec<i32>) -> (r: Result<usize>)
        ensures
            final(self).card() == old(self).card(),
            r matches Err(e) ==> (old(self).card().fails)(e@),
            r matches Ok(n) ==> {
                let resident = Resident { parts: parts_model(parts@), suffix: suffix@ };
                &&& final(self).resident() == resident
                &&& n == resident.size()
            },
    ;

    /// [`DiffusionModel::prefill`] that also returns the greedy next tokens after each of the
    /// last `rows` positions.
    fn prefill_predict(&mut self, parts: &Vec<PromptPart>, suffix: &Vec<i32>, rows: usize) -> (r:
        Result<(usize, Vec<i32>)>)
        ensures
            final(self).card() == old(self).card(),
            r matches Err(e) ==> (old(self).card().fails)(e@),
            r matches Ok((n, predicted)) ==> {
                let resident = Resident { parts: parts_model(parts@), suffix: suffix@ };
                &&& final(self).resident() == resident
                &&& n == resident.size()
                &&& predicted@.len() <= rows
                &&& predicted@.len() < rows ==> (old(self).card().fails)(ErrorModel::InvalidLogits)
                &&& predicted@.len() == rows && rows <= suffix@.len() + 1 ==> forall|k: int|
                    0 <= k < rows ==> #[trigger] predicted@[k] == (old(self).card().next)(
                        Resident {
                            parts: parts_model(parts@),
                            suffix: suffix@.take(suffix@.len() + 1 - rows + k),
                        },
                    )
            },
    ;

    /// Canvas forward over the resident prompt of `prompt_length` positions. `conditioned` feeds
    /// back the prior step's logits; when `full` is false only candidate scores are used.
    fn forward_canvas(
        &mut self,
        tokens: &Vec<i32>,
        prompt_length: usize,
        conditioned: bool,
        full: bool,
    ) -> (r: Result<()>)
        ensures
            final(self).card() == old(self).card(),
            r matches Err(e) ==> (old(self).card().fails)(e@),
            final(self).resident() == old(self).resident(),
            r is Ok ==> final(self).canvas() == tokens@ && final(self).unconditioned()
                == !conditioned,
            r is Ok ==> final(self).mind() == (old(self).card().believe)(
                old(self).resident(),
                tokens@,
                if conditioned {
                    Some(old(self).mind())
                } else {
                    None
                },
            ),
    ;

    /// Scores of `candidates` at position `row` of the last canvas: a probability from 0 to 1 for
    /// each. They depend on the logits of the last forward, and on the prompt and the canvas alone
    /// where it was not conditioned.
    fn candidate_scores(&mut self, row: usize, candidates: &Vec<i32>) -> (r: Result<Scores>)
        ensures
            final(self).card() == old(self).card(),
            r matches Err(e) ==> (old(self).card().fails)(e@),
            final(self).resident() == old(self).resident(),
            final(self).canvas() == old(self).canvas(),
            final(self).unconditioned() == old(self).unconditioned(),
            final(self).mind() == old(self).mind(),
            r matches Ok(scores) ==> scores@ == (old(self).card().read)(
                old(self).mind(),
                row as int,
                candidates@,
            ),
            r matches Ok(scores) ==> scores.probabilities@.len() == candidates@.len() && forall|
                j: int,
            |
                0 <= j < scores.probabilities@.len() ==> #[trigger] scores.probabilities@[j] <= ONE,
            r matches Ok(scores) ==> old(self).unconditioned() ==> scores@ == (old(self).card().score)(
                old(self).resident(),
                old(self).canvas(),
                row as int,
                candidates@,
            ),
    ;

    /// The best token at each position of the last canvas, which was not conditioned.
    fn greedy_proposals(&mut self) -> (r: Result<Vec<Proposal>>)
        ensures
            final(self).card() == old(self).card(),
            r matches Err(e) ==> (old(self).card().fails)(e@),
            final(self).resident() == old(self).resident(),
            final(self).canvas() == old(self).canvas(),
            r matches Ok(proposals) ==> old(self).unconditioned() ==> proposals@ == (old(self).card().propose)(
                old(self).resident(),
                old(self).canvas(),
            ),
            r matches Ok(proposals) ==> proposals@.len() != old(self).canvas().len() ==> (
            old(self).card().fails)(ErrorModel::InvalidLogits),
    ;

    /// A random token of the vocabulary other than the mask.
    fn noise(&mut self, dice: &mut Dice) -> (r: i32)
        ensures
            final(self).card() == old(self).card(),
            final(self).resident() == old(self).resident(),
            (r, *final(dice)) == (old(self).card().roll)(*old(dice)),
    ;

    /// Denoises the tokens at `positions` from the last forward's logits, as step `step` of
    /// `steps`.
    fn refine(
        &mut self,
        canvas: &mut Vec<i32>,
        positions: &Vec<usize>,
        step: usize,
        steps: usize,
        dice: &mut Dice,
    ) -> (r: Result<Refined>)
        ensures
            final(self).card() == old(self).card(),
            r matches Err(e) ==> (old(self).card().fails)(e@),
            final(self).resident() == old(self).resident(),
            final(canvas)@.len() == old(canvas)@.len(),
            forall|i: int|
                0 <= i < old(canvas)@.len() && !exists|k: int|
                    0 <= k < positions@.len() && positions@[k] == i ==> #[trigger] final(canvas)@[i]
                    == old(canvas)@[i],
            r matches Ok(refined) ==> {
                &&& refined.best@.len() == positions@.len()
                &&& (Refinement {
                    canvas: final(canvas)@,
                    best: refined.best@,
                    certain: refined.certain,
                    mind: final(self).mind(),
                    dice: *final(dice),
                }) == (old(self).card().refine)(
                    old(self).mind(),
                    *old(dice),
                    old(canvas)@,
                    positions@,
                    step as nat,
                    steps as nat,
                )
            },
    ;

    fn reset_profile(&mut self)
        ensures
            final(self).card() == old(self).card(),
            final(self).work() == no_work(),
    ;

    fn profile(&self) -> (r: PrefillProfile)
        ensures
            r == self.work(),
    ;
}

/// Receives the answer text in order as it is decided.
pub trait Listener {
    /// The text received so far.
    open spec fn heard(&self) -> Seq<char> {
        arbitrary()
    }

    /// What it answered to each piece so far.
    open spec fn answers(&self) -> Seq<bool> {
        arbitrary()
    }

    /// Takes the next piece of the answer; false to stop, for example when the client has gone.
    fn on_text(&mut self, text: &str) -> (r: bool)
        ensures
            final(self).heard() == old(self).heard() + text@,
            final(self).answers() == old(self).answers().push(r),
    ;
}

/// Since `before`, the last answer was to stop.
pub open spec fn refused(before: Seq<bool>, after: Seq<bool>) -> bool {
    after.len() > before.len() && !after.last()
}

/// Since `before`, every answer but the last was to go on: an answer to stop is obeyed.
pub open spec fn obeyed(before: Seq<bool>, after: Seq<bool>) -> bool {
    &&& before.len() <= after.len()
    &&& after.take(before.len() as int) == before
    &&& forall|i: int| before.len() <= i < after.len() - 1 ==> #[trigger] after[i]
}

/// How a sink turns tokens into text; this stays the same while it is used.
#[verifier::ext_equal]
pub struct Terms {
    /// The newlines that the text starts with are dropped.
    pub trim: bool,
    pub stops: Seq<Seq<char>>,
    /// The bytes held back.
    pub holdback: nat,
    /// What the listener had heard before.
    pub before: Seq<char>,
    /// What it had answered before.
    pub answers: Seq<bool>,
}

/// Receives each newly decided run of generated tokens.
pub trait Sink<M: DiffusionModel, L: Listener> {
    /// The tokens received so far.
    open spec fn received(&self) -> Seq<i32> {
        arbitrary()
    }

    /// It takes everything.
    open spec fn patient(&self) -> bool {
        arbitrary()
    }

    /// It has asked generation to end.
    open spec fn ended(&self) -> bool {
        arbitrary()
    }

    /// How it turns tokens into text.
    open spec fn terms(&self) -> Terms {
        arbitrary()
    }

    /// What it keeps agrees with the tokens received and with what the listener heard.
    open spec fn sound(&self, card: Card, heard: Seq<char>, answers: Seq<bool>) -> bool {
        arbitrary()
    }

    /// Takes newly decided tokens; false to end generation.
    fn accept(&mut self, model: &M, tokens: &[i32], ear: &mut L) -> (r: bool)
        requires
            old(self).sound(model.card(), old(ear).heard(), old(ear).answers()),
            !old(self).ended(),
            tokens@.len() > 0,
        ensures
            final(self).sound(model.card(), final(ear).heard(), final(ear).answers()),
            final(self).ended() == !r,
            final(self).terms() == old(self).terms(),
            final(self).received() == old(self).received() + tokens@,
            final(self).patient() == old(self).patient(),
            old(self).patient() ==> r,
    ;
}

} // verus!
