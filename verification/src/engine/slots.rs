//! Read requests and their preparation: candidates as single tokens, slots packed into canvases.
use crate::arith::div_ceil;
use crate::engine::framing::{literal, piece_tokens, Tokens};
use crate::engine::generated::holds;
use crate::engine::model::{tokens_outcome, Card, ChatFormat, DiffusionModel, DiffusionScheme};
use crate::error::{Error, ErrorModel, Result};
use crate::sequences::{lemma_try_map_fails, lemma_try_map_step, texts, try_map};
use crate::text::{characters, quoted, quoted_text, string_of, trim, trim_text};
use vstd::prelude::*;
use vstd::string::*;

verus! {

/// An answer slot: the text before it, and the answers it chooses among.
#[derive(Clone, Debug, PartialEq, Eq)]
pub struct Slot {
    pub prefix: String,
    pub candidates: Vec<String>,
}

/// A structured read: a prompt and the slots to answer after it.
#[derive(Clone, Debug, PartialEq, Eq)]
pub struct ReadRequest {
    pub prompt: String,
    pub slots: Vec<Slot>,
}

/// How slots are read.
#[derive(Clone, Copy, Debug, PartialEq, Eq, Structural)]
pub struct ReadOptions {
    /// Most tokens of a thought before the answers; zero for none.
    pub think: usize,
    /// Later slots see the answers of earlier ones.
    pub sequential: bool,
    /// Reads to average.
    pub samples: u32,
    /// Denoising steps of a read.
    pub steps: usize,
}

impl Default for ReadOptions {
    fn default() -> (r: Self)
        ensures
            r == (ReadOptions { think: 0, sequential: false, samples: 1, steps: 1 }),
    {
        ReadOptions { think: 0, sequential: false, samples: 1, steps: 1 }
    }
}

impl ReadOptions {
    /// A read takes at least one sample of at least one step.
    pub fn validate(&self) -> (r: Result<()>)
        ensures
            r is Ok <==> self.samples > 0 && self.steps > 0,
            r matches Err(e) ==> e@ == ErrorModel::InvalidInput(
                "samples and steps must be at least 1"@,
            ),
    {
        if self.samples == 0 || self.steps == 0 {
            return Err(Error::input("samples and steps must be at least 1"));
        }
        Ok(())
    }
}

// ---------------------------------------------------------------------------------------------
// Checks
// ---------------------------------------------------------------------------------------------

/// Why a read cannot be run, whatever the model.
pub open spec fn read_fault(
    prompt: Seq<char>,
    slots: nat,
    options: ReadOptions,
    images: nat,
) -> Option<ErrorModel> {
    if options.samples == 0 || options.steps == 0 {
        Some(ErrorModel::InvalidInput("samples and steps must be at least 1"@))
    } else if trim(prompt).len() == 0 || slots == 0 {
        Some(ErrorModel::InvalidInput("A prompt and at least one slot are required"@))
    } else if images > 0 && (options.think > 0 || options.sequential) {
        Some(ErrorModel::InvalidInput("Images cannot be combined with think or sequential"@))
    } else {
        None
    }
}

pub fn check_read(request: &ReadRequest, options: &ReadOptions, images: usize) -> (r: Result<()>)
    ensures
        r is Ok ==> read_fault(request.prompt@, request.slots@.len(), *options, images as nat)
            is None,
        r matches Err(e) ==> read_fault(
            request.prompt@,
            request.slots@.len(),
            *options,
            images as nat,
        ) == Some(e@),
{
    options.validate()?;
    let prompt: String = trim_text(request.prompt.as_str());
    if prompt.as_str().is_empty() || request.slots.len() == 0 {
        return Err(Error::input("A prompt and at least one slot are required"));
    }
    if images > 0 && (options.think > 0 || options.sequential) {
        return Err(Error::input("Images cannot be combined with think or sequential"));
    }
    Ok(())
}

// ---------------------------------------------------------------------------------------------
// Candidates and prefixes
// ---------------------------------------------------------------------------------------------

/// Candidate text as it is tokenized in an answer slot: with a space before it where spaces
/// join words.
pub open spec fn answer_form(chat: ChatFormat, candidate: Seq<char>) -> Seq<char> {
    if chat.space_joins_answers {
        seq![' '] + candidate
    } else {
        candidate
    }
}

/// Slot prefix as it is tokenized; a trailing space moves onto the candidates when spaces join
/// words.
pub open spec fn prefix_form(chat: ChatFormat, prefix: Seq<char>) -> Seq<char> {
    if chat.space_joins_answers && prefix.len() > 0 && prefix.last() == ' ' {
        prefix.drop_last()
    } else {
        prefix
    }
}

pub fn answer_text(chat: &ChatFormat, candidate: &str) -> (r: String)
    ensures
        r@ == answer_form(*chat, candidate@),
{
    if chat.space_joins_answers {
        proof {
            reveal_strlit(" ");
            assert(" "@ =~= seq![' ']);
        }
        " ".to_owned().concat(candidate)
    } else {
        candidate.to_owned()
    }
}

pub fn prefix_text(chat: &ChatFormat, prefix: &str) -> (r: String)
    ensures
        r@ == prefix_form(*chat, prefix@),
{
    let chars: Vec<char> = characters(prefix);
    let n: usize = chars.len();
    if chat.space_joins_answers && n > 0 && chars[n - 1] == ' ' {
        assert(chars@.subrange(0, n - 1) =~= prefix@.drop_last());
        return string_of(&chars, 0, n - 1);
    }
    prefix.to_owned()
}

/// A candidate that is not one token of its own.
pub open spec fn candidate_error(candidate: Seq<char>) -> ErrorModel {
    ErrorModel::InvalidInput(
        "Candidate "@ + quoted_text(candidate) + " must encode to one distinct token"@,
    )
}

/// The tokens of candidates, one for each, all different.
pub open spec fn candidates_outcome(
    card: Card,
    chat: ChatFormat,
    candidates: Seq<Seq<char>>,
) -> Tokens
    decreases candidates.len(),
{
    if candidates.len() == 0 {
        Ok(Seq::empty())
    } else {
        match candidates_outcome(card, chat, candidates.drop_last()) {
            Err(e) => Err(e),
            Ok(before) => match piece_tokens(
                card,
                literal(answer_form(chat, candidates.last())),
            ) {
                Err(e) => Err(e),
                Ok(tokens) => if tokens.len() != 1 || before.contains(tokens[0]) {
                    Err(candidate_error(candidates.last()))
                } else {
                    Ok(before.push(tokens[0]))
                },
            },
        }
    }
}

proof fn lemma_candidates_fail(
    card: Card,
    chat: ChatFormat,
    candidates: Seq<Seq<char>>,
    i: int,
)
    requires
        0 <= i <= candidates.len(),
        candidates_outcome(card, chat, candidates.take(i)) is Err,
    ensures
        candidates_outcome(card, chat, candidates) == candidates_outcome(
            card,
            chat,
            candidates.take(i),
        ),
    decreases candidates.len() - i,
{
    if i < candidates.len() {
        assert(candidates.take(i + 1).drop_last() =~= candidates.take(i));
        lemma_candidates_fail(card, chat, candidates, i + 1);
    } else {
        assert(candidates.take(i) =~= candidates);
    }
}

/// A slot in tokens.
#[derive(Debug)]
pub struct PreparedSlot {
    pub prefix: Vec<i32>,
    pub candidates: Vec<i32>,
}

/// The mathematical model of a [`PreparedSlot`].
#[verifier::ext_equal]
pub struct SlotTokens {
    pub prefix: Seq<i32>,
    pub candidates: Seq<i32>,
}

impl View for PreparedSlot {
    type V = SlotTokens;

    open spec fn view(&self) -> SlotTokens {
        SlotTokens { prefix: self.prefix@, candidates: self.candidates@ }
    }
}

/// The models of prepared slots.
pub open spec fn slots_model(slots: Seq<PreparedSlot>) -> Seq<SlotTokens> {
    Seq::new(slots.len(), |i: int| slots[i]@)
}

/// A slot as text.
#[verifier::ext_equal]
pub struct SlotText {
    pub prefix: Seq<char>,
    pub candidates: Seq<Seq<char>>,
}

/// The texts of slots.
pub open spec fn slot_texts(slots: Seq<Slot>) -> Seq<SlotText> {
    Seq::new(
        slots.len(),
        |i: int| SlotText { prefix: slots[i].prefix@, candidates: texts(slots[i].candidates@) },
    )
}

/// A slot in tokens, or why it cannot be read.
pub open spec fn slot_outcome(card: Card, chat: ChatFormat, slot: SlotText) -> core::result::Result<
    SlotTokens,
    ErrorModel,
> {
    if slot.candidates.len() == 0 {
        Err(ErrorModel::InvalidInput("Each slot needs a candidate"@))
    } else {
        match candidates_outcome(card, chat, slot.candidates) {
            Err(e) => Err(e),
            Ok(candidates) => match piece_tokens(
                card,
                literal(prefix_form(chat, slot.prefix)),
            ) {
                Err(e) => Err(e),
                Ok(prefix) => Ok(SlotTokens { prefix, candidates }),
            },
        }
    }
}

/// The reader of slots.
pub open spec fn slot_reader(card: Card, chat: ChatFormat) -> spec_fn(
    SlotText,
) -> core::result::Result<SlotTokens, ErrorModel> {
    |slot: SlotText| slot_outcome(card, chat, slot)
}

/// All slots in tokens, or why the first bad one cannot be read.
pub open spec fn slots_outcome(
    card: Card,
    chat: ChatFormat,
    slots: Seq<SlotText>,
) -> core::result::Result<Seq<SlotTokens>, ErrorModel> {
    try_map(slots, slot_reader(card, chat))
}

fn prepare_candidates<M: DiffusionModel>(model: &M, chat: &ChatFormat, candidates: &Vec<String>) -> (r:
    Result<Vec<i32>>)
    ensures
        tokens_outcome(r) == candidates_outcome(model.card(), *chat, texts(candidates@)),
{
    let ghost card = model.card();
    let ghost all = texts(candidates@);
    let mut tokens: Vec<i32> = Vec::new();
    let mut i: usize = 0;
    assert(all.take(0) =~= Seq::<Seq<char>>::empty());
    while i < candidates.len()
        invariant
            i <= candidates@.len(),
            card == model.card(),
            all == texts(candidates@),
            candidates_outcome(card, *chat, all.take(i as int)) == Ok::<Seq<i32>, ErrorModel>(
                tokens@,
            ),
        decreases candidates@.len() - i,
    {
        proof {
            assert(all.take(i + 1).drop_last() =~= all.take(i as int));
            assert(all.take(i + 1).last() == candidates@[i as int]@);
        }
        let text: String = answer_text(chat, candidates[i].as_str());
        match model.tokenize(text.as_str(), false, false) {
            Ok(found) => {
                if found.len() != 1 || holds(&tokens, found[0]) {
                    proof {
                        lemma_candidates_fail(card, *chat, all, i + 1);
                    }
                    let shown: String = quoted(candidates[i].as_str());
                    return Err(
                        Error::InvalidInput(
                            "Candidate ".to_owned().concat(shown.as_str()).concat(
                                " must encode to one distinct token",
                            ),
                        ),
                    );
                }
                tokens.push(found[0]);
            },
            Err(e) => {
                proof {
                    lemma_candidates_fail(card, *chat, all, i + 1);
                }
                return Err(e);
            },
        }
        i += 1;
    }
    assert(all.take(i as int) =~= all);
    Ok(tokens)
}

fn prepare_slot<M: DiffusionModel>(model: &M, chat: &ChatFormat, slot: &Slot) -> (r: Result<
    PreparedSlot,
>)
    ensures
        r matches Ok(p) ==> slot_outcome(
            model.card(),
            *chat,
            SlotText { prefix: slot.prefix@, candidates: texts(slot.candidates@) },
        ) == Ok::<SlotTokens, ErrorModel>(p@),
        r matches Err(e) ==> slot_outcome(
            model.card(),
            *chat,
            SlotText { prefix: slot.prefix@, candidates: texts(slot.candidates@) },
        ) == Err::<SlotTokens, ErrorModel>(e@),
{
    if slot.candidates.len() == 0 {
        return Err(Error::input("Each slot needs a candidate"));
    }
    let candidates: Vec<i32> = prepare_candidates(model, chat, &slot.candidates)?;
    let text: String = prefix_text(chat, slot.prefix.as_str());
    let prefix: Vec<i32> = model.tokenize(text.as_str(), false, false)?;
    Ok(PreparedSlot { prefix, candidates })
}

/// All slots in tokens.
pub fn prepare_slots<M: DiffusionModel>(model: &M, chat: &ChatFormat, slots: &Vec<Slot>) -> (r:
    Result<Vec<PreparedSlot>>)
    ensures
        r matches Ok(p) ==> slots_outcome(model.card(), *chat, slot_texts(slots@)) == Ok::<
            Seq<SlotTokens>,
            ErrorModel,
        >(slots_model(p@)),
        r matches Err(e) ==> slots_outcome(model.card(), *chat, slot_texts(slots@)) == Err::<
            Seq<SlotTokens>,
            ErrorModel,
        >(e@),
{
    let ghost all = slot_texts(slots@);
    let ghost f = slot_reader(model.card(), *chat);
    let mut prepared: Vec<PreparedSlot> = Vec::new();
    let mut i: usize = 0;
    assert(all.take(0) =~= Seq::<SlotText>::empty());
    assert(slots_model(prepared@) =~= Seq::<SlotTokens>::empty());
    while i < slots.len()
        invariant
            i <= slots@.len(),
            all == slot_texts(slots@),
            f == slot_reader(model.card(), *chat),
            try_map(all.take(i as int), f) == Ok::<Seq<SlotTokens>, ErrorModel>(
                slots_model(prepared@),
            ),
        decreases slots@.len() - i,
    {
        let ghost before = slots_model(prepared@);
        proof {
            lemma_try_map_step(all, f, i as int);
            assert(f(all[i as int]) == slot_outcome(model.card(), *chat, all[i as int]));
        }
        match prepare_slot(model, chat, &slots[i]) {
            Ok(slot) => {
                let ghost made = slot@;
                prepared.push(slot);
                assert(slots_model(prepared@) =~= before.push(made));
            },
            Err(e) => {
                proof {
                    lemma_try_map_fails(all, f, i + 1);
                }
                return Err(e);
            },
        }
        i += 1;
    }
    assert(all.take(i as int) =~= all);
    Ok(prepared)
}

// ---------------------------------------------------------------------------------------------
// Room
// ---------------------------------------------------------------------------------------------

/// Canvas length for `content` tokens: masked canvases are padded with masks to a whole block,
/// within the canvas capacity.
pub open spec fn padded_size(scheme: DiffusionScheme, capacity: nat, content: nat) -> nat {
    match scheme {
        DiffusionScheme::Masked { block, .. } => {
            let whole = (content + block - 1) / (block as int) * block;
            let within = if whole <= capacity { whole } else { capacity as int };
            if within >= content { within as nat } else { content }
        },
        DiffusionScheme::UniformSelfConditioned { .. } => content,
    }
}

pub fn padded(scheme: DiffusionScheme, capacity: usize, content: usize) -> (r: usize)
    requires
        scheme matches DiffusionScheme::Masked { block, .. } ==> block > 0,
    ensures
        r == padded_size(scheme, capacity as nat, content as nat),
        r >= content,
        content <= capacity ==> r <= capacity,
{
    match scheme {
        DiffusionScheme::Masked { block, .. } => {
            let blocks: usize = div_ceil(content, block);
            let whole: usize = match blocks.checked_mul(block) {
                Some(n) => if n <= capacity {
                    n
                } else {
                    capacity
                },
                None => capacity,
            };
            if whole >= content {
                whole
            } else {
                content
            }
        },
        DiffusionScheme::UniformSelfConditioned { .. } => content,
    }
}

} // verus!
