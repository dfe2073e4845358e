//! Answer codes: short texts that a model reads and writes as one token each.
use crate::engine::config::Decoding;
use crate::engine::engine::{marker_tokens, markers_outcome, Engine};
use crate::engine::framing::{literal, piece_tokens, Tokens};
use crate::engine::model::{Card, ChatFormat, DiffusionModel, DiffusionScheme, ModelInfo};
use crate::engine::slots::{answer_form, answer_text};
use crate::error::{Error, ErrorModel, Result};
use crate::sequences::texts;
use crate::text::{characters, decimal, digits, string_of};
use vstd::prelude::*;
use vstd::string::*;

verus! {

/// The single characters that are tried first.
pub const LETTERS: &'static str = "ABCDEFGHIJKLMNOPQRSTUVWXYZabcdefghijklmnopqrstuvwxyz0123456789";

/// The answer codes of an engine.
pub const CODE_COUNT: usize = 128;

/// Codes with the token of each.
#[verifier::ext_equal]
pub struct Codes {
    pub texts: Seq<Seq<char>>,
    pub tokens: Seq<i32>,
}

/// The tokens of a code as an answer.
pub open spec fn code_tokens(card: Card, chat: ChatFormat, code: Seq<char>) -> Tokens {
    piece_tokens(card, literal(answer_form(chat, code)))
}

impl Codes {
    pub open spec fn add(self, code: Seq<char>, token: i32) -> Codes {
        Codes { texts: self.texts.push(code), tokens: self.tokens.push(token) }
    }

    /// Each code is written as its own token, and no two share one.
    pub open spec fn distinct(self, card: Card, chat: ChatFormat) -> bool {
        &&& self.texts.len() == self.tokens.len()
        &&& self.tokens.no_duplicates()
        &&& forall|i: int|
            0 <= i < self.texts.len() ==> code_tokens(card, chat, #[trigger] self.texts[i]) == Ok::<
                Seq<i32>,
                ErrorModel,
            >(seq![self.tokens[i]])
    }
}

/// The first `n` letters: those that are one token, each token once.
pub open spec fn letter_codes(
    card: Card,
    chat: ChatFormat,
    letters: Seq<char>,
    n: nat,
) -> core::result::Result<Codes, ErrorModel>
    decreases n,
{
    if n == 0 {
        Ok(Codes { texts: Seq::empty(), tokens: Seq::empty() })
    } else {
        match letter_codes(card, chat, letters, (n - 1) as nat) {
            Err(e) => Err(e),
            Ok(codes) => {
                let code = seq![letters[n - 1]];
                match code_tokens(card, chat, code) {
                    Err(e) => Err(e),
                    Ok(tokens) => if tokens.len() == 1 && !codes.tokens.contains(tokens[0]) {
                        Ok(codes.add(code, tokens[0]))
                    } else {
                        Ok(codes)
                    },
                }
            },
        }
    }
}

/// After `start`, the pieces among the first `n` tokens of the vocabulary that are written as
/// themselves, until there are `count` codes. The mask is none.
pub open spec fn piece_codes(
    card: Card,
    chat: ChatFormat,
    mask: i32,
    count: nat,
    start: Codes,
    n: nat,
) -> core::result::Result<Codes, ErrorModel>
    decreases n,
{
    if n == 0 {
        Ok(start)
    } else {
        match piece_codes(card, chat, mask, count, start, (n - 1) as nat) {
            Err(e) => Err(e),
            Ok(codes) => {
                let token = (n - 1) as i32;
                if codes.texts.len() >= count || codes.tokens.contains(token) || token == mask {
                    Ok(codes)
                } else {
                    match (card.piece)(token) {
                        None => Ok(codes),
                        Some(code) => match code_tokens(card, chat, code) {
                            Err(e) => Err(e),
                            Ok(tokens) => if tokens == seq![token] {
                                Ok(codes.add(code, token))
                            } else {
                                Ok(codes)
                            },
                        },
                    }
                }
            },
        }
    }
}

/// Letters first, then pieces of the vocabulary.
pub open spec fn all_codes(
    card: Card,
    chat: ChatFormat,
    mask: i32,
    n_vocab: i32,
    count: nat,
) -> core::result::Result<Codes, ErrorModel> {
    match letter_codes(card, chat, LETTERS@, LETTERS@.len()) {
        Err(e) => Err(e),
        Ok(letters) => piece_codes(
            card,
            chat,
            mask,
            count,
            letters,
            if n_vocab > 0 {
                n_vocab as nat
            } else {
                0
            },
        ),
    }
}

/// All codes, or an error where there are fewer than `count`.
pub open spec fn codes_outcome(
    card: Card,
    chat: ChatFormat,
    mask: i32,
    n_vocab: i32,
    count: nat,
) -> core::result::Result<Seq<Seq<char>>, ErrorModel> {
    match all_codes(card, chat, mask, n_vocab, count) {
        Err(e) => Err(e),
        Ok(codes) => if codes.texts.len() < count {
            Err(
                ErrorModel::InvalidInput(
                    "The vocabulary has fewer than "@ + digits(count)
                        + " usable single-token answer codes"@,
                ),
            )
        } else {
            Ok(codes.texts)
        },
    }
}

proof fn lemma_add_keeps_distinct(card: Card, chat: ChatFormat, codes: Codes, code: Seq<char>, token: i32)
    requires
        codes.distinct(card, chat),
        !codes.tokens.contains(token),
        code_tokens(card, chat, code) == Ok::<Seq<i32>, ErrorModel>(seq![token]),
    ensures
        codes.add(code, token).distinct(card, chat),
{
    let now = codes.add(code, token);
    assert forall|i: int| 0 <= i < now.texts.len() implies code_tokens(
        card,
        chat,
        #[trigger] now.texts[i],
    ) == Ok::<Seq<i32>, ErrorModel>(seq![now.tokens[i]]) by {
        if i < codes.texts.len() {
            assert(now.texts[i] == codes.texts[i]);
        }
    }
}

proof fn lemma_letters_distinct(card: Card, chat: ChatFormat, letters: Seq<char>, n: nat)
    ensures
        letter_codes(card, chat, letters, n) matches Ok(codes) ==> codes.distinct(card, chat),
    decreases n,
{
    if n > 0 {
        lemma_letters_distinct(card, chat, letters, (n - 1) as nat);
        if let Ok(codes) = letter_codes(card, chat, letters, (n - 1) as nat) {
            let code = seq![letters[n - 1]];
            if let Ok(tokens) = code_tokens(card, chat, code) {
                if tokens.len() == 1 && !codes.tokens.contains(tokens[0]) {
                    assert(tokens =~= seq![tokens[0]]);
                    lemma_add_keeps_distinct(card, chat, codes, code, tokens[0]);
                }
            }
        }
    }
}

proof fn lemma_pieces_distinct(
    card: Card,
    chat: ChatFormat,
    mask: i32,
    count: nat,
    start: Codes,
    n: nat,
)
    requires
        start.distinct(card, chat),
    ensures
        piece_codes(card, chat, mask, count, start, n) matches Ok(codes) ==> codes.distinct(
            card,
            chat,
        ),
    decreases n,
{
    if n > 0 {
        lemma_pieces_distinct(card, chat, mask, count, start, (n - 1) as nat);
        if let Ok(codes) = piece_codes(card, chat, mask, count, start, (n - 1) as nat) {
            let token = (n - 1) as i32;
            if !codes.tokens.contains(token) {
                if let Some(code) = (card.piece)(token) {
                    if code_tokens(card, chat, code) == Ok::<Seq<i32>, ErrorModel>(seq![token]) {
                        lemma_add_keeps_distinct(card, chat, codes, code, token);
                    }
                }
            }
        }
    }
}

/// Every answer code is written as exactly one token, no two codes share a token, and there are
/// as many as were asked for.
pub proof fn law_codes_are_distinct_tokens(
    card: Card,
    chat: ChatFormat,
    mask: i32,
    n_vocab: i32,
    count: nat,
)
    requires
        codes_outcome(card, chat, mask, n_vocab, count) is Ok,
    ensures
        all_codes(card, chat, mask, n_vocab, count) is Ok,
        all_codes(card, chat, mask, n_vocab, count)->Ok_0.distinct(card, chat),
        codes_outcome(card, chat, mask, n_vocab, count)->Ok_0 == all_codes(
            card,
            chat,
            mask,
            n_vocab,
            count,
        )->Ok_0.texts,
        codes_outcome(card, chat, mask, n_vocab, count)->Ok_0.len() >= count,
{
    lemma_letters_distinct(card, chat, LETTERS@, LETTERS@.len());
    let letters = letter_codes(card, chat, LETTERS@, LETTERS@.len())->Ok_0;
    lemma_pieces_distinct(
        card,
        chat,
        mask,
        count,
        letters,
        if n_vocab > 0 {
            n_vocab as nat
        } else {
            0
        },
    );
}

fn contains_token(tokens: &Vec<i32>, token: i32) -> (r: bool)
    ensures
        r == tokens@.contains(token),
{
    let mut i: usize = 0;
    while i < tokens.len()
        invariant
            i <= tokens@.len(),
            forall|k: int| 0 <= k < i ==> #[trigger] tokens@[k] != token,
        decreases tokens@.len() - i,
    {
        if tokens[i] == token {
            return true;
        }
        i += 1;
    }
    false
}

/// The codes found so far.
pub open spec fn found(codes: Seq<String>, seen: Seq<i32>) -> Codes {
    Codes { texts: texts(codes), tokens: seen }
}

proof fn lemma_piece_codes_fail(
    card: Card,
    chat: ChatFormat,
    mask: i32,
    count: nat,
    start: Codes,
    i: nat,
    n: nat,
)
    requires
        i <= n,
        piece_codes(card, chat, mask, count, start, i) is Err,
    ensures
        piece_codes(card, chat, mask, count, start, n) == piece_codes(
            card,
            chat,
            mask,
            count,
            start,
            i,
        ),
    decreases n - i,
{
    if i < n {
        lemma_piece_codes_fail(card, chat, mask, count, start, i, (n - 1) as nat);
    }
}

proof fn lemma_piece_codes_full(
    card: Card,
    chat: ChatFormat,
    mask: i32,
    count: nat,
    start: Codes,
    i: nat,
    n: nat,
)
    requires
        i <= n,
        piece_codes(card, chat, mask, count, start, i) matches Ok(codes) && codes.texts.len()
            >= count,
    ensures
        piece_codes(card, chat, mask, count, start, n) == piece_codes(
            card,
            chat,
            mask,
            count,
            start,
            i,
        ),
    decreases n - i,
{
    if i < n {
        lemma_piece_codes_full(card, chat, mask, count, start, i, (n - 1) as nat);
    }
}

proof fn lemma_letter_codes_fail(card: Card, chat: ChatFormat, letters: Seq<char>, i: nat, n: nat)
    requires
        i <= n,
        letter_codes(card, chat, letters, i) is Err,
    ensures
        letter_codes(card, chat, letters, n) == letter_codes(card, chat, letters, i),
    decreases n - i,
{
    if i < n {
        lemma_letter_codes_fail(card, chat, letters, i, (n - 1) as nat);
    }
}

/// The letters that can be codes, with their tokens.
fn find_letters<M: DiffusionModel>(model: &M, chat: &ChatFormat) -> (r: Result<
    (Vec<String>, Vec<i32>),
>)
    ensures
        r matches Ok((codes, seen)) ==> letter_codes(
            model.card(),
            *chat,
            LETTERS@,
            LETTERS@.len(),
        ) == Ok::<Codes, ErrorModel>(found(codes@, seen@)),
        r matches Err(e) ==> letter_codes(model.card(), *chat, LETTERS@, LETTERS@.len()) == Err::<
            Codes,
            ErrorModel,
        >(e@),
{
    let letters: Vec<char> = characters(LETTERS);
    let mut codes: Vec<String> = Vec::new();
    let mut seen: Vec<i32> = Vec::new();
    let mut i: usize = 0;
    assert(found(codes@, seen@) =~= Codes { texts: Seq::empty(), tokens: Seq::empty() });
    while i < letters.len()
        invariant
            i <= letters@.len(),
            letters@ == LETTERS@,
            letter_codes(model.card(), *chat, LETTERS@, i as nat) == Ok::<Codes, ErrorModel>(
                found(codes@, seen@),
            ),
        decreases letters@.len() - i,
    {
        let code: String = string_of(&letters, i, i + 1);
        let ghost before = codes@;
        proof {
            assert(letters@.subrange(i as int, i + 1) =~= seq![letters@[i as int]]);
        }
        match model.tokenize(answer_text(chat, code.as_str()).as_str(), false, false) {
            Ok(tokens) => {
                if tokens.len() == 1 && !contains_token(&seen, tokens[0]) {
                    let ghost text = code@;
                    codes.push(code);
                    seen.push(tokens[0]);
                    assert(texts(codes@) =~= texts(before).push(text));
                }
            },
            Err(e) => {
                proof {
                    lemma_letter_codes_fail(
                        model.card(),
                        *chat,
                        LETTERS@,
                        (i + 1) as nat,
                        LETTERS@.len(),
                    );
                }
                return Err(e);
            },
        }
        i += 1;
    }
    Ok((codes, seen))
}

/// Single-token answer codes: letters and digits first, then pieces of the vocabulary.
pub fn find_codes<M: DiffusionModel>(
    model: &M,
    chat: &ChatFormat,
    mask: i32,
    n_vocab: i32,
    count: usize,
) -> (r: Result<Vec<String>>)
    ensures
        r matches Ok(codes) ==> codes_outcome(model.card(), *chat, mask, n_vocab, count as nat)
            == Ok::<Seq<Seq<char>>, ErrorModel>(texts(codes@)),
        r matches Err(e) ==> codes_outcome(model.card(), *chat, mask, n_vocab, count as nat)
            == Err::<Seq<Seq<char>>, ErrorModel>(e@),
{
    let ghost card = model.card();
    let (mut codes, mut seen): (Vec<String>, Vec<i32>) = find_letters(model, chat)?;
    let ghost start = found(codes@, seen@);
    let ghost end: nat = if n_vocab > 0 {
        n_vocab as nat
    } else {
        0
    };
    let mut token: i32 = 0;
    while token < n_vocab && codes.len() < count
        invariant
            card == model.card(),
            0 <= token <= end,
            end == if n_vocab > 0 {
                n_vocab as nat
            } else {
                0
            },
            letter_codes(card, *chat, LETTERS@, LETTERS@.len()) == Ok::<Codes, ErrorModel>(start),
            piece_codes(card, *chat, mask, count as nat, start, token as nat) == Ok::<
                Codes,
                ErrorModel,
            >(found(codes@, seen@)),
        decreases n_vocab - token,
    {
        let ghost before = codes@;
        if !contains_token(&seen, token) && token != mask {
            if let Some(code) = model.code_piece(token) {
                match model.tokenize(answer_text(chat, code.as_str()).as_str(), false, false) {
                    Ok(tokens) => {
                        if tokens.len() == 1 && tokens[0] == token {
                            assert(tokens@ =~= seq![token]);
                            let ghost text = code@;
                            codes.push(code);
                            seen.push(token);
                            assert(texts(codes@) =~= texts(before).push(text));
                        } else {
                            assert(tokens@ != seq![token]);
                        }
                    },
                    Err(e) => {
                        proof {
                            lemma_piece_codes_fail(
                                card,
                                *chat,
                                mask,
                                count as nat,
                                start,
                                (token + 1) as nat,
                                end,
                            );
                        }
                        return Err(e);
                    },
                }
            }
        }
        token += 1;
    }
    proof {
        if token < end {
            lemma_piece_codes_full(card, *chat, mask, count as nat, start, token as nat, end);
        }
    }
    if codes.len() < count {
        return Err(
            Error::InvalidInput(
                "The vocabulary has fewer than ".to_owned().concat(
                    decimal(count as u64).as_str(),
                ).concat(" usable single-token answer codes"),
            ),
        );
    }
    Ok(codes)
}

/// The limits of a model that an engine can work with.
pub open spec fn workable(info: ModelInfo, scheme: DiffusionScheme) -> bool {
    &&& 0 < info.batch_size < usize::MAX
    &&& 0 < info.max_canvas
    &&& info.n_ctx < usize::MAX
    &&& scheme matches DiffusionScheme::Masked { block, .. } ==> block > 0
}

/// The markers of a chat format that end thoughts and answers are single tokens.
pub open spec fn chat_fault(card: Card, chat: ChatFormat) -> Option<ErrorModel> {
    match markers_outcome(card, texts(chat.thought_stops@)) {
        Err(e) => Some(e),
        Ok(_) => match markers_outcome(card, texts(chat.answer_stops@)) {
            Err(e) => Some(e),
            Ok(_) => None,
        },
    }
}

/// The codes of an engine over a model, or why there is none.
pub open spec fn engine_outcome(
    card: Card,
    chat: ChatFormat,
    mask: i32,
    n_vocab: i32,
) -> core::result::Result<Seq<Seq<char>>, ErrorModel> {
    match chat_fault(card, chat) {
        Some(e) => Err(e),
        None => codes_outcome(card, chat, mask, n_vocab, CODE_COUNT as nat),
    }
}

impl<M: DiffusionModel> Engine<M> {
    /// An engine over a loaded model. It decodes by diffusion.
    pub fn new(model: M) -> (r: Result<Self>)
        requires
            workable(model.about(), model.denoising()),
        ensures
            r matches Ok(engine) ==> {
                &&& engine.model == model
                &&& engine.chat == model.framing()
                &&& engine.scheme == model.denoising()
                &&& engine.n_vocab == model.about().n_vocab
                &&& engine.n_ctx == model.about().n_ctx
                &&& engine.batch_size == model.about().batch_size
                &&& engine.max_canvas == model.about().max_canvas
                &&& engine.decoding == Decoding::Diffusion
                &&& engine.ready()
                &&& engine_outcome(
                    model.card(),
                    model.framing(),
                    model.denoising().mask_token(),
                    model.about().n_vocab,
                ) == Ok::<Seq<Seq<char>>, ErrorModel>(texts(engine.codes@))
            },
            r matches Err(e) ==> engine_outcome(
                model.card(),
                model.framing(),
                model.denoising().mask_token(),
                model.about().n_vocab,
            ) == Err::<Seq<Seq<char>>, ErrorModel>(e@),
    {
        let chat: ChatFormat = model.chat();
        match marker_tokens(&model, &chat.thought_stops) {
            Ok(_) => {},
            Err(e) => {
                return Err(e);
            },
        }
        match marker_tokens(&model, &chat.answer_stops) {
            Ok(_) => {},
            Err(e) => {
                return Err(e);
            },
        }
        let scheme: DiffusionScheme = model.scheme();
        let mask: i32 = scheme.mask();
        let n_vocab: i32 = model.info().n_vocab;
        let n_ctx: usize = model.info().n_ctx;
        let batch_size: usize = model.info().batch_size;
        let max_canvas: usize = model.info().max_canvas;
        let codes: Vec<String> = find_codes(&model, &chat, mask, n_vocab, CODE_COUNT)?;
        Ok(
            Engine {
                model,
                chat,
                codes,
                n_vocab,
                scheme,
                n_ctx,
                batch_size,
                max_canvas,
                decoding: Decoding::Diffusion,
            },
        )
    }
}

} // verus!
