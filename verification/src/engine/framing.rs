//! Chat framing and the room for an answer.
use crate::engine::generated::clamp;
use crate::engine::model::{tokens_outcome, Card, ChatFormat, DiffusionModel};
use crate::error::{Error, ErrorModel, Result};
use crate::generation::{
    stops_allowed, turns, GenerationPrompt, GenerationRequest, Message, PromptModel, RequestModel,
    Role,
};
use crate::text::{decimal, digits};
use vstd::prelude::*;
use vstd::string::*;

verus! {

/// Answer tokens generated when neither `max_tokens` nor the context gives a smaller limit.
pub const DEFAULT_MAX_TOKENS: usize = 2048;

/// What an outcome is: tokens or the first error.
pub type Tokens = core::result::Result<Seq<i32>, ErrorModel>;

/// A text to tokenize: with a beginning token, and with markers parsed.
#[verifier::ext_equal]
pub struct Piece {
    pub text: Seq<char>,
    pub bos: bool,
    pub special: bool,
}

/// Literal text, in which markers are not parsed.
pub open spec fn literal(text: Seq<char>) -> Piece {
    Piece { text, bos: false, special: false }
}

/// Text of the chat format, in which markers are parsed.
pub open spec fn marker(text: Seq<char>) -> Piece {
    Piece { text, bos: false, special: true }
}

/// The tokens of a piece.
pub open spec fn piece_tokens(card: Card, piece: Piece) -> Tokens {
    (card.tokenize)(piece.text, piece.bos, piece.special)
}

/// The tokens of pieces one after another, or the error of the first that has one.
pub open spec fn tokens_of(card: Card, pieces: Seq<Piece>) -> Tokens
    decreases pieces.len(),
{
    if pieces.len() == 0 {
        Ok(Seq::empty())
    } else {
        match tokens_of(card, pieces.drop_last()) {
            Err(e) => Err(e),
            Ok(before) => match piece_tokens(card, pieces.last()) {
                Err(e) => Err(e),
                Ok(tokens) => Ok(before + tokens),
            },
        }
    }
}

/// A failure among the first pieces is the failure of all of them.
pub proof fn lemma_tokens_fail(card: Card, pieces: Seq<Piece>, i: int)
    requires
        0 <= i <= pieces.len(),
        tokens_of(card, pieces.take(i)) is Err,
    ensures
        tokens_of(card, pieces) == tokens_of(card, pieces.take(i)),
    decreases pieces.len() - i,
{
    if i < pieces.len() {
        assert(pieces.take(i + 1).drop_last() =~= pieces.take(i));
        lemma_tokens_fail(card, pieces, i + 1);
    } else {
        assert(pieces.take(i) =~= pieces);
    }
}

/// One more piece.
proof fn lemma_tokens_push(card: Card, pieces: Seq<Piece>, piece: Piece)
    ensures
        tokens_of(card, pieces.push(piece)) == match tokens_of(card, pieces) {
            Err(e) => Err(e),
            Ok(before) => match piece_tokens(card, piece) {
                Err(e) => Err(e),
                Ok(tokens) => Ok(before + tokens),
            },
        },
{
    assert(pieces.push(piece).drop_last() =~= pieces);
}

impl ChatFormat {
    /// What opens a turn.
    pub open spec fn turn_open(self, role: Role) -> Seq<char> {
        match role {
            Role::System => self.system_open@,
            Role::User => self.user_open@,
            Role::Assistant => self.assistant_open@,
        }
    }

    /// What stands before the text of a turn.
    pub open spec fn turn_prefix(self, role: Role) -> Seq<char> {
        match role {
            Role::Assistant => self.history_prefix@,
            _ => Seq::empty(),
        }
    }

    /// The pieces of one turn.
    pub open spec fn turn(self, message: (Role, Seq<char>)) -> Seq<Piece> {
        seq![
            marker(self.turn_open(message.0)),
            marker(self.turn_prefix(message.0)),
            literal(message.1),
            marker(self.turn_close@),
        ]
    }

    /// The pieces of all turns, after the beginning token where the format has one.
    pub open spec fn conversation(self, messages: Seq<(Role, Seq<char>)>) -> Seq<Piece>
        decreases messages.len(),
    {
        if messages.len() == 0 {
            if self.bos {
                seq![Piece { text: Seq::empty(), bos: true, special: false }]
            } else {
                Seq::empty()
            }
        } else {
            self.conversation(messages.drop_last()) + self.turn(messages.last())
        }
    }

    /// The pieces of a prompt: every turn framed and the answer opened, or plain text.
    pub open spec fn prompt_pieces(self, prompt: PromptModel) -> Seq<Piece> {
        match prompt {
            PromptModel::Chat(messages) => self.conversation(messages).push(
                marker(self.assistant_open@),
            ),
            PromptModel::Text(text) => seq![Piece { text, bos: self.bos, special: false }],
        }
    }
}

/// Appends the tokens of a piece.
pub fn append_tokens<M: DiffusionModel>(
    model: &M,
    out: &mut Vec<i32>,
    text: &str,
    bos: bool,
    special: bool,
) -> (r: Result<()>)
    ensures
        r is Ok ==> piece_tokens(model.card(), Piece { text: text@, bos, special }) is Ok
            && final(out)@ == old(out)@ + piece_tokens(
            model.card(),
            Piece { text: text@, bos, special },
        )->Ok_0,
        r matches Err(e) ==> piece_tokens(model.card(), Piece { text: text@, bos, special })
            == Err::<Seq<i32>, ErrorModel>(e@),
{
    match model.tokenize(text, bos, special) {
        Ok(tokens) => {
            let mut more: Vec<i32> = tokens;
            out.append(&mut more);
            Ok(())
        },
        Err(e) => Err(e),
    }
}

/// The tokens of a framed conversation with the answer opened.
fn frame_chat<M: DiffusionModel>(model: &M, chat: &ChatFormat, messages: &Vec<Message>) -> (r:
    Result<Vec<i32>>)
    ensures
        tokens_outcome(r) == tokens_of(
            model.card(),
            chat.prompt_pieces(PromptModel::Chat(turns(messages@))),
        ),
{
    let ghost card = model.card();
    let ghost all = turns(messages@);
    let ghost pieces = chat.prompt_pieces(PromptModel::Chat(all));
    let mut out: Vec<i32> = Vec::new();
    proof {
        assert(all.take(0) =~= Seq::<(Role, Seq<char>)>::empty());
        lemma_conversation_prefix(*chat, all, 0);
    }
    if chat.bos {
        proof {
            reveal_strlit("");
            assert(""@ =~= Seq::<char>::empty());
            let first = Piece { text: Seq::<char>::empty(), bos: true, special: false };
            lemma_tokens_push(card, Seq::empty(), first);
            assert(Seq::<Piece>::empty().push(first) =~= chat.conversation(all.take(0)));
        }
        match append_tokens(model, &mut out, "", true, false) {
            Ok(()) => {
                assert(Seq::<i32>::empty() + out@ =~= out@);
            },
            Err(e) => {
                proof {
                    lemma_tokens_fail(card, pieces, chat.conversation(all.take(0)).len() as int);
                }
                return Err(e);
            },
        }
    }
    let mut i: usize = 0;
    while i < messages.len()
        invariant
            i <= messages@.len(),
            card == model.card(),
            all == turns(messages@),
            pieces == chat.prompt_pieces(PromptModel::Chat(all)),
            tokens_of(card, chat.conversation(all.take(i as int))) == Ok::<Seq<i32>, ErrorModel>(
                out@,
            ),
        decreases messages@.len() - i,
    {
        let ghost before = chat.conversation(all.take(i as int));
        let ghost turn = chat.turn(all[i as int]);
        let role: Role = messages[i].role;
        proof {
            assert(all.take(i + 1).drop_last() =~= all.take(i as int));
            assert(all.take(i + 1).last() == all[i as int]);
            lemma_conversation_prefix(*chat, all, i + 1);
            lemma_tokens_push(card, before, turn[0]);
            lemma_tokens_push(card, before.push(turn[0]), turn[1]);
            lemma_tokens_push(card, before.push(turn[0]).push(turn[1]), turn[2]);
            lemma_tokens_push(card, before.push(turn[0]).push(turn[1]).push(turn[2]), turn[3]);
            assert(before.push(turn[0]).push(turn[1]).push(turn[2]).push(turn[3]) =~= before + turn);
            let n = before.len() as int;
            let after = chat.conversation(all.take(i + 1));
            assert(pieces.take(n + 1) =~= before.push(turn[0])) by {
                assert(after.take(n + 1) =~= before.push(turn[0]));
                assert(pieces.take(after.len() as int).take(n + 1) =~= pieces.take(n + 1));
            }
            assert(pieces.take(n + 2) =~= before.push(turn[0]).push(turn[1])) by {
                assert(pieces.take(after.len() as int).take(n + 2) =~= pieces.take(n + 2));
            }
            assert(pieces.take(n + 3) =~= before.push(turn[0]).push(turn[1]).push(turn[2])) by {
                assert(pieces.take(after.len() as int).take(n + 3) =~= pieces.take(n + 3));
            }
        }
        let open: &String = match role {
            Role::System => &chat.system_open,
            Role::User => &chat.user_open,
            Role::Assistant => &chat.assistant_open,
        };
        let prefix: &str = match role {
            Role::Assistant => chat.history_prefix.as_str(),
            _ => "",
        };
        proof {
            reveal_strlit("");
            assert(prefix@ =~= chat.turn_prefix(role));
        }
        match append_tokens(model, &mut out, open.as_str(), false, true) {
            Ok(()) => {},
            Err(e) => {
                proof {
                    lemma_tokens_fail(card, pieces, (before.len() + 1) as int);
                }
                return Err(e);
            },
        }
        match append_tokens(model, &mut out, prefix, false, true) {
            Ok(()) => {},
            Err(e) => {
                proof {
                    lemma_tokens_fail(card, pieces, (before.len() + 2) as int);
                }
                return Err(e);
            },
        }
        match append_tokens(model, &mut out, messages[i].text.as_str(), false, false) {
            Ok(()) => {},
            Err(e) => {
                proof {
                    lemma_tokens_fail(card, pieces, (before.len() + 3) as int);
                }
                return Err(e);
            },
        }
        match append_tokens(model, &mut out, chat.turn_close.as_str(), false, true) {
            Ok(()) => {},
            Err(e) => {
                proof {
                    lemma_tokens_fail(card, pieces, (before.len() + 4) as int);
                }
                return Err(e);
            },
        }
        i += 1;
    }
    proof {
        assert(all.take(i as int) =~= all);
        lemma_tokens_push(card, chat.conversation(all), marker(chat.assistant_open@));
    }
    match append_tokens(model, &mut out, chat.assistant_open.as_str(), false, true) {
        Ok(()) => Ok(out),
        Err(e) => Err(e),
    }
}

/// The pieces of the first turns come first.
proof fn lemma_conversation_prefix(chat: ChatFormat, messages: Seq<(Role, Seq<char>)>, i: int)
    requires
        0 <= i <= messages.len(),
    ensures
        ({
            let part = chat.conversation(messages.take(i));
            let all = chat.prompt_pieces(PromptModel::Chat(messages));
            part.len() <= all.len() && all.take(part.len() as int) == part
        }),
    decreases messages.len() - i,
{
    let part = chat.conversation(messages.take(i));
    let all = chat.prompt_pieces(PromptModel::Chat(messages));
    if i < messages.len() {
        lemma_conversation_prefix(chat, messages, i + 1);
        let more = chat.conversation(messages.take(i + 1));
        assert(messages.take(i + 1).drop_last() =~= messages.take(i));
        assert(more.take(part.len() as int) =~= part);
        assert(all.take(more.len() as int).take(part.len() as int) =~= all.take(
            part.len() as int,
        ));
    } else {
        assert(messages.take(i) =~= messages);
        assert(all.take(part.len() as int) =~= part);
    }
}

/// What a generation starts from.
#[derive(Debug)]
pub struct Prepared {
    /// The framed prompt.
    pub prompt: Vec<i32>,
    /// The closed empty thought after it, where no thought is asked for.
    pub framing: Vec<i32>,
    /// The most tokens of the answer.
    pub max_tokens: usize,
}

/// The mathematical model of [`Prepared`].
#[verifier::ext_equal]
pub struct PreparedModel {
    pub prompt: Seq<i32>,
    pub framing: Seq<i32>,
    pub max_tokens: usize,
}

impl View for Prepared {
    type V = PreparedModel;

    open spec fn view(&self) -> PreparedModel {
        PreparedModel {
            prompt: self.prompt@,
            framing: self.framing@,
            max_tokens: self.max_tokens,
        }
    }
}

/// What follows the prompt of a request: a chat without a thought closes an empty one.
pub open spec fn framing_outcome(card: Card, chat: ChatFormat, request: RequestModel) -> Tokens {
    if request.prompt is Chat && request.think == 0 {
        piece_tokens(card, marker(chat.empty_thought@))
    } else {
        Ok(Seq::empty())
    }
}

/// The positions kept for a thought or its closed form.
pub open spec fn reserve_outcome(
    card: Card,
    chat: ChatFormat,
    request: RequestModel,
    framing: Seq<i32>,
) -> core::result::Result<nat, ErrorModel> {
    if request.think > 0 {
        match piece_tokens(card, marker(chat.thought_open@)) {
            Err(e) => Err(e),
            Ok(open) => Ok((request.think + open.len() + 1) as nat),
        }
    } else {
        Ok(framing.len())
    }
}

/// The most tokens of an answer after `needed` positions, within the context.
pub open spec fn limit_outcome(needed: nat, max_tokens: Option<usize>, n_ctx: usize) -> core::result::Result<
    usize,
    ErrorModel,
> {
    let available = if needed <= n_ctx { (n_ctx - needed) as usize } else { 0 };
    let limit = match max_tokens {
        Some(n) => n,
        None => if available < DEFAULT_MAX_TOKENS { available } else { DEFAULT_MAX_TOKENS },
    };
    if limit == 0 || limit > available {
        Err(
            ErrorModel::InvalidInput(
                "The prompt needs "@ + digits(clamp(needed) as nat)
                    + " tokens and the answer up to "@ + digits(limit as nat)
                    + "; the context allows "@ + digits(n_ctx as nat),
            ),
        )
    } else {
        Ok(limit)
    }
}

/// What a request starts from, or why it cannot be run.
pub open spec fn prepare_outcome(
    card: Card,
    chat: ChatFormat,
    n_ctx: usize,
    request: RequestModel,
) -> core::result::Result<PreparedModel, ErrorModel> {
    if !stops_allowed(request.stop) {
        Err(ErrorModel::InvalidInput("stop must hold at most 4 nonempty sequences"@))
    } else {
        match tokens_of(card, chat.prompt_pieces(request.prompt)) {
            Err(e) => Err(e),
            Ok(prompt) => match framing_outcome(card, chat, request) {
                Err(e) => Err(e),
                Ok(framing) => if prompt.len() == 0 {
                    Err(ErrorModel::InvalidInput("The prompt is empty"@))
                } else {
                    match reserve_outcome(card, chat, request, framing) {
                        Err(e) => Err(e),
                        Ok(reserve) => match limit_outcome(
                            prompt.len() + reserve,
                            request.max_tokens,
                            n_ctx,
                        ) {
                            Err(e) => Err(e),
                            Ok(max_tokens) => Ok(PreparedModel { prompt, framing, max_tokens }),
                        },
                    }
                },
            },
        }
    }
}

/// The most tokens of an answer after `needed` positions.
pub fn answer_limit(needed: usize, max_tokens: Option<usize>, n_ctx: usize) -> (r: Result<usize>)
    ensures
        r matches Ok(n) ==> limit_outcome(needed as nat, max_tokens, n_ctx) == Ok::<
            usize,
            ErrorModel,
        >(n),
        r matches Err(e) ==> limit_outcome(needed as nat, max_tokens, n_ctx) == Err::<
            usize,
            ErrorModel,
        >(e@),
{
    let available: usize = n_ctx.saturating_sub(needed);
    let limit: usize = match max_tokens {
        Some(n) => n,
        None => if available < DEFAULT_MAX_TOKENS {
            available
        } else {
            DEFAULT_MAX_TOKENS
        },
    };
    if limit == 0 || limit > available {
        let a: String = decimal(needed as u64);
        let b: String = decimal(limit as u64);
        let c: String = decimal(n_ctx as u64);
        return Err(
            Error::InvalidInput(
                "The prompt needs ".to_owned().concat(a.as_str()).concat(
                    " tokens and the answer up to ",
                ).concat(b.as_str()).concat("; the context allows ").concat(c.as_str()),
            ),
        );
    }
    Ok(limit)
}

/// What a request starts from, or why it cannot be run. Prompt text is literal: markers inside
/// it are not parsed as control tokens.
pub fn prepare<M: DiffusionModel>(
    model: &M,
    chat: &ChatFormat,
    n_ctx: usize,
    request: &GenerationRequest,
) -> (r: Result<Prepared>)
    ensures
        r matches Ok(p) ==> prepare_outcome(model.card(), *chat, n_ctx, request@) == Ok::<
            PreparedModel,
            ErrorModel,
        >(p@),
        r matches Err(e) ==> prepare_outcome(model.card(), *chat, n_ctx, request@) == Err::<
            PreparedModel,
            ErrorModel,
        >(e@),
{
    let ghost card = model.card();
    request.validate()?;
    let prompt: Vec<i32> = match &request.prompt {
        GenerationPrompt::Chat(messages) => frame_chat(model, chat, messages)?,
        GenerationPrompt::Text(text) => {
            let mut out: Vec<i32> = Vec::new();
            proof {
                let piece = Piece { text: text@, bos: chat.bos, special: false };
                lemma_tokens_push(card, Seq::empty(), piece);
                assert(Seq::<Piece>::empty().push(piece) =~= chat.prompt_pieces(request@.prompt));
            }
            append_tokens(model, &mut out, text.as_str(), chat.bos, false)?;
            out
        },
    };
    let mut framing: Vec<i32> = Vec::new();
    if let GenerationPrompt::Chat(_) = &request.prompt {
        if request.think == 0 {
            append_tokens(model, &mut framing, chat.empty_thought.as_str(), false, true)?;
            assert(Seq::<i32>::empty() + framing@ =~= framing@);
        }
    }
    proof {
        assert(framing_outcome(card, *chat, request@)->Ok_0 =~= framing@);
    }
    if prompt.len() == 0 {
        return Err(Error::input("The prompt is empty"));
    }
    let reserve: usize = if request.think > 0 {
        let mut open: Vec<i32> = Vec::new();
        append_tokens(model, &mut open, chat.thought_open.as_str(), false, true)?;
        assert(Seq::<i32>::empty() + open@ =~= open@);
        request.think.saturating_add(open.len()).saturating_add(1)
    } else {
        framing.len()
    };
    let needed: usize = prompt.len().saturating_add(reserve);
    let ghost exact = prompt@.len() + reserve_outcome(card, *chat, request@, framing@)->Ok_0;
    assert(needed == clamp(exact));
    let max_tokens: usize = answer_limit(needed, request.max_tokens, n_ctx)?;
    Ok(Prepared { prompt, framing, max_tokens })
}

// ---------------------------------------------------------------------------------------------
// Laws
// ---------------------------------------------------------------------------------------------

impl ChatFormat {
    /// A marker of this format that frames turns.
    pub open spec fn frames(self, text: Seq<char>) -> bool {
        text == self.system_open@ || text == self.user_open@ || text == self.assistant_open@ || text
            == self.history_prefix@ || text == self.turn_close@ || text == Seq::<char>::empty()
    }
}

/// Markers are parsed in the format's own text alone: whatever a message holds is plain text.
pub proof fn law_messages_are_never_parsed_as_markers(
    chat: ChatFormat,
    messages: Seq<(Role, Seq<char>)>,
)
    ensures
        forall|i: int|
            0 <= i < chat.prompt_pieces(PromptModel::Chat(messages)).len() && (
            #[trigger] chat.prompt_pieces(PromptModel::Chat(messages))[i]).special ==> chat.frames(
                chat.prompt_pieces(PromptModel::Chat(messages))[i].text,
            ),
{
    lemma_turns_are_framed(chat, messages);
    let pieces = chat.conversation(messages);
    assert(chat.prompt_pieces(PromptModel::Chat(messages)) == pieces.push(
        marker(chat.assistant_open@),
    ));
    assert forall|i: int|
        0 <= i < pieces.push(marker(chat.assistant_open@)).len() && (#[trigger] pieces.push(
            marker(chat.assistant_open@),
        )[i]).special implies chat.frames(
        pieces.push(marker(chat.assistant_open@))[i].text,
    ) by {
        if i < pieces.len() {
            assert(pieces.push(marker(chat.assistant_open@))[i] == pieces[i]);
        }
    }
}

proof fn lemma_turns_are_framed(chat: ChatFormat, messages: Seq<(Role, Seq<char>)>)
    ensures
        forall|i: int|
            0 <= i < chat.conversation(messages).len() && (#[trigger] chat.conversation(
                messages,
            )[i]).special ==> chat.frames(chat.conversation(messages)[i].text),
    decreases messages.len(),
{
    if messages.len() > 0 {
        let before = chat.conversation(messages.drop_last());
        let turn = chat.turn(messages.last());
        lemma_turns_are_framed(chat, messages.drop_last());
        assert forall|i: int|
            0 <= i < (before + turn).len() && (#[trigger] (before + turn)[i]).special implies chat.frames(
        (before + turn)[i].text) by {
            if i < before.len() {
                assert((before + turn)[i] == before[i]);
            } else {
                assert((before + turn)[i] == turn[i - before.len()]);
            }
        }
    }
}

/// A text prompt is continued as it is: it is one piece without markers, and nothing follows it
/// where no thought is asked for.
pub proof fn law_text_prompts_are_not_framed(
    card: Card,
    chat: ChatFormat,
    request: RequestModel,
    text: Seq<char>,
)
    requires
        request.prompt == PromptModel::Text(text),
    ensures
        chat.prompt_pieces(request.prompt) == seq![Piece { text, bos: chat.bos, special: false }],
        framing_outcome(card, chat, request) == Ok::<Seq<i32>, ErrorModel>(Seq::empty()),
{
}

/// A prepared request fits the context: its prompt, the room for its thought, and its answer, of
/// at least one token.
pub proof fn law_prepared_requests_fit_the_context(
    card: Card,
    chat: ChatFormat,
    n_ctx: usize,
    request: RequestModel,
)
    ensures
        prepare_outcome(card, chat, n_ctx, request) matches Ok(p) ==> {
            let room = reserve_outcome(card, chat, request, p.framing);
            &&& room is Ok
            &&& p.prompt.len() > 0
            &&& p.max_tokens > 0
            &&& p.prompt.len() + room->Ok_0 + p.max_tokens <= n_ctx
        },
{
}

} // verus!
