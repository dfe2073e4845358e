//! How the prompt of a request is made up, token by token.
use crate::engine::framing::{prepare_outcome, tokens_of, Piece};
use crate::engine::model::{Card, ChatFormat};
use crate::error::ErrorModel;
use crate::generation::{PromptModel, RequestModel, Role};
use vstd::prelude::*;

verus! {

/// The tokens are those of the text: with a beginning token or not, and with markers parsed or not.
pub open spec fn spells(
    card: Card,
    text: Seq<char>,
    bos: bool,
    special: bool,
    tokens: Seq<i32>,
) -> bool {
    (card.tokenize)(text, bos, special) == Ok::<Seq<i32>, ErrorModel>(tokens)
}

/// A turn of a conversation in tokens, cut into its opening, its prefix, its text and its close: a
/// message of the system, the user or the assistant is opened by the marker of that role, only an
/// earlier answer has a prefix, and no marker is parsed in the text.
pub open spec fn framed_turn(
    card: Card,
    chat: ChatFormat,
    message: (Role, Seq<char>),
    open: Seq<i32>,
    prefix: Seq<i32>,
    text: Seq<i32>,
    close: Seq<i32>,
) -> bool {
    &&& message.0 == Role::System ==> spells(card, chat.system_open@, false, true, open)
    &&& message.0 == Role::User ==> spells(card, chat.user_open@, false, true, open)
    &&& message.0 == Role::Assistant ==> spells(card, chat.assistant_open@, false, true, open)
    &&& message.0 == Role::Assistant ==> spells(card, chat.history_prefix@, false, true, prefix)
    &&& message.0 != Role::Assistant ==> spells(card, Seq::empty(), false, true, prefix)
    &&& spells(card, message.1, false, false, text)
    &&& spells(card, chat.turn_close@, false, true, close)
}

/// The part of `tokens` from one cut to the next.
pub open spec fn between(tokens: Seq<i32>, cuts: Seq<int>, k: int) -> Seq<i32> {
    tokens.subrange(cuts[k], cuts[k + 1])
}

/// The cuts divide the tokens from front to back into `n` parts.
pub open spec fn divides(tokens: Seq<i32>, cuts: Seq<int>, n: nat) -> bool {
    &&& cuts.len() == n + 1
    &&& cuts[0] == 0
    &&& cuts[n as int] == tokens.len()
    &&& forall|k: int| 0 <= k < n ==> 0 <= #[trigger] cuts[k] <= cuts[k + 1] <= tokens.len()
}

/// The tokens of a conversation, cut into the beginning token where the format has one, four parts
/// for each message in order, and the opening of the answer.
pub open spec fn framed_chat(
    card: Card,
    chat: ChatFormat,
    messages: Seq<(Role, Seq<char>)>,
    tokens: Seq<i32>,
    cuts: Seq<int>,
) -> bool {
    let b: int = if chat.bos {
        1
    } else {
        0
    };
    let n = messages.len();
    &&& divides(tokens, cuts, (b + 4 * n + 1) as nat)
    &&& chat.bos ==> spells(card, Seq::empty(), true, false, between(tokens, cuts, 0))
    &&& forall|i: int|
        0 <= i < n ==> framed_turn(
            card,
            chat,
            #[trigger] messages[i],
            between(tokens, cuts, b + 4 * i),
            between(tokens, cuts, b + 4 * i + 1),
            between(tokens, cuts, b + 4 * i + 2),
            between(tokens, cuts, b + 4 * i + 3),
        )
    &&& spells(card, chat.assistant_open@, false, true, between(tokens, cuts, b + 4 * n))
}

/// Each part of the tokens is that of a piece.
spec fn pieced(card: Card, pieces: Seq<Piece>, tokens: Seq<i32>, cuts: Seq<int>) -> bool {
    &&& divides(tokens, cuts, pieces.len())
    &&& forall|k: int|
        0 <= k < pieces.len() ==> spells(
            card,
            (#[trigger] pieces[k]).text,
            pieces[k].bos,
            pieces[k].special,
            between(tokens, cuts, k),
        )
}

proof fn lemma_pieced(card: Card, pieces: Seq<Piece>) -> (cuts: Seq<int>)
    requires
        tokens_of(card, pieces) is Ok,
    ensures
        pieced(card, pieces, tokens_of(card, pieces)->Ok_0, cuts),
    decreases pieces.len(),
{
    let all = tokens_of(card, pieces)->Ok_0;
    if pieces.len() == 0 {
        seq![0int]
    } else {
        let rest = pieces.drop_last();
        let before = lemma_pieced(card, rest);
        let some = tokens_of(card, rest)->Ok_0;
        let cuts = before.push(all.len() as int);
        assert forall|k: int| 0 <= k < pieces.len() implies 0 <= #[trigger] cuts[k] <= cuts[k + 1]
            <= all.len() by {
            if k < rest.len() {
                assert(cuts[k] == before[k] && cuts[k + 1] == before[k + 1]);
            }
        }
        assert forall|k: int| 0 <= k < pieces.len() implies spells(
            card,
            (#[trigger] pieces[k]).text,
            pieces[k].bos,
            pieces[k].special,
            between(all, cuts, k),
        ) by {
            if k < rest.len() {
                assert(rest[k] == pieces[k]);
                assert(cuts[k] == before[k] && cuts[k + 1] == before[k + 1]);
                assert(between(all, cuts, k) =~= between(some, before, k));
            } else {
                assert(between(all, cuts, k) =~= all.skip(some.len() as int));
                assert(all.skip(some.len() as int) =~= (card.tokenize)(
                    pieces[k].text,
                    pieces[k].bos,
                    pieces[k].special,
                )->Ok_0);
            }
        }
        cuts
    }
}

/// The pieces of a conversation, by their places.
proof fn lemma_places(chat: ChatFormat, messages: Seq<(Role, Seq<char>)>)
    ensures
        ({
            let pieces = chat.conversation(messages);
            let b: int = if chat.bos {
                1
            } else {
                0
            };
            &&& pieces.len() == b + 4 * messages.len()
            &&& chat.bos ==> pieces[0] == (Piece { text: Seq::empty(), bos: true, special: false })
            &&& forall|i: int|
                0 <= i < messages.len() ==> chat.turn(#[trigger] messages[i]) == pieces.subrange(
                    b + 4 * i,
                    b + 4 * i + 4,
                )
        }),
    decreases messages.len(),
{
    let b: int = if chat.bos {
        1
    } else {
        0
    };
    if messages.len() > 0 {
        let rest = messages.drop_last();
        lemma_places(chat, rest);
        let before = chat.conversation(rest);
        let pieces = chat.conversation(messages);
        assert(pieces == before + chat.turn(messages.last()));
        assert forall|i: int| 0 <= i < messages.len() implies chat.turn(#[trigger] messages[i])
            == pieces.subrange(b + 4 * i, b + 4 * i + 4) by {
            if i < rest.len() {
                assert(rest[i] == messages[i]);
                assert(pieces.subrange(b + 4 * i, b + 4 * i + 4) =~= before.subrange(
                    b + 4 * i,
                    b + 4 * i + 4,
                ));
            } else {
                assert(pieces.subrange(b + 4 * i, b + 4 * i + 4) =~= chat.turn(messages[i]));
            }
        }
    }
}

/// The prompt of a chat is its messages in order, each opened by the marker of its own role and
/// closed, and then the opening of the answer: nothing else, and nothing left out.
pub proof fn law_chats_are_framed_turn_by_turn(
    card: Card,
    chat: ChatFormat,
    n_ctx: usize,
    request: RequestModel,
    messages: Seq<(Role, Seq<char>)>,
)
    requires
        request.prompt == PromptModel::Chat(messages),
    ensures
        prepare_outcome(card, chat, n_ctx, request) matches Ok(prepared) ==> exists|cuts: Seq<int>|
         #[trigger]
            framed_chat(card, chat, messages, prepared.prompt, cuts),
{
    if let Ok(prepared) = prepare_outcome(card, chat, n_ctx, request) {
        let pieces = chat.prompt_pieces(request.prompt);
        let turns = chat.conversation(messages);
        let tokens = prepared.prompt;
        let cuts = lemma_pieced(card, pieces);
        lemma_places(chat, messages);
        let b: int = if chat.bos {
            1
        } else {
            0
        };
        let n = messages.len();
        assert(pieces == turns.push(pieces.last()));
        assert(pieces.len() == b + 4 * n + 1);
        if chat.bos {
            assert(pieces[0] == turns[0]);
        }
        assert forall|i: int| 0 <= i < n implies framed_turn(
            card,
            chat,
            #[trigger] messages[i],
            between(tokens, cuts, b + 4 * i),
            between(tokens, cuts, b + 4 * i + 1),
            between(tokens, cuts, b + 4 * i + 2),
            between(tokens, cuts, b + 4 * i + 3),
        ) by {
            let turn = chat.turn(messages[i]);
            let at = b + 4 * i;
            assert(turn == turns.subrange(at, at + 4));
            assert(turn[0] == pieces[at]);
            assert(turn[1] == pieces[at + 1]);
            assert(turn[2] == pieces[at + 2]);
            assert(turn[3] == pieces[at + 3]);
        }
        assert(spells(
            card,
            pieces[b + 4 * n].text,
            pieces[b + 4 * n].bos,
            pieces[b + 4 * n].special,
            between(tokens, cuts, b + 4 * n),
        ));
        assert(framed_chat(card, chat, messages, tokens, cuts));
    }
}

/// A text prompt is the text and nothing else, and no marker is parsed in it.
pub proof fn law_texts_are_continued_as_they_are(
    card: Card,
    chat: ChatFormat,
    n_ctx: usize,
    request: RequestModel,
    text: Seq<char>,
)
    requires
        request.prompt == PromptModel::Text(text),
    ensures
        prepare_outcome(card, chat, n_ctx, request) matches Ok(prepared) ==> spells(
            card,
            text,
            chat.bos,
            false,
            prepared.prompt,
        ) && prepared.framing.len() == 0,
{
    if let Ok(prepared) = prepare_outcome(card, chat, n_ctx, request) {
        let pieces = chat.prompt_pieces(request.prompt);
        assert(pieces.drop_last() =~= Seq::<Piece>::empty());
        assert(tokens_of(card, Seq::<Piece>::empty()) == Ok::<Seq<i32>, ErrorModel>(Seq::empty()));
        let tokens = (card.tokenize)(text, chat.bos, false)->Ok_0;
        assert(Seq::<i32>::empty() + tokens =~= tokens);
    }
}

/// Before its answer a chat closes an empty thought, where none is asked for.
pub proof fn law_answers_follow_an_empty_thought(
    card: Card,
    chat: ChatFormat,
    n_ctx: usize,
    request: RequestModel,
)
    requires
        request.prompt is Chat,
    ensures
        prepare_outcome(card, chat, n_ctx, request) matches Ok(prepared) ==> if request.think == 0 {
            spells(card, chat.empty_thought@, false, true, prepared.framing)
        } else {
            prepared.framing.len() == 0
        },
{
}

/// An answer is as long as the request allows; where it names no limit, as the context leaves room
/// for, up to 2048 tokens.
pub proof fn law_answers_have_the_length_asked_for(
    card: Card,
    chat: ChatFormat,
    n_ctx: usize,
    request: RequestModel,
)
    ensures
        prepare_outcome(card, chat, n_ctx, request) matches Ok(prepared) ==> {
            &&& request.max_tokens is Some ==> request.max_tokens == Some(prepared.max_tokens)
            &&& request.max_tokens is None ==> prepared.max_tokens <= 2048
            &&& request.max_tokens is None && prepared.max_tokens < 2048 && request.think == 0
                ==> prepared.prompt.len() + prepared.framing.len() + prepared.max_tokens == n_ctx
            &&& request.max_tokens is None && prepared.max_tokens < 2048 && request.think > 0
                ==> prepared.prompt.len() + request.think + (card.tokenize)(
                chat.thought_open@,
                false,
                true,
            )->Ok_0.len() + 1 + prepared.max_tokens == n_ctx
        },
{
}

} // verus!
