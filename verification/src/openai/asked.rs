//! What an accepted request asks for, by what its body holds.
use crate::generation::{PromptModel, Role};
use crate::json::Tree;
use crate::openai::error::Fault;
use crate::openai::messages::{content_outcome, message_reader, part_reader};
use crate::openai::request::{request_outcome, Api};
use crate::sequences::{joined, lemma_try_map_items, try_map};
use vstd::prelude::*;
use vstd::string::*;

verus! {

// ---------------------------------------------------------------------------------------------
// Messages
// ---------------------------------------------------------------------------------------------

/// A JSON string names the role.
pub open spec fn names_role(name: Tree, role: Role) -> bool {
    match role {
        Role::System => name == Tree::Text("system"@) || name == Tree::Text("developer"@),
        Role::User => name == Tree::Text("user"@),
        Role::Assistant => name == Tree::Text("assistant"@),
    }
}

/// A content part of a chat or of a response holds the text.
pub open spec fn holds_piece(part: Tree, text: Seq<char>, response: bool) -> bool {
    &&& part.at("text"@) == Tree::Text(text)
    &&& if response {
        part.at("type"@) == Tree::Text("input_text"@) || part.at("type"@) == Tree::Text(
            "output_text"@,
        )
    } else {
        part.at("type"@) == Tree::Text("text"@)
    }
}

/// The text is that of the parts, one right after another: part `k` fills it from `cuts[k]` to
/// `cuts[k + 1]`.
pub open spec fn cut_at(
    parts: Seq<Tree>,
    text: Seq<char>,
    response: bool,
    cuts: Seq<int>,
) -> bool {
    &&& cuts.len() == parts.len() + 1
    &&& cuts[0] == 0
    &&& cuts[parts.len() as int] == text.len()
    &&& forall|k: int|
        0 <= k < parts.len() ==> 0 <= #[trigger] cuts[k] <= cuts[k + 1] <= text.len()
    &&& forall|k: int|
        0 <= k < parts.len() ==> holds_piece(
            #[trigger] parts[k],
            text.subrange(cuts[k], cuts[k + 1]),
            response,
        )
}

/// Content that is the text: a string, or parts that hold it together.
pub open spec fn holds_text(content: Tree, text: Seq<char>, response: bool) -> bool {
    match content {
        Tree::Text(s) => s == text,
        Tree::List(parts) => exists|cuts: Seq<int>| #[trigger] cut_at(parts, text, response, cuts),
        _ => false,
    }
}

/// An item of a request says what the message says, in the same role.
pub open spec fn says(item: Tree, message: (Role, Seq<char>), response: bool) -> bool {
    &&& names_role(item.at("role"@), message.0)
    &&& holds_text(item.at("content"@), message.1, response)
}

proof fn lemma_cuts(
    parts: Seq<Tree>,
    pieces: Seq<Seq<char>>,
    response: bool,
    n: int,
) -> (cuts: Seq<int>)
    requires
        0 <= n <= parts.len(),
        pieces.len() == parts.len(),
        forall|k: int|
            0 <= k < parts.len() ==> holds_piece(#[trigger] parts[k], pieces[k], response),
    ensures
        cut_at(parts.take(n), joined(pieces.take(n)), response, cuts),
    decreases n,
{
    if n == 0 {
        assert(pieces.take(0) =~= Seq::<Seq<char>>::empty());
        assert(joined(pieces.take(0)) =~= Seq::<char>::empty());
        assert(cut_at(parts.take(0), Seq::<char>::empty(), response, seq![0int]));
        seq![0int]
    } else {
        let before = lemma_cuts(parts, pieces, response, n - 1);
        let text = joined(pieces.take(n - 1));
        assert(pieces.take(n).drop_last() =~= pieces.take(n - 1));
        let all = joined(pieces.take(n));
        assert(all == text + pieces[n - 1]);
        let cuts = before.push(all.len() as int);
        let some = parts.take(n);
        assert(parts.take(n - 1).len() == n - 1 && some.len() == n);
        assert(before.len() == n && cuts.len() == n + 1);
        assert(cuts[0] == 0 && cuts[n] == all.len() && before[n - 1] == text.len());
        assert forall|k: int| 0 <= k < some.len() implies 0 <= cuts[k] <= cuts[k + 1] <= all.len()
            && holds_piece(#[trigger] some[k], all.subrange(cuts[k], cuts[k + 1]), response) by {
            assert(some[k] == parts[k]);
            assert(holds_piece(parts[k], pieces[k], response));
            if k < n - 1 {
                assert(parts.take(n - 1)[k] == parts[k]);
                assert(cuts[k] == before[k] && cuts[k + 1] == before[k + 1]);
                assert(all.subrange(cuts[k], cuts[k + 1]) =~= text.subrange(
                    before[k],
                    before[k + 1],
                ));
            } else {
                assert(all.subrange(cuts[k], cuts[k + 1]) =~= pieces[k]);
            }
        }
        assert forall|k: int| 0 <= k < some.len() implies 0 <= #[trigger] cuts[k] <= cuts[k + 1]
            <= all.len() by {
            assert(some[k] == parts[k]);
        }
        assert(cut_at(some, all, response, cuts));
        assert(cut_at(parts.take(n), all, response, cuts));
        cuts
    }
}

proof fn lemma_content(content: Tree, response: bool, param: Seq<char>)
    ensures
        content_outcome(content, response, param) matches Ok(text) ==> holds_text(
            content,
            text,
            response,
        ),
{
    if let Tree::List(parts) = content {
        let f = part_reader(response, param);
        lemma_try_map_items(parts, f);
        if let Ok(pieces) = try_map(parts, f) {
            assert forall|k: int| 0 <= k < parts.len() implies holds_piece(
                #[trigger] parts[k],
                pieces[k],
                response,
            ) by {
                assert(f(parts[k]) == Ok::<Seq<char>, Fault>(pieces[k]));
                reveal_strlit("text");
                reveal_strlit("input_text");
                reveal_strlit("output_text");
                assert("text"@.len() == 4 && "input_text"@.len() == 10 && "output_text"@.len()
                    == 11);
            }
            let cuts = lemma_cuts(parts, pieces, response, parts.len() as int);
            assert(parts.take(parts.len() as int) =~= parts);
            assert(pieces.take(parts.len() as int) =~= pieces);
            assert(cut_at(parts, joined(pieces), response, cuts));
        }
    }
}

proof fn lemma_message(item: Tree, response: bool)
    ensures
        message_reader(response)(item) matches Ok(message) ==> says(item, message, response),
{
    lemma_content(item.at("content"@), false, "messages"@);
    lemma_content(item.at("content"@), true, "input"@);
    reveal_strlit("system");
    reveal_strlit("developer");
    reveal_strlit("user");
    reveal_strlit("assistant");
    assert("system"@.len() == 6 && "developer"@.len() == 9 && "user"@.len() == 4
        && "assistant"@.len() == 9);
}

proof fn lemma_messages(items: Seq<Tree>, response: bool)
    ensures
        try_map(items, message_reader(response)) matches Ok(messages) ==> messages.len()
            == items.len() && forall|i: int|
            0 <= i < items.len() ==> says(items[i], #[trigger] messages[i], response),
{
    let f = message_reader(response);
    lemma_try_map_items(items, f);
    if let Ok(messages) = try_map(items, f) {
        assert forall|i: int| 0 <= i < items.len() implies says(
            items[i],
            #[trigger] messages[i],
            response,
        ) by {
            assert(f(items[i]) == Ok::<(Role, Seq<char>), Fault>(messages[i]));
            lemma_message(items[i], response);
        }
    }
}

/// A chat is generated from the messages that the request lists: as many, in the same order, each
/// in the role that it names and with the text of its content.
pub proof fn law_chats_are_the_messages_of_the_request(body: Tree)
    ensures
        request_outcome(Api::ChatCompletions, body) matches Ok(request) ==> {
            &&& body.present("messages"@) matches Some(Tree::List(items))
            &&& request.generation.prompt matches PromptModel::Chat(messages)
            &&& ({
                let items = body.present("messages"@)->Some_0->List_0;
                let messages = request.generation.prompt->Chat_0;
                &&& items.len() > 0
                &&& messages.len() == items.len()
                &&& forall|i: int|
                    0 <= i < items.len() ==> says(items[i], #[trigger] messages[i], false)
            })
        },
{
    if let Some(Tree::List(items)) = body.present("messages"@) {
        lemma_messages(items, false);
    }
}

/// A response is generated from its instructions, as a system message where there are any, and
/// then from its input: one user message for a string, or one message for each item of an array, in
/// the same order, role and text.
pub proof fn law_responses_are_the_instructions_and_the_input(body: Tree)
    ensures
        request_outcome(Api::Responses, body) matches Ok(request) ==> {
            let given = body.present("instructions"@);
            let first: int = if given is Some {
                1
            } else {
                0
            };
            let messages = request.generation.prompt->Chat_0;
            &&& request.generation.prompt is Chat
            &&& given is Some ==> given->Some_0 is Text && messages.len() > 0 && messages[0] == (
                Role::System,
                given->Some_0->Text_0,
            )
            &&& match body.present("input"@) {
                Some(Tree::Text(text)) => messages.len() == first + 1 && messages[first] == (
                    Role::User,
                    text,
                ),
                Some(Tree::List(items)) => messages.len() == first + items.len() && forall|i: int|
                    0 <= i < items.len() ==> says(
                        #[trigger] items[i],
                        messages[first + i],
                        true,
                    ),
                _ => false,
            }
        },
{
    if let Some(Tree::List(items)) = body.present("input"@) {
        lemma_messages(items, true);
        if let Ok(messages) = try_map(items, message_reader(true)) {
            assert forall|i: int| 0 <= i < items.len() implies says(
                #[trigger] items[i],
                messages[i],
                true,
            ) by {
                assert(says(items[i], messages[i], true));
            }
        }
    }
}

// ---------------------------------------------------------------------------------------------
// Parameters
// ---------------------------------------------------------------------------------------------

/// A parameter that may be left out holds the integer, or nothing where it is left out.
pub open spec fn holds_integer(value: Option<Tree>, found: Option<u64>) -> bool {
    match value {
        None => found is None,
        Some(v) => found is Some && v == Tree::Unsigned(found->Some_0),
    }
}

/// A parameter that may be left out holds the text, or nothing where it is left out.
pub open spec fn holds_string(value: Option<Tree>, found: Option<Seq<char>>) -> bool {
    match value {
        None => found is None,
        Some(v) => found is Some && v == Tree::Text(found->Some_0),
    }
}

/// A token limit as given: from 1 to 2^32 - 1.
pub open spec fn holds_limit(value: Option<Tree>, found: Option<usize>) -> bool {
    match value {
        None => found is None,
        Some(v) => found is Some && 1 <= found->Some_0 <= 0xFFFF_FFFF && v == Tree::Unsigned(
            found->Some_0 as u64,
        ),
    }
}

/// What every API reads from a request: the model, whether to stream, and the seed, as the body
/// gives them; a request without a model is not accepted.
pub proof fn law_requests_keep_their_parameters(api: Api, body: Tree)
    ensures
        request_outcome(api, body) matches Ok(request) ==> {
            &&& request.api == api
            &&& body.present("model"@) == Some(Tree::Text(request.model))
            &&& request.stream <==> body.present("stream"@) == Some(Tree::Bool(true))
            &&& holds_integer(body.present("seed"@), request.seed)
            &&& request.metadata == body.at("metadata"@)
            &&& request.include_usage ==> api != Api::Responses
            &&& api != Api::Responses ==> (request.include_usage <==> body.present(
                "stream_options"@,
            ) is Some && body.present("stream_options"@)->Some_0.at("include_usage"@)
                == Tree::Bool(true))
            &&& api == Api::Responses ==> holds_string(
                body.present("instructions"@),
                request.instructions,
            )
        },
{
}

/// The answer's limit is the one the request gives: of a chat the newer name where it is given, and
/// 16 tokens of a text completion that gives none.
pub proof fn law_limits_are_those_of_the_request(api: Api, body: Tree)
    ensures
        request_outcome(api, body) matches Ok(request) ==> {
            let found = request.generation.max_tokens;
            match api {
                Api::ChatCompletions => if body.present("max_completion_tokens"@) is Some {
                    holds_limit(body.present("max_completion_tokens"@), found)
                } else {
                    holds_limit(body.present("max_tokens"@), found)
                },
                Api::Completions => if body.present("max_tokens"@) is Some {
                    holds_limit(body.present("max_tokens"@), found)
                } else {
                    found == Some(16usize)
                },
                Api::Responses => holds_limit(body.present("max_output_tokens"@), found),
            }
        },
{
}

/// An effort thinks as long as its name says: not at all, or up to so many tokens.
pub open spec fn thinks(effort: Seq<char>, budget: usize) -> bool {
    ||| effort == "none"@ && budget == 0
    ||| effort == "minimal"@ && budget == 64
    ||| effort == "low"@ && budget == 256
    ||| effort == "medium"@ && budget == 1024
    ||| (effort == "high"@ || effort == "xhigh"@) && budget == 4096
}

/// A request thinks as long as the effort that it names, and not at all where it names none: in
/// `reasoning_effort` of a chat, in `effort` of the `reasoning` of a response.
pub proof fn law_thoughts_are_as_long_as_the_effort(api: Api, body: Tree)
    ensures
        request_outcome(api, body) matches Ok(request) ==> {
            let think = request.generation.think;
            match api {
                Api::ChatCompletions => match body.present("reasoning_effort"@) {
                    None => think == 0,
                    Some(Tree::Text(effort)) => thinks(effort, think),
                    Some(_) => false,
                },
                Api::Completions => think == 0,
                Api::Responses => match body.present("reasoning"@) {
                    None => think == 0,
                    Some(reasoning) => match reasoning.at("effort"@) {
                        Tree::Text(effort) => thinks(effort, think),
                        _ => think == 0,
                    },
                },
            }
        },
{
    if api == Api::Responses && body.present("reasoning"@) is None {
        assert(Tree::Null.at("effort"@) == Tree::Null);
    }
}

/// The stop sequences are those of the request, in order: none, the one string, or the strings of
/// the array; a response has none.
pub proof fn law_stops_are_those_of_the_request(api: Api, body: Tree)
    ensures
        request_outcome(api, body) matches Ok(request) ==> {
            let stops = request.generation.stop;
            if api == Api::Responses {
                stops.len() == 0
            } else {
                match body.present("stop"@) {
                    None => stops.len() == 0,
                    Some(Tree::Text(s)) => stops == seq![s],
                    Some(Tree::List(items)) => stops.len() == items.len() && forall|i: int|
                        0 <= i < items.len() ==> #[trigger] items[i] == Tree::Text(stops[i]),
                    Some(_) => false,
                }
            }
        },
{
}

/// A text completion continues the prompt as it is: the string, or the only string of an array.
pub proof fn law_completions_continue_the_prompt(body: Tree)
    ensures
        request_outcome(Api::Completions, body) matches Ok(request) ==> {
            &&& request.generation.prompt is Text
            &&& ({
                let text = Tree::Text(request.generation.prompt->Text_0);
                body.present("prompt"@) == Some(text) || body.present("prompt"@) == Some(
                    Tree::List(seq![text]),
                )
            })
        },
{
    if let Some(Tree::List(items)) = body.present("prompt"@) {
        if items.len() == 1 {
            assert(items =~= seq![items[0]]);
        }
    }
}

} // verus!
