//! Thought budgets, stop sequences and messages of a request.
use crate::generation::{check_stops, stops_allowed, turns, Message, Role};
use crate::json::{tree, Json, Tree};
use crate::openai::error::{invalid_fault, unsupported_fault, Fault, OpenAiError};
use crate::openai::fields::optional;
use crate::sequences::{
    joined, lemma_joined_push, lemma_try_map_fails, lemma_try_map_step, texts, try_map,
};
use crate::text::{quoted, quoted_text, same_text};
use vstd::prelude::*;
use vstd::string::*;

verus! {

// ---------------------------------------------------------------------------------------------
// Thought budgets
// ---------------------------------------------------------------------------------------------

/// The thought budget of a reasoning effort.
pub open spec fn budget(effort: Seq<char>) -> Option<usize> {
    if effort == "none"@ {
        Some(0)
    } else if effort == "minimal"@ {
        Some(64)
    } else if effort == "low"@ {
        Some(256)
    } else if effort == "medium"@ {
        Some(1024)
    } else if effort == "high"@ || effort == "xhigh"@ {
        Some(4096)
    } else {
        None
    }
}

/// An effort without a budget.
pub open spec fn effort_fault(effort: Option<Seq<char>>, param: Seq<char>) -> Option<Fault> {
    match effort {
        Some(e) if budget(e) is None => Some(
            invalid_fault(param + " must be none, minimal, low, medium or high"@, Some(param)),
        ),
        _ => None,
    }
}

/// The budget of an effort; no thought without one.
pub open spec fn effort_budget(effort: Option<Seq<char>>) -> usize {
    match effort {
        Some(e) => match budget(e) {
            Some(n) => n,
            None => 0,
        },
        None => 0,
    }
}

/// Thought budgets for `reasoning_effort` / `reasoning.effort`.
pub fn thought_budget(effort: &str, param: &str) -> (r: Result<usize, OpenAiError>)
    ensures
        r matches Ok(n) ==> budget(effort@) == Some(n),
        r matches Err(e) ==> effort_fault(Some(effort@), param@) == Some(e@),
{
    if same_text(effort, "none") {
        Ok(0)
    } else if same_text(effort, "minimal") {
        Ok(64)
    } else if same_text(effort, "low") {
        Ok(256)
    } else if same_text(effort, "medium") {
        Ok(1024)
    } else if same_text(effort, "high") || same_text(effort, "xhigh") {
        Ok(4096)
    } else {
        let message: String = param.to_owned().concat(
            " must be none, minimal, low, medium or high",
        );
        Err(OpenAiError::invalid(message.as_str(), Some(param)))
    }
}

pub(crate) fn optional_budget(effort: Option<&str>, param: &str) -> (r: Result<usize, OpenAiError>)
    ensures
        r matches Ok(n) ==> effort_fault(optional(effort), param@) is None && n == effort_budget(
            optional(effort),
        ),
        r matches Err(e) ==> effort_fault(optional(effort), param@) == Some(e@),
{
    match effort {
        Some(e) => thought_budget(e, param),
        None => Ok(0),
    }
}

// ---------------------------------------------------------------------------------------------
// Stop sequences
// ---------------------------------------------------------------------------------------------

/// The texts of an array of strings.
pub open spec fn string_items(items: Seq<Tree>) -> Option<Seq<Seq<char>>> {
    if forall|i: int| 0 <= i < items.len() ==> (#[trigger] items[i]) is Text {
        Some(Seq::new(items.len(), |i: int| items[i].text_or_empty()))
    } else {
        None
    }
}

/// The stop sequences of a request: one string or an array of them, within the limits.
pub open spec fn stop_outcome(value: Option<Tree>) -> Result<Seq<Seq<char>>, Fault> {
    let named = match value {
        None => Some(Seq::empty()),
        Some(Tree::Text(s)) => Some(seq![s]),
        Some(Tree::List(items)) => string_items(items),
        Some(_) => None,
    };
    match named {
        Some(stops) if stops_allowed(stops) => Ok(stops),
        _ => Err(
            invalid_fault("stop must be a string or up to 4 nonempty strings"@, Some("stop"@)),
        ),
    }
}

fn stop_error() -> (r: OpenAiError)
    ensures
        r@ == invalid_fault("stop must be a string or up to 4 nonempty strings"@, Some("stop"@)),
{
    OpenAiError::invalid("stop must be a string or up to 4 nonempty strings", Some("stop"))
}

pub(crate) fn stop_sequences(value: Option<&Json>) -> (r: Result<Vec<String>, OpenAiError>)
    ensures
        r matches Ok(stops) ==> stop_outcome(optional_tree(value)) == Ok::<Seq<Seq<char>>, Fault>(texts(stops@)),
        r matches Err(e) ==> stop_outcome(optional_tree(value)) == Err::<Seq<Seq<char>>, Fault>(e@),
{
    let mut stops: Vec<String> = Vec::new();
    match value {
        None => {
            assert(texts(stops@) =~= Seq::<Seq<char>>::empty());
        },
        Some(Json::Text(s)) => {
            stops.push(s.clone());
            assert(texts(stops@) =~= seq![s@]);
        },
        Some(Json::List(items)) => {
            let ghost model = value->Some_0@->List_0;
            let mut i: usize = 0;
            while i < items.len()
                invariant
                    i <= items@.len(),
                    value == Some(&Json::List(*items)),
                    model.len() == items@.len(),
                    value->Some_0@ == Tree::List(model),
                    forall|k: int| 0 <= k < model.len() ==> #[trigger] model[k] == items@[k]@,
                    stops@.len() == i,
                    forall|k: int|
                        0 <= k < i ==> (#[trigger] model[k]) is Text && stops@[k]@
                            == model[k].text_or_empty(),
                decreases items@.len() - i,
            {
                match &items[i] {
                    Json::Text(s) => {
                        assert(model[i as int] == Tree::Text(s@));
                        stops.push(s.clone());
                    },
                    _ => {
                        assert(model[i as int] !is Text);
                        return Err(stop_error());
                    },
                }
                i += 1;
            }
            assert(string_items(model)->Some_0 =~= texts(stops@));
        },
        Some(_) => {
            return Err(stop_error());
        },
    }
    if check_stops(&stops) {
        Ok(stops)
    } else {
        Err(stop_error())
    }
}

// ---------------------------------------------------------------------------------------------
// Messages
// ---------------------------------------------------------------------------------------------

/// The role a message names.
pub open spec fn role_outcome(name: Seq<char>, param: Seq<char>) -> Result<Role, Fault> {
    if name == "system"@ || name == "developer"@ {
        Ok(Role::System)
    } else if name == "user"@ {
        Ok(Role::User)
    } else if name == "assistant"@ {
        Ok(Role::Assistant)
    } else if name == "tool"@ || name == "function"@ {
        Err(unsupported_fault(param, "tool messages"@))
    } else {
        Err(invalid_fault("unknown role "@ + quoted_text(name), Some(param)))
    }
}

fn role(name: &str, param: &str) -> (r: Result<Role, OpenAiError>)
    ensures
        r matches Ok(x) ==> role_outcome(name@, param@) == Ok::<Role, Fault>(x),
        r matches Err(e) ==> role_outcome(name@, param@) == Err::<Role, Fault>(e@),
{
    if same_text(name, "system") || same_text(name, "developer") {
        Ok(Role::System)
    } else if same_text(name, "user") {
        Ok(Role::User)
    } else if same_text(name, "assistant") {
        Ok(Role::Assistant)
    } else if same_text(name, "tool") || same_text(name, "function") {
        Err(OpenAiError::unsupported(param, "tool messages"))
    } else {
        let shown: String = quoted(name);
        let message: String = "unknown role ".to_owned().concat(shown.as_str());
        Err(OpenAiError::invalid(message.as_str(), Some(param)))
    }
}

/// The content part types that carry text: `text` in chats, `input_text` and `output_text` in
/// response items.
pub open spec fn text_part(kind: Seq<char>, response: bool) -> bool {
    if response {
        kind == "input_text"@ || kind == "output_text"@
    } else {
        kind == "text"@
    }
}

/// The text of one content part.
pub open spec fn part_outcome(part: Tree, response: bool, param: Seq<char>) -> Result<
    Seq<char>,
    Fault,
> {
    let kind = part.at("type"@).text_or_empty();
    if !text_part(kind, response) {
        Err(
            unsupported_fault(
                param,
                "content part "@ + quoted_text(kind) + "; only text is supported"@,
            ),
        )
    } else {
        match part.at("text"@) {
            Tree::Text(s) => Ok(s),
            _ => Err(invalid_fault("text parts need a text string"@, Some(param))),
        }
    }
}

/// The reader of content parts.
pub open spec fn part_reader(response: bool, param: Seq<char>) -> spec_fn(Tree) -> Result<
    Seq<char>,
    Fault,
> {
    |part: Tree| part_outcome(part, response, param)
}

/// Text of message content: a string, or the text of its parts one after another.
pub open spec fn content_outcome(content: Tree, response: bool, param: Seq<char>) -> Result<
    Seq<char>,
    Fault,
> {
    match content {
        Tree::Text(s) => Ok(s),
        Tree::List(parts) => match try_map(parts, part_reader(response, param)) {
            Ok(pieces) => Ok(joined(pieces)),
            Err(e) => Err(e),
        },
        _ => Err(
            invalid_fault("content must be a string or an array of parts"@, Some(param)),
        ),
    }
}

fn part_text<'a>(part: &'a Json, response: bool, param: &str) -> (r: Result<
    &'a str,
    OpenAiError,
>)
    ensures
        r matches Ok(s) ==> part_outcome(part@, response, param@) == Ok::<Seq<char>, Fault>(s@),
        r matches Err(e) ==> part_outcome(part@, response, param@) == Err::<Seq<char>, Fault>(e@),
{
    let kind: &str = match part.text_at("type") {
        Some(s) => s,
        None => "",
    };
    proof {
        reveal_strlit("");
        assert(kind@ =~= part@.at("type"@).text_or_empty());
    }
    let accepted: bool = if response {
        same_text(kind, "input_text") || same_text(kind, "output_text")
    } else {
        same_text(kind, "text")
    };
    if !accepted {
        let shown: String = quoted(kind);
        let detail: String = "content part ".to_owned().concat(shown.as_str()).concat(
            "; only text is supported",
        );
        return Err(OpenAiError::unsupported(param, detail.as_str()));
    }
    match part.text_at("text") {
        Some(s) => Ok(s),
        None => Err(OpenAiError::invalid("text parts need a text string", Some(param))),
    }
}

fn content_text(content: Option<&Json>, response: bool, param: &str) -> (r: Result<
    String,
    OpenAiError,
>)
    ensures
        r matches Ok(s) ==> content_outcome(
            match content {
                Some(c) => c@,
                None => Tree::Null,
            },
            response,
            param@,
        ) == Ok::<Seq<char>, Fault>(s@),
        r matches Err(e) ==> content_outcome(
            match content {
                Some(c) => c@,
                None => Tree::Null,
            },
            response,
            param@,
        ) == Err::<Seq<char>, Fault>(e@),
{
    match content {
        Some(Json::Text(s)) => Ok(s.clone()),
        Some(Json::List(parts)) => {
            let ghost model = content->Some_0@->List_0;
            let ghost f = part_reader(response, param@);
            let ghost mut pieces: Seq<Seq<char>> = Seq::empty();
            let mut text: String = String::new();
            let mut i: usize = 0;
            proof {
                assert(model.take(0) =~= Seq::<Tree>::empty());
            }
            while i < parts.len()
                invariant
                    i <= parts@.len(),
                    content == Some(&Json::List(*parts)),
                    model.len() == parts@.len(),
                    content->Some_0@ == Tree::List(model),
                    forall|k: int| 0 <= k < model.len() ==> #[trigger] model[k] == parts@[k]@,
                    f == part_reader(response, param@),
                    try_map(model.take(i as int), f) == Ok::<Seq<Seq<char>>, Fault>(pieces),
                    text@ == joined(pieces),
                decreases parts@.len() - i,
            {
                proof {
                    lemma_try_map_step(model, f, i as int);
                    assert(f(model[i as int]) == part_outcome(model[i as int], response, param@));
                }
                match part_text(&parts[i], response, param) {
                    Ok(s) => {
                        text.append(s);
                        proof {
                            lemma_joined_push(pieces, s@);
                            pieces = pieces.push(s@);
                        }
                    },
                    Err(e) => {
                        proof {
                            lemma_try_map_fails(model, f, i + 1);
                        }
                        return Err(e);
                    },
                }
                i += 1;
            }
            proof {
                assert(model.take(i as int) =~= model);
            }
            Ok(text)
        },
        _ => Err(
            OpenAiError::invalid("content must be a string or an array of parts", Some(param)),
        ),
    }
}

/// One message of a chat.
pub open spec fn chat_message(item: Tree) -> Result<(Role, Seq<char>), Fault> {
    if item.present("tool_calls"@) is Some {
        Err(unsupported_fault("messages"@, "tool calls"@))
    } else {
        match role_outcome(item.at("role"@).text_or_empty(), "messages"@) {
            Err(e) => Err(e),
            Ok(role) => match content_outcome(item.at("content"@), false, "messages"@) {
                Err(e) => Err(e),
                Ok(text) => Ok((role, text)),
            },
        }
    }
}

/// One item of a response's input.
pub open spec fn input_message(item: Tree) -> Result<(Role, Seq<char>), Fault> {
    match item.at("type"@) {
        Tree::Text(kind) if kind != "message"@ => Err(
            unsupported_fault("input"@, kind + " items"@),
        ),
        _ => match role_outcome(item.at("role"@).text_or_empty(), "input"@) {
            Err(e) => Err(e),
            Ok(role) => match content_outcome(item.at("content"@), true, "input"@) {
                Err(e) => Err(e),
                Ok(text) => Ok((role, text)),
            },
        },
    }
}

/// The reader of messages: response items, or chat messages.
pub open spec fn message_reader(response: bool) -> spec_fn(Tree) -> Result<
    (Role, Seq<char>),
    Fault,
> {
    |item: Tree|
        if response {
            input_message(item)
        } else {
            chat_message(item)
        }
}

/// The messages of a chat: a nonempty array of them.
pub open spec fn chat_outcome(value: Option<Tree>) -> Result<Seq<(Role, Seq<char>)>, Fault> {
    let missing = invalid_fault("messages must be a nonempty array"@, Some("messages"@));
    match value {
        Some(Tree::List(items)) => match try_map(items, message_reader(false)) {
            Err(e) => Err(e),
            Ok(messages) => if messages.len() == 0 {
                Err(missing)
            } else {
                Ok(messages)
            },
        },
        _ => Err(missing),
    }
}

/// Some message that is not an instruction.
pub open spec fn asks(messages: Seq<(Role, Seq<char>)>) -> bool {
    exists|i: int| 0 <= i < messages.len() && (#[trigger] messages[i]).0 != Role::System
}

/// The instructions as a system message, where there are any.
pub open spec fn lead(instructions: Option<Seq<char>>) -> Seq<(Role, Seq<char>)> {
    match instructions {
        Some(text) => seq![(Role::System, text)],
        None => Seq::empty(),
    }
}

/// The messages of a response: the instructions, then one user text or an array of items, with
/// some message that is not an instruction.
pub open spec fn input_outcome(value: Option<Tree>, instructions: Option<Seq<char>>) -> Result<
    Seq<(Role, Seq<char>)>,
    Fault,
> {
    let given = match value {
        Some(Tree::Text(text)) => Ok(seq![(Role::User, text)]),
        Some(Tree::List(items)) => try_map(items, message_reader(true)),
        _ => Err(invalid_fault("input must be a string or an array"@, Some("input"@))),
    };
    match given {
        Err(e) => Err(e),
        Ok(messages) => if asks(lead(instructions) + messages) {
            Ok(lead(instructions) + messages)
        } else {
            Err(invalid_fault("input needs at least one message"@, Some("input"@)))
        },
    }
}

fn read_message(item: &Json, response: bool) -> (r: Result<Message, OpenAiError>)
    ensures
        r matches Ok(m) ==> message_reader(response)(item@) == Ok::<(Role, Seq<char>), Fault>(m@),
        r matches Err(e) ==> message_reader(response)(item@) == Err::<(Role, Seq<char>), Fault>(
            e@,
        ),
{
    let param: &str = if response {
        "input"
    } else {
        "messages"
    };
    if response {
        match item.text_at("type") {
            Some(kind) => {
                if !same_text(kind, "message") {
                    let detail: String = kind.to_owned().concat(" items");
                    return Err(OpenAiError::unsupported("input", detail.as_str()));
                }
            },
            None => {},
        }
    } else if item.field("tool_calls").is_some() {
        return Err(OpenAiError::unsupported("messages", "tool calls"));
    }
    let name: &str = match item.text_at("role") {
        Some(s) => s,
        None => "",
    };
    proof {
        reveal_strlit("");
        assert(name@ =~= item@.at("role"@).text_or_empty());
    }
    match role(name, param) {
        Err(e) => Err(e),
        Ok(role) => match content_text(item.get("content"), response, param) {
            Err(e) => Err(e),
            Ok(text) => Ok(Message { role, text }),
        },
    }
}

/// Appends the messages of `items` to `messages`.
fn read_messages(items: &Vec<Json>, response: bool, messages: &mut Vec<Message>) -> (r: Result<
    (),
    OpenAiError,
>)
    ensures
        r is Ok ==> try_map(tree(Json::List(*items))->List_0, message_reader(response)) is Ok
            && turns(final(messages)@) == turns(old(messages)@) + try_map(
            tree(Json::List(*items))->List_0,
            message_reader(response),
        )->Ok_0,
        r matches Err(e) ==> try_map(tree(Json::List(*items))->List_0, message_reader(response))
            == Err::<Seq<(Role, Seq<char>)>, Fault>(e@),
{
    let ghost model = tree(Json::List(*items))->List_0;
    let ghost f = message_reader(response);
    let ghost before = turns(messages@);
    let ghost mut read: Seq<(Role, Seq<char>)> = Seq::empty();
    let mut i: usize = 0;
    proof {
        assert(model.take(0) =~= Seq::<Tree>::empty());
        assert(before + read =~= before);
    }
    while i < items.len()
        invariant
            i <= items@.len(),
            model == tree(Json::List(*items))->List_0,
            model.len() == items@.len(),
            forall|k: int| 0 <= k < model.len() ==> #[trigger] model[k] == items@[k]@,
            f == message_reader(response),
            try_map(model.take(i as int), f) == Ok::<Seq<(Role, Seq<char>)>, Fault>(read),
            turns(messages@) == before + read,
        decreases items@.len() - i,
    {
        proof {
            lemma_try_map_step(model, f, i as int);
            assert(model[i as int] == items@[i as int]@);
        }
        match read_message(&items[i], response) {
            Ok(message) => {
                let ghost was = messages@;
                let ghost m = message@;
                messages.push(message);
                proof {
                    assert(turns(messages@) =~= turns(was).push(m));
                    assert(before + read.push(m) =~= (before + read).push(m));
                    read = read.push(m);
                }
            },
            Err(e) => {
                proof {
                    lemma_try_map_fails(model, f, i + 1);
                }
                return Err(e);
            },
        }
        i += 1;
    }
    proof {
        assert(model.take(i as int) =~= model);
    }
    Ok(())
}

/// The model of an optional borrowed value.
pub open spec fn optional_tree(value: Option<&Json>) -> Option<Tree> {
    match value {
        Some(v) => Some(v@),
        None => None,
    }
}

pub(crate) fn chat_messages(value: Option<&Json>) -> (r: Result<Vec<Message>, OpenAiError>)
    ensures
        r matches Ok(messages) ==> chat_outcome(optional_tree(value)) == Ok::<
            Seq<(Role, Seq<char>)>,
            Fault,
        >(turns(messages@)),
        r matches Err(e) ==> chat_outcome(optional_tree(value)) == Err::<
            Seq<(Role, Seq<char>)>,
            Fault,
        >(e@),
{
    let mut messages: Vec<Message> = Vec::new();
    if let Some(Json::List(items)) = value {
        let ghost empty = turns(messages@);
        match read_messages(items, false, &mut messages) {
            Err(e) => return Err(e),
            Ok(()) => {
                assert(empty =~= Seq::<(Role, Seq<char>)>::empty());
                assert(turns(messages@) =~= try_map(
                    tree(Json::List(*items))->List_0,
                    message_reader(false),
                )->Ok_0);
            },
        }
        if messages.len() > 0 {
            return Ok(messages);
        }
    }
    Err(OpenAiError::invalid("messages must be a nonempty array", Some("messages")))
}

pub(crate) fn response_input(value: Option<&Json>, instructions: Option<&str>) -> (r: Result<
    Vec<Message>,
    OpenAiError,
>)
    ensures
        r matches Ok(messages) ==> input_outcome(optional_tree(value), optional(instructions))
            == Ok::<Seq<(Role, Seq<char>)>, Fault>(turns(messages@)),
        r matches Err(e) ==> input_outcome(optional_tree(value), optional(instructions)) == Err::<
            Seq<(Role, Seq<char>)>,
            Fault,
        >(e@),
{
    let mut messages: Vec<Message> = Vec::new();
    if let Some(text) = instructions {
        messages.push(Message { role: Role::System, text: text.to_owned() });
    }
    let ghost start = lead(optional(instructions));
    assert(turns(messages@) =~= start);
    match value {
        Some(Json::Text(text)) => {
            messages.push(Message { role: Role::User, text: text.clone() });
            assert(turns(messages@) =~= start + seq![(Role::User, text@)]);
        },
        Some(Json::List(items)) => {
            match read_messages(items, true, &mut messages) {
                Err(e) => return Err(e),
                Ok(()) => {},
            }
        },
        _ => {
            return Err(OpenAiError::invalid("input must be a string or an array", Some("input")));
        },
    }
    let mut i: usize = 0;
    while i < messages.len()
        invariant
            i <= messages@.len(),
            forall|k: int| 0 <= k < i ==> (#[trigger] turns(messages@)[k]).0 == Role::System,
        ensures
            i <= messages@.len(),
            i < messages@.len() ==> turns(messages@)[i as int].0 != Role::System,
            forall|k: int| 0 <= k < i ==> (#[trigger] turns(messages@)[k]).0 == Role::System,
        decreases messages@.len() - i,
    {
        if messages[i].role != Role::System {
            assert(turns(messages@)[i as int].0 != Role::System);
            break;
        }
        i += 1;
    }
    if i < messages.len() {
        assert(asks(turns(messages@)));
        Ok(messages)
    } else {
        Err(OpenAiError::invalid("input needs at least one message", Some("input")))
    }
}

} // verus!
