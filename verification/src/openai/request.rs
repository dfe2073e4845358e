//! Request validation for the three APIs.
use crate::generation::{
    stops_allowed, GenerationPrompt, GenerationRequest, PromptModel, RequestModel,
};
use crate::json::{Json, Tree};
use crate::openai::error::{invalid_fault, unsupported_fault, Fault, OpenAiError};
use crate::openai::fields::{
    boolean_fault, boolean_field, boolean_value, effect_fault, first, integer_fault,
    integer_field, integer_value, number_fault, number_field, number_value, only, optional,
    optional_owned, string_fault, string_field, string_value, NoOp,
};
use crate::openai::messages::{
    chat_messages, chat_outcome, effort_budget, effort_fault, input_outcome, optional_budget,
    optional_tree, response_input, stop_outcome, stop_sequences,
};
use crate::sequences::texts;
use crate::text::same_text;
use vstd::prelude::*;
use vstd::string::*;

verus! {

#[derive(Clone, Copy, Debug, PartialEq, Eq, Structural)]
pub enum Api {
    /// `POST /v1/chat/completions`
    ChatCompletions,
    /// `POST /v1/completions` (legacy text completions)
    Completions,
    /// `POST /v1/responses`
    Responses,
}

/// A validated request: the generation to run and how to answer.
#[derive(Debug)]
pub struct OpenAiRequest {
    pub api: Api,
    pub model: String,
    pub generation: GenerationRequest,
    pub stream: bool,
    /// Chat and text completions: add a usage chunk to the stream.
    pub include_usage: bool,
    pub seed: Option<u64>,
    /// Echoed by the Responses API.
    pub instructions: Option<String>,
    /// The bits of the double given, echoed by the Responses API.
    pub temperature: Option<u64>,
    /// The bits of the double given, echoed by the Responses API.
    pub top_p: Option<u64>,
    pub effort: Option<String>,
    pub metadata: Json,
}

/// The mathematical model of an [`OpenAiRequest`].
#[verifier::ext_equal]
pub struct Parsed {
    pub api: Api,
    pub model: Seq<char>,
    pub generation: RequestModel,
    pub stream: bool,
    pub include_usage: bool,
    pub seed: Option<u64>,
    pub instructions: Option<Seq<char>>,
    pub temperature: Option<u64>,
    pub top_p: Option<u64>,
    pub effort: Option<Seq<char>>,
    pub metadata: Tree,
}

impl View for OpenAiRequest {
    type V = Parsed;

    open spec fn view(&self) -> Parsed {
        Parsed {
            api: self.api,
            model: self.model@,
            generation: self.generation@,
            stream: self.stream,
            include_usage: self.include_usage,
            seed: self.seed,
            instructions: optional_owned(self.instructions),
            temperature: self.temperature,
            top_p: self.top_p,
            effort: optional_owned(self.effort),
            metadata: self.metadata@,
        }
    }
}

// ---------------------------------------------------------------------------------------------
// What each API takes
// ---------------------------------------------------------------------------------------------

/// Parameters every API takes.
pub open spec fn common_key(key: Seq<char>) -> bool {
    ||| key == "model"@ || key == "stream"@ || key == "seed"@ || key == "temperature"@
    ||| key == "top_p"@ || key == "user"@ || key == "metadata"@ || key == "store"@
    ||| key == "service_tier"@ || key == "safety_identifier"@ || key == "prompt_cache_key"@
}

/// Parameters of Chat Completions.
pub open spec fn chat_key(key: Seq<char>) -> bool {
    ||| key == "messages"@ || key == "max_completion_tokens"@ || key == "max_tokens"@
    ||| key == "reasoning_effort"@ || key == "stop"@ || key == "n"@ || key == "logprobs"@
    ||| key == "top_logprobs"@ || key == "frequency_penalty"@ || key == "presence_penalty"@
    ||| key == "tools"@ || key == "tool_choice"@ || key == "parallel_tool_calls"@
    ||| key == "response_format"@ || key == "modalities"@ || key == "logit_bias"@
    ||| key == "stream_options"@
}

/// Parameters of Completions.
pub open spec fn completion_key(key: Seq<char>) -> bool {
    ||| key == "prompt"@ || key == "max_tokens"@ || key == "stop"@ || key == "n"@
    ||| key == "best_of"@ || key == "echo"@ || key == "logprobs"@ || key == "frequency_penalty"@
    ||| key == "presence_penalty"@ || key == "suffix"@ || key == "logit_bias"@
    ||| key == "stream_options"@
}

/// Parameters of Responses.
pub open spec fn response_key(key: Seq<char>) -> bool {
    ||| key == "instructions"@ || key == "input"@ || key == "max_output_tokens"@
    ||| key == "reasoning"@ || key == "previous_response_id"@ || key == "conversation"@
    ||| key == "background"@ || key == "tools"@ || key == "tool_choice"@
    ||| key == "parallel_tool_calls"@ || key == "text"@ || key == "truncation"@
    ||| key == "include"@ || key == "top_logprobs"@
}

/// The parameters `api` takes.
pub open spec fn known_key(api: Api, key: Seq<char>) -> bool {
    common_key(key) || match api {
        Api::ChatCompletions => chat_key(key),
        Api::Completions => completion_key(key),
        Api::Responses => response_key(key),
    }
}

/// The first member that `api` does not take.
pub open spec fn unknown_fault(api: Api, members: Seq<(Seq<char>, Tree)>) -> Option<Fault>
    decreases members.len(),
{
    if members.len() == 0 {
        None
    } else if !known_key(api, members[0].0) {
        Some(unsupported_fault(members[0].0, "unknown parameter"@))
    } else {
        unknown_fault(api, members.drop_first())
    }
}

/// Faults of the parameters every API takes, in the order in which they are looked at.
pub open spec fn common_fault(body: Tree) -> Option<Fault> {
    first(
        string_fault(body, "model"@),
        first(
            if string_value(body, "model"@) is None {
                Some(invalid_fault("model is required"@, Some("model"@)))
            } else {
                None
            },
            first(
                boolean_fault(body, "stream"@),
                first(
                    integer_fault(body, "seed"@, 0, u64::MAX),
                    first(number_fault(body, "temperature"@, 2), number_fault(body, "top_p"@, 1)),
                ),
            ),
        ),
    )
}

/// A token limit: an integer from 1 to 2^32 - 1.
pub open spec fn limit_fault(body: Tree, key: Seq<char>) -> Option<Fault> {
    integer_fault(body, key, 1, 0xFFFF_FFFF)
}

/// The fault of an outcome.
pub open spec fn fault_of<T>(outcome: Result<T, Fault>) -> Option<Fault> {
    match outcome {
        Ok(_) => None,
        Err(fault) => Some(fault),
    }
}

/// Faults of what a chat asks for beyond its text, in order.
pub open spec fn chat_effects(body: Tree) -> Option<Fault> {
    first(
        effect_fault(body, "n"@, NoOp::One, "only one choice is generated"@),
        first(
            effect_fault(body, "logprobs"@, NoOp::False, "log probabilities"@),
            first(
                effect_fault(body, "top_logprobs"@, NoOp::Zero, "log probabilities"@),
                first(
                    effect_fault(body, "frequency_penalty"@, NoOp::AnyZero, "penalties"@),
                    first(
                        effect_fault(body, "presence_penalty"@, NoOp::AnyZero, "penalties"@),
                        first(
                            tool_effects(body),
                            first(
                                effect_fault(
                                    body,
                                    "response_format"@,
                                    NoOp::TextType,
                                    "structured output"@,
                                ),
                                first(
                                    effect_fault(
                                        body,
                                        "modalities"@,
                                        NoOp::TextList,
                                        "only text output"@,
                                    ),
                                    effect_fault(
                                        body,
                                        "logit_bias"@,
                                        NoOp::EmptyList,
                                        "logit bias"@,
                                    ),
                                ),
                            ),
                        ),
                    ),
                ),
            ),
        ),
    )
}

/// Faults of tool parameters, in order.
pub open spec fn tool_effects(body: Tree) -> Option<Fault> {
    first(
        effect_fault(body, "tools"@, NoOp::EmptyList, "tools"@),
        first(
            effect_fault(body, "tool_choice"@, NoOp::NoneOrAuto, "tools"@),
            effect_fault(body, "parallel_tool_calls"@, NoOp::Boolean, "tools"@),
        ),
    )
}

/// Faults of a chat, in order.
pub open spec fn chat_fault(body: Tree) -> Option<Fault> {
    first(
        fault_of(chat_outcome(body.present("messages"@))),
        first(
            limit_fault(body, "max_completion_tokens"@),
            first(
                limit_fault(body, "max_tokens"@),
                first(
                    string_fault(body, "reasoning_effort"@),
                    first(
                        effort_fault(
                            string_value(body, "reasoning_effort"@),
                            "reasoning_effort"@,
                        ),
                        first(
                            fault_of(stop_outcome(body.present("stop"@))),
                            chat_effects(body),
                        ),
                    ),
                ),
            ),
        ),
    )
}

/// The prompt of a text completion: a string, or an array that holds one string.
pub open spec fn prompt_outcome(value: Option<Tree>) -> Result<Seq<char>, Fault> {
    match value {
        Some(Tree::Text(s)) => Ok(s),
        Some(Tree::List(items)) => if items.len() == 1 && items[0] is Text {
            Ok(items[0].text_or_empty())
        } else {
            Err(unsupported_fault("prompt"@, "only one text prompt"@))
        },
        _ => Err(invalid_fault("prompt must be a string"@, Some("prompt"@))),
    }
}

/// Faults of what a text completion asks for beyond its text, in order.
pub open spec fn completion_effects(body: Tree) -> Option<Fault> {
    first(
        effect_fault(body, "n"@, NoOp::One, "only one choice is generated"@),
        first(
            effect_fault(body, "best_of"@, NoOp::One, "only one choice is generated"@),
            first(
                effect_fault(body, "echo"@, NoOp::False, "echoing the prompt"@),
                first(
                    effect_fault(body, "logprobs"@, NoOp::Zero, "log probabilities"@),
                    first(
                        effect_fault(body, "frequency_penalty"@, NoOp::AnyZero, "penalties"@),
                        first(
                            effect_fault(body, "presence_penalty"@, NoOp::AnyZero, "penalties"@),
                            first(
                                effect_fault(body, "suffix"@, NoOp::Nothing, "insertion"@),
                                effect_fault(
                                    body,
                                    "logit_bias"@,
                                    NoOp::EmptyList,
                                    "logit bias"@,
                                ),
                            ),
                        ),
                    ),
                ),
            ),
        ),
    )
}

/// Faults of a text completion, in order.
pub open spec fn completion_fault(body: Tree) -> Option<Fault> {
    first(
        fault_of(prompt_outcome(body.present("prompt"@))),
        first(
            limit_fault(body, "max_tokens"@),
            first(fault_of(stop_outcome(body.present("stop"@))), completion_effects(body)),
        ),
    )
}

/// Faults of what a response asks for beyond its text, in order.
pub open spec fn response_effects(body: Tree) -> Option<Fault> {
    first(
        effect_fault(
            body,
            "previous_response_id"@,
            NoOp::Nothing,
            "responses are not stored"@,
        ),
        first(
            effect_fault(body, "conversation"@, NoOp::Nothing, "responses are not stored"@),
            first(
                effect_fault(body, "background"@, NoOp::False, "background responses"@),
                first(
                    tool_effects(body),
                    first(
                        effect_fault(body, "text"@, NoOp::TextFormat, "structured output"@),
                        first(
                            effect_fault(body, "truncation"@, NoOp::Disabled, "truncation"@),
                            first(
                                effect_fault(body, "include"@, NoOp::EmptyList, "extra output"@),
                                effect_fault(
                                    body,
                                    "top_logprobs"@,
                                    NoOp::Zero,
                                    "log probabilities"@,
                                ),
                            ),
                        ),
                    ),
                ),
            ),
        ),
    )
}

/// The `reasoning` object of a response, or null.
pub open spec fn reasoning(body: Tree) -> Tree {
    match body.present("reasoning"@) {
        Some(value) => value,
        None => Tree::Null,
    }
}

/// The effort a response names.
pub open spec fn response_effort(body: Tree) -> Option<Seq<char>> {
    match reasoning(body).at("effort"@) {
        Tree::Text(s) => Some(s),
        _ => None,
    }
}

/// Faults of a response, in order.
pub open spec fn response_fault(body: Tree) -> Option<Fault> {
    first(
        string_fault(body, "instructions"@),
        first(
            fault_of(
                input_outcome(body.present("input"@), string_value(body, "instructions"@)),
            ),
            first(
                limit_fault(body, "max_output_tokens"@),
                first(
                    if reasoning(body).present("summary"@) is Some {
                        Some(
                            unsupported_fault("reasoning.summary"@, "thoughts stay internal"@),
                        )
                    } else {
                        None
                    },
                    first(
                        effort_fault(response_effort(body), "reasoning.effort"@),
                        response_effects(body),
                    ),
                ),
            ),
        ),
    )
}

/// The first fault of a request body, in the order in which its parts are looked at.
pub open spec fn request_fault(api: Api, body: Tree) -> Option<Fault> {
    match body {
        Tree::Object(members) => first(
            common_fault(body),
            first(
                match api {
                    Api::ChatCompletions => chat_fault(body),
                    Api::Completions => completion_fault(body),
                    Api::Responses => response_fault(body),
                },
                unknown_fault(api, members),
            ),
        ),
        _ => Some(invalid_fault("The request body must be a JSON object"@, None)),
    }
}

/// What a stream option asks for.
pub open spec fn usage_wanted(body: Tree) -> bool {
    match body.present("stream_options"@) {
        Some(options) => options.at("include_usage"@) == Tree::Bool(true),
        None => false,
    }
}

/// A token limit as a count.
pub open spec fn limit(body: Tree, key: Seq<char>) -> Option<usize> {
    match integer_value(body, key) {
        Some(n) => Some(n as usize),
        None => None,
    }
}

/// The effort a request names.
pub open spec fn effort_named(api: Api, body: Tree) -> Option<Seq<char>> {
    match api {
        Api::ChatCompletions => string_value(body, "reasoning_effort"@),
        Api::Completions => None,
        Api::Responses => response_effort(body),
    }
}

/// The generation that a request without faults asks for. The newer name of the chat's token
/// limit wins, and text completions default to 16 tokens.
pub open spec fn generation_of(api: Api, body: Tree) -> RequestModel {
    RequestModel {
        prompt: match api {
            Api::ChatCompletions => PromptModel::Chat(
                chat_outcome(body.present("messages"@))->Ok_0,
            ),
            Api::Completions => PromptModel::Text(prompt_outcome(body.present("prompt"@))->Ok_0),
            Api::Responses => PromptModel::Chat(
                input_outcome(
                    body.present("input"@),
                    string_value(body, "instructions"@),
                )->Ok_0,
            ),
        },
        max_tokens: match api {
            Api::ChatCompletions => match limit(body, "max_completion_tokens"@) {
                Some(n) => Some(n),
                None => limit(body, "max_tokens"@),
            },
            Api::Completions => match limit(body, "max_tokens"@) {
                Some(n) => Some(n),
                None => Some(16),
            },
            Api::Responses => limit(body, "max_output_tokens"@),
        },
        think: effort_budget(effort_named(api, body)),
        stop: match api {
            Api::Responses => Seq::empty(),
            _ => stop_outcome(body.present("stop"@))->Ok_0,
        },
    }
}

/// What a request without faults says.
pub open spec fn request_of(api: Api, body: Tree) -> Parsed {
    Parsed {
        api,
        model: string_value(body, "model"@)->Some_0,
        generation: generation_of(api, body),
        stream: boolean_value(body, "stream"@),
        include_usage: api != Api::Responses && usage_wanted(body),
        seed: integer_value(body, "seed"@),
        instructions: match api {
            Api::Responses => string_value(body, "instructions"@),
            _ => None,
        },
        temperature: number_value(body, "temperature"@, 2),
        top_p: number_value(body, "top_p"@, 1),
        effort: effort_named(api, body),
        metadata: body.at("metadata"@),
    }
}

/// What parsing a request body gives.
pub open spec fn request_outcome(api: Api, body: Tree) -> Result<Parsed, Fault> {
    match request_fault(api, body) {
        Some(fault) => Err(fault),
        None => Ok(request_of(api, body)),
    }
}

// ---------------------------------------------------------------------------------------------
// Parsing
// ---------------------------------------------------------------------------------------------

/// Whether `api` takes the parameter `key`.
fn knows(api: Api, key: &str) -> (r: bool)
    ensures
        r == known_key(api, key@),
{
    let common: bool = same_text(key, "model") || same_text(key, "stream") || same_text(key, "seed")
        || same_text(key, "temperature") || same_text(key, "top_p") || same_text(key, "user")
        || same_text(key, "metadata") || same_text(key, "store") || same_text(key, "service_tier")
        || same_text(key, "safety_identifier") || same_text(key, "prompt_cache_key");
    common || match api {
        Api::ChatCompletions => same_text(key, "messages") || same_text(key, "max_completion_tokens")
            || same_text(key, "max_tokens") || same_text(key, "reasoning_effort") || same_text(
            key,
            "stop",
        ) || same_text(key, "n") || same_text(key, "logprobs") || same_text(key, "top_logprobs")
            || same_text(key, "frequency_penalty") || same_text(key, "presence_penalty")
            || same_text(key, "tools") || same_text(key, "tool_choice") || same_text(
            key,
            "parallel_tool_calls",
        ) || same_text(key, "response_format") || same_text(key, "modalities") || same_text(
            key,
            "logit_bias",
        ) || same_text(key, "stream_options"),
        Api::Completions => same_text(key, "prompt") || same_text(key, "max_tokens") || same_text(
            key,
            "stop",
        ) || same_text(key, "n") || same_text(key, "best_of") || same_text(key, "echo")
            || same_text(key, "logprobs") || same_text(key, "frequency_penalty") || same_text(
            key,
            "presence_penalty",
        ) || same_text(key, "suffix") || same_text(key, "logit_bias") || same_text(
            key,
            "stream_options",
        ),
        Api::Responses => same_text(key, "instructions") || same_text(key, "input") || same_text(
            key,
            "max_output_tokens",
        ) || same_text(key, "reasoning") || same_text(key, "previous_response_id") || same_text(
            key,
            "conversation",
        ) || same_text(key, "background") || same_text(key, "tools") || same_text(
            key,
            "tool_choice",
        ) || same_text(key, "parallel_tool_calls") || same_text(key, "text") || same_text(
            key,
            "truncation",
        ) || same_text(key, "include") || same_text(key, "top_logprobs"),
    }
}

/// Rejects the first member that `api` does not take.
fn finish(api: Api, body: &Json) -> (r: Result<(), OpenAiError>)
    requires
        body@ is Object,
    ensures
        r is Ok ==> unknown_fault(api, body@->Object_0) is None,
        r matches Err(e) ==> unknown_fault(api, body@->Object_0) == Some(e@),
{
    let ghost model = body@->Object_0;
    if let Json::Object(members) = body {
        let mut i: usize = 0;
        proof {
            assert(model.skip(0) =~= model);
        }
        while i < members.len()
            invariant
                i <= members@.len(),
                model == body@->Object_0,
                model.len() == members@.len(),
                forall|k: int|
                    0 <= k < model.len() ==> (#[trigger] model[k]).0 == members@[k].0@,
                unknown_fault(api, model) == unknown_fault(api, model.skip(i as int)),
            decreases members@.len() - i,
        {
            proof {
                assert(model.skip(i as int)[0] == model[i as int]);
                assert(model.skip(i as int).drop_first() =~= model.skip(i + 1));
            }
            if !knows(api, members[i].0.as_str()) {
                return Err(OpenAiError::unsupported(members[i].0.as_str(), "unknown parameter"));
            }
            i += 1;
        }
    }
    Ok(())
}

/// The parts of a request that differ between the APIs.
struct Body {
    prompt: GenerationPrompt,
    max_tokens: Option<u64>,
    think: usize,
    stop: Vec<String>,
    instructions: Option<String>,
    effort: Option<String>,
}

impl Body {
    /// What these parts say of `body`.
    spec fn matches_body(self, api: Api, body: Tree) -> bool {
        &&& self.prompt@ == generation_of(api, body).prompt
        &&& self.max_tokens matches Some(n) ==> n <= 0xFFFF_FFFF
        &&& generation_of(api, body).max_tokens == match self.max_tokens {
            Some(n) => Some(n as usize),
            None => None,
        }
        &&& self.think == generation_of(api, body).think
        &&& texts(self.stop@) == generation_of(api, body).stop
        &&& optional_owned(self.instructions) == request_of(api, body).instructions
        &&& optional_owned(self.effort) == effort_named(api, body)
    }
}

fn owned(text: Option<&str>) -> (r: Option<String>)
    ensures
        optional_owned(r) == optional(text),
{
    match text {
        Some(s) => Some(s.to_owned()),
        None => None,
    }
}

/// Rejects tool parameters with an effect.
fn tools(body: &Json) -> (r: Result<(), OpenAiError>)
    ensures
        r is Ok ==> tool_effects(body@) is None,
        r matches Err(e) ==> tool_effects(body@) == Some(e@),
{
    only(body, "tools", NoOp::EmptyList, "tools")?;
    only(body, "tool_choice", NoOp::NoneOrAuto, "tools")?;
    only(body, "parallel_tool_calls", NoOp::Boolean, "tools")
}

/// Rejects chat parameters with an effect that is not implemented.
fn chat_only(body: &Json) -> (r: Result<(), OpenAiError>)
    ensures
        r is Ok ==> chat_effects(body@) is None,
        r matches Err(e) ==> chat_effects(body@) == Some(e@),
{
    only(body, "n", NoOp::One, "only one choice is generated")?;
    only(body, "logprobs", NoOp::False, "log probabilities")?;
    only(body, "top_logprobs", NoOp::Zero, "log probabilities")?;
    only(body, "frequency_penalty", NoOp::AnyZero, "penalties")?;
    only(body, "presence_penalty", NoOp::AnyZero, "penalties")?;
    tools(body)?;
    only(body, "response_format", NoOp::TextType, "structured output")?;
    only(body, "modalities", NoOp::TextList, "only text output")?;
    only(body, "logit_bias", NoOp::EmptyList, "logit bias")
}

fn chat_body(body: &Json) -> (r: Result<Body, OpenAiError>)
    ensures
        r matches Ok(parts) ==> chat_fault(body@) is None && parts.matches_body(
            Api::ChatCompletions,
            body@,
        ) && stops_allowed(texts(parts.stop@)),
        r matches Err(e) ==> chat_fault(body@) == Some(e@),
{
    let messages = chat_messages(body.field("messages"))?;
    let newer: Option<u64> = integer_field(body, "max_completion_tokens", 1, 0xFFFF_FFFF)?;
    let older: Option<u64> = integer_field(body, "max_tokens", 1, 0xFFFF_FFFF)?;
    let effort: Option<&str> = string_field(body, "reasoning_effort")?;
    let think: usize = optional_budget(effort, "reasoning_effort")?;
    let stop = stop_sequences(body.field("stop"))?;
    chat_only(body)?;
    Ok(
        Body {
            prompt: GenerationPrompt::Chat(messages),
            max_tokens: match newer {
                Some(n) => Some(n),
                None => older,
            },
            think,
            stop,
            instructions: None,
            effort: owned(effort),
        },
    )
}

fn prompt_text(value: Option<&Json>) -> (r: Result<String, OpenAiError>)
    ensures
        r matches Ok(s) ==> prompt_outcome(optional_tree(value)) == Ok::<Seq<char>, Fault>(s@),
        r matches Err(e) ==> prompt_outcome(optional_tree(value)) == Err::<Seq<char>, Fault>(e@),
{
    match value {
        Some(Json::Text(s)) => Ok(s.clone()),
        Some(Json::List(items)) => {
            if items.len() == 1 {
                proof {
                    assert(value->Some_0@->List_0[0] == items@[0]@);
                }
                if let Json::Text(s) = &items[0] {
                    return Ok(s.clone());
                }
            }
            Err(OpenAiError::unsupported("prompt", "only one text prompt"))
        },
        _ => Err(OpenAiError::invalid("prompt must be a string", Some("prompt"))),
    }
}

/// Rejects text completion parameters with an effect that is not implemented.
fn completion_only(body: &Json) -> (r: Result<(), OpenAiError>)
    ensures
        r is Ok ==> completion_effects(body@) is None,
        r matches Err(e) ==> completion_effects(body@) == Some(e@),
{
    only(body, "n", NoOp::One, "only one choice is generated")?;
    only(body, "best_of", NoOp::One, "only one choice is generated")?;
    only(body, "echo", NoOp::False, "echoing the prompt")?;
    only(body, "logprobs", NoOp::Zero, "log probabilities")?;
    only(body, "frequency_penalty", NoOp::AnyZero, "penalties")?;
    only(body, "presence_penalty", NoOp::AnyZero, "penalties")?;
    only(body, "suffix", NoOp::Nothing, "insertion")?;
    only(body, "logit_bias", NoOp::EmptyList, "logit bias")
}

fn completion_body(body: &Json) -> (r: Result<Body, OpenAiError>)
    ensures
        r matches Ok(parts) ==> completion_fault(body@) is None && parts.matches_body(
            Api::Completions,
            body@,
        ) && stops_allowed(texts(parts.stop@)),
        r matches Err(e) ==> completion_fault(body@) == Some(e@),
{
    let prompt: String = prompt_text(body.field("prompt"))?;
    let max: Option<u64> = integer_field(body, "max_tokens", 1, 0xFFFF_FFFF)?;
    let stop = stop_sequences(body.field("stop"))?;
    completion_only(body)?;
    Ok(
        Body {
            prompt: GenerationPrompt::Text(prompt),
            max_tokens: match max {
                Some(n) => Some(n),
                None => Some(16),
            },
            think: 0,
            stop,
            instructions: None,
            effort: None,
        },
    )
}

/// Rejects response parameters with an effect that is not implemented.
fn response_only(body: &Json) -> (r: Result<(), OpenAiError>)
    ensures
        r is Ok ==> response_effects(body@) is None,
        r matches Err(e) ==> response_effects(body@) == Some(e@),
{
    only(body, "previous_response_id", NoOp::Nothing, "responses are not stored")?;
    only(body, "conversation", NoOp::Nothing, "responses are not stored")?;
    only(body, "background", NoOp::False, "background responses")?;
    tools(body)?;
    only(body, "text", NoOp::TextFormat, "structured output")?;
    only(body, "truncation", NoOp::Disabled, "truncation")?;
    only(body, "include", NoOp::EmptyList, "extra output")?;
    only(body, "top_logprobs", NoOp::Zero, "log probabilities")
}

fn response_body(body: &Json) -> (r: Result<Body, OpenAiError>)
    ensures
        r matches Ok(parts) ==> response_fault(body@) is None && parts.matches_body(
            Api::Responses,
            body@,
        ) && stops_allowed(texts(parts.stop@)),
        r matches Err(e) ==> response_fault(body@) == Some(e@),
{
    let instructions: Option<&str> = string_field(body, "instructions")?;
    let messages = response_input(body.field("input"), instructions)?;
    let max: Option<u64> = integer_field(body, "max_output_tokens", 1, 0xFFFF_FFFF)?;
    let mut effort: Option<&str> = None;
    if let Some(reasoning) = body.field("reasoning") {
        if reasoning.field("summary").is_some() {
            return Err(OpenAiError::unsupported("reasoning.summary", "thoughts stay internal"));
        }
        effort = reasoning.text_at("effort");
    }
    let think: usize = optional_budget(effort, "reasoning.effort")?;
    response_only(body)?;
    let stop: Vec<String> = Vec::new();
    proof {
        assert(texts(stop@) =~= Seq::<Seq<char>>::empty());
    }
    Ok(
        Body {
            prompt: GenerationPrompt::Chat(messages),
            max_tokens: max,
            think,
            stop,
            instructions: owned(instructions),
            effort: owned(effort),
        },
    )
}

/// Whether a stream option asks for usage.
fn wants_usage(body: &Json) -> (r: bool)
    ensures
        r == usage_wanted(body@),
{
    match body.field("stream_options") {
        Some(options) => match options.get("include_usage") {
            Some(Json::Bool(b)) => *b,
            _ => false,
        },
        None => false,
    }
}

impl OpenAiRequest {
    /// Validates a request body. Parameters that would change the answer's meaning but are not
    /// implemented are rejected, as is any parameter that the API does not take.
    pub fn parse(api: Api, body: &Json) -> (r: Result<Self, OpenAiError>)
        ensures
            r matches Ok(request) ==> request_outcome(api, body@) == Ok::<Parsed, Fault>(request@),
            r matches Err(e) ==> request_outcome(api, body@) == Err::<Parsed, Fault>(e@),
    {
        if let Json::Object(_) = body {
        } else {
            return Err(OpenAiError::invalid("The request body must be a JSON object", None));
        }
        let model: &str = match string_field(body, "model")? {
            Some(s) => s,
            None => return Err(OpenAiError::invalid("model is required", Some("model"))),
        };
        let stream: bool = boolean_field(body, "stream")?;
        let seed: Option<u64> = integer_field(body, "seed", 0, u64::MAX)?;
        let temperature: Option<u64> = number_field(body, "temperature", 2)?;
        let top_p: Option<u64> = number_field(body, "top_p", 1)?;
        let metadata: Json = match body.get("metadata") {
            Some(value) => value.duplicate(),
            None => Json::Null,
        };
        let parts: Body = match api {
            Api::ChatCompletions => chat_body(body)?,
            Api::Completions => completion_body(body)?,
            Api::Responses => response_body(body)?,
        };
        finish(api, body)?;
        let include_usage: bool = match api {
            Api::Responses => false,
            _ => wants_usage(body),
        };
        let generation: GenerationRequest = GenerationRequest {
            prompt: parts.prompt,
            max_tokens: match parts.max_tokens {
                Some(n) => Some(n as usize),
                None => None,
            },
            think: parts.think,
            stop: parts.stop,
        };
        match generation.validate() {
            Ok(()) => {},
            Err(e) => {
                let message: String = e.message();
                return Err(OpenAiError::invalid(message.as_str(), None));
            },
        }
        let request: OpenAiRequest = OpenAiRequest {
            api,
            model: model.to_owned(),
            generation,
            stream,
            include_usage,
            seed,
            instructions: parts.instructions,
            temperature,
            top_p,
            effort: parts.effort,
            metadata,
        };
        Ok(request)
    }
}

} // verus!
