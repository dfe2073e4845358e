//! What holds of every request.
use crate::generation::stops_allowed;
use crate::json::Tree;
use crate::openai::error::Fault;
use crate::openai::fields::NoOp;
use crate::openai::messages::{content_outcome, message_reader, part_reader};
use crate::openai::request::{
    common_key, generation_of, known_key, request_outcome, unknown_fault, Api,
};
use crate::sequences::try_map;
use vstd::prelude::*;

verus! {

proof fn lemma_no_unknown(api: Api, members: Seq<(Seq<char>, Tree)>)
    ensures
        unknown_fault(api, members) is None <==> forall|i: int|
            0 <= i < members.len() ==> known_key(api, (#[trigger] members[i]).0),
    decreases members.len(),
{
    if members.len() > 0 {
        let rest = members.drop_first();
        lemma_no_unknown(api, rest);
        if unknown_fault(api, members) is None {
            assert forall|i: int| 0 <= i < members.len() implies known_key(
                api,
                (#[trigger] members[i]).0,
            ) by {
                if i > 0 {
                    assert(rest[i - 1] == members[i]);
                }
            }
        }
        if forall|i: int| 0 <= i < members.len() ==> known_key(api, (#[trigger] members[i]).0) {
            assert(known_key(api, members[0].0));
            assert forall|i: int| 0 <= i < rest.len() implies known_key(
                api,
                (#[trigger] rest[i]).0,
            ) by {
                assert(rest[i] == members[i + 1]);
            }
        }
    }
}

/// Parameters are rejected rather than ignored: a request that is accepted is an object all of
/// whose members are parameters that its API takes.
pub proof fn law_unknown_parameters_are_rejected(api: Api, body: Tree)
    ensures
        request_outcome(api, body) is Ok ==> body is Object && forall|i: int|
            0 <= i < body->Object_0.len() ==> known_key(api, (#[trigger] body->Object_0[i]).0),
{
    if body is Object {
        lemma_no_unknown(api, body->Object_0);
    }
}

/// Decoding is greedy: two accepted requests that differ in `temperature`, `top_p` and `seed`
/// alone ask for the same generation.
pub proof fn law_sampling_parameters_do_not_change_the_generation(api: Api, a: Tree, b: Tree)
    requires
        forall|key: Seq<char>|
            key != "temperature"@ && key != "top_p"@ && key != "seed"@ ==> #[trigger] a.present(key)
                == b.present(key),
    ensures
        generation_of(api, a) == generation_of(api, b),
{
    reveal_strlit("temperature");
    reveal_strlit("top_p");
    reveal_strlit("seed");
    reveal_strlit("messages");
    reveal_strlit("prompt");
    reveal_strlit("input");
    reveal_strlit("instructions");
    reveal_strlit("max_completion_tokens");
    reveal_strlit("max_tokens");
    reveal_strlit("max_output_tokens");
    reveal_strlit("reasoning_effort");
    reveal_strlit("reasoning");
    reveal_strlit("stop");
    assert("messages"@.len() == 8 && "prompt"@.len() == 6 && "input"@.len() == 5);
    assert("temperature"@.len() == 11 && "top_p"@.len() == 5 && "seed"@.len() == 4);
    assert("input"@[0] != "top_p"@[0]);
    assert("stop"@[1] != "seed"@[1]);
    assert(a.present("messages"@) == b.present("messages"@));
    assert(a.present("prompt"@) == b.present("prompt"@));
    assert(a.present("input"@) == b.present("input"@));
    assert(a.present("instructions"@) == b.present("instructions"@));
    assert(a.present("max_completion_tokens"@) == b.present("max_completion_tokens"@));
    assert(a.present("max_tokens"@) == b.present("max_tokens"@));
    assert(a.present("max_output_tokens"@) == b.present("max_output_tokens"@));
    assert(a.present("reasoning_effort"@) == b.present("reasoning_effort"@));
    assert(a.present("reasoning"@) == b.present("reasoning"@));
    assert(a.present("stop"@) == b.present("stop"@));
}

proof fn lemma_try_map_failure<A, B>(items: Seq<A>, f: spec_fn(A) -> Result<B, Fault>)
    requires
        forall|a: A| (#[trigger] f(a)) matches Err(e) ==> e.status == 400,
    ensures
        try_map(items, f) matches Err(e) ==> e.status == 400,
    decreases items.len(),
{
    if items.len() > 0 {
        lemma_try_map_failure(items.drop_last(), f);
        assert(f(items.last()) matches Err(e) ==> e.status == 400);
    }
}

proof fn lemma_content_status(content: Tree, response: bool, param: Seq<char>)
    ensures
        content_outcome(content, response, param) matches Err(e) ==> e.status == 400,
{
    if content is List {
        lemma_try_map_failure(content->List_0, part_reader(response, param));
    }
}

proof fn lemma_messages_status(items: Seq<Tree>, response: bool)
    ensures
        try_map(items, message_reader(response)) matches Err(e) ==> e.status == 400,
{
    let f = message_reader(response);
    assert forall|item: Tree| (#[trigger] f(item)) matches Err(e) ==> e.status == 400 by {
        lemma_content_status(item.at("content"@), false, "messages"@);
        lemma_content_status(item.at("content"@), true, "input"@);
    }
    lemma_try_map_failure(items, f);
}

proof fn lemma_unknown_status(api: Api, members: Seq<(Seq<char>, Tree)>)
    ensures
        unknown_fault(api, members) matches Some(e) ==> e.status == 400,
    decreases members.len(),
{
    if members.len() > 0 {
        lemma_unknown_status(api, members.drop_first());
    }
}

/// Every rejected request is the client's fault: it is answered with status 400.
pub proof fn law_rejections_have_status_400(api: Api, body: Tree)
    ensures
        request_outcome(api, body) matches Err(fault) ==> fault.status == 400,
{
    if body is Object {
        lemma_unknown_status(api, body->Object_0);
    }
    if let Some(Tree::List(items)) = body.present("messages"@) {
        lemma_messages_status(items, false);
    }
    if let Some(Tree::List(items)) = body.present("input"@) {
        lemma_messages_status(items, true);
    }
}

/// The parameter is not there, or at a value at which it has no effect.
pub open spec fn idle(body: Tree, key: Seq<char>, accepted: NoOp) -> bool {
    body.present(key) matches Some(value) ==> accepted.admits(value)
}

/// Tools, several choices and log probabilities are rejected: an accepted request asks for none of
/// them in a parameter that its API takes.
pub proof fn law_tools_choices_and_log_probabilities_are_rejected(api: Api, body: Tree)
    ensures
        request_outcome(api, body) is Ok ==> match api {
            Api::ChatCompletions => {
                &&& idle(body, "tools"@, NoOp::EmptyList)
                &&& idle(body, "tool_choice"@, NoOp::NoneOrAuto)
                &&& idle(body, "n"@, NoOp::One)
                &&& idle(body, "logprobs"@, NoOp::False)
                &&& idle(body, "top_logprobs"@, NoOp::Zero)
            },
            Api::Completions => {
                &&& idle(body, "n"@, NoOp::One)
                &&& idle(body, "best_of"@, NoOp::One)
                &&& idle(body, "logprobs"@, NoOp::Zero)
            },
            Api::Responses => {
                &&& idle(body, "tools"@, NoOp::EmptyList)
                &&& idle(body, "tool_choice"@, NoOp::NoneOrAuto)
                &&& idle(body, "top_logprobs"@, NoOp::Zero)
            },
        },
{
}

/// Nothing is stored: an accepted request of the Responses API refers to no earlier response and
/// does not run in the background.
pub proof fn law_responses_are_not_stored(body: Tree)
    ensures
        request_outcome(Api::Responses, body) is Ok ==> {
            &&& body.present("previous_response_id"@) is None
            &&& body.present("conversation"@) is None
            &&& idle(body, "background"@, NoOp::False)
        },
{
}

/// An accepted request names at most four stop sequences, none of them empty.
pub proof fn law_accepted_stops_are_allowed(api: Api, body: Tree)
    ensures
        request_outcome(api, body) matches Ok(request) ==> stops_allowed(request.generation.stop),
{
}

/// A parameter that some API of this server takes.
pub open spec fn is_parameter(api: Api, key: Seq<char>) -> bool {
    let common = seq![
        "model"@,
        "stream"@,
        "seed"@,
        "temperature"@,
        "top_p"@,
        "user"@,
        "metadata"@,
        "store"@,
        "service_tier"@,
        "safety_identifier"@,
        "prompt_cache_key"@,
    ];
    let own = match api {
        Api::ChatCompletions => seq![
            "messages"@,
            "max_completion_tokens"@,
            "max_tokens"@,
            "reasoning_effort"@,
            "stop"@,
            "n"@,
            "logprobs"@,
            "top_logprobs"@,
            "frequency_penalty"@,
            "presence_penalty"@,
            "tools"@,
            "tool_choice"@,
            "parallel_tool_calls"@,
            "response_format"@,
            "modalities"@,
            "logit_bias"@,
            "stream_options"@,
        ],
        Api::Completions => seq![
            "prompt"@,
            "max_tokens"@,
            "stop"@,
            "n"@,
            "best_of"@,
            "echo"@,
            "logprobs"@,
            "frequency_penalty"@,
            "presence_penalty"@,
            "suffix"@,
            "logit_bias"@,
            "stream_options"@,
        ],
        Api::Responses => seq![
            "instructions"@,
            "input"@,
            "max_output_tokens"@,
            "reasoning"@,
            "previous_response_id"@,
            "conversation"@,
            "background"@,
            "tools"@,
            "tool_choice"@,
            "parallel_tool_calls"@,
            "text"@,
            "truncation"@,
            "include"@,
            "top_logprobs"@,
        ],
    };
    common.contains(key) || own.contains(key)
}

/// Only listed parameters are taken: a request with any other is rejected.
pub proof fn law_only_listed_parameters_are_taken(api: Api, body: Tree, i: int)
    requires
        body is Object,
        0 <= i < body->Object_0.len(),
        !is_parameter(api, body->Object_0[i].0),
    ensures
        request_outcome(api, body) is Err,
{
    let key = body->Object_0[i].0;
    law_unknown_parameters_are_rejected(api, body);
    if known_key(api, key) {
        lemma_parameter(api, key);
    }
}

proof fn lemma_parameter(api: Api, key: Seq<char>)
    requires
        known_key(api, key),
    ensures
        is_parameter(api, key),
{
    let common = seq![
        "model"@,
        "stream"@,
        "seed"@,
        "temperature"@,
        "top_p"@,
        "user"@,
        "metadata"@,
        "store"@,
        "service_tier"@,
        "safety_identifier"@,
        "prompt_cache_key"@,
    ];
    if common_key(key) {
        assert(key == common[0] || key == common[1] || key == common[2] || key == common[3] || key
            == common[4] || key == common[5] || key == common[6] || key == common[7] || key
            == common[8] || key == common[9] || key == common[10]);
        assert(common.contains(key));
    } else {
        match api {
            Api::ChatCompletions => {
                let own = seq![
                    "messages"@,
                    "max_completion_tokens"@,
                    "max_tokens"@,
                    "reasoning_effort"@,
                    "stop"@,
                    "n"@,
                    "logprobs"@,
                    "top_logprobs"@,
                    "frequency_penalty"@,
                    "presence_penalty"@,
                    "tools"@,
                    "tool_choice"@,
                    "parallel_tool_calls"@,
                    "response_format"@,
                    "modalities"@,
                    "logit_bias"@,
                    "stream_options"@,
                ];
                assert(key == own[0] || key == own[1] || key == own[2] || key == own[3] || key
                    == own[4] || key == own[5] || key == own[6] || key == own[7] || key == own[8]
                    || key == own[9] || key == own[10] || key == own[11] || key == own[12] || key
                    == own[13] || key == own[14] || key == own[15] || key == own[16]);
                assert(own.contains(key));
            },
            Api::Completions => {
                let own = seq![
                    "prompt"@,
                    "max_tokens"@,
                    "stop"@,
                    "n"@,
                    "best_of"@,
                    "echo"@,
                    "logprobs"@,
                    "frequency_penalty"@,
                    "presence_penalty"@,
                    "suffix"@,
                    "logit_bias"@,
                    "stream_options"@,
                ];
                assert(key == own[0] || key == own[1] || key == own[2] || key == own[3] || key
                    == own[4] || key == own[5] || key == own[6] || key == own[7] || key == own[8]
                    || key == own[9] || key == own[10] || key == own[11]);
                assert(own.contains(key));
            },
            Api::Responses => {
                let own = seq![
                    "instructions"@,
                    "input"@,
                    "max_output_tokens"@,
                    "reasoning"@,
                    "previous_response_id"@,
                    "conversation"@,
                    "background"@,
                    "tools"@,
                    "tool_choice"@,
                    "parallel_tool_calls"@,
                    "text"@,
                    "truncation"@,
                    "include"@,
                    "top_logprobs"@,
                ];
                assert(key == own[0] || key == own[1] || key == own[2] || key == own[3] || key
                    == own[4] || key == own[5] || key == own[6] || key == own[7] || key == own[8]
                    || key == own[9] || key == own[10] || key == own[11] || key == own[12] || key
                    == own[13]);
                assert(own.contains(key));
            },
        }
    }
}

/// The parameters that ask for what is not generated are refused at every value at which they have an
/// effect: several choices, log probabilities, penalties, tools, structured output, a bias, an echo, a
/// suffix, and extra output.
pub proof fn law_effects_that_are_not_implemented_are_refused(api: Api, body: Tree)
    ensures
        request_outcome(api, body) is Ok ==> match api {
            Api::ChatCompletions => {
                &&& body.present("n"@) matches Some(v) ==> v == Tree::Unsigned(1)
                &&& body.present("logprobs"@) matches Some(v) ==> v == Tree::Bool(false)
                &&& body.present("top_logprobs"@) matches Some(v) ==> v == Tree::Unsigned(0)
                &&& body.present("tools"@) matches Some(v) ==> v == Tree::List(Seq::empty())
                &&& body.present("logit_bias"@) matches Some(v) ==> v == Tree::List(Seq::empty())
                &&& body.present("parallel_tool_calls"@) matches Some(v) ==> v is Bool
                &&& body.present("modalities"@) matches Some(v) ==> v == Tree::List(
                    seq![Tree::Text("text"@)],
                )
            },
            Api::Completions => {
                &&& body.present("n"@) matches Some(v) ==> v == Tree::Unsigned(1)
                &&& body.present("best_of"@) matches Some(v) ==> v == Tree::Unsigned(1)
                &&& body.present("echo"@) matches Some(v) ==> v == Tree::Bool(false)
                &&& body.present("logprobs"@) matches Some(v) ==> v == Tree::Unsigned(0)
                &&& body.present("suffix"@) is None
            },
            Api::Responses => {
                &&& body.present("tools"@) matches Some(v) ==> v == Tree::List(Seq::empty())
                &&& body.present("background"@) matches Some(v) ==> v == Tree::Bool(false)
                &&& body.present("truncation"@) matches Some(v) ==> v == Tree::Text("disabled"@)
                &&& body.present("include"@) matches Some(v) ==> v == Tree::List(Seq::empty())
                &&& body.present("top_logprobs"@) matches Some(v) ==> v == Tree::Unsigned(0)
                &&& body.present("previous_response_id"@) is None
                &&& body.present("conversation"@) is None
            },
        },
{
}

} // verus!
