use jevons::generation::{GenerationPrompt, Message, Role};
use jevons::json::Json;
use jevons::openai::error::OpenAiError;
use jevons::openai::request::{Api, OpenAiRequest};

fn parse(api: Api, body: &str) -> Result<OpenAiRequest, OpenAiError> {
    OpenAiRequest::parse(api, &Json::parse(body).unwrap())
}

/// A conversation with more members, such as `"max_tokens": 32`.
fn chat(extra: &str) -> Result<OpenAiRequest, OpenAiError> {
    let separator = if extra.is_empty() { "" } else { ", " };
    let body = format!(
        r#"{{"model": "m", "messages": [
            {{"role": "developer", "content": "Be brief."}},
            {{"role": "user", "content": [{{"type": "text", "text": "Hi"}}, {{"type": "text", "text": "!"}}]}},
            {{"role": "assistant", "content": "Hello."}},
            {{"role": "user", "content": "Again"}}
        ]{separator}{extra}}}"#
    );
    parse(Api::ChatCompletions, &body)
}

#[test]
fn chat_messages_map_roles_and_text_parts() {
    let request = chat(
        r#""max_tokens": 32, "stop": "\n\n", "stream": true,
            "stream_options": {"include_usage": true}, "temperature": 0.7, "seed": 5"#,
    )
    .unwrap();
    let messages = match &request.generation.prompt {
        GenerationPrompt::Chat(messages) => messages,
        GenerationPrompt::Text(_) => panic!(),
    };
    let roles: Vec<_> = messages.iter().map(|m| m.role).collect();
    assert_eq!(
        roles,
        [Role::System, Role::User, Role::Assistant, Role::User]
    );
    assert_eq!(messages[1].text, "Hi!");
    assert_eq!(request.generation.max_tokens, Some(32));
    assert_eq!(request.generation.stop, ["\n\n"]);
    assert!(request.stream && request.include_usage);
    assert_eq!(request.seed, Some(5));
    assert_eq!(
        chat(r#""max_completion_tokens": 8, "max_tokens": 99"#)
            .unwrap()
            .generation
            .max_tokens,
        Some(8)
    );
    assert_eq!(
        chat(r#""reasoning_effort": "low""#).unwrap().generation.think,
        256
    );
}

#[test]
fn unsupported_parameters_are_rejected_not_ignored() {
    for (extra, param) in [
        (r#""n": 2"#, "n"),
        (r#""tools": [{"type": "function"}]"#, "tools"),
        (r#""logprobs": true"#, "logprobs"),
        (
            r#""response_format": {"type": "json_object"}"#,
            "response_format",
        ),
        (r#""frequency_penalty": 0.5"#, "frequency_penalty"),
        (r#""surprise": 1"#, "surprise"),
    ] {
        let error = chat(extra).unwrap_err();
        assert_eq!(error.param.as_deref(), Some(param), "{error:?}");
        assert_eq!(error.status, 400);
    }
    for extra in [
        r#""n": 1, "tools": [], "logprobs": false, "tool_choice": "none", "user": "u""#,
        r#""response_format": {"type": "text"}, "presence_penalty": 0"#,
    ] {
        assert!(chat(extra).is_ok());
    }
    let image = r#"{"model": "m", "messages": [{"role": "user", "content": [
        {"type": "image_url", "image_url": {"url": "data:"}}]}]}"#;
    assert!(parse(Api::ChatCompletions, image).is_err());
    let tool = r#"{"model": "m", "messages": [{"role": "tool", "content": "x"}]}"#;
    assert!(parse(Api::ChatCompletions, tool).is_err());
    assert!(chat(r#""stop": ["a", "b", "c", "d", "e"]"#).is_err());
    assert!(chat(r#""max_tokens": 0"#).is_err());
}

#[test]
fn completions_take_one_text_prompt_and_default_to_16_tokens() {
    let request = parse(Api::Completions, r#"{"model": "m", "prompt": ["Once"]}"#).unwrap();
    assert_eq!(
        request.generation.prompt,
        GenerationPrompt::Text("Once".to_string())
    );
    assert_eq!(request.generation.max_tokens, Some(16));
    for bad in [
        r#"{"model": "m", "prompt": [[1, 2]]}"#,
        r#"{"model": "m", "prompt": "x", "echo": true}"#,
        r#"{"model": "m", "prompt": "x", "suffix": "y"}"#,
        r#"{"model": "m"}"#,
    ] {
        assert!(parse(Api::Completions, bad).is_err(), "{bad}");
    }
}

#[test]
fn responses_prepend_instructions_and_accept_message_items() {
    let request = parse(
        Api::Responses,
        r#"{
            "model": "m", "instructions": "Be brief.", "max_output_tokens": 20,
            "reasoning": {"effort": "medium"},
            "input": [{"role": "user", "content": [{"type": "input_text", "text": "Hi"}]},
                      {"type": "message", "role": "assistant", "content": "Hello."},
                      {"role": "user", "content": "Again"}]
        }"#,
    )
    .unwrap();
    let messages = match &request.generation.prompt {
        GenerationPrompt::Chat(messages) => messages,
        GenerationPrompt::Text(_) => panic!(),
    };
    assert_eq!(
        messages[0],
        Message {
            role: Role::System,
            text: "Be brief.".to_string()
        }
    );
    assert_eq!(messages.len(), 4);
    assert_eq!(request.generation.think, 1024);
    assert_eq!(request.generation.max_tokens, Some(20));
    let simple = parse(Api::Responses, r#"{"model": "m", "input": "Hi"}"#).unwrap();
    assert_eq!(simple.generation.max_tokens, None);
    for bad in [
        r#"{"model": "m", "input": "Hi", "previous_response_id": "resp_1"}"#,
        r#"{"model": "m", "input": [{"type": "function_call_output", "output": "x"}]}"#,
        r#"{"model": "m", "input": "Hi", "reasoning": {"summary": "auto"}}"#,
        r#"{"model": "m", "instructions": "only instructions", "input": []}"#,
    ] {
        assert!(parse(Api::Responses, bad).is_err(), "{bad}");
    }
}

#[test]
fn sampling_parameters_do_not_change_the_generation() {
    let plain = chat("").unwrap();
    let sampled = chat(r#""temperature": 1.5, "top_p": 0.5, "seed": 9"#).unwrap();
    assert_eq!(plain.generation, sampled.generation);
    assert_eq!(sampled.temperature, Some(1.5f64.to_bits()));
    assert_eq!(sampled.top_p, Some(0.5f64.to_bits()));
}

#[test]
fn error_bodies_have_the_openai_shape() {
    let error = chat(r#""n": 2"#).unwrap_err();
    let body = error.body();
    let inner = body.get("error").unwrap();
    assert_eq!(inner.text_at("param"), Some("n"));
    assert_eq!(inner.text_at("type"), Some("invalid_request_error"));
    assert_eq!(inner.text_at("code"), Some("unsupported_parameter"));
    assert!(inner.field("code").is_some());
    assert!(Json::parse("{").is_err());
}
