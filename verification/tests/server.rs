use jevons::engine::config::Decoding;
use jevons::error::Error;
use jevons::generation::{FinishReason, Generation};
use jevons::json::Json;
use jevons::server::access::{authorize, find_key};
use jevons::server::answers::{
    collect, engine_error, read_error, submitted, unanswered, unknown_model, Collected, Queued, Relay, Rendered,
    Unanswered, Update,
};
use jevons::server::error::ApiError;
use jevons::server::services::{
    check_names, check_start, chosen_id, speech_service, text_service, AppState,
};
use jevons::server::settings::{cache_dir, resolve, user_file, File, Given, Settings};

fn settings() -> Settings {
    Settings {
        config: None,
        model: None,
        arch: "auto".to_string(),
        mmproj: None,
        bind: "127.0.0.1:8080".to_string(),
        model_id: None,
        speech_model: None,
        speech_model_id: None,
        api_key: None,
        main_gpu: 0,
        context_size: 2048,
        batch_size: 512,
        no_prompt_cache: false,
        seed: 42,
        queue_capacity: 8,
        speech_queue_capacity: 8,
        no_realtime: false,
        decoding: Decoding::Diffusion,
    }
}

fn file() -> File {
    File {
        model: None,
        arch: None,
        mmproj: None,
        bind: None,
        model_id: None,
        speech_model: None,
        speech_model_id: None,
        api_key: None,
        main_gpu: None,
        context_size: None,
        batch_size: None,
        prompt_cache: None,
        seed: None,
        queue_capacity: None,
        speech_queue_capacity: None,
        realtime: None,
        decoding: None,
    }
}

fn nothing_given() -> Given {
    Given {
        model: false,
        arch: false,
        mmproj: false,
        bind: false,
        model_id: false,
        speech_model: false,
        speech_model_id: false,
        api_key: false,
        main_gpu: false,
        context_size: false,
        batch_size: false,
        no_prompt_cache: false,
        seed: false,
        queue_capacity: false,
        speech_queue_capacity: false,
        no_realtime: false,
        decoding: false,
    }
}

#[test]
fn the_file_fills_settings_that_flags_and_the_environment_do_not_give() {
    let file = File {
        model: Some("models/3b".to_string()),
        bind: Some("0.0.0.0:9000".to_string()),
        decoding: Some("self-speculation".to_string()),
        prompt_cache: Some(false),
        context_size: Some(4096),
        model_id: Some("from-file".to_string()),
        ..file()
    };
    let mut settings = settings();
    // As if only --context-size were given.
    let given = Given {
        context_size: true,
        ..nothing_given()
    };
    settings
        .merge(file, "/srv/jevons", Some("/root"), &given)
        .unwrap();
    assert_eq!(settings.model.as_deref(), Some("/srv/jevons/models/3b"));
    assert_eq!(settings.bind, "0.0.0.0:9000");
    assert_eq!(settings.decoding, Decoding::SelfSpeculation);
    assert!(settings.no_prompt_cache);
    assert_eq!(settings.context_size, 2048, "flags win over the file");
    assert_eq!(settings.model_id.as_deref(), Some("from-file"));
}

#[test]
fn the_file_sets_the_speech_model_too() {
    let file = File {
        speech_model: Some("~/models/parakeet".to_string()),
        speech_model_id: Some("dictation".to_string()),
        speech_queue_capacity: Some(3),
        realtime: Some(false),
        ..file()
    };
    let mut settings = settings();
    let given = Given {
        speech_queue_capacity: true,
        ..nothing_given()
    };
    settings.merge(file, "/srv", Some("/root"), &given).unwrap();
    assert_eq!(settings.speech_model.as_deref(), Some("/root/models/parakeet"));
    assert_eq!(settings.speech_model_id.as_deref(), Some("dictation"));
    assert_eq!(settings.speech_queue_capacity, 8);
    assert!(settings.no_realtime);
}

#[test]
fn home_relative_paths_expand() {
    let base = "/etc/jevons";
    let home = Some("/home/user");
    assert_eq!(resolve("~/models/x", base, home), "/home/user/models/x");
    assert_eq!(resolve("x", base, home), "/etc/jevons/x");
    assert_eq!(resolve("/x", base, home), "/x");
    assert_eq!(resolve("~/x", base, None), "/etc/jevons/~/x");
    assert_eq!(resolve("~x", base, home), "/etc/jevons/~x");
}

#[test]
fn a_decoding_that_does_not_exist_is_an_error() {
    let file = File {
        decoding: Some("fast".to_string()),
        seed: Some(7),
        ..file()
    };
    let mut settings = settings();
    assert!(settings.merge(file, ".", None, &nothing_given()).is_err());
    assert_eq!((settings.seed, settings.decoding), (7, Decoding::Diffusion));
}

#[test]
fn files_of_the_user_are_found() {
    assert_eq!(
        user_file(Some("/h")).as_deref(),
        Some("/h/.config/jevons/config.toml")
    );
    assert_eq!(user_file(None), None);
    assert_eq!(
        cache_dir(None, None, None, Some("/p")).as_deref(),
        Some("/p/.cache/diffusion-cubecl")
    );
    assert_eq!(cache_dir(Some("/c"), Some("/x"), None, None).as_deref(), Some("/c"));
}

fn generation() -> Generation {
    Generation {
        text: "Hi".to_string(),
        prompt_tokens: 3,
        completion_tokens: 1,
        reasoning_tokens: 0,
        finish: FinishReason::Stop,
    }
}

#[test]
fn queue_saturation_and_worker_loss_are_reported() {
    assert!(submitted(Queued::Accepted).is_ok());
    let full = submitted(Queued::Full).unwrap_err();
    assert_eq!((full.status, full.retry_after()), (529, Some(1)));
    let closed = submitted(Queued::Closed).unwrap_err();
    assert_eq!((closed.status, closed.retry_after()), (503, None));
    assert!(matches!(collect(None), Collected::Failed(e) if e.status == 503));
}

#[test]
fn answers_are_collected_or_relayed() {
    assert!(matches!(
        collect(Some(Update::Text("H".to_string()))),
        Collected::Waiting
    ));
    assert!(matches!(
        collect(Some(Update::Done(Ok(generation())))),
        Collected::Answer(g) if g.text == "Hi"
    ));
    let invalid = || Update::Done(Err(Error::InvalidInput("too long".to_string())));
    assert!(matches!(collect(Some(invalid())), Collected::Failed(e) if e.status == 400));
    assert!(Relay::opens(&Some(invalid())).is_err());
    assert!(Relay::opens(&None).is_err());
    assert!(Relay::opens(&Some(Update::Text("H".to_string()))).is_ok());
    let mut relay = Relay::new();
    assert!(matches!(
        relay.take(Some(Update::Text(String::new()))),
        Rendered::Nothing
    ));
    assert!(matches!(
        relay.take(Some(Update::Text("H".to_string()))),
        Rendered::Delta(t) if t == "H"
    ));
    assert!(!relay.done);
    assert!(matches!(
        relay.take(Some(Update::Done(Ok(generation())))),
        Rendered::Finish(_)
    ));
    assert!(relay.done);
    let mut lost = Relay::new();
    assert!(matches!(lost.take(None), Rendered::Error(e) if e.status == 500));
    assert!(lost.done);
}

#[test]
fn errors_take_the_shape_of_their_api() {
    let error = ApiError::new(404, "not_found_error", "Unknown model");
    let detail = error.body.get("detail").unwrap();
    assert_eq!(detail.text_at("message"), Some("Unknown model"));
    let shaped = error.openai();
    assert_eq!(shaped.status, 404);
    let inner = shaped.body.get("error").unwrap();
    assert_eq!(inner.text_at("message"), Some("Unknown model"));
    assert_eq!(inner.text_at("type"), Some("not_found_error"));
    let again = shaped.openai();
    assert_eq!(
        again.body.get("error").unwrap().text_at("message"),
        Some("Unknown model")
    );
    let invalid = read_error(&Error::InvalidInput("no slots".to_string()));
    assert_eq!(invalid.status, 422);
    assert!(invalid.body.get("detail").is_some());
    assert_eq!(read_error(&Error::MissingLogits).status, 500);
    let failed = engine_error(&Error::ModelLoad);
    assert_eq!((failed.status, failed.message.as_str()), (500, "Generation failed"));
    let unknown = unknown_model("x\"y");
    assert_eq!(unknown.message, "The model \"x\\\"y\" does not exist");
    assert_eq!(unknown.code, Some("model_not_found"));
    assert_eq!(ApiError::from_openai(&unknown).status, 404);
}

#[test]
fn models_are_served_under_their_id_and_aliases() {
    let text = text_service("jev-latest", "gemmadiffusion-latest", "DiffusionGemma GGUF");
    assert_eq!(
        text.names(),
        ["jev-latest", "gemmadiffusion-latest", "openjev-latest"]
    );
    assert!(text.serves("openjev-latest") && !text.serves("parakeet-latest"));
    assert_eq!(
        text.description,
        "Local DiffusionGemma GGUF, structured diffusion reads. Served as jev-latest."
    );
    let speech = speech_service("parakeet", "parakeet-latest", "Parakeet", 25);
    assert!(check_names(&text, &speech).is_ok());
    let clash = speech_service("jev-latest", "parakeet-latest", "Parakeet", 25);
    assert!(check_names(&text, &clash).is_err());
    assert_eq!(chosen_id(None, "m", false).unwrap(), "m");
    assert_eq!(
        chosen_id(Some(" ".to_string()), "m", true).unwrap_err(),
        "The speech model ID must be nonempty"
    );
    assert!(check_start(true, false, None, 8).is_ok());
    assert!(check_start(false, false, None, 8).is_err());
    assert_eq!(
        check_start(true, false, Some(""), 8).unwrap_err(),
        "The configured API key must be nonempty"
    );
    assert!(check_start(true, false, Some("k"), 0).is_err());
}

fn entry<'a>(body: &'a Json, list: &str, i: usize) -> &'a Json {
    match body.get(list) {
        Some(Json::List(items)) => &items[i],
        other => panic!("{other:?}"),
    }
}

#[test]
fn the_listing_holds_every_name_of_every_model() {
    let state = AppState {
        text: Some(text_service("local", "gemmadiffusion-latest", "DiffusionGemma GGUF")),
        speech: Some(speech_service("parakeet", "parakeet-latest", "Parakeet", 25)),
        api_key: None,
    };
    let body = state.models();
    assert_eq!(body.text_at("object"), Some("list"));
    let names = [
        "local",
        "gemmadiffusion-latest",
        "openjev-latest",
        "jev-latest",
        "parakeet",
        "parakeet-latest",
    ];
    for (i, name) in names.iter().enumerate() {
        let model = entry(&body, "models", i);
        assert_eq!(model.text_at("name"), Some(*name));
        assert_eq!(model.text_at("release_date"), Some("2026-09-19"));
        let data = entry(&body, "data", i);
        assert_eq!(data.text_at("id"), Some(*name));
        assert_eq!(data.text_at("object"), Some("model"));
        assert_eq!(data.text_at("owned_by"), Some("jevons"));
        assert!(matches!(data.get("created"), Some(Json::Unsigned(1_790_294_400))));
    }
    assert_eq!(
        entry(&body, "models", 4).text_at("description"),
        Some("Local Parakeet, speech to text in 25 languages. Served as parakeet.")
    );
    match body.get("data") {
        Some(Json::List(items)) => assert_eq!(items.len(), names.len()),
        other => panic!("{other:?}"),
    }
    let none = AppState { text: None, speech: None, api_key: None };
    assert!(matches!(none.models().get("models"), Some(Json::List(items)) if items.is_empty()));
}

#[test]
fn keys_guard_the_api_and_nothing_else() {
    let status = |path: &str, auth: Option<&str>, key: Option<&str>| {
        match authorize(path, auth, None, key) {
            Ok(()) => 200,
            Err(error) => error.status,
        }
    };
    assert_eq!(status("/v1/systemone", None, Some("secret")), 403);
    assert_eq!(status("/v1/systemone", Some("Bearer bad"), Some("secret")), 401);
    assert_eq!(status("/v1/systemone", Some("secret"), Some("secret")), 401);
    assert_eq!(status("/v1/systemone", Some("Bearer secret"), Some("secret")), 200);
    assert_eq!(status("/v1/systemone", None, None), 200);
    assert_eq!(status("/health", None, Some("secret")), 200);
    assert_eq!(status("/missing", Some("Bearer secret"), Some("secret")), 200);
}

#[test]
fn requests_that_fail_before_inference_say_where() {
    assert_eq!(unanswered(&Unanswered::TooLarge).status, 413);
    assert_eq!(unanswered(&Unanswered::UnknownModel).status, 404);
    assert_eq!(unanswered(&Unanswered::Mapping).status, 500);
    let failed = unanswered(&Unanswered::Read(Error::InvalidLogits));
    assert_eq!(failed.status, 500);
    assert_eq!(unanswered(&Unanswered::NoJson("eof".to_string())).status, 422);
    let error = unanswered(&Unanswered::Questions("no codes".to_string()));
    assert_eq!(error.status, 422);
    let first = match error.body.get("detail") {
        Some(Json::List(items)) => &items[0],
        other => panic!("{other:?}"),
    };
    assert_eq!(first.text_at("msg"), Some("no codes"));
    assert_eq!(first.text_at("type"), Some("value_error"));
    match first.get("loc") {
        Some(Json::List(loc)) => {
            assert!(matches!(&loc[0], Json::Text(t) if t == "body"));
            assert!(matches!(&loc[1], Json::Text(t) if t == "questions"));
        }
        other => panic!("{other:?}"),
    }
}

#[test]
fn the_api_key_may_arrive_among_the_protocols() {
    let status = |protocols: &str| {
        match authorize("/v1/realtime", None, Some(protocols), Some("secret")) {
            Ok(()) => 200,
            Err(error) => error.status,
        }
    };
    assert_eq!(status("realtime, openai-insecure-api-key.secret"), 200);
    assert_eq!(status("realtime, openai-insecure-api-key.wrong"), 401);
    assert_eq!(status("realtime"), 403);
    assert_eq!(
        find_key(" openai-insecure-api-key.a ,openai-insecure-api-key.b").as_deref(),
        Some("a")
    );
    assert_eq!(find_key(""), None);
}
