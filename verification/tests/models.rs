use jevons::error::Error;
use jevons::json::Json;
use jevons::models::detect::{
    checkpoint_dir, default_model_id, detect_checkpoint, resolve, Architecture,
};
use jevons::models::speech::{default_speech_model_id, detect_speech, SpeechArchitecture};

#[test]
fn architecture_names_round_trip_and_unknown_names_are_rejected() {
    for arch in Architecture::ALL {
        assert_eq!(arch.id().parse::<Architecture>().unwrap(), arch);
    }
    assert!("gemma".parse::<Architecture>().is_err());
}

#[test]
fn checkpoint_directories_are_detected_from_config_json() {
    let vlm = r#"{"model_type":"nemotron_labs_diffusion_vlm","architectures":["NemotronLabsDiffusionVLMModel"]}"#;
    assert_eq!(
        detect_checkpoint(vlm, "dir").unwrap(),
        Architecture::NemotronDiffusion
    );
    assert_eq!(
        checkpoint_dir("dir", true, Some("dir"), Some("")).as_deref(),
        Some("dir")
    );
    assert_eq!(
        checkpoint_dir("dir/config.json", false, Some("config.json"), Some("dir")).as_deref(),
        Some("dir")
    );
    let config = Json::parse(vlm).unwrap();
    assert_eq!(
        default_model_id(Some(&config), Architecture::NemotronDiffusion),
        "nemotron-diffusion-8b"
    );
    let text = r#"{"model_type":"nemotron_labs_diffusion","architectures":["NemotronLabsDiffusionModel"],"num_hidden_layers":26,"hidden_size":3072}"#;
    assert_eq!(
        detect_checkpoint(text, "dir").unwrap(),
        Architecture::NemotronDiffusion
    );
    let config = Json::parse(text).unwrap();
    assert_eq!(
        default_model_id(Some(&config), Architecture::NemotronDiffusion),
        "nemotron-diffusion-3b"
    );
    assert!(matches!(
        detect_checkpoint(r#"{"model_type":"llama"}"#, "dir"),
        Err(Error::UnsupportedModel(_))
    ));
    assert!(matches!(
        detect_checkpoint("not json", "dir"),
        Err(Error::ModelLoad)
    ));
}

#[test]
fn parakeet_checkpoints_are_speech_models_and_llms_are_not() {
    let text = r#"{"model_type":"parakeet_tdt","vocab_size":8193,"encoder_config":{"num_hidden_layers":24}}"#;
    let architecture = detect_speech(text).unwrap();
    assert_eq!(architecture, SpeechArchitecture::ParakeetTdt);
    let config = Json::parse(text).unwrap();
    assert_eq!(
        default_speech_model_id(Some(&config), architecture),
        "parakeet-tdt-0.6b-v3"
    );
    assert!(matches!(
        detect_checkpoint(text, "dir"),
        Err(Error::UnsupportedModel(message)) if message.contains("--speech-model")
    ));
    assert!(matches!(
        detect_speech(r#"{"model_type":"nemotron_labs_diffusion"}"#),
        Err(Error::UnsupportedModel(_))
    ));
}

#[test]
fn an_explicit_architecture_must_match_the_files() {
    let gemma = Architecture::Gemma4Diffusion;
    assert_eq!(resolve(None, gemma).unwrap(), gemma);
    assert_eq!(resolve(Some("auto"), gemma).unwrap(), gemma);
    assert_eq!(resolve(Some("gemma4-diffusion"), gemma).unwrap(), gemma);
    assert_eq!(
        resolve(Some("nemotron-diffusion"), gemma).unwrap_err(),
        Error::UnsupportedModel(
            "--arch nemotron-diffusion does not match the model files, which contain gemma4-diffusion".into()
        )
    );
    assert!(matches!(
        resolve(Some("llama"), gemma),
        Err(Error::InvalidInput(m)) if m == "Unknown architecture \"llama\"; expected auto or one of gemma4-diffusion, nemotron-diffusion"
    ));
}

#[test]
fn weight_files_name_their_directory_and_other_files_do_not() {
    for name in ["a.safetensors", "model.safetensors.index.json"] {
        assert_eq!(
            checkpoint_dir("d/x", false, Some(name), Some("d")).as_deref(),
            Some("d")
        );
    }
    assert_eq!(checkpoint_dir("d/m.gguf", false, Some("m.gguf"), Some("d")), None);
    assert_eq!(checkpoint_dir("config.json", false, Some("config.json"), None), None);
}
