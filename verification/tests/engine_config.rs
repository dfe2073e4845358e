use jevons::engine::config::{Decoding, ModelConfig, PromptPart};

#[test]
fn batch_size_must_fit_in_a_nonempty_context() {
    assert!(ModelConfig::new("m.gguf").validate().is_ok());
    let mut config = ModelConfig::new("m.gguf");
    config.batch_size = config.context_size + 1;
    assert!(config.validate().is_err());
    config.batch_size = 0;
    assert!(config.validate().is_err());
}

#[test]
fn contexts_hold_between_one_and_i32_max_positions() {
    let mut config = ModelConfig::new("m.gguf");
    config.context_size = 0;
    config.batch_size = 0;
    assert!(config.validate().is_err());
    config.context_size = i32::MAX as u32;
    config.batch_size = 1;
    assert!(config.validate().is_ok());
    config.context_size += 1;
    assert_eq!(
        config.validate().unwrap_err().message(),
        "Require 0 < batch_size <= context_size <= i32::MAX"
    );
}

#[test]
fn decoding_names_round_trip() {
    for decoding in Decoding::ALL {
        assert_eq!(decoding.id().parse::<Decoding>().unwrap(), decoding);
    }
    assert_eq!(
        "speculative".parse::<Decoding>().unwrap_err().message(),
        "Unknown decoding \"speculative\"; expected diffusion, self-speculation or autoregressive"
    );
    assert_eq!(Decoding::default(), Decoding::Diffusion);
}

#[test]
fn prompt_parts_count_their_positions() {
    assert_eq!(PromptPart::Text(vec![1, 2, 3]).len(), 3);
    let image = PromptPart::Image { tokens: 97, index: 0 };
    assert_eq!(image.len(), 97);
}
