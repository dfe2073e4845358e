use jevons::engine::config::PromptPart;
use jevons::engine::model::PrefillProfile;
use jevons::error::Error;
use jevons::json::Json;
use jevons::nemotron::config::Config;
use jevons::nemotron::frame::{cache_capacity, frame, key_bucket, row_bucket};
use jevons::nemotron::load::{
    check_limits, check_markers, check_projector, list_text_weights, list_vision_weights,
    split_fused, vision_config, Weights,
};
use jevons::nemotron::prompt::{Batch, Cache, Rows, RowsPlan};
use jevons::nemotron::rows::{check_images, image_key, image_rows, patches, ImageRows};
use jevons::schema::Number;

const VLM_8B: &str = r#"{
  "architectures": ["NemotronLabsDiffusionVLMModel"], "attention_bias": false, "block_size": 32,
  "dlm_paradigm": "bidirectional", "dlm_type": "llada", "eos_token_id": 11, "head_dim": 128,
  "hidden_act": "silu", "hidden_size": 4096, "intermediate_size": 14336, "mask_token_id": 100,
  "max_position_embeddings": 262144, "mlp_bias": false, "model_type": "nemotron_labs_diffusion_vlm",
  "num_attention_heads": 32, "num_hidden_layers": 34, "num_key_value_heads": 8, "rms_norm_eps": 1e-05,
  "rope_parameters": {"beta_fast": 32.0, "beta_slow": 1.0, "factor": 16.0, "llama_4_scaling_beta": 0.1,
    "mscale": 1.0, "mscale_all_dim": 1.0, "original_max_position_embeddings": 16384,
    "rope_theta": 1000000.0, "rope_type": "yarn", "type": "yarn"},
  "sliding_window": null, "tie_word_embeddings": false, "vocab_size": 131073
}"#;

/// The text-only 3B checkpoint (`nvidia/Nemotron-Labs-Diffusion-3B`).
const TEXT_3B: &str = r#"{
  "architectures": ["NemotronLabsDiffusionModel"], "attention_bias": false, "block_size": 32,
  "dlm_paradigm": "bidirectional", "eos_token_id": 11, "head_dim": 128, "hidden_act": "silu",
  "hidden_size": 3072, "intermediate_size": 9216, "mask_token_id": 100,
  "max_position_embeddings": 262144, "mlp_bias": false, "model_type": "nemotron_labs_diffusion",
  "num_attention_heads": 32, "num_hidden_layers": 26, "num_key_value_heads": 8, "rms_norm_eps": 1e-05,
  "rope_parameters": {"beta_fast": 32.0, "beta_slow": 1.0, "factor": 16.0, "llama_4_scaling_beta": 0.1,
    "mscale": 1.0, "mscale_all_dim": 1.0, "original_max_position_embeddings": 16384,
    "rope_theta": 1000000.0, "rope_type": "yarn"},
  "sliding_window": null, "tie_word_embeddings": false, "vocab_size": 131072
}"#;

#[test]
fn the_text_only_3b_config_parses() {
    let config = Config::parse(TEXT_3B).unwrap();
    assert_eq!(config.model_type, "nemotron_labs_diffusion");
    assert_eq!((config.num_hidden_layers, config.hidden_size), (26, 3072));
    assert_eq!(config.num_attention_heads * config.head_dim, 4096);
    let other = TEXT_3B.replace("nemotron_labs_diffusion\"", "llama\"");
    assert!(Config::parse(&other).is_err());
}

#[test]
fn the_8b_config_parses_and_unsupported_variants_are_rejected() {
    let config = Config::parse(VLM_8B).unwrap();
    assert_eq!(config.num_hidden_layers, 34);
    assert_eq!(
        config.rope_parameters.factor,
        Some(Number::Float(16.0f64.to_bits()))
    );
    for (from, to) in [
        (r#""sliding_window": null"#, r#""sliding_window": 4096"#),
        (
            r#""dlm_paradigm": "bidirectional""#,
            r#""dlm_paradigm": "block_diff""#,
        ),
        (r#""rope_type": "yarn""#, r#""rope_type": "longrope""#),
        (r#""mask_token_id": 100"#, r#""mask_token_id": -1"#),
        (r#""hidden_act": "silu""#, r#""hidden_act": "gelu""#),
    ] {
        let text = VLM_8B.replace(from, to);
        assert!(Config::parse(&text).is_err(), "{to}");
    }
}

#[test]
fn config_rejections_name_what_is_not_supported() {
    let message = |from: &str, to: &str| match Config::parse(&VLM_8B.replace(from, to)) {
        Err(Error::UnsupportedModel(m)) => m,
        other => panic!("{other:?}"),
    };
    assert_eq!(
        message(r#""mask_token_id": 100"#, r#""mask_token_id": -5"#),
        "Nemotron-Labs-Diffusion config: unsupported mask_token_id -5"
    );
    assert_eq!(
        message(r#""mlp_bias": false"#, r#""mlp_bias": true"#),
        "Nemotron-Labs-Diffusion config: unsupported biases or tied embeddings"
    );
    assert_eq!(
        message(r#""block_size": 32"#, r#""block_size": "x""#),
        "Nemotron-Labs-Diffusion config: invalid value of `block_size`"
    );
    assert_eq!(
        message(r#""rope_theta": 1000000.0, "#, ""),
        "Nemotron-Labs-Diffusion config: missing field `rope_theta`"
    );
    assert!(Config::parse("{").is_err());
}

#[test]
fn checkpoints_are_checked_before_they_are_loaded() {
    let config = Config::parse(VLM_8B).unwrap();
    assert!(check_projector(false).is_ok() && check_projector(true).is_err());
    assert!(check_limits(&config, 16384, 131073).is_ok());
    assert!(matches!(
        check_limits(&config, 16385, 131073),
        Err(Error::InvalidInput(m)) if m == "--context-size may be at most 16384 for this model"
    ));
    assert!(matches!(
        check_limits(&config, 16384, 5),
        Err(Error::UnsupportedModel(_))
    ));
    let ids = vec![Some(18), Some(19), Some(20), Some(21)];
    assert!(check_markers(&ids).is_ok());
    assert!(matches!(
        check_markers(&vec![Some(18), None, Some(20), Some(21)]),
        Err(Error::UnsupportedModel(m)) if m == "the tokenizer does not map <|image_pad|> to 19"
    ));
    let none = Json::parse(r#"{"vision_config": null}"#).unwrap();
    assert!(vision_config(&none).unwrap().is_none());
    let vision = |act: &str| {
        Json::parse(&format!(
            r#"{{"vision_config": {{"hidden_size": 1024, "intermediate_size": 4096,
                "num_hidden_layers": 2, "num_attention_heads": 16, "head_dim": 64,
                "patch_size": 14, "num_channels": 3, "image_size": 1540, "hidden_act": "{act}",
                "rope_parameters": {{"rope_theta": 10000, "rope_type": "default"}}}}}}"#
        ))
        .unwrap()
    };
    let tower = vision_config(&vision("silu")).unwrap().unwrap();
    assert!(vision_config(&vision("gelu")).is_err());
    let text = list_text_weights(&config);
    assert_eq!(text.len(), 34 * 7 + 3);
    assert!(matches!(
        &text[1],
        Weights::Stacked { names, rows, cols: 4096 }
            if names[1] == "encoder.layers.0.self_attn.k_proj.weight" && *rows == vec![4096, 1024, 1024]
    ));
    let images = list_vision_weights(&tower, 4096);
    assert_eq!(images.len(), 2 * 7 + 6);
    assert!(matches!(
        &images[14],
        Weights::Matrix { name, rows: 1024, cols: 588 }
            if name == "encoder.vision_tower.patch_conv.weight"
    ));
    let fused = split_fused(&config);
    assert_eq!((fused.keys, fused.values, fused.end), (4096, 5120, 6144));
}

#[test]
fn forwards_are_padded_and_masked() {
    assert_eq!((row_bucket(1), row_bucket(33)), (32, 64));
    assert_eq!((key_bucket(257, 4096), key_bucket(257, 300)), (512, 300));
    let capacity = cache_capacity(4096, 512);
    assert_eq!(capacity, 8192);
    let f = frame(10, 3, true, 4096, capacity).unwrap();
    assert_eq!((f.padded, f.keys), (32, 256));
    assert!(!f.hidden(1, 11) && f.hidden(1, 12));
    let canvas = frame(10, 3, false, 4096, capacity).unwrap();
    assert!(!canvas.hidden(0, 12) && canvas.hidden(0, 13));
    assert!(frame(4094, 3, false, 4096, capacity).is_err());
}

fn cache() -> Cache {
    Cache {
        cached: Vec::new(),
        encoded: vec![(2, -7)],
        n_ctx: 12,
        batch_size: 4,
        capacity: 256,
        vocab: 100,
        prompt_cache: true,
        canvas: None,
        logits: false,
        profile: PrefillProfile::default(),
    }
}

/// Computes all batches of a plan.
fn run(cache: &mut Cache, plan: &RowsPlan) {
    for batch in 0..plan.batches.len() {
        cache.accept(plan, batch);
    }
    cache.settle(plan);
}

fn text(tokens: &[i32]) -> PromptPart {
    PromptPart::Text(tokens.to_vec())
}

#[test]
fn prompts_are_computed_after_their_common_prefix_in_batches() {
    let mut cache = cache();
    let image = || PromptPart::Image { tokens: 2, index: 0 };
    let plan = cache
        .prefill_rows(&vec![text(&[1, 2]), image(), text(&[3, 4, 5])], 0)
        .unwrap();
    assert!(cache.cached.is_empty());
    cache.canvas = Some(3);
    cache.accept(&plan, 0);
    // A failure here leaves what was computed.
    assert_eq!((cache.cached.len(), cache.canvas, cache.profile.calls), (4, Some(3), 0));
    cache.accept(&plan, 1);
    cache.settle(&plan);
    assert_eq!(cache.cached, vec![1, 2, -7, -7, 3, 4, 5]);
    assert_eq!((cache.canvas, cache.profile.batches), (None, 2));
    assert_eq!(plan.length, 7);
    assert_eq!(
        plan.batches,
        vec![
            Batch { from: 0, to: 4, kept: 4 },
            Batch { from: 4, to: 7, kept: 7 }
        ]
    );
    // The last rows are wanted, though they are cached.
    let plan = cache
        .prefill_predict(&vec![text(&[1, 2]), image(), text(&[3, 4, 5])], 2)
        .unwrap();
    assert_eq!(plan.reused, 5);
    assert_eq!(plan.rows, vec![Rows { part: 2, from: 1, to: 3 }]);
    assert_eq!(plan.batches, vec![Batch { from: 5, to: 7, kept: 5 }]);
    run(&mut cache, &plan);
    assert_eq!(cache.profile.reused_tokens, 5);
    assert!(cache.prefill_predict(&vec![text(&[1])], 0).is_err());
    assert!(cache.prefill_predict(&vec![text(&[1])], 2).is_err());
    let unknown = vec![PromptPart::Image { tokens: 3, index: 0 }];
    assert!(cache.prefill_rows(&unknown, 0).is_err());
    assert!(cache.prefill_rows(&vec![text(&[0; 13])], 0).is_err());
    assert_eq!(cache.cached.len(), 7);
    assert!(matches!(
        cache.prefill_rows(&vec![text(&[1, 100])], 0),
        Err(Error::InvalidInput(m)) if m == "token id out of range"
    ));
    assert_eq!(cache.cached, vec![1]);
    cache.prompt_cache = false;
    assert_eq!(cache.prefill_rows(&vec![text(&[1])], 0).unwrap().reused, 0);
}

#[test]
fn canvases_follow_the_resident_prompt() {
    let mut cache = cache();
    assert!(matches!(
        cache.check_candidates(0, &vec![1]),
        Err(Error::MissingLogits)
    ));
    let plan = cache.prefill_rows(&vec![text(&[1, 2, 3])], 0).unwrap();
    run(&mut cache, &plan);
    let f = cache.forward_canvas(&vec![9, 9], 3, false, true).unwrap();
    assert_eq!((f.start, f.rows, f.causal), (3, 2, false));
    assert!(cache.logits);
    assert!(cache.check_candidates(1, &vec![5]).is_ok());
    assert!(cache.check_candidates(2, &vec![5]).is_err());
    assert!(cache.check_candidates(1, &vec![]).is_err());
    assert!(cache.check_candidates(1, &vec![100]).is_err());
    for (tokens, prompt, conditioned) in [
        (vec![9], 3, true),
        (vec![9], 2, false),
        (vec![], 3, false),
        (vec![9; 5], 3, false),
        (vec![-1], 3, false),
    ] {
        assert!(cache.forward_canvas(&tokens, prompt, conditioned, false).is_err());
    }
    cache.n_ctx = 4;
    assert!(matches!(
        cache.forward_canvas(&vec![9, 9], 3, false, false),
        Err(Error::InvalidInput(m)) if m == "Prompt and canvas exceed the context size"
    ));
}

#[test]
fn images_take_a_row_for_each_feature_and_marker() {
    let (rows, tokens) = image_rows(3, 2, 100).unwrap();
    assert_eq!(tokens, 9);
    assert_eq!(
        rows,
        vec![
            ImageRows::Mark(18),
            ImageRows::Features { from: 0, to: 3 },
            ImageRows::Mark(20),
            ImageRows::Features { from: 3, to: 6 },
            ImageRows::Mark(21),
        ]
    );
    assert!(matches!(
        image_rows(3, 2, 8),
        Err(Error::InvalidInput(m)) if m == "Image needs 9 tokens; the context allows 8"
    ));
    assert!(check_images(0, false).is_ok() && check_images(8, true).is_ok());
    assert!(check_images(1, false).is_err() && check_images(9, true).is_err());
    assert!(image_key(u64::MAX) < 0 && image_key(0) == -1);
}

#[test]
fn patches_follow_the_weight_layout() {
    let (rows, cols) = (2, 2);
    let (width, height) = (cols * 14, rows * 14);
    let planes: Vec<u32> = (0..3 * width * height).map(|i| i as u32).collect();
    let data = patches(&planes, rows, cols);
    // Patch (1, 0), channel 2, row 3, column 5.
    let got = data[(2 * 3 * 196) + (2 * 14 + 3) * 14 + 5];
    let want = planes[2 * height * width + (14 + 3) * width + 5];
    assert_eq!(got, want);
}

#[test]
fn configurations_may_list_their_values_in_order() {
    let listed = r#"["nemotron_labs_diffusion", 3072, 9216, 26, 32, 8, 128, 131072, 1e-05, 262144,
        "silu", ["yarn", 1000000.0, 16.0, 16384, 32.0, 1.0, 1.0, 1.0, null, 0.1],
        null, false, false, false, 100, 32, "bidirectional", 11]"#;
    let config = Config::parse(listed).unwrap();
    let same = Config::parse(TEXT_3B).unwrap();
    assert_eq!(config.num_hidden_layers, same.num_hidden_layers);
    assert_eq!(config.rope_parameters.factor, same.rope_parameters.factor);
    assert_eq!(config.block_size, same.block_size);
    // One value too few, and one too many.
    assert!(Config::parse(&listed.replace(", 11]", "]")).is_err());
    assert!(Config::parse(&listed.replace(", 11]", ", 11, 0]")).is_err());
    let tower = Json::parse(
        r#"{"vision_config": [1024, 4096, 2, 16, 64, 14, 3, 1540, "silu", [10000, "default"]]}"#,
    )
    .unwrap();
    let tower = vision_config(&tower).unwrap().unwrap();
    assert_eq!((tower.hidden_size, tower.patch_size), (1024, 14));
}
