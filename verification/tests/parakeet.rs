use jevons::error::Error;
use jevons::parakeet::config::{parse_mel, Config};
use jevons::parakeet::decoder::{walk, Action, Choice, ByFrame, Chooser, Decoding, Emission};
use jevons::parakeet::encoder::{
    list_convolutions, padded_frames, rel_shift, relative_position, subsample_valid, time_mask,
};
use jevons::parakeet::weights::{list_decoder_tensors, list_encoder_tensors};

const V3: &str = r#"{
  "architectures": ["ParakeetForTDT"],
  "blank_token_id": 8192,
  "decoder_hidden_size": 640,
  "dtype": "float32",
  "durations": [0, 1, 2, 3, 4],
  "encoder_config": {
    "activation_dropout": 0.1, "attention_bias": false, "attention_dropout": 0.1,
    "conv_kernel_size": 9, "convolution_bias": false, "dropout": 0.1, "dropout_positions": 0.0,
    "hidden_act": "silu", "hidden_size": 1024, "initializer_range": 0.02,
    "intermediate_size": 4096, "layerdrop": 0.1, "max_position_embeddings": 5000,
    "model_type": "parakeet_encoder", "num_attention_heads": 8, "num_hidden_layers": 24,
    "num_key_value_heads": 8, "num_mel_bins": 128, "scale_input": false,
    "subsampling_conv_channels": 256, "subsampling_conv_kernel_size": 3,
    "subsampling_conv_stride": 2, "subsampling_factor": 8
  },
  "hidden_act": "relu",
  "initializer_range": 0.02,
  "is_encoder_decoder": true,
  "max_symbols_per_step": 10,
  "model_type": "parakeet_tdt",
  "num_decoder_layers": 2,
  "pad_token_id": 2,
  "transformers_version": "5.6.0.dev0",
  "vocab_size": 8193
}"#;

const PROCESSOR: &str = r#"{
  "blank_token": "<blank>",
  "feature_extractor": {
    "feature_extractor_type": "ParakeetFeatureExtractor", "feature_size": 128,
    "hop_length": 160, "n_fft": 512, "padding_side": "right", "padding_value": 0.0,
    "preemphasis": 0.97, "return_attention_mask": true, "sampling_rate": 16000,
    "win_length": 400
  },
  "processor_class": "ParakeetProcessor"
}"#;

#[test]
fn the_published_v3_configs_parse() {
    let config = Config::parse(V3).unwrap();
    assert_eq!(config.encoder_config.num_hidden_layers, 24);
    assert_eq!(config.encoded_frames(1600), 200);
    assert_eq!(config.encoded_frames(585), 74);
    let mel = parse_mel(PROCESSOR, &config).unwrap();
    assert_eq!((mel.n_fft, mel.win_length, mel.hop_length), (512, 400, 160));
}

#[test]
fn unsupported_variants_are_rejected() {
    for (from, to) in [
        (
            r#""model_type": "parakeet_tdt""#,
            r#""model_type": "parakeet_ctc""#,
        ),
        (r#""attention_bias": false"#, r#""attention_bias": true"#),
        (r#""scale_input": false"#, r#""scale_input": true"#),
        (
            r#""durations": [0, 1, 2, 3, 4]"#,
            r#""durations": [1, 2, 4]"#,
        ),
        (r#""blank_token_id": 8192"#, r#""blank_token_id": 0"#),
        (r#""num_key_value_heads": 8"#, r#""num_key_value_heads": 4"#),
        (r#""subsampling_factor": 8"#, r#""subsampling_factor": 6"#),
    ] {
        let text = V3.replace(from, to);
        assert_ne!(text, V3, "{from}");
        assert!(
            matches!(Config::parse(&text), Err(Error::UnsupportedModel(_))),
            "{to} was accepted"
        );
    }
}

#[test]
fn rejections_name_what_is_not_supported() {
    let message = |from: &str, to: &str| match Config::parse(&V3.replace(from, to)) {
        Err(Error::UnsupportedModel(m)) => m,
        other => panic!("{other:?}"),
    };
    assert_eq!(
        message("[0, 1, 2, 3, 4]", "[1, 2]"),
        "Parakeet TDT config: unsupported durations [1, 2]"
    );
    assert_eq!(
        message("\"parakeet_tdt\"", "\"ctc\""),
        "Parakeet TDT config: unsupported model_type \"ctc\""
    );
    assert_eq!(
        message("\"vocab_size\": 8193", "\"vocab\": 1"),
        "Parakeet TDT config: invalid config.json: missing field `vocab_size`"
    );
    assert!(Config::parse("[").is_err());
    let config = Config::parse(V3).unwrap();
    assert!(parse_mel(&PROCESSOR.replace("\"win_length\": 400", "\"win_length\": 600"), &config).is_err());
    assert!(parse_mel("{}", &config).is_err());
}

const BLANK: usize = 9;

fn choice(token: usize, duration: usize) -> Choice {
    Choice {
        token,
        logprob: (-0.5f32).to_bits(),
        duration,
    }
}

/// Expected frames and counts with the choice made there.
struct Script {
    steps: Vec<(usize, usize, Choice)>,
    at: usize,
}

impl Chooser for Script {
    fn pick(&mut self, frame: usize, emitted: &Vec<Emission>) -> Choice {
        let (t, count, choice) = self.steps[self.at];
        assert_eq!((frame, emitted.len()), (t, count));
        self.at += 1;
        choice
    }
}

#[test]
fn blanks_skip_ahead_and_tokens_advance_by_their_duration() {
    // frame 0: blank +2; frame 2: token 4 +0; frame 2 again: token 5 +3; frame 5: blank +0
    // (forced to 1); frame 6: token 1 +4, past the end.
    let mut script = Script {
        steps: vec![
            (0, 0, choice(BLANK, 2)),
            (2, 0, choice(4, 0)),
            (2, 1, choice(5, 3)),
            (5, 2, choice(BLANK, 0)),
            (6, 2, choice(1, 4)),
        ],
        at: 0,
    };
    let emitted = walk(8, BLANK, 10, &mut script);
    assert_eq!(script.at, script.steps.len());
    let summary: Vec<_> = emitted
        .iter()
        .map(|e| (e.token, e.frame, e.frames))
        .collect();
    assert_eq!(summary, vec![(4, 2, 1), (5, 2, 3), (1, 6, 4)]);
}

struct Stutter;

impl Chooser for Stutter {
    fn pick(&mut self, frame: usize, _: &Vec<Emission>) -> Choice {
        if frame == 0 {
            choice(7, 0)
        } else {
            choice(BLANK, 1)
        }
    }
}

#[test]
fn repeated_zero_durations_are_capped_per_frame() {
    let emitted = walk(2, BLANK, 3, &mut Stutter);
    assert_eq!(emitted.len(), 3);
    assert!(emitted.iter().all(|e| e.frame == 0));
}

#[test]
fn windows_are_scored_again_after_each_token() {
    // Every frame is blank, but frame 3 emits a token the first time.
    let mut decoding = Decoding::new(40, BLANK, 10);
    let mut predictions = Vec::new();
    let mut scored = Vec::new();
    loop {
        match decoding.next() {
            Action::Done => break,
            Action::Predict(token) => {
                predictions.push(token);
                decoding.predict();
            }
            Action::Score { from } => {
                scored.push(from);
                let first = predictions.is_empty();
                decoding.score(
                    (from..from + 32)
                        .map(|t| {
                            if t == 3 && first {
                                choice(5, 1)
                            } else {
                                choice(BLANK, 1)
                            }
                        })
                        .collect(),
                );
            }
            Action::Take(_) => decoding.take(),
        }
    }
    assert_eq!(predictions, vec![5]);
    assert_eq!(scored, vec![0, 4, 36]);
    assert_eq!(decoding.walk.emitted.len(), 1);
}

#[test]
fn rel_shift_aligns_each_query_with_its_relative_distance() {
    let (heads, rows) = (2, 5);
    let len = 2 * rows - 1;
    let values: Vec<u32> = (0..heads * rows * len).map(|v| (v as f32).to_bits()).collect();
    let shifted = rel_shift(&values, heads, rows);
    for h in 0..heads {
        for i in 0..rows {
            for j in 0..rows {
                let want = values[(h * rows + i) * len + rows - 1 - i + j];
                assert_eq!(shifted[(h * rows + i) * len + j], want, "[{h}][{i}][{j}]");
            }
        }
    }
}

#[test]
fn relative_positions_count_down() {
    let positions: Vec<i64> = (0..5).map(|p| relative_position(3, p)).collect();
    assert_eq!(positions, vec![2, 1, 0, -1, -2]);
}

#[test]
fn frames_shrink_by_the_subsampling_factor() {
    let config = Config::parse(V3).unwrap();
    let convs = list_convolutions(&config.encoder_config);
    let shape: Vec<_> = convs
        .iter()
        .map(|c| (c.index, c.stride, c.groups, c.relu))
        .collect();
    assert_eq!(
        shape,
        vec![
            (0, 2, 1, true),
            (2, 2, 256, false),
            (3, 1, 1, true),
            (5, 2, 256, false),
            (6, 1, 1, true),
        ]
    );
    for mel in [0, 1, 7, 8, 9, 585, 1600] {
        assert_eq!(subsample_valid(&convs, mel), config.encoded_frames(mel));
    }
    assert_eq!(padded_frames(&config, 585), 128);
    assert_eq!(time_mask(3, 2), vec![true, true, false]);
}

#[test]
fn tensors_are_listed_with_their_shapes() {
    let config = Config::parse(V3).unwrap();
    let encoder = list_encoder_tensors(&config.encoder_config);
    assert_eq!(encoder.len(), 10 + 24 * 28 + 2);
    assert_eq!(encoder[2].name, "encoder.subsampling.layers.2.weight");
    assert_eq!(encoder[2].shape, vec![256, 1, 3, 3]);
    assert_eq!(encoder[10].name, "encoder.layers.0.conv.pointwise_conv1.weight");
    let last = encoder.len() - 2;
    assert_eq!(encoder[last].name, "encoder.subsampling.linear.weight");
    assert_eq!(encoder[last].shape, vec![1024, 4096]);
    let decoder = list_decoder_tensors(&config);
    assert_eq!(decoder[0].name, "decoder.lstm.bias_ih_l0");
    assert_eq!(decoder[13].name, "joint.head.weight");
    assert_eq!(decoder[13].shape, vec![8198, 640]);
}

#[test]
fn choices_by_frame_are_followed_by_blanks() {
    let mut chooser = ByFrame::new(vec![choice(4, 2), choice(9, 1), choice(BLANK, 1), choice(5, 0)], BLANK);
    let emitted = walk(9, BLANK, 2, &mut chooser);
    let summary: Vec<_> = emitted.iter().map(|e| (e.token, e.frame, e.frames)).collect();
    assert_eq!(summary, vec![(4, 0, 2), (5, 3, 1), (5, 3, 1)]);
}

#[test]
fn speech_configurations_may_list_their_values() {
    let listed = r#"["parakeet_tdt",
        [1024, 4096, 24, 8, 8, 128, 9, "silu", false, false, false, 256, 3, 2, 8, 5000],
        8193, 8192, 640, 2, [0, 1, 2, 3, 4], "relu", 10]"#;
    let config = Config::parse(listed).unwrap();
    assert_eq!(config.encoder_config.num_hidden_layers, 24);
    assert_eq!(config.encoded_frames(585), 74);
    let mel = parse_mel("[[128, 16000, 512, 400, 160, 0.97]]", &config).unwrap();
    assert_eq!((mel.n_fft, mel.win_length, mel.hop_length), (512, 400, 160));
    assert!(Config::parse(&listed.replace(", 10]", "]")).is_err());
}

#[test]
fn frames_without_a_subsampling_factor_become_one() {
    let mut config = Config::parse(V3).unwrap();
    config.encoder_config.subsampling_factor = 0;
    assert_eq!(config.encoded_frames(585), 1);
    assert_eq!(config.encoded_frames(0), 0);
}
