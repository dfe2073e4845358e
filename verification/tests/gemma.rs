use jevons::engine::config::PromptPart;
use jevons::error::Error;
use jevons::formats::gguf::file::Gguf;
use jevons::gemma::adapter::{
    chat_format, check_image_size, check_images, code_piece, image_parts, prompt_segments, Encoded,
};
use jevons::gemma::ahead::Prefetch;
use jevons::gemma::attention::Sight;
use jevons::gemma::cells::{image_turn, pooled_patches, Cell, Move, QkvOut, Turn};
use jevons::gemma::config::{Config, FloatBits};
use jevons::gemma::error::ModelError;
use jevons::gemma::forward::{Launch, LayerPlan, Place, QkvShape, Weight};
use jevons::gemma::passes::{Input, Pick, Signal};
use jevons::gemma::plans::{layer_plans, LayerExperts};
use jevons::gemma::prompt::{image_key, Memory, Segment, Step};
use jevons::gemma::quants::{Level, Q6kTable};
use jevons::gemma::routing::{group, route, transpose_router};
use jevons::gemma::weights::{check_load, load_order, Need};
use jevons::kernels::buf::Buf;
use jevons::kernels::tune::{DeviceProfile, GroupKey, GroupPlan, QMatrix, Tuner};

fn string(out: &mut Vec<u8>, s: &str) {
    out.extend((s.len() as u64).to_le_bytes());
    out.extend(s.as_bytes());
}

fn pair_u32(out: &mut Vec<u8>, key: &str, value: u32) {
    string(out, &format!("diffusion-gemma.{key}"));
    out.extend(4u32.to_le_bytes());
    out.extend(value.to_le_bytes());
}

fn pair_f32(out: &mut Vec<u8>, key: &str, value: f32) {
    string(out, &format!("diffusion-gemma.{key}"));
    out.extend(6u32.to_le_bytes());
    out.extend(value.to_le_bytes());
}

/// A file with the metadata of a small model of two layers, the second a full-attention one
/// without values; `heads` may be changed to make it unsupported.
fn model(heads: u32, tensors: &[(&str, &[u64], u32)]) -> Vec<u8> {
    let mut out = Vec::new();
    out.extend(b"GGUF");
    out.extend(3u32.to_le_bytes());
    out.extend((tensors.len() as u64 + 1).to_le_bytes());
    out.extend(23u64.to_le_bytes());
    string(&mut out, "general.architecture");
    out.extend(8u32.to_le_bytes());
    string(&mut out, "diffusion-gemma");
    pair_u32(&mut out, "block_count", 2);
    string(&mut out, "diffusion-gemma.attention.sliding_window_pattern");
    out.extend(9u32.to_le_bytes());
    out.extend(7u32.to_le_bytes());
    out.extend(2u64.to_le_bytes());
    out.extend([1, 0]);
    string(&mut out, "diffusion-gemma.attention.head_count_kv");
    out.extend(9u32.to_le_bytes());
    out.extend(4u32.to_le_bytes());
    out.extend(2u64.to_le_bytes());
    out.extend(2u32.to_le_bytes());
    out.extend(1u32.to_le_bytes());
    string(&mut out, "tokenizer.ggml.tokens");
    out.extend(9u32.to_le_bytes());
    out.extend(8u32.to_le_bytes());
    out.extend(3u64.to_le_bytes());
    for piece in ["a", "b", "c"] {
        string(&mut out, piece);
    }
    for (key, value) in [
        ("embedding_length", 256),
        ("attention.head_count", heads),
        ("feed_forward_length", 512),
        ("expert_feed_forward_length", 64),
        ("expert_count", 32),
        ("expert_used_count", 4),
        ("attention.sliding_window", 1024),
        ("attention.key_length", 512),
        ("attention.key_length_swa", 256),
        ("rope.dimension_count", 512),
        ("rope.dimension_count_swa", 256),
        ("attention.value_length", 512),
        ("attention.value_length_swa", 256),
    ] {
        pair_u32(&mut out, key, value);
    }
    for (key, value) in [
        ("attention.layer_norm_rms_epsilon", 1e-6),
        ("final_logit_softcapping", 30.0),
        ("rope.freq_base", 1e6),
        ("rope.freq_base_swa", 1e4),
    ] {
        pair_f32(&mut out, key, value);
    }
    string(&mut out, "general.name");
    out.extend(8u32.to_le_bytes());
    string(&mut out, "x");
    let mut offset = 0u64;
    let freqs: (&str, &[u64], u32) = ("rope_freqs.weight", &[256], 0);
    for (name, dims, kind) in std::iter::once(&freqs).chain(tensors) {
        string(&mut out, name);
        out.extend((dims.len() as u32).to_le_bytes());
        for d in *dims {
            out.extend(d.to_le_bytes());
        }
        out.extend(kind.to_le_bytes());
        out.extend(offset.to_le_bytes());
        let elements: u64 = dims.iter().product();
        let bytes = match kind {
            0 => elements * 4,
            14 => elements / 256 * 210,
            _ => elements / 256 * 144,
        };
        offset += bytes.next_multiple_of(32);
    }
    while out.len() % 32 != 0 {
        out.push(0);
    }
    out.resize(out.len() + offset as usize, 0);
    out
}

fn open(file: &[u8]) -> Gguf {
    Gguf::parse(file, file.len() as u64).unwrap()
}

#[test]
fn dimensions_are_read_from_metadata_and_checked() {
    let cfg = Config::from_gguf(&open(&model(8, &[]))).unwrap();
    assert_eq!((cfg.d, cfg.layers, cfg.vocab, cfg.top_k), (256, 2, 3, 4));
    assert_eq!(cfg.eps, FloatBits::Single(1e-6f32.to_bits()));
    assert_eq!((cfg.hd(0), cfg.hd(1)), (256, 512));
    assert_eq!(cfg.kv_heads, vec![2, 1]);
    assert_eq!(cfg.rope_freqs.1, 1024);
    let error = Config::from_gguf(&open(&model(7, &[]))).unwrap_err();
    assert_eq!(
        error.message(),
        "Unsupported model: DiffusionGemma dimensions outside the supported kernel set"
    );
    assert!(matches!(jevons::gemma::error::map(error), Error::Backend(_)));
    assert!(matches!(jevons::gemma::error::map(ModelError::Input("x".to_string())), Error::InvalidInput(m) if m == "x"));
    let mut bare = Vec::new();
    bare.extend(b"GGUF");
    bare.extend(3u32.to_le_bytes());
    bare.extend(0u64.to_le_bytes());
    bare.extend(0u64.to_le_bytes());
    bare.resize(32, 0);
    assert!(matches!(
        Config::from_gguf(&open(&bare)),
        Err(ModelError::Gguf(_))
    ));
}

#[test]
fn tensors_are_read_ahead_in_the_order_they_are_needed() {
    let file = model(8, &[("blk.0.attn_v.weight", &[256, 512], 12)]);
    let gguf = open(&file);
    let names = load_order(&gguf, 2);
    assert_eq!(names.len(), 9 + 8 + 4);
    assert_eq!(names[0], "blk.0.attn_v.weight");
    assert_eq!(names[9], "blk.1.ffn_gate.weight");
    assert_eq!(names[20], "self_cond_down.weight");
    let cfg = Config::from_gguf(&gguf).unwrap();
    // The first missing tensor is the error.
    let error = check_load(&gguf, &cfg, 100, 64).unwrap_err();
    assert_eq!(error.message(), "Missing tensor blk.0.ffn_gate.weight");
    for chunk in [0, 129, 2000] {
        assert!(matches!(
            check_load(&gguf, &cfg, 100, chunk),
            Err(ModelError::Input(_))
        ));
    }
    let odd = model(8, &[("blk.0.attn_v.weight", &[512, 256], 12)]);
    let error = check_load(&open(&odd), &cfg, 100, 64).unwrap_err();
    assert_eq!(
        error.message(),
        "Unsupported model: blk.0.attn_v.weight has shape [512, 256] (Q4K)"
    );
    let needs = jevons::gemma::weights::list_needs(&gguf, &cfg);
    let quantized: Vec<String> = needs
        .iter()
        .flat_map(|n| match n {
            Need::Matrix { names, .. } => names.clone(),
            _ => Vec::new(),
        })
        .collect();
    assert_eq!(quantized, names);
}

fn memory() -> Memory {
    Memory {
        cached: Vec::new(),
        cap: 128,
        chunk: 8,
        d: 4,
        vocab: 1000,
        canvas_rows: 0,
        logits: true,
    }
}

fn run(memory: &mut Memory, segments: &Vec<Segment<u64>>) -> (usize, Vec<Step>) {
    let plan = memory.prefill_segments(segments).unwrap();
    for i in 0..plan.steps.len() {
        memory.accept(&plan, i);
    }
    assert_eq!(memory.cached, plan.keys);
    let stats = plan.stats();
    assert_eq!(stats.batches, plan.steps.len());
    assert_eq!(stats.processed_tokens + stats.reused_tokens, plan.keys.len());
    (plan.reused, plan.steps)
}

#[test]
fn prompts_reuse_their_common_prefix_but_no_part_of_an_image() {
    let image = |key: u64| Segment::Image {
        rows: Buf::from_handle(7u64, 12),
        count: 3,
        key,
    };
    let mut m = memory();
    let (reused, steps) = run(&mut m, &vec![Segment::Tokens((0..10).collect())]);
    assert_eq!(reused, 0);
    assert_eq!(
        steps,
        vec![
            Step { segment: 0, from: 0, to: 8 },
            Step { segment: 0, from: 8, to: 10 }
        ]
    );
    assert!(!m.logits);
    let (reused, steps) = run(
        &mut m,
        &vec![Segment::Tokens(vec![0, 1, 2]), image(5), Segment::Tokens(vec![9])],
    );
    assert_eq!(reused, 3);
    assert_eq!(steps.len(), 2);
    assert_eq!(steps[0], Step { segment: 1, from: 3, to: 6 });
    // Only part of the image is the same as before: all of it is computed.
    m.cached.truncate(5);
    let (reused, _) = run(&mut m, &vec![Segment::Tokens(vec![0, 1, 2]), image(5)]);
    assert_eq!(reused, 3);
    let (reused, steps) = run(&mut m, &vec![Segment::Tokens(vec![0, 1, 2]), image(5)]);
    assert_eq!((reused, steps.len()), (6, 0));
    let (reused, _) = run(&mut m, &vec![Segment::Tokens(vec![0, 1, 2]), image(6)]);
    assert_eq!(reused, 3);
    assert!(image_key(5, 0) < 0 && image_key(5, 0) != image_key(5, 1));
    let before = m.cached.clone();
    let large: Vec<Segment<u64>> = vec![Segment::Image {
        rows: Buf::from_handle(7, 8),
        count: 3,
        key: 1,
    }];
    assert!(matches!(
        m.prefill_segments(&large),
        Err(ModelError::Input(e)) if e == "an image needs 3 rows in one forward; the chunk allows 8"
    ));
    let long: Vec<Segment<u64>> = vec![Segment::Tokens((0..128).collect())];
    assert!(m.prefill_segments(&long).is_err());
    assert_eq!(m.cached, before);
    m.clear_prompt_cache();
    assert!(m.cached.is_empty());
}

fn plans() -> Vec<LayerPlan> {
    vec![
        LayerPlan {
            up: GroupPlan { bm: 32, bn: 64 },
            down_columns: 128,
            has_values: true,
        },
        LayerPlan {
            up: GroupPlan { bm: 64, bn: 64 },
            down_columns: 64,
            has_values: false,
        },
    ]
}

#[test]
fn passes_launch_their_kernels_in_order() {
    let cfg = Config::from_gguf(&open(&model(8, &[]))).unwrap();
    let mut m = Memory {
        d: 256,
        vocab: 3,
        ..memory()
    };
    let tokens: Input<u64> = Input::Tokens(vec![0, 1, 2]);
    let prompt = m.forward(&cfg, &tokens, 0, 3, false, false, &plans()).unwrap();
    assert_eq!(prompt.len(), 1 + 16 + 15);
    assert_eq!(
        prompt[0],
        Launch::Embed { rows: 3, scaled: 3, conditioned: false }
    );
    assert_eq!(
        prompt[1],
        Launch::Product {
            from: Place::Xn,
            rows: 3,
            layer: 0,
            weight: Weight::Wq,
            to: Place::Q,
            row_invariant: true
        }
    );
    assert!(matches!(
        prompt[12],
        Launch::Group { routes: 12, tile: 32 }
    ));
    assert!(matches!(
        prompt[31],
        Launch::PostFfn { layer: 1, next: None, prompt_scale: true, rows: 3 }
    ));
    assert!(m.forward(&cfg, &tokens, 126, 3, false, false, &plans()).is_err());
    let strange: Input<u64> = Input::Tokens(vec![3]);
    assert!(matches!(
        m.forward(&cfg, &strange, 0, 1, false, false, &plans()),
        Err(ModelError::Input(e)) if e == "token outside the vocabulary"
    ));
    m.cached = vec![0, 1, 2];
    let canvas = m.canvas(&cfg, vec![1, 2], 3, true, None, &plans()).unwrap();
    // Few routes per expert: the small-row kernel.
    assert!(matches!(
        canvas.launches[13],
        Launch::Experts { tile: 4, columns: None, max_jobs: 34, .. }
    ));
    assert_eq!(canvas.logits, Some(6));
    assert_eq!(canvas.signal, None);
    let again = m.canvas(&cfg, vec![1, 2], 3, false, Some(6), &plans()).unwrap();
    assert_eq!(again.signal, Some(Signal::Resident));
    assert!(matches!(
        m.canvas(&cfg, vec![1, 2], 3, false, Some(5), &plans()),
        Err(ModelError::Input(_))
    ));
    assert!(m.canvas(&cfg, vec![1], 2, false, None, &plans()).is_err());
    assert!(m.all_logits().is_err());
    assert!(matches!(
        m.candidate_logits(1, &vec![2]).unwrap(),
        Pick::Pairs(p) if p == vec![(1, 2)]
    ));
    assert!(m.candidate_logits(2, &vec![2]).is_err());
    m.canvas(&cfg, vec![1, 2], 3, true, None, &plans()).unwrap();
    assert!(matches!(
        m.candidate_logits(1, &vec![2]).unwrap(),
        Pick::Logits(at) if at == vec![5]
    ));
    assert_eq!(cfg.scratch(8, Place::Q), Some(8 * 8 * 512));
    assert_eq!(cfg.scratch(8, Place::Jobs), Some(1 + 2 * (8 + 32)));
    assert_eq!(cfg.scratch(8, Place::K), Some(8 * 512));
}

#[test]
fn grouping_covers_every_assignment() {
    let ids = vec![2u32, 0, 2, 1, 2, 0];
    let groups = group(&ids, 4, 2);
    assert_eq!(groups.sorted, vec![1, 5, 3, 0, 2, 4]);
    assert_eq!(groups.offsets, vec![0, 2, 3, 6, 6]);
    assert_eq!(groups.jobs, vec![(0, 0), (1, 2), (2, 3), (2, 5)]);
    assert_eq!(
        transpose_router(&vec![1, 2, 3, 4, 5, 6], 2, 3),
        vec![1, 4, 2, 5, 3, 6]
    );
}

#[test]
fn images_are_framed_and_looked_up() {
    let parts = image_parts(&vec![3], 90, 91);
    assert_eq!(parts.len(), 3);
    assert!(matches!(&parts[0], PromptPart::Text(t) if *t == vec![90]));
    let encoded = vec![Encoded {
        rows: Buf::from_handle(1u64, 12),
        tokens: 3,
        key: 8,
    }];
    let segments = prompt_segments(&parts, &vec![4, 5], &encoded, 7).unwrap();
    assert_eq!(segments.len(), 4);
    assert!(matches!(segments[1], Segment::Image { count: 3, key: 8, .. }));
    assert!(matches!(
        prompt_segments(&parts, &vec![4, 5], &encoded, 6),
        Err(Error::InvalidInput(m)) if m == "Prompt exceeds context size"
    ));
    let none: Vec<Encoded<u64>> = Vec::new();
    assert!(matches!(
        prompt_segments(&parts, &vec![], &none, 9),
        Err(Error::InvalidInput(m)) if m == "Unknown image part"
    ));
    assert!(check_images(0, false).is_ok());
    assert!(check_images(1, false).is_err());
    assert!(matches!(
        check_images(9, true),
        Err(Error::InvalidInput(m)) if m == "At most 8 images are allowed"
    ));
    assert!(matches!(
        check_image_size(65, 64),
        Err(Error::InvalidInput(m)) if m == "Image needs 65 tokens in one batch; increase --batch-size"
    ));
    let chat = chat_format();
    assert_eq!(chat.model_open, format!("{}{}", chat.turn_close, chat.assistant_open));
    assert_eq!(code_piece(5, 9, false, &b"ab3".to_vec()).as_deref(), Some("ab3"));
    assert_eq!(code_piece(5, 9, true, &b"ab3".to_vec()), None);
    assert_eq!(code_piece(9, 9, false, &b"ab3".to_vec()), None);
    assert_eq!(code_piece(5, 9, false, &b"a b".to_vec()), None);
    assert_eq!(code_piece(5, 9, false, &b"".to_vec()), None);
}

#[test]
fn early_tensors_wait_until_they_are_wanted() {
    let mut ahead = Prefetch::new();
    assert_eq!(ahead.take("b"), None);
    assert_eq!(ahead.receive("b", "a".to_string(), 1), None);
    assert_eq!(ahead.receive("b", "b".to_string(), 2), Some(2));
    assert_eq!(ahead.take("a"), Some(1));
    assert_eq!(ahead.take("a"), None);
}

#[test]
fn experts_are_chosen_by_probability_and_index() {
    let p: Vec<u32> = [0.1f32, 0.3, 0.05, 0.3, 0.25].iter().map(|x| x.to_bits()).collect();
    assert_eq!(route(&p, 3), [1, 3, 4]);
    assert_eq!(route(&p, 5), [1, 3, 4, 0, 2]);
    assert!(route(&p, 0).is_empty());
    assert_eq!(route(&vec![0, 0, 0], 2), [0, 1]);
}

/// Blocks of 256 values as words, filled by `next`.
fn q6k_table(blocks: usize) -> (Vec<u8>, Q6kTable) {
    let mut state = 5u32;
    let mut next = || {
        state = state.wrapping_mul(1_664_525).wrapping_add(1_013_904_223);
        (state >> 24) as u8
    };
    let raw: Vec<u8> = (0..blocks * 208).map(|_| next()).collect();
    let words = |from: usize, to: usize| {
        raw.chunks(208)
            .flat_map(|block| block[from..to].chunks(4))
            .map(|b| u32::from_le_bytes([b[0], b[1], b[2], b[3]]))
            .collect::<Vec<_>>()
    };
    let table = Q6kTable {
        ql: words(0, 128),
        qh: words(128, 192),
        sc: words(192, 208),
        d: vec![1.0f32.to_bits(); blocks],
    };
    (raw, table)
}

#[test]
fn q6k_values_follow_the_block_layout() {
    let (rows, d) = (3, 512);
    let (raw, table) = q6k_table(rows * d / 256);
    for row in 0..rows {
        for c in 0..d {
            let block = row * (d / 256) + c / 256;
            let bytes = &raw[block * 208..][..208];
            let (w, l) = (c % 256, c % 32);
            let (half, j) = (w / 128, w % 128 / 32);
            let low = bytes[64 * half + 32 * (j % 2) + l] >> (4 * (j / 2)) & 15;
            let high = bytes[128 + 32 * half + l] >> (2 * j) & 3;
            let scale = bytes[192 + 8 * half + 2 * j + l / 16] as i8;
            assert_eq!(
                table.level(rows, d, row, c),
                Level {
                    block,
                    scale: i32::from(scale),
                    q: i32::from(low | high << 4) - 32,
                }
            );
        }
    }
    let columns = table.transposed(rows, d);
    assert_eq!(columns.len(), rows * d);
    assert_eq!(columns[1], table.level(rows, d, 1, 0));
    assert_eq!(columns[300 * rows + 2], table.level(rows, d, 2, 300));
}

#[test]
fn queries_keys_and_values_have_their_cache_layouts() {
    let shape = QkvShape { heads: 4, kv_heads: 2, hd: 256 };
    let (rows, pos, cap) = (5, 7, 64);
    assert_eq!(
        shape.prepare(rows, 2, pos, cap, 3, 130),
        Move {
            from: Cell::Query((2 * 4 + 3) * 256 + 130),
            to: Cell::Query((2 * 4 + 3) * 256 + 130),
            rope: Some((9 * 128 + 2) * 2),
        }
    );
    assert_eq!(
        shape.prepare(rows, 2, pos, cap, 5, 10),
        Move {
            from: Cell::Key((2 * 2 + 1) * 256 + 10),
            to: Cell::Key((9 * 2 + 1) * 256 + 10),
            rope: Some((9 * 128 + 10) * 2),
        }
    );
    assert_eq!(
        shape.prepare(rows, 4, pos, cap, 7, 255),
        Move {
            from: Cell::Value((4 * 2 + 1) * 256 + 255),
            to: Cell::Value((256 + 255) * 64 + 11),
            rope: None,
        }
    );
    let mut cells = std::collections::HashSet::new();
    for row in 0..rows {
        for slot in 0..8 {
            for c in 0..256 {
                assert!(cells.insert(format!("{:?}", shape.prepare(rows, row, pos, cap, slot, c).to)));
            }
        }
    }
}

#[test]
fn image_tokens_average_squares_of_patches() {
    assert_eq!(pooled_patches(6, 9, 3, 1), [3, 4, 5, 12, 13, 14, 21, 22, 23]);
    let mut seen: Vec<usize> = (0..6).flat_map(|t| pooled_patches(6, 9, 3, t)).collect();
    seen.sort();
    assert_eq!(seen, (0..54).collect::<Vec<_>>());
}

#[test]
fn queries_see_their_window_their_canvas_and_their_image() {
    let seen = |sight: &Sight, query: usize| -> Vec<usize> {
        (0..12).filter(|&key| sight.visible(query, key)).collect()
    };
    let causal = Sight { keys: 8, prompt: 20, block: None, swa: false, window: 3 };
    assert_eq!(seen(&causal, 4), [0, 1, 2, 3, 4]);
    let sliding = Sight { swa: true, ..causal };
    assert_eq!(seen(&sliding, 4), [2, 3, 4]);
    let image = Sight { keys: 9, block: Some(5), ..sliding };
    assert_eq!(seen(&image, 6), [4, 5, 6, 7, 8]);
    let canvas = Sight { keys: 10, prompt: 6, block: None, swa: true, window: 3 };
    assert_eq!(seen(&canvas, 7), [4, 5, 6, 7, 8, 9]);
    assert_eq!(seen(&Sight { swa: false, ..canvas }, 7), (0..10).collect::<Vec<_>>());
}

#[test]
fn image_heads_rotate_by_column_and_row() {
    let (hd, cols, patch) = (8, 5, 13);
    let turn = |c| image_turn(hd, cols, patch, c);
    assert_eq!(turn(1), Turn { partner: 3, first: true, place: 3, pair: 1 });
    assert_eq!(turn(3), Turn { partner: 1, first: false, place: 3, pair: 1 });
    assert_eq!(turn(4), Turn { partner: 6, first: true, place: 2, pair: 0 });
    for c in 0..hd {
        assert_eq!(turn(turn(c).partner).partner, c);
    }
}

#[test]
fn a_failed_forward_leaves_nothing_to_reuse() {
    let mut m = memory();
    let prompt: Vec<Segment<u64>> = vec![Segment::Tokens((0..10).collect())];
    run(&mut m, &prompt);
    m.fail();
    assert!(m.cached.is_empty());
    let (reused, steps) = run(&mut m, &prompt);
    assert_eq!((reused, steps.len()), (0, 2));
}

#[test]
fn image_parts_show_their_own_image() {
    let encoded = vec![
        Encoded {
            rows: Buf::from_handle(1u64, 12),
            tokens: 3,
            key: 8,
        },
        Encoded {
            rows: Buf::from_handle(2u64, 12),
            tokens: 3,
            key: 9,
        },
    ];
    let parts = image_parts(&vec![3, 3], 90, 91);
    let segments = prompt_segments(&parts, &vec![4, 5], &encoded, 20).unwrap();
    let handles: Vec<u64> = segments
        .iter()
        .filter_map(|s| match s {
            Segment::Image { rows, .. } => Some(rows.arg().handle),
            _ => None,
        })
        .collect();
    assert_eq!(handles, vec![1, 2]);
}

#[test]
fn attention_buffers_are_found_by_cell() {
    let (q, k, v) = (
        Buf::from_handle(1u64, 8),
        Buf::from_handle(2u64, 4),
        Buf::from_handle(3u64, 4),
    );
    let out = QkvOut { q: &q, k: &k, v: &v };
    let found = |cell: Cell| out.find(cell).map(|(arg, i)| (arg.handle, arg.shape, i));
    assert_eq!(found(Cell::Query(7)), Some((1, 8, 7)));
    assert_eq!(found(Cell::Key(3)), Some((2, 4, 3)));
    assert_eq!(found(Cell::Key(4)), None);
    assert_eq!(found(Cell::Value(0)), Some((3, 4, 0)));
}

#[test]
fn layers_take_the_measured_plans_of_their_experts() {
    let w = |n: usize, k: usize| QMatrix {
        fmt: 12,
        n,
        k,
        experts: 8,
        bytes: 4096,
    };
    let layer = |has_values: bool| LayerExperts {
        up: w(256, 128),
        up_tile: 64,
        down: w(128, 256),
        down_tile: 32,
        has_values,
    };
    let measured = GroupPlan { bm: 16, bn: 128 };
    let mut tuner = Tuner {
        profile: DeviceProfile {
            device: 0,
            compute_units: 40,
            plane_size: 32,
            shared_memory: 65536,
            max_allocation: 1 << 40,
            load_width: 128,
        },
        path: None,
        dense: Vec::new(),
        grouped: Vec::new(),
    };
    let plain = layer_plans(&tuner, &vec![layer(true), layer(false)], 30);
    assert_eq!(plain.len(), 2);
    assert_eq!(plain[0].up, GroupPlan::heuristic(64));
    assert_eq!(plain[0].down_columns, GroupPlan::heuristic(32).bn);
    assert!(plain[0].has_values && !plain[1].has_values);
    tuner.grouped.push((
        GroupKey {
            fmt: 12,
            n: 256,
            k: 128,
            experts: 8,
            bucket: 32,
        },
        measured,
    ));
    let tuned = layer_plans(&tuner, &vec![layer(true)], 30);
    assert_eq!(tuned[0].up, measured);
    assert_eq!(tuned[0].down_columns, plain[0].down_columns);
    // Another bucket of rows.
    assert_eq!(layer_plans(&tuner, &vec![layer(true)], 33)[0].up, plain[0].up);
}
