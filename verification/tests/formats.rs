use jevons::formats::bytes::text_of_bytes;
use jevons::formats::gguf::file::{f32_bits, Gguf};
use jevons::formats::gguf::value::{GgufError, MetadataValue, TensorType};
use jevons::formats::safetensors::checkpoint::{widen_brain, Checkpoint, Floats};
use jevons::formats::safetensors::header::{header_length, Dtype, SafetensorsError};
use jevons::formats::safetensors::index::ShardIndex;
use jevons::models::detect::{detect_file, Architecture};
use jevons::error::Error;

fn string(out: &mut Vec<u8>, s: &str) {
    out.extend((s.len() as u64).to_le_bytes());
    out.extend(s.as_bytes());
}

fn sample() -> Vec<u8> {
    let mut out = Vec::new();
    out.extend(b"GGUF");
    out.extend(3u32.to_le_bytes());
    out.extend(1u64.to_le_bytes());
    out.extend(2u64.to_le_bytes());
    string(&mut out, "a.count");
    out.extend(4u32.to_le_bytes());
    out.extend(7u32.to_le_bytes());
    string(&mut out, "a.names");
    out.extend(9u32.to_le_bytes());
    out.extend(8u32.to_le_bytes());
    out.extend(2u64.to_le_bytes());
    string(&mut out, "x");
    string(&mut out, "yz");
    string(&mut out, "w");
    out.extend(2u32.to_le_bytes());
    out.extend(2u64.to_le_bytes());
    out.extend(1u64.to_le_bytes());
    out.extend(0u32.to_le_bytes());
    out.extend(0u64.to_le_bytes());
    while out.len() % 32 != 0 {
        out.push(0);
    }
    out.extend(1.5f32.to_le_bytes());
    out.extend((-2.0f32).to_le_bytes());
    out
}

fn open(bytes: &[u8]) -> Result<Gguf, GgufError> {
    Gguf::parse(bytes, bytes.len() as u64)
}

fn floats(file: &[u8], range: (u64, u64)) -> Vec<f32> {
    f32_bits(&file[range.0 as usize..(range.0 + range.1) as usize])
        .into_iter()
        .map(f32::from_bits)
        .collect()
}

#[test]
fn well_formed_files_expose_metadata_and_tensors() {
    let file = sample();
    let gguf = open(&file).unwrap();
    assert_eq!(gguf.u64("a.count").unwrap(), 7);
    let names = gguf.get("a.names").unwrap().as_array().unwrap();
    assert_eq!(names[1].as_str(), Some("yz"));
    assert_eq!(
        floats(&file, gguf.read_f32("w").unwrap()),
        vec![1.5, -2.0]
    );
    let info = gguf.tensor("w").unwrap();
    assert_eq!(info.elements(), 2);
    assert_eq!(info.kind, TensorType::F32);
    assert_eq!(info.read_range(4, 4).unwrap(), (info.offset + 4, 4));
    assert!(info.read_range(4, 5).is_err());
    assert!(matches!(gguf.tensor("v"), Err(GgufError::MissingTensor(n)) if n == "v"));
    assert!(matches!(gguf.get("b"), Err(GgufError::MissingKey(k)) if k == "b"));
    assert!(gguf.u64("a.names").is_err());
}

#[test]
fn truncated_or_corrupt_files_are_rejected() {
    let good = sample();
    for (name, bytes) in [
        ("magic", [b"GGUX".as_slice(), &good[4..]].concat()),
        ("short", good[..good.len() - 4].to_vec()),
        ("header", good[..40].to_vec()),
    ] {
        assert!(open(&bytes).is_err(), "{name}");
    }
}

#[test]
fn a_longer_head_reads_the_same_header() {
    let good = sample();
    let header = good.len() - 8;
    let short = Gguf::parse(&good[..header], good.len() as u64).unwrap();
    let long = open(&good).unwrap();
    assert_eq!(
        short.tensor("w").unwrap().offset,
        long.tensor("w").unwrap().offset
    );
    assert!(Gguf::parse(&good[..30], good.len() as u64).is_err());
}

#[test]
fn files_without_gguf_magic_are_unsupported() {
    assert!(matches!(
        detect_file(b"not a model", 11, "model.bin"),
        Err(Error::UnsupportedModel(m))
            if m == "model.bin is neither a GGUF file nor a Hugging Face checkpoint directory"
    ));
    assert!(matches!(detect_file(b"GG", 2, "x"), Err(Error::ModelLoad)));
    assert!(matches!(detect_file(b"GGUF", 4, "x"), Err(Error::ModelLoad)));
    let file = sample();
    assert!(matches!(
        detect_file(&file, file.len() as u64, "x"),
        Err(Error::UnsupportedModel(m)) if m == "GGUF architecture (missing) is not supported"
    ));
    let mut gemma = Vec::new();
    gemma.extend(b"GGUF");
    gemma.extend(3u32.to_le_bytes());
    gemma.extend(0u64.to_le_bytes());
    gemma.extend(1u64.to_le_bytes());
    string(&mut gemma, "general.architecture");
    gemma.extend(8u32.to_le_bytes());
    string(&mut gemma, "diffusion-gemma");
    while gemma.len() % 32 != 0 {
        gemma.push(0);
    }
    assert_eq!(
        detect_file(&gemma, gemma.len() as u64, "x").unwrap(),
        Architecture::Gemma4Diffusion
    );
}

/// Serializes tensors as a safetensors file.
fn shard(tensors: &[(&str, &str, &str, Vec<u8>)]) -> Vec<u8> {
    let mut header = String::from(r#"{"__metadata__": {"format": "pt"}"#);
    let mut data: Vec<u8> = Vec::new();
    for (name, dtype, shape, bytes) in tensors {
        let begin = data.len();
        data.extend(bytes);
        header += &format!(
            r#", "{name}": {{"dtype": "{dtype}", "shape": {shape}, "data_offsets": [{begin}, {}]}}"#,
            data.len()
        );
    }
    header.push('}');
    let mut file = (header.len() as u64).to_le_bytes().to_vec();
    file.extend(header.as_bytes());
    file.extend(data);
    file
}

fn add(checkpoint: &mut Checkpoint, path: &str, file: &[u8]) -> Result<(), SafetensorsError> {
    let length = header_length(&file[..8.min(file.len())], file.len() as u64, path)?;
    checkpoint.add(path, &file[8..8 + length as usize], file.len() as u64)
}

#[test]
fn sharded_checkpoints_read_tensors_from_the_indexed_shard() {
    // 1.5 and -2.0 as bfloat16.
    let halves: Vec<u8> = [0x3fc0u16, 0xc000]
        .iter()
        .flat_map(|v| v.to_le_bytes())
        .collect();
    let a = shard(&[("x", "BF16", "[2]", halves.clone())]);
    let b = shard(&[("y", "F32", "[1, 1]", 3.25f32.to_le_bytes().to_vec())]);
    let index = ShardIndex::parse(
        r#"{"metadata":{},"weight_map":{"x":"a.safetensors","y":"b.safetensors"}}"#,
        "index",
    )
    .unwrap();
    assert_eq!(
        index.files("index").unwrap(),
        ["a.safetensors", "b.safetensors"]
    );
    let mut checkpoint = Checkpoint::new();
    add(&mut checkpoint, "a.safetensors", &a).unwrap();
    add(&mut checkpoint, "b.safetensors", &b).unwrap();
    index.check(&checkpoint, "index").unwrap();
    assert_eq!(checkpoint.names(), ["x", "y"]);
    assert_eq!(checkpoint.tensor("x").unwrap().dtype, Dtype::BF16);
    let (file, from, len) = checkpoint.read("x").unwrap();
    assert_eq!(file, 0);
    assert_eq!(a[from as usize..(from + len) as usize], halves[..]);
    match checkpoint.read_f32("x", &halves).unwrap() {
        Floats::Brain(bits) => assert_eq!(
            bits.iter()
                .map(|&b| f32::from_bits(u32::from(b) << 16))
                .collect::<Vec<f32>>(),
            [1.5, -2.0]
        ),
        other => panic!("{other:?}"),
    }
    let (file, from, len) = checkpoint.read("y").unwrap();
    assert_eq!(file, 1);
    match checkpoint
        .read_f32("y", &b[from as usize..(from + len) as usize])
        .unwrap()
    {
        Floats::Single(bits) => assert_eq!(f32::from_bits(bits[0]), 3.25),
        other => panic!("{other:?}"),
    }
    assert!(matches!(
        checkpoint.read("z"),
        Err(SafetensorsError::Missing(_))
    ));
    let wrong = ShardIndex::parse(
        r#"{"weight_map":{"x":"b.safetensors","y":"b.safetensors"}}"#,
        "index",
    )
    .unwrap();
    let mut other = Checkpoint::new();
    add(&mut other, "b.safetensors", &b).unwrap();
    assert!(wrong.check(&other, "index").is_err());
}

#[test]
fn offsets_that_disagree_with_shape_or_file_size_are_rejected() {
    let mut checkpoint = Checkpoint::new();
    let long = shard(&[("x", "F32", "[3]", vec![0; 8])]);
    assert!(matches!(
        add(&mut checkpoint, "model.safetensors", &long),
        Err(SafetensorsError::Format { .. })
    ));
    let strange = shard(&[("x", "Q4", "[1]", vec![0; 1])]);
    assert!(add(&mut Checkpoint::new(), "model.safetensors", &strange).is_err());
    assert!(add(
        &mut Checkpoint::new(),
        "model.safetensors",
        &u64::MAX.to_le_bytes()
    )
    .is_err());
}

#[test]
fn names_are_read_as_utf8() {
    assert_eq!(text_of_bytes(vec![0xc3, 0xa9]).as_deref(), Some("\u{e9}"));
    assert_eq!(text_of_bytes(vec![0xc3]), None);
}

#[test]
fn output_buffers_have_the_size_of_their_tensor() {
    let file = shard(&[("y", "F32", "[1, 1]", 3.25f32.to_le_bytes().to_vec())]);
    let mut checkpoint = Checkpoint::new();
    add(&mut checkpoint, "model.safetensors", &file).unwrap();
    let info = checkpoint.tensor("y").unwrap();
    assert_eq!(info.byte_len(), 4);
    assert!(checkpoint.read_into(info, 4).is_ok());
    assert!(matches!(
        checkpoint.read_into(info, 3),
        Err(SafetensorsError::Format { message, .. }) if message == "output buffer size mismatch"
    ));
}

#[test]
fn switches_are_no_numbers() {
    assert_eq!(MetadataValue::Bool(true).as_bool(), Some(true));
    assert_eq!(MetadataValue::Bool(true).as_u64(), None);
    assert_eq!(open(&sample()).unwrap().get("a.count").unwrap().as_bool(), None);
}

#[test]
fn bfloat16_values_widen_to_single_precision() {
    let all: Vec<u16> = (0..=u16::MAX).collect();
    let wide = widen_brain(&all);
    for (&bits, &got) in all.iter().zip(&wide) {
        assert_eq!(got, half::bf16::from_bits(bits).to_f32().to_bits(), "{bits:x}");
    }
    assert_eq!(f32::from_bits(widen_brain(&vec![0x3fc0])[0]), 1.5);
}

#[test]
fn tensors_of_every_file_have_the_size_of_their_shape() {
    let a = shard(&[("x", "BF16", "[2, 3]", vec![0; 12]), ("z", "I64", "[]", vec![0; 8])]);
    let b = shard(&[("y", "F32", "[5]", vec![0; 20])]);
    let mut checkpoint = Checkpoint::new();
    add(&mut checkpoint, "a.safetensors", &a).unwrap();
    add(&mut checkpoint, "b.safetensors", &b).unwrap();
    for name in checkpoint.names() {
        let info = checkpoint.tensor(&name).unwrap();
        assert_eq!(info.byte_len(), info.elements() * info.dtype.size());
        assert_eq!(checkpoint.read(&name).unwrap().2, info.byte_len() as u64);
    }
}

#[test]
fn a_refused_file_leaves_the_checkpoint_as_it_was() {
    let a = shard(&[("x", "F32", "[1]", vec![0; 4])]);
    let b = shard(&[("v", "F32", "[1]", vec![0; 4]), ("x", "F32", "[1]", vec![0; 4])]);
    let mut checkpoint = Checkpoint::new();
    add(&mut checkpoint, "a.safetensors", &a).unwrap();
    assert!(matches!(
        add(&mut checkpoint, "b.safetensors", &b),
        Err(SafetensorsError::Format { message, .. }) if message == "duplicate tensor x"
    ));
    assert_eq!(checkpoint.names(), ["x"]);
    assert_eq!(checkpoint.shards, ["a.safetensors"]);
}
