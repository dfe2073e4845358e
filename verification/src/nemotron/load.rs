//! Loading a Nemotron-Labs-Diffusion checkpoint: its limits, its vision tower and its tensors.
use crate::arith::wide;
use crate::error::{Error, ErrorModel, Result};
use crate::json::{Json, Tree};
use crate::nemotron::config::{failed, Config};
use crate::nemotron::rows::{IMAGE_BREAK, IMAGE_END, IMAGE_PAD, IMAGE_START, PATCH};
use crate::schema::{
    missing, missing_text, named, number_field, size_field, text_field, words_of, Number,
};
use crate::sequences::texts;
use crate::text::{decimal, digits, same_text, signed_decimal, signed_digits};
use vstd::prelude::*;
use vstd::string::*;

verus! {

// ---------------------------------------------------------------------------------------------
// Limits
// ---------------------------------------------------------------------------------------------

/// Refuses a separate projector: the checkpoint has its own vision tower.
pub fn check_projector(mmproj: bool) -> (r: Result<()>)
    ensures
        r is Ok <==> !mmproj,
        r matches Err(e) ==> e@ == ErrorModel::InvalidInput(
            "--mmproj applies to DiffusionGemma; Nemotron-Labs-Diffusion keeps its vision tower in the checkpoint"@,
        ),
{
    if mmproj {
        return Err(
            Error::input(
                "--mmproj applies to DiffusionGemma; Nemotron-Labs-Diffusion keeps its vision tower in the checkpoint",
            ),
        );
    }
    Ok(())
}

/// Why a context or a tokenizer does not fit a checkpoint.
pub open spec fn limits_fault(cfg: Config, context: u32, n_vocab: usize) -> Option<ErrorModel> {
    let original = cfg.rope_parameters.original_max_position_embeddings;
    if original is Some && context > original->Some_0 {
        Some(
            ErrorModel::InvalidInput(
                "--context-size may be at most "@ + digits(original->Some_0 as nat)
                    + " for this model"@,
            ),
        )
    } else if n_vocab != cfg.vocab_size {
        Some(ErrorModel::UnsupportedModel("tokenizer and model vocabulary sizes differ"@))
    } else {
        None
    }
}

/// Checks the context and the tokenizer of `n_vocab` tokens against a checkpoint.
pub fn check_limits(cfg: &Config, context: u32, n_vocab: usize) -> (r: Result<()>)
    ensures
        r is Ok <==> limits_fault(*cfg, context, n_vocab) is None,
        r matches Err(e) ==> limits_fault(*cfg, context, n_vocab) == Some(e@),
{
    match cfg.rope_parameters.original_max_position_embeddings {
        Some(original) => {
            if context as u64 > original as u64 {
                return Err(
                    Error::InvalidInput(
                        "--context-size may be at most ".to_owned().concat(
                            decimal(original as u64).as_str(),
                        ).concat(" for this model"),
                    ),
                );
            }
        },
        None => {},
    }
    if n_vocab != cfg.vocab_size {
        return Err(Error::unsupported("tokenizer and model vocabulary sizes differ"));
    }
    Ok(())
}

// ---------------------------------------------------------------------------------------------
// Vision
// ---------------------------------------------------------------------------------------------

/// The rotary embedding of the tower.
#[derive(Clone, Debug)]
pub struct VisionRope {
    pub rope_theta: Number,
    pub rope_type: String,
}

/// The Pixtral tower of a checkpoint.
#[derive(Clone, Debug)]
pub struct VisionConfig {
    pub hidden_size: usize,
    pub intermediate_size: usize,
    pub num_hidden_layers: usize,
    pub num_attention_heads: usize,
    pub head_dim: usize,
    pub patch_size: usize,
    pub num_channels: usize,
    pub image_size: usize,
    pub hidden_act: String,
    pub rope_parameters: VisionRope,
}

/// The fields of a tower, in their order.
pub open spec fn vision_names() -> Seq<Seq<char>> {
    seq![
        "hidden_size"@,
        "intermediate_size"@,
        "num_hidden_layers"@,
        "num_attention_heads"@,
        "head_dim"@,
        "patch_size"@,
        "num_channels"@,
        "image_size"@,
        "hidden_act"@,
        "rope_parameters"@,
    ]
}

fn vision_names_list() -> (r: Vec<&'static str>)
    ensures
        words_of(r@) == vision_names(),
{
    let mut list: Vec<&'static str> = Vec::new();
    list.push("hidden_size");
    list.push("intermediate_size");
    list.push("num_hidden_layers");
    list.push("num_attention_heads");
    list.push("head_dim");
    list.push("patch_size");
    list.push("num_channels");
    list.push("image_size");
    list.push("hidden_act");
    list.push("rope_parameters");
    assert(words_of(list@) =~= vision_names());
    list
}

/// The fields of its rotary embedding, in their order.
pub open spec fn vision_rope_names() -> Seq<Seq<char>> {
    seq![
        "rope_theta"@,
        "rope_type"@,
    ]
}

fn vision_rope_names_list() -> (r: Vec<&'static str>)
    ensures
        words_of(r@) == vision_rope_names(),
{
    let mut list: Vec<&'static str> = Vec::new();
    list.push("rope_theta");
    list.push("rope_type");
    assert(words_of(list@) =~= vision_rope_names());
    list
}

/// The rotary embedding of a tower, by name.
pub open spec fn vision_rope_tree(t: Tree) -> Option<Tree> {
    match t.entry("rope_parameters"@) {
        None => None,
        Some(rope) => Some(named(rope, vision_rope_names(), 2)),
    }
}

/// The tower of a configuration, by name.
pub open spec fn vision_tree(config: Tree) -> Option<Tree> {
    match config.present("vision_config"@) {
        None => None,
        Some(t) => Some(named(t, vision_names(), 10)),
    }
}

/// The first field of the rotary embedding that cannot be read.
pub open spec fn vision_rope_fault(t: Tree) -> Option<Seq<char>> {
    match vision_rope_tree(t) {
        None => Some(missing("rope_parameters"@)),
        Some(rope) => if number_field(rope, "rope_theta"@) is Err {
            failed(number_field(rope, "rope_theta"@))
        } else {
            failed(text_field(rope, "rope_type"@))
        },
    }
}

/// The first field of the tower that cannot be read.
pub open spec fn vision_fields_fault(t: Tree) -> Option<Seq<char>> {
    if size_field(t, "hidden_size"@) is Err {
        failed(size_field(t, "hidden_size"@))
    } else if size_field(t, "intermediate_size"@) is Err {
        failed(size_field(t, "intermediate_size"@))
    } else if size_field(t, "num_hidden_layers"@) is Err {
        failed(size_field(t, "num_hidden_layers"@))
    } else if size_field(t, "num_attention_heads"@) is Err {
        failed(size_field(t, "num_attention_heads"@))
    } else if size_field(t, "head_dim"@) is Err {
        failed(size_field(t, "head_dim"@))
    } else if size_field(t, "patch_size"@) is Err {
        failed(size_field(t, "patch_size"@))
    } else if size_field(t, "num_channels"@) is Err {
        failed(size_field(t, "num_channels"@))
    } else if size_field(t, "image_size"@) is Err {
        failed(size_field(t, "image_size"@))
    } else if text_field(t, "hidden_act"@) is Err {
        failed(text_field(t, "hidden_act"@))
    } else {
        vision_rope_fault(t)
    }
}

/// The tower holds what the object says.
pub open spec fn vision_of(t: Tree, c: VisionConfig) -> bool {
    &&& size_field(t, "hidden_size"@) == Ok::<usize, Seq<char>>(c.hidden_size)
    &&& size_field(t, "intermediate_size"@) == Ok::<usize, Seq<char>>(c.intermediate_size)
    &&& size_field(t, "num_hidden_layers"@) == Ok::<usize, Seq<char>>(c.num_hidden_layers)
    &&& size_field(t, "num_attention_heads"@) == Ok::<usize, Seq<char>>(c.num_attention_heads)
    &&& size_field(t, "head_dim"@) == Ok::<usize, Seq<char>>(c.head_dim)
    &&& size_field(t, "patch_size"@) == Ok::<usize, Seq<char>>(c.patch_size)
    &&& size_field(t, "num_channels"@) == Ok::<usize, Seq<char>>(c.num_channels)
    &&& size_field(t, "image_size"@) == Ok::<usize, Seq<char>>(c.image_size)
    &&& text_field(t, "hidden_act"@) == Ok::<Seq<char>, Seq<char>>(c.hidden_act@)
    &&& vision_rope_tree(t) is Some
    &&& ({
        let rope = vision_rope_tree(t)->Some_0;
        &&& number_field(rope, "rope_theta"@) == Ok::<Number, Seq<char>>(
            c.rope_parameters.rope_theta,
        )
        &&& text_field(rope, "rope_type"@) == Ok::<Seq<char>, Seq<char>>(
            c.rope_parameters.rope_type@,
        )
    })
}

/// Why the vision tower of a configuration is refused.
pub open spec fn vision_fault(config: Tree) -> Option<ErrorModel> {
    match vision_tree(config) {
        None => None,
        Some(t) => match vision_fields_fault(t) {
            Some(m) => Some(ErrorModel::UnsupportedModel("vision config: "@ + m)),
            None => if size_field(t, "patch_size"@)->Ok_0 != PATCH || text_field(
                t,
                "hidden_act"@,
            )->Ok_0 != "silu"@ {
                Some(ErrorModel::UnsupportedModel("unsupported Pixtral vision config"@))
            } else {
                None
            },
        },
    }
}

fn read_vision(t: &Json) -> (r: core::result::Result<VisionConfig, String>)
    ensures
        r matches Ok(c) ==> vision_fields_fault(t@) is None && vision_of(t@, c),
        r matches Err(m) ==> vision_fields_fault(t@) == Some(m@),
{
    let hidden_size: usize = t.size_field("hidden_size")?;
    let intermediate_size: usize = t.size_field("intermediate_size")?;
    let num_hidden_layers: usize = t.size_field("num_hidden_layers")?;
    let num_attention_heads: usize = t.size_field("num_attention_heads")?;
    let head_dim: usize = t.size_field("head_dim")?;
    let patch_size: usize = t.size_field("patch_size")?;
    let num_channels: usize = t.size_field("num_channels")?;
    let image_size: usize = t.size_field("image_size")?;
    let hidden_act: String = t.text_field("hidden_act")?;
    let rope: Json = match t.get("rope_parameters") {
        None => {
            return Err(missing_text("rope_parameters"));
        },
        Some(rope) => rope.named(&vision_rope_names_list(), 2),
    };
    let rope_theta: Number = rope.number_field("rope_theta")?;
    let rope_type: String = rope.text_field("rope_type")?;
    Ok(
        VisionConfig {
            hidden_size,
            intermediate_size,
            num_hidden_layers,
            num_attention_heads,
            head_dim,
            patch_size,
            num_channels,
            image_size,
            hidden_act,
            rope_parameters: VisionRope { rope_theta, rope_type },
        },
    )
}

/// The vision tower of a configuration; none in a text-only checkpoint.
pub fn vision_config(config: &Json) -> (r: Result<Option<VisionConfig>>)
    ensures
        r is Ok <==> vision_fault(config@) is None,
        r matches Ok(None) ==> vision_tree(config@) is None,
        r matches Ok(Some(c)) ==> vision_tree(config@) is Some && vision_of(
            vision_tree(config@)->Some_0,
            c,
        ),
        r matches Err(e) ==> vision_fault(config@) == Some(e@),
{
    match config.field("vision_config") {
        None => Ok(None),
        Some(t) => {
            let found: VisionConfig = match read_vision(&t.named(&vision_names_list(), 10)) {
                Ok(c) => c,
                Err(m) => {
                    return Err(
                        Error::UnsupportedModel("vision config: ".to_owned().concat(m.as_str())),
                    );
                },
            };
            if found.patch_size != PATCH || !same_text(found.hidden_act.as_str(), "silu") {
                return Err(Error::unsupported("unsupported Pixtral vision config"));
            }
            Ok(Some(found))
        },
    }
}

/// The image markers and the tokens they must be.
pub open spec fn markers() -> Seq<(Seq<char>, i32)> {
    seq![
        ("<|image_start|>"@, IMAGE_START),
        ("<|image_pad|>"@, IMAGE_PAD),
        ("<|image_break|>"@, IMAGE_BREAK),
        ("<|image_end|>"@, IMAGE_END),
    ]
}

/// The first marker from the `i`th on that the tokenizer does not map to its token.
pub open spec fn marker_fault(found: Seq<Option<i32>>, i: nat) -> Option<ErrorModel>
    decreases 4 - i,
{
    if i >= 4 {
        None
    } else if found[i as int] != Some(markers()[i as int].1) {
        Some(
            ErrorModel::UnsupportedModel(
                "the tokenizer does not map "@ + markers()[i as int].0 + " to "@ + signed_digits(
                    markers()[i as int].1 as int,
                ),
            ),
        )
    } else {
        marker_fault(found, i + 1)
    }
}

fn check_marker(marker: &str, id: i32, found: Option<i32>) -> (r: Result<()>)
    ensures
        r is Ok <==> found == Some(id),
        r matches Err(e) ==> e@ == ErrorModel::UnsupportedModel(
            "the tokenizer does not map "@ + marker@ + " to "@ + signed_digits(id as int),
        ),
{
    let same: bool = match found {
        Some(token) => token == id,
        None => false,
    };
    if same {
        return Ok(());
    }
    Err(
        Error::UnsupportedModel(
            "the tokenizer does not map ".to_owned().concat(marker).concat(" to ").concat(
                signed_decimal(id).as_str(),
            ),
        ),
    )
}

/// Checks the single tokens that a tokenizer found for the image markers, in order.
pub fn check_markers(found: &Vec<Option<i32>>) -> (r: Result<()>)
    requires
        found@.len() == 4,
    ensures
        r is Ok <==> marker_fault(found@, 0) is None,
        r matches Err(e) ==> marker_fault(found@, 0) == Some(e@),
{
    proof {
        reveal_with_fuel(marker_fault, 5);
    }
    check_marker("<|image_start|>", IMAGE_START, found[0])?;
    check_marker("<|image_pad|>", IMAGE_PAD, found[1])?;
    check_marker("<|image_break|>", IMAGE_BREAK, found[2])?;
    check_marker("<|image_end|>", IMAGE_END, found[3])?;
    Ok(())
}

// ---------------------------------------------------------------------------------------------
// Tensors
// ---------------------------------------------------------------------------------------------

/// A tensor to load, or several stacked by rows.
#[derive(Debug)]
pub enum Weights {
    /// Single-precision values.
    Vector { name: String, len: usize },
    /// Half-precision rows of `cols` values, padded to whole tiles.
    Stacked { names: Vec<String>, rows: Vec<u128>, cols: u128 },
    /// Rows as they are stored.
    Matrix { name: String, rows: usize, cols: u128 },
}

/// The mathematical model of [`Weights`].
#[verifier::ext_equal]
pub enum WeightsModel {
    Vector { name: Seq<char>, len: nat },
    Stacked { names: Seq<Seq<char>>, rows: Seq<nat>, cols: nat },
    Matrix { name: Seq<char>, rows: nat, cols: nat },
}

impl View for Weights {
    type V = WeightsModel;

    open spec fn view(&self) -> WeightsModel {
        match self {
            Weights::Vector { name, len } => WeightsModel::Vector {
                name: name@,
                len: *len as nat,
            },
            Weights::Stacked { names, rows, cols } => WeightsModel::Stacked {
                names: texts(names@),
                rows: wide(rows@),
                cols: *cols as nat,
            },
            Weights::Matrix { name, rows, cols } => WeightsModel::Matrix {
                name: name@,
                rows: *rows as nat,
                cols: *cols as nat,
            },
        }
    }
}

/// The models of a list of tensors.
pub open spec fn weight_models(list: Seq<Weights>) -> Seq<WeightsModel> {
    Seq::new(list.len(), |i: int| list[i]@)
}

/// The name of a tensor of a layer: `prefix` `l` `.` `suffix` `.weight`.
pub open spec fn layer_name(prefix: Seq<char>, l: nat, suffix: Seq<char>) -> Seq<char> {
    prefix + digits(l) + "."@ + suffix + ".weight"@
}

/// One stacked tensor.
pub open spec fn single(name: Seq<char>, rows: nat, cols: nat) -> WeightsModel {
    WeightsModel::Stacked { names: seq![name], rows: seq![rows], cols }
}

/// How the tensors of a tower's layers are named and shaped.
pub struct Shape {
    pub prefix: Seq<char>,
    pub first_norm: Seq<char>,
    pub attention: Seq<char>,
    pub second_norm: Seq<char>,
    pub mlp: Seq<char>,
    pub d: nat,
    pub q: nat,
    pub kv: nat,
    pub ff: nat,
}

/// The tensors of layer `l`, in the order they are loaded.
pub open spec fn layer_weights(s: Shape, l: nat) -> Seq<WeightsModel> {
    let name = |suffix: Seq<char>| layer_name(s.prefix, l, suffix);
    seq![
        WeightsModel::Vector { name: name(s.first_norm), len: s.d },
        WeightsModel::Stacked {
            names: seq![
                name(s.attention + ".q_proj"@),
                name(s.attention + ".k_proj"@),
                name(s.attention + ".v_proj"@),
            ],
            rows: seq![s.q, s.kv, s.kv],
            cols: s.d,
        },
        single(name(s.attention + ".o_proj"@), s.d, s.q),
        WeightsModel::Vector { name: name(s.second_norm), len: s.d },
        single(name(s.mlp + ".gate_proj"@), s.ff, s.d),
        single(name(s.mlp + ".up_proj"@), s.ff, s.d),
        single(name(s.mlp + ".down_proj"@), s.d, s.ff),
    ]
}

/// The tensors of the first `n` layers.
pub open spec fn tower_weights(s: Shape, n: nat) -> Seq<WeightsModel>
    decreases n,
{
    if n == 0 {
        Seq::empty()
    } else {
        tower_weights(s, (n - 1) as nat) + layer_weights(s, (n - 1) as nat)
    }
}

/// The layers of the language model.
pub open spec fn text_shape(cfg: Config) -> Shape {
    Shape {
        prefix: "encoder.layers."@,
        first_norm: "input_layernorm"@,
        attention: "self_attn"@,
        second_norm: "post_attention_layernorm"@,
        mlp: "mlp"@,
        d: cfg.hidden_size as nat,
        q: (cfg.num_attention_heads * cfg.head_dim) as nat,
        kv: (cfg.num_key_value_heads * cfg.head_dim) as nat,
        ff: cfg.intermediate_size as nat,
    }
}

/// The layers of the vision tower.
pub open spec fn vision_shape(cfg: VisionConfig) -> Shape {
    let d = cfg.hidden_size as nat;
    Shape {
        prefix: "encoder.vision_tower.transformer.layers."@,
        first_norm: "attention_norm"@,
        attention: "attention"@,
        second_norm: "ffn_norm"@,
        mlp: "feed_forward"@,
        d,
        q: d,
        kv: d,
        ff: cfg.intermediate_size as nat,
    }
}

/// All tensors of the language model, in the order they are loaded.
pub open spec fn text_weights(cfg: Config) -> Seq<WeightsModel> {
    let (d, vocab) = (cfg.hidden_size as nat, cfg.vocab_size as nat);
    tower_weights(text_shape(cfg), cfg.num_hidden_layers as nat) + seq![
        WeightsModel::Matrix { name: "encoder.embed_tokens.weight"@, rows: vocab, cols: d },
        WeightsModel::Vector { name: "encoder.norm.weight"@, len: d },
        single("diffusion_head.weight"@, vocab, d),
    ]
}

/// All tensors of the vision tower and its projector, which gives rows of `text_hidden` values.
pub open spec fn vision_weights(cfg: VisionConfig, text_hidden: nat) -> Seq<WeightsModel> {
    let d = cfg.hidden_size as nat;
    tower_weights(vision_shape(cfg), cfg.num_hidden_layers as nat) + seq![
        WeightsModel::Matrix {
            name: "encoder.vision_tower.patch_conv.weight"@,
            rows: d,
            cols: (cfg.num_channels * (cfg.patch_size * cfg.patch_size)) as nat,
        },
        WeightsModel::Vector { name: "encoder.vision_tower.ln_pre.weight"@, len: d },
        WeightsModel::Vector { name: "encoder.multi_modal_projector.norm.weight"@, len: d },
        single(
            "encoder.multi_modal_projector.patch_merger.merging_layer.weight"@,
            d,
            d * 4,
        ),
        single("encoder.multi_modal_projector.linear_1.weight"@, text_hidden, d),
        single("encoder.multi_modal_projector.linear_2.weight"@, text_hidden, text_hidden),
    ]
}

struct Tower<'a> {
    prefix: &'a str,
    first_norm: &'a str,
    attention: &'a str,
    second_norm: &'a str,
    mlp: &'a str,
    d: usize,
    q: u128,
    kv: u128,
    ff: usize,
}

impl<'a> View for Tower<'a> {
    type V = Shape;

    closed spec fn view(&self) -> Shape {
        Shape {
            prefix: self.prefix@,
            first_norm: self.first_norm@,
            attention: self.attention@,
            second_norm: self.second_norm@,
            mlp: self.mlp@,
            d: self.d as nat,
            q: self.q as nat,
            kv: self.kv as nat,
            ff: self.ff as nat,
        }
    }
}

fn name_of(prefix: &str, l: usize, suffix: &str) -> (r: String)
    ensures
        r@ == layer_name(prefix@, l as nat, suffix@),
{
    prefix.to_owned().concat(decimal(l as u64).as_str()).concat(".").concat(suffix).concat(
        ".weight",
    )
}

fn push_weights(list: &mut Vec<Weights>, weights: Weights)
    ensures
        weight_models(final(list)@) == weight_models(old(list)@).push(weights@),
{
    let ghost before = list@;
    let ghost model = weights@;
    list.push(weights);
    assert(weight_models(list@) =~= weight_models(before).push(model));
}

fn stacked(name: String, rows: u128, cols: u128) -> (r: Weights)
    ensures
        r@ == single(name@, rows as nat, cols as nat),
{
    let ghost text = name@;
    let mut names: Vec<String> = Vec::new();
    names.push(name);
    let mut counts: Vec<u128> = Vec::new();
    counts.push(rows);
    assert(texts(names@) =~= seq![text]);
    assert(wide(counts@) =~= seq![rows as nat]);
    Weights::Stacked { names, rows: counts, cols }
}

fn push_layer(s: &Tower, l: usize, list: &mut Vec<Weights>)
    ensures
        weight_models(final(list)@) == weight_models(old(list)@) + layer_weights(s@, l as nat),
{
    let ghost before = weight_models(list@);
    push_weights(list, Weights::Vector { name: name_of(s.prefix, l, s.first_norm), len: s.d });
    let q: String = name_of(s.prefix, l, s.attention.to_owned().concat(".q_proj").as_str());
    let k: String = name_of(s.prefix, l, s.attention.to_owned().concat(".k_proj").as_str());
    let v: String = name_of(s.prefix, l, s.attention.to_owned().concat(".v_proj").as_str());
    let ghost qkv_names = seq![q@, k@, v@];
    let mut names: Vec<String> = Vec::new();
    names.push(q);
    names.push(k);
    names.push(v);
    let mut rows: Vec<u128> = Vec::new();
    rows.push(s.q);
    rows.push(s.kv);
    rows.push(s.kv);
    assert(texts(names@) =~= qkv_names);
    assert(wide(rows@) =~= seq![s.q as nat, s.kv as nat, s.kv as nat]);
    push_weights(list, Weights::Stacked { names, rows, cols: s.d as u128 });
    let o: String = name_of(s.prefix, l, s.attention.to_owned().concat(".o_proj").as_str());
    push_weights(list, stacked(o, s.d as u128, s.q));
    push_weights(list, Weights::Vector { name: name_of(s.prefix, l, s.second_norm), len: s.d });
    let gate: String = name_of(s.prefix, l, s.mlp.to_owned().concat(".gate_proj").as_str());
    push_weights(list, stacked(gate, s.ff as u128, s.d as u128));
    let up: String = name_of(s.prefix, l, s.mlp.to_owned().concat(".up_proj").as_str());
    push_weights(list, stacked(up, s.ff as u128, s.d as u128));
    let down: String = name_of(s.prefix, l, s.mlp.to_owned().concat(".down_proj").as_str());
    push_weights(list, stacked(down, s.d as u128, s.ff as u128));
    assert(weight_models(list@) =~= before + layer_weights(s@, l as nat));
}

fn push_tower(s: &Tower, layers: usize, list: &mut Vec<Weights>)
    requires
        weight_models(old(list)@) == Seq::<WeightsModel>::empty(),
    ensures
        weight_models(final(list)@) == tower_weights(s@, layers as nat),
{
    let mut l: usize = 0;
    while l < layers
        invariant
            l <= layers,
            weight_models(list@) == tower_weights(s@, l as nat),
        decreases layers - l,
    {
        push_layer(s, l, list);
        l += 1;
    }
}

/// `a * b`.
fn wide_product(a: usize, b: usize) -> (r: u128)
    ensures
        r == a * b,
{
    assert(0 <= a * b <= 0xffff_ffff_ffff_ffff * 0xffff_ffff_ffff_ffff) by (nonlinear_arith)
        requires
            0 <= a <= 0xffff_ffff_ffff_ffff,
            0 <= b <= 0xffff_ffff_ffff_ffff,
    ;
    a as u128 * b as u128
}

/// All tensors of the language model, in the order they are loaded.
pub fn list_text_weights(cfg: &Config) -> (r: Vec<Weights>)
    ensures
        weight_models(r@) == text_weights(*cfg),
{
    let tower: Tower = Tower {
        prefix: "encoder.layers.",
        first_norm: "input_layernorm",
        attention: "self_attn",
        second_norm: "post_attention_layernorm",
        mlp: "mlp",
        d: cfg.hidden_size,
        q: wide_product(cfg.num_attention_heads, cfg.head_dim),
        kv: wide_product(cfg.num_key_value_heads, cfg.head_dim),
        ff: cfg.intermediate_size,
    };
    let mut list: Vec<Weights> = Vec::new();
    assert(weight_models(list@) =~= Seq::<WeightsModel>::empty());
    assert(tower@ == text_shape(*cfg));
    push_tower(&tower, cfg.num_hidden_layers, &mut list);
    let ghost before = weight_models(list@);
    let (d, vocab): (usize, usize) = (cfg.hidden_size, cfg.vocab_size);
    push_weights(
        &mut list,
        Weights::Matrix {
            name: "encoder.embed_tokens.weight".to_owned(),
            rows: vocab,
            cols: d as u128,
        },
    );
    push_weights(&mut list, Weights::Vector { name: "encoder.norm.weight".to_owned(), len: d });
    push_weights(
        &mut list,
        stacked("diffusion_head.weight".to_owned(), vocab as u128, d as u128),
    );
    assert(weight_models(list@) =~= text_weights(*cfg));
    list
}

/// All tensors of the vision tower and its projector, in the order they are loaded.
pub fn list_vision_weights(cfg: &VisionConfig, text_hidden: usize) -> (r: Vec<Weights>)
    requires
        cfg.patch_size == PATCH,
    ensures
        weight_models(r@) == vision_weights(*cfg, text_hidden as nat),
{
    let tower: Tower = Tower {
        prefix: "encoder.vision_tower.transformer.layers.",
        first_norm: "attention_norm",
        attention: "attention",
        second_norm: "ffn_norm",
        mlp: "feed_forward",
        d: cfg.hidden_size,
        q: cfg.hidden_size as u128,
        kv: cfg.hidden_size as u128,
        ff: cfg.intermediate_size,
    };
    let mut list: Vec<Weights> = Vec::new();
    assert(weight_models(list@) =~= Seq::<WeightsModel>::empty());
    assert(tower@ == vision_shape(*cfg));
    push_tower(&tower, cfg.num_hidden_layers, &mut list);
    let ghost before = weight_models(list@);
    let d: usize = cfg.hidden_size;
    let inputs: u128 = wide_product(cfg.num_channels, 196);
    assert(cfg.patch_size * cfg.patch_size == 196);
    push_weights(
        &mut list,
        Weights::Matrix {
            name: "encoder.vision_tower.patch_conv.weight".to_owned(),
            rows: d,
            cols: inputs,
        },
    );
    push_weights(
        &mut list,
        Weights::Vector { name: "encoder.vision_tower.ln_pre.weight".to_owned(), len: d },
    );
    push_weights(
        &mut list,
        Weights::Vector { name: "encoder.multi_modal_projector.norm.weight".to_owned(), len: d },
    );
    push_weights(
        &mut list,
        stacked(
            "encoder.multi_modal_projector.patch_merger.merging_layer.weight".to_owned(),
            d as u128,
            d as u128 * 4,
        ),
    );
    push_weights(
        &mut list,
        stacked(
            "encoder.multi_modal_projector.linear_1.weight".to_owned(),
            text_hidden as u128,
            d as u128,
        ),
    );
    push_weights(
        &mut list,
        stacked(
            "encoder.multi_modal_projector.linear_2.weight".to_owned(),
            text_hidden as u128,
            text_hidden as u128,
        ),
    );
    assert(weight_models(list@) =~= vision_weights(*cfg, text_hidden as nat));
    list
}

/// The columns of fused query, key and value rows: queries, then keys, then values.
#[derive(Clone, Copy, Debug, PartialEq, Eq, Structural)]
pub struct Fused {
    pub keys: u128,
    pub values: u128,
    pub end: u128,
}

/// Where the fused projection of a layer is split.
pub fn split_fused(cfg: &Config) -> (r: Fused)
    requires
        (cfg.num_attention_heads + 2 * cfg.num_key_value_heads) * cfg.head_dim <= u128::MAX,
    ensures
        r.keys == cfg.num_attention_heads * cfg.head_dim,
        r.values == (cfg.num_attention_heads + cfg.num_key_value_heads) * cfg.head_dim,
        r.end == (cfg.num_attention_heads + 2 * cfg.num_key_value_heads) * cfg.head_dim,
        r.keys == text_shape(*cfg).q,
        r.values - r.keys == text_shape(*cfg).kv,
        r.end - r.values == text_shape(*cfg).kv,
{
    let (h, kv, hd): (usize, usize, usize) = (
        cfg.num_attention_heads,
        cfg.num_key_value_heads,
        cfg.head_dim,
    );
    let q: u128 = wide_product(h, hd);
    let k: u128 = wide_product(kv, hd);
    proof {
        assert((h + kv) * hd == h * hd + kv * hd) by (nonlinear_arith);
        assert((h + 2 * kv) * hd == h * hd + 2 * (kv * hd)) by (nonlinear_arith);
    }
    Fused { keys: q, values: q + k, end: q + k + k }
}

} // verus!
