//! `config.json` of a Nemotron-Labs-Diffusion checkpoint, validated against what this runtime
//! implements.
use crate::error::{Error, ErrorModel, Result};
use crate::json::{json_text, Json, Tree};
use crate::schema::{
    flag_default, flag_option, int_field, missing, missing_text, named, number_field, number_option,
    size_field, size_option, text_field, words_of, Number,
};
use crate::text::{same_text, signed_decimal, signed_digits};
use vstd::prelude::*;
use vstd::string::*;

verus! {

/// Rotary position embedding. Floats are kept as they are written.
#[derive(Clone, Debug)]
pub struct RopeParameters {
    pub rope_type: String,
    pub rope_theta: Number,
    pub factor: Option<Number>,
    pub original_max_position_embeddings: Option<usize>,
    pub beta_fast: Option<Number>,
    pub beta_slow: Option<Number>,
    pub mscale: Option<Number>,
    pub mscale_all_dim: Option<Number>,
    pub truncate: Option<bool>,
    pub llama_4_scaling_beta: Option<Number>,
}

/// The configuration of a checkpoint.
#[derive(Clone, Debug)]
pub struct Config {
    pub model_type: String,
    pub hidden_size: usize,
    pub intermediate_size: usize,
    pub num_hidden_layers: usize,
    pub num_attention_heads: usize,
    pub num_key_value_heads: usize,
    pub head_dim: usize,
    pub vocab_size: usize,
    pub rms_norm_eps: Number,
    pub max_position_embeddings: usize,
    pub hidden_act: String,
    pub rope_parameters: RopeParameters,
    pub sliding_window: Option<usize>,
    pub tie_word_embeddings: bool,
    pub attention_bias: bool,
    pub mlp_bias: bool,
    pub mask_token_id: i32,
    pub block_size: usize,
    pub dlm_paradigm: String,
    pub eos_token_id: i32,
}

/// The fields of rotary parameters, in their order.
pub open spec fn rope_names() -> Seq<Seq<char>> {
    seq![
        "rope_type"@,
        "rope_theta"@,
        "factor"@,
        "original_max_position_embeddings"@,
        "beta_fast"@,
        "beta_slow"@,
        "mscale"@,
        "mscale_all_dim"@,
        "truncate"@,
        "llama_4_scaling_beta"@,
    ]
}

fn rope_names_list() -> (r: Vec<&'static str>)
    ensures
        words_of(r@) == rope_names(),
{
    let mut list: Vec<&'static str> = Vec::new();
    list.push("rope_type");
    list.push("rope_theta");
    list.push("factor");
    list.push("original_max_position_embeddings");
    list.push("beta_fast");
    list.push("beta_slow");
    list.push("mscale");
    list.push("mscale_all_dim");
    list.push("truncate");
    list.push("llama_4_scaling_beta");
    assert(words_of(list@) =~= rope_names());
    list
}

/// The fields of a configuration, in their order.
pub open spec fn config_names() -> Seq<Seq<char>> {
    seq![
        "model_type"@,
        "hidden_size"@,
        "intermediate_size"@,
        "num_hidden_layers"@,
        "num_attention_heads"@,
        "num_key_value_heads"@,
        "head_dim"@,
        "vocab_size"@,
        "rms_norm_eps"@,
        "max_position_embeddings"@,
        "hidden_act"@,
        "rope_parameters"@,
        "sliding_window"@,
        "tie_word_embeddings"@,
        "attention_bias"@,
        "mlp_bias"@,
        "mask_token_id"@,
        "block_size"@,
        "dlm_paradigm"@,
        "eos_token_id"@,
    ]
}

fn config_names_list() -> (r: Vec<&'static str>)
    ensures
        words_of(r@) == config_names(),
{
    let mut list: Vec<&'static str> = Vec::new();
    list.push("model_type");
    list.push("hidden_size");
    list.push("intermediate_size");
    list.push("num_hidden_layers");
    list.push("num_attention_heads");
    list.push("num_key_value_heads");
    list.push("head_dim");
    list.push("vocab_size");
    list.push("rms_norm_eps");
    list.push("max_position_embeddings");
    list.push("hidden_act");
    list.push("rope_parameters");
    list.push("sliding_window");
    list.push("tie_word_embeddings");
    list.push("attention_bias");
    list.push("mlp_bias");
    list.push("mask_token_id");
    list.push("block_size");
    list.push("dlm_paradigm");
    list.push("eos_token_id");
    assert(words_of(list@) =~= config_names());
    list
}

/// The rotary parameters of a configuration, by name. All but the first two have defaults.
pub open spec fn rope_tree(t: Tree) -> Option<Tree> {
    match t.entry("rope_parameters"@) {
        None => None,
        Some(rope) => Some(named(rope, rope_names(), 2)),
    }
}

/// A configuration by name.
pub open spec fn config_tree(t: Tree) -> Tree {
    named(t, config_names(), 20)
}

/// The message of a field that was not read.
pub open spec fn failed<T>(r: core::result::Result<T, Seq<char>>) -> Option<Seq<char>> {
    match r {
        Ok(_) => None,
        Err(m) => Some(m),
    }
}

/// The first field of the rotary parameters that cannot be read.
pub open spec fn rope_fields_fault(t: Tree) -> Option<Seq<char>> {
    if failed(text_field(t, "rope_type"@)) is Some {
        failed(text_field(t, "rope_type"@))
    } else if failed(number_field(t, "rope_theta"@)) is Some {
        failed(number_field(t, "rope_theta"@))
    } else if failed(number_option(t, "factor"@)) is Some {
        failed(number_option(t, "factor"@))
    } else if failed(size_option(t, "original_max_position_embeddings"@)) is Some {
        failed(size_option(t, "original_max_position_embeddings"@))
    } else if failed(number_option(t, "beta_fast"@)) is Some {
        failed(number_option(t, "beta_fast"@))
    } else if failed(number_option(t, "beta_slow"@)) is Some {
        failed(number_option(t, "beta_slow"@))
    } else if failed(number_option(t, "mscale"@)) is Some {
        failed(number_option(t, "mscale"@))
    } else if failed(number_option(t, "mscale_all_dim"@)) is Some {
        failed(number_option(t, "mscale_all_dim"@))
    } else if failed(flag_option(t, "truncate"@)) is Some {
        failed(flag_option(t, "truncate"@))
    } else if failed(number_option(t, "llama_4_scaling_beta"@)) is Some {
        failed(number_option(t, "llama_4_scaling_beta"@))
    } else {
        None
    }
}

/// Why the rotary parameters of a configuration cannot be read.
pub open spec fn rope_fault(t: Tree) -> Option<Seq<char>> {
    match rope_tree(t) {
        None => Some(missing("rope_parameters"@)),
        Some(rope) => rope_fields_fault(rope),
    }
}

/// The first field that cannot be read.
pub open spec fn fields_fault(t: Tree) -> Option<Seq<char>> {
    if failed(text_field(t, "model_type"@)) is Some {
        failed(text_field(t, "model_type"@))
    } else if failed(size_field(t, "hidden_size"@)) is Some {
        failed(size_field(t, "hidden_size"@))
    } else if failed(size_field(t, "intermediate_size"@)) is Some {
        failed(size_field(t, "intermediate_size"@))
    } else if failed(size_field(t, "num_hidden_layers"@)) is Some {
        failed(size_field(t, "num_hidden_layers"@))
    } else if failed(size_field(t, "num_attention_heads"@)) is Some {
        failed(size_field(t, "num_attention_heads"@))
    } else if failed(size_field(t, "num_key_value_heads"@)) is Some {
        failed(size_field(t, "num_key_value_heads"@))
    } else if failed(size_field(t, "head_dim"@)) is Some {
        failed(size_field(t, "head_dim"@))
    } else if failed(size_field(t, "vocab_size"@)) is Some {
        failed(size_field(t, "vocab_size"@))
    } else if failed(number_field(t, "rms_norm_eps"@)) is Some {
        failed(number_field(t, "rms_norm_eps"@))
    } else if failed(size_field(t, "max_position_embeddings"@)) is Some {
        failed(size_field(t, "max_position_embeddings"@))
    } else if failed(text_field(t, "hidden_act"@)) is Some {
        failed(text_field(t, "hidden_act"@))
    } else if rope_fault(t) is Some {
        rope_fault(t)
    } else if failed(size_option(t, "sliding_window"@)) is Some {
        failed(size_option(t, "sliding_window"@))
    } else if failed(flag_default(t, "tie_word_embeddings"@)) is Some {
        failed(flag_default(t, "tie_word_embeddings"@))
    } else if failed(flag_default(t, "attention_bias"@)) is Some {
        failed(flag_default(t, "attention_bias"@))
    } else if failed(flag_default(t, "mlp_bias"@)) is Some {
        failed(flag_default(t, "mlp_bias"@))
    } else if failed(int_field(t, "mask_token_id"@)) is Some {
        failed(int_field(t, "mask_token_id"@))
    } else if failed(size_field(t, "block_size"@)) is Some {
        failed(size_field(t, "block_size"@))
    } else if failed(text_field(t, "dlm_paradigm"@)) is Some {
        failed(text_field(t, "dlm_paradigm"@))
    } else if failed(int_field(t, "eos_token_id"@)) is Some {
        failed(int_field(t, "eos_token_id"@))
    } else {
        None
    }
}

/// The parameters hold what the object says.
pub open spec fn rope_of(t: Tree, c: RopeParameters) -> bool {
    &&& text_field(t, "rope_type"@) == Ok::<Seq<char>, Seq<char>>(c.rope_type@)
    &&& number_field(t, "rope_theta"@) == Ok::<Number, Seq<char>>(c.rope_theta)
    &&& number_option(t, "factor"@) == Ok::<Option<Number>, Seq<char>>(c.factor)
    &&& size_option(t, "original_max_position_embeddings"@) == Ok::<Option<usize>, Seq<char>>(c.original_max_position_embeddings)
    &&& number_option(t, "beta_fast"@) == Ok::<Option<Number>, Seq<char>>(c.beta_fast)
    &&& number_option(t, "beta_slow"@) == Ok::<Option<Number>, Seq<char>>(c.beta_slow)
    &&& number_option(t, "mscale"@) == Ok::<Option<Number>, Seq<char>>(c.mscale)
    &&& number_option(t, "mscale_all_dim"@) == Ok::<Option<Number>, Seq<char>>(c.mscale_all_dim)
    &&& flag_option(t, "truncate"@) == Ok::<Option<bool>, Seq<char>>(c.truncate)
    &&& number_option(t, "llama_4_scaling_beta"@) == Ok::<Option<Number>, Seq<char>>(c.llama_4_scaling_beta)
}

/// The configuration holds what the object says.
pub open spec fn fields_of(t: Tree, c: Config) -> bool {
    &&& text_field(t, "model_type"@) == Ok::<Seq<char>, Seq<char>>(c.model_type@)
    &&& size_field(t, "hidden_size"@) == Ok::<usize, Seq<char>>(c.hidden_size)
    &&& size_field(t, "intermediate_size"@) == Ok::<usize, Seq<char>>(c.intermediate_size)
    &&& size_field(t, "num_hidden_layers"@) == Ok::<usize, Seq<char>>(c.num_hidden_layers)
    &&& size_field(t, "num_attention_heads"@) == Ok::<usize, Seq<char>>(c.num_attention_heads)
    &&& size_field(t, "num_key_value_heads"@) == Ok::<usize, Seq<char>>(c.num_key_value_heads)
    &&& size_field(t, "head_dim"@) == Ok::<usize, Seq<char>>(c.head_dim)
    &&& size_field(t, "vocab_size"@) == Ok::<usize, Seq<char>>(c.vocab_size)
    &&& number_field(t, "rms_norm_eps"@) == Ok::<Number, Seq<char>>(c.rms_norm_eps)
    &&& size_field(t, "max_position_embeddings"@) == Ok::<usize, Seq<char>>(c.max_position_embeddings)
    &&& text_field(t, "hidden_act"@) == Ok::<Seq<char>, Seq<char>>(c.hidden_act@)
    &&& rope_tree(t) is Some && rope_of(rope_tree(t)->Some_0, c.rope_parameters)
    &&& size_option(t, "sliding_window"@) == Ok::<Option<usize>, Seq<char>>(c.sliding_window)
    &&& flag_default(t, "tie_word_embeddings"@) == Ok::<bool, Seq<char>>(c.tie_word_embeddings)
    &&& flag_default(t, "attention_bias"@) == Ok::<bool, Seq<char>>(c.attention_bias)
    &&& flag_default(t, "mlp_bias"@) == Ok::<bool, Seq<char>>(c.mlp_bias)
    &&& int_field(t, "mask_token_id"@) == Ok::<i32, Seq<char>>(c.mask_token_id)
    &&& size_field(t, "block_size"@) == Ok::<usize, Seq<char>>(c.block_size)
    &&& text_field(t, "dlm_paradigm"@) == Ok::<Seq<char>, Seq<char>>(c.dlm_paradigm@)
    &&& int_field(t, "eos_token_id"@) == Ok::<i32, Seq<char>>(c.eos_token_id)
}

fn read_rope(t: &Json) -> (r: core::result::Result<RopeParameters, String>)
    ensures
        r matches Ok(c) ==> rope_fields_fault(t@) is None && rope_of(t@, c),
        r matches Err(m) ==> rope_fields_fault(t@) == Some(m@),
{
    let rope_type: String = t.text_field("rope_type")?;
    let rope_theta: Number = t.number_field("rope_theta")?;
    let factor: Option<Number> = t.number_option("factor")?;
    let original_max_position_embeddings: Option<usize> = t.size_option("original_max_position_embeddings")?;
    let beta_fast: Option<Number> = t.number_option("beta_fast")?;
    let beta_slow: Option<Number> = t.number_option("beta_slow")?;
    let mscale: Option<Number> = t.number_option("mscale")?;
    let mscale_all_dim: Option<Number> = t.number_option("mscale_all_dim")?;
    let truncate: Option<bool> = t.flag_option("truncate")?;
    let llama_4_scaling_beta: Option<Number> = t.number_option("llama_4_scaling_beta")?;
    Ok(
        RopeParameters {
            rope_type,
            rope_theta,
            factor,
            original_max_position_embeddings,
            beta_fast,
            beta_slow,
            mscale,
            mscale_all_dim,
            truncate,
            llama_4_scaling_beta,
        },
    )
}

fn read_fields(t: &Json) -> (r: core::result::Result<Config, String>)
    ensures
        r matches Ok(c) ==> fields_fault(t@) is None && fields_of(t@, c),
        r matches Err(m) ==> fields_fault(t@) == Some(m@),
{
    let model_type: String = t.text_field("model_type")?;
    let hidden_size: usize = t.size_field("hidden_size")?;
    let intermediate_size: usize = t.size_field("intermediate_size")?;
    let num_hidden_layers: usize = t.size_field("num_hidden_layers")?;
    let num_attention_heads: usize = t.size_field("num_attention_heads")?;
    let num_key_value_heads: usize = t.size_field("num_key_value_heads")?;
    let head_dim: usize = t.size_field("head_dim")?;
    let vocab_size: usize = t.size_field("vocab_size")?;
    let rms_norm_eps: Number = t.number_field("rms_norm_eps")?;
    let max_position_embeddings: usize = t.size_field("max_position_embeddings")?;
    let hidden_act: String = t.text_field("hidden_act")?;
    let rope_parameters: RopeParameters = match t.get("rope_parameters") {
        None => {
            return Err(missing_text("rope_parameters"));
        },
        Some(rope) => read_rope(&rope.named(&rope_names_list(), 2))?,
    };
    let sliding_window: Option<usize> = t.size_option("sliding_window")?;
    let tie_word_embeddings: bool = t.flag_default("tie_word_embeddings")?;
    let attention_bias: bool = t.flag_default("attention_bias")?;
    let mlp_bias: bool = t.flag_default("mlp_bias")?;
    let mask_token_id: i32 = t.int_field("mask_token_id")?;
    let block_size: usize = t.size_field("block_size")?;
    let dlm_paradigm: String = t.text_field("dlm_paradigm")?;
    let eos_token_id: i32 = t.int_field("eos_token_id")?;
    Ok(
        Config {
            model_type,
            hidden_size,
            intermediate_size,
            num_hidden_layers,
            num_attention_heads,
            num_key_value_heads,
            head_dim,
            vocab_size,
            rms_norm_eps,
            max_position_embeddings,
            hidden_act,
            rope_parameters,
            sliding_window,
            tie_word_embeddings,
            attention_bias,
            mlp_bias,
            mask_token_id,
            block_size,
            dlm_paradigm,
            eos_token_id,
        },
    )
}

/// An error of a configuration.
pub open spec fn config_error(message: Seq<char>) -> ErrorModel {
    ErrorModel::UnsupportedModel("Nemotron-Labs-Diffusion config: "@ + message)
}

fn unsupported(message: &str) -> (r: Error)
    ensures
        r@ == config_error(message@),
{
    Error::UnsupportedModel("Nemotron-Labs-Diffusion config: ".to_owned().concat(message))
}

/// A part of the configuration that this runtime does not implement.
pub open spec fn unsupported_part(part: Seq<char>) -> Option<Seq<char>> {
    Some("unsupported "@ + part)
}

/// What decides whether a configuration is implemented.
#[verifier::ext_equal]
pub struct Facts {
    pub model_type: Seq<char>,
    pub dlm_paradigm: Seq<char>,
    pub rope_type: Seq<char>,
    pub sliding: bool,
    pub hidden_act: Seq<char>,
    pub biased_or_tied: bool,
    pub heads: usize,
    pub kv_heads: usize,
    pub head_dim: usize,
    pub mask: i32,
    pub vocab: usize,
    pub block: usize,
}

impl Facts {
    /// Key/value heads divide the heads, and heads turn in pairs.
    pub open spec fn heads_fit(self) -> bool {
        &&& self.kv_heads > 0
        &&& self.heads as int % self.kv_heads as int == 0
        &&& self.head_dim % 2 == 0
    }

    /// The first part that this runtime does not implement.
    pub open spec fn limits(self) -> Option<Seq<char>> {
        if self.model_type != "nemotron_labs_diffusion"@ && self.model_type
            != "nemotron_labs_diffusion_vlm"@ {
            unsupported_part("model_type "@ + self.model_type)
        } else if self.dlm_paradigm != "bidirectional"@ {
            unsupported_part("dlm_paradigm "@ + self.dlm_paradigm)
        } else if self.rope_type != "yarn"@ && self.rope_type != "default"@ {
            unsupported_part("rope_type "@ + self.rope_type)
        } else if self.sliding {
            unsupported_part("sliding-window attention"@)
        } else if self.hidden_act != "silu"@ {
            unsupported_part("hidden_act "@ + self.hidden_act)
        } else if self.biased_or_tied {
            unsupported_part("biases or tied embeddings"@)
        } else if !self.heads_fit() {
            unsupported_part("head layout"@)
        } else if !(0 <= self.mask < self.vocab) {
            unsupported_part("mask_token_id "@ + signed_digits(self.mask as int))
        } else if self.block == 0 {
            unsupported_part("block_size 0"@)
        } else {
            None
        }
    }
}

/// The facts of an object whose fields can be read.
pub open spec fn facts_of(t: Tree) -> Facts {
    let rope = rope_tree(t)->Some_0;
    Facts {
        model_type: text_field(t, "model_type"@)->Ok_0,
        dlm_paradigm: text_field(t, "dlm_paradigm"@)->Ok_0,
        rope_type: text_field(rope, "rope_type"@)->Ok_0,
        sliding: size_option(t, "sliding_window"@)->Ok_0 is Some,
        hidden_act: text_field(t, "hidden_act"@)->Ok_0,
        biased_or_tied: flag_default(t, "attention_bias"@)->Ok_0 || flag_default(
            t,
            "mlp_bias"@,
        )->Ok_0 || flag_default(t, "tie_word_embeddings"@)->Ok_0,
        heads: size_field(t, "num_attention_heads"@)->Ok_0,
        kv_heads: size_field(t, "num_key_value_heads"@)->Ok_0,
        head_dim: size_field(t, "head_dim"@)->Ok_0,
        mask: int_field(t, "mask_token_id"@)->Ok_0,
        vocab: size_field(t, "vocab_size"@)->Ok_0,
        block: size_field(t, "block_size"@)->Ok_0,
    }
}

/// Why an object is no configuration of a model that this runtime implements.
pub open spec fn object_fault(t: Tree) -> Option<Seq<char>> {
    match fields_fault(t) {
        Some(m) => Some(m),
        None => facts_of(t).limits(),
    }
}

/// Why a text is no configuration of a model that this runtime implements.
pub open spec fn parse_fault(text: Seq<char>) -> Option<Seq<char>> {
    match json_text(text) {
        Err(m) => Some(m),
        Ok(t) => object_fault(config_tree(t)),
    }
}

impl Config {
    /// What decides whether it is implemented.
    pub open spec fn facts(self) -> Facts {
        Facts {
            model_type: self.model_type@,
            dlm_paradigm: self.dlm_paradigm@,
            rope_type: self.rope_parameters.rope_type@,
            sliding: self.sliding_window is Some,
            hidden_act: self.hidden_act@,
            biased_or_tied: self.attention_bias || self.mlp_bias || self.tie_word_embeddings,
            heads: self.num_attention_heads,
            kv_heads: self.num_key_value_heads,
            head_dim: self.head_dim,
            mask: self.mask_token_id,
            vocab: self.vocab_size,
            block: self.block_size,
        }
    }

    /// Refuses what this runtime does not implement.
    pub fn validate(&self) -> (r: Result<()>)
        ensures
            r is Ok <==> self.facts().limits() is None,
            r matches Err(e) ==> self.facts().limits() is Some && e@ == config_error(
                self.facts().limits()->Some_0,
            ),
    {
        if !same_text(self.model_type.as_str(), "nemotron_labs_diffusion") && !same_text(
            self.model_type.as_str(),
            "nemotron_labs_diffusion_vlm",
        ) {
            return refuse("model_type ".to_owned().concat(self.model_type.as_str()));
        }
        if !same_text(self.dlm_paradigm.as_str(), "bidirectional") {
            return refuse("dlm_paradigm ".to_owned().concat(self.dlm_paradigm.as_str()));
        }
        let kind: &str = self.rope_parameters.rope_type.as_str();
        if !same_text(kind, "yarn") && !same_text(kind, "default") {
            return refuse("rope_type ".to_owned().concat(kind));
        }
        if self.sliding_window.is_some() {
            return refuse("sliding-window attention".to_owned());
        }
        if !same_text(self.hidden_act.as_str(), "silu") {
            return refuse("hidden_act ".to_owned().concat(self.hidden_act.as_str()));
        }
        if self.attention_bias || self.mlp_bias || self.tie_word_embeddings {
            return refuse("biases or tied embeddings".to_owned());
        }
        if self.num_key_value_heads == 0 || self.num_attention_heads % self.num_key_value_heads
            != 0 || self.head_dim % 2 != 0 {
            return refuse("head layout".to_owned());
        }
        if self.mask_token_id < 0 || self.mask_token_id as u64 >= self.vocab_size as u64 {
            return refuse(
                "mask_token_id ".to_owned().concat(signed_decimal(self.mask_token_id).as_str()),
            );
        }
        if self.block_size == 0 {
            return refuse("block_size 0".to_owned());
        }
        Ok(())
    }

    /// The configuration of a `config.json`. Where its text is no JSON, the error is that of the
    /// reader; where a field is missing or of another type, it names the field.
    /// The reader keeps the last value of a field that stands twice.
    pub fn parse(text: &str) -> (r: Result<Self>)
        ensures
            r is Ok <==> parse_fault(text@) is None,
            r matches Ok(c) ==> json_text(text@) is Ok && fields_of(
                config_tree(json_text(text@)->Ok_0),
                c,
            ) && c.facts().limits() is None,
            r matches Err(e) ==> parse_fault(text@) is Some && e@ == config_error(
                parse_fault(text@)->Some_0,
            ),
    {
        let t: Json = match Json::parse(text) {
            Ok(t) => t,
            Err(m) => {
                return Err(unsupported(m.as_str()));
            },
        };
        Config::from_json(&t)
    }

    /// The configuration of an object. Where a field is missing or of another type, the error
    /// names the first such field.
    pub fn from_json(t: &Json) -> (r: Result<Self>)
        ensures
            r is Ok <==> object_fault(config_tree(t@)) is None,
            r matches Ok(c) ==> fields_of(config_tree(t@), c) && c.facts().limits() is None,
            r matches Err(e) ==> object_fault(config_tree(t@)) is Some && e@ == config_error(
                object_fault(config_tree(t@))->Some_0,
            ),
    {
        let config: Config = match read_fields(&t.named(&config_names_list(), 20)) {
            Ok(c) => c,
            Err(m) => {
                return Err(unsupported(m.as_str()));
            },
        };
        assert(config.facts() =~= facts_of(config_tree(t@)));
        config.validate()?;
        Ok(config)
    }
}

fn refuse(part: String) -> (r: Result<()>)
    ensures
        r matches Err(e) && unsupported_part(part@) is Some && e@ == config_error(
            unsupported_part(part@)->Some_0,
        ),
{
    Err(unsupported("unsupported ".to_owned().concat(part.as_str()).as_str()))
}

} // verus!
