//! `config.json` and `processor_config.json` of a Parakeet TDT checkpoint, validated against what
//! this runtime implements.
use crate::arith::{is_power_of_two, power_of_two};
use crate::error::{Error, ErrorModel, Result};
use crate::json::{json_text, Json, Tree};
use crate::nemotron::config::failed;
use crate::schema::{
    flag_field, missing, missing_text, named, number_field, size_field, sizes_field, text_field,
    u32_field, words_of, Number,
};
use crate::text::{decimal, digits, quoted, quoted_text, same_text};
use vstd::prelude::*;
use vstd::string::*;

verus! {

/// The encoder of a checkpoint.
#[derive(Clone, Debug)]
pub struct EncoderConfig {
    pub hidden_size: usize,
    pub intermediate_size: usize,
    pub num_hidden_layers: usize,
    pub num_attention_heads: usize,
    pub num_key_value_heads: usize,
    pub num_mel_bins: usize,
    pub conv_kernel_size: usize,
    pub hidden_act: String,
    pub attention_bias: bool,
    pub convolution_bias: bool,
    pub scale_input: bool,
    pub subsampling_conv_channels: usize,
    pub subsampling_conv_kernel_size: usize,
    pub subsampling_conv_stride: usize,
    pub subsampling_factor: usize,
    pub max_position_embeddings: usize,
}

/// The configuration of a checkpoint.
#[derive(Clone, Debug)]
pub struct Config {
    pub model_type: String,
    pub encoder_config: EncoderConfig,
    pub vocab_size: usize,
    pub blank_token_id: usize,
    pub decoder_hidden_size: usize,
    pub num_decoder_layers: usize,
    pub durations: Vec<usize>,
    pub hidden_act: String,
    pub max_symbols_per_step: usize,
}

/// The feature extractor of a processor. Floats are kept as they are written.
#[derive(Clone, Debug)]
pub struct FeatureExtractor {
    pub feature_size: usize,
    pub sampling_rate: u32,
    pub n_fft: usize,
    pub win_length: usize,
    pub hop_length: usize,
    pub preemphasis: Number,
}

/// The fields of an encoder, in their order.
pub open spec fn encoder_names() -> Seq<Seq<char>> {
    seq![
        "hidden_size"@,
        "intermediate_size"@,
        "num_hidden_layers"@,
        "num_attention_heads"@,
        "num_key_value_heads"@,
        "num_mel_bins"@,
        "conv_kernel_size"@,
        "hidden_act"@,
        "attention_bias"@,
        "convolution_bias"@,
        "scale_input"@,
        "subsampling_conv_channels"@,
        "subsampling_conv_kernel_size"@,
        "subsampling_conv_stride"@,
        "subsampling_factor"@,
        "max_position_embeddings"@,
    ]
}

fn encoder_names_list() -> (r: Vec<&'static str>)
    ensures
        words_of(r@) == encoder_names(),
{
    let mut list: Vec<&'static str> = Vec::new();
    list.push("hidden_size");
    list.push("intermediate_size");
    list.push("num_hidden_layers");
    list.push("num_attention_heads");
    list.push("num_key_value_heads");
    list.push("num_mel_bins");
    list.push("conv_kernel_size");
    list.push("hidden_act");
    list.push("attention_bias");
    list.push("convolution_bias");
    list.push("scale_input");
    list.push("subsampling_conv_channels");
    list.push("subsampling_conv_kernel_size");
    list.push("subsampling_conv_stride");
    list.push("subsampling_factor");
    list.push("max_position_embeddings");
    assert(words_of(list@) =~= encoder_names());
    list
}

/// The fields of a configuration, in their order.
pub open spec fn config_names() -> Seq<Seq<char>> {
    seq![
        "model_type"@,
        "encoder_config"@,
        "vocab_size"@,
        "blank_token_id"@,
        "decoder_hidden_size"@,
        "num_decoder_layers"@,
        "durations"@,
        "hidden_act"@,
        "max_symbols_per_step"@,
    ]
}

fn config_names_list() -> (r: Vec<&'static str>)
    ensures
        words_of(r@) == config_names(),
{
    let mut list: Vec<&'static str> = Vec::new();
    list.push("model_type");
    list.push("encoder_config");
    list.push("vocab_size");
    list.push("blank_token_id");
    list.push("decoder_hidden_size");
    list.push("num_decoder_layers");
    list.push("durations");
    list.push("hidden_act");
    list.push("max_symbols_per_step");
    assert(words_of(list@) =~= config_names());
    list
}

/// The fields of a feature extractor, in their order.
pub open spec fn extractor_names() -> Seq<Seq<char>> {
    seq![
        "feature_size"@,
        "sampling_rate"@,
        "n_fft"@,
        "win_length"@,
        "hop_length"@,
        "preemphasis"@,
    ]
}

fn extractor_names_list() -> (r: Vec<&'static str>)
    ensures
        words_of(r@) == extractor_names(),
{
    let mut list: Vec<&'static str> = Vec::new();
    list.push("feature_size");
    list.push("sampling_rate");
    list.push("n_fft");
    list.push("win_length");
    list.push("hop_length");
    list.push("preemphasis");
    assert(words_of(list@) =~= extractor_names());
    list
}

/// The field of a processor.
pub open spec fn processor_names() -> Seq<Seq<char>> {
    seq![
        "feature_extractor"@,
    ]
}

fn processor_names_list() -> (r: Vec<&'static str>)
    ensures
        words_of(r@) == processor_names(),
{
    let mut list: Vec<&'static str> = Vec::new();
    list.push("feature_extractor");
    assert(words_of(list@) =~= processor_names());
    list
}

/// The encoder of a configuration, by name.
pub open spec fn encoder_tree(t: Tree) -> Option<Tree> {
    match t.entry("encoder_config"@) {
        None => None,
        Some(e) => Some(named(e, encoder_names(), 16)),
    }
}

/// A configuration by name.
pub open spec fn config_tree(t: Tree) -> Tree {
    named(t, config_names(), 9)
}

/// The feature extractor of a processor, by name.
pub open spec fn extractor_tree(t: Tree) -> Option<Tree> {
    match named(t, processor_names(), 1).entry("feature_extractor"@) {
        None => None,
        Some(f) => Some(named(f, extractor_names(), 6)),
    }
}

/// The first field of an encoder that cannot be read.
pub open spec fn encoder_fields_fault(t: Tree) -> Option<Seq<char>> {
    if failed(size_field(t, "hidden_size"@)) is Some {
        failed(size_field(t, "hidden_size"@))
    } else if failed(size_field(t, "intermediate_size"@)) is Some {
        failed(size_field(t, "intermediate_size"@))
    } else if failed(size_field(t, "num_hidden_layers"@)) is Some {
        failed(size_field(t, "num_hidden_layers"@))
    } else if failed(size_field(t, "num_attention_heads"@)) is Some {
        failed(size_field(t, "num_attention_heads"@))
    } else if failed(size_field(t, "num_key_value_heads"@)) is Some {
        failed(size_field(t, "num_key_value_heads"@))
    } else if failed(size_field(t, "num_mel_bins"@)) is Some {
        failed(size_field(t, "num_mel_bins"@))
    } else if failed(size_field(t, "conv_kernel_size"@)) is Some {
        failed(size_field(t, "conv_kernel_size"@))
    } else if failed(text_field(t, "hidden_act"@)) is Some {
        failed(text_field(t, "hidden_act"@))
    } else if failed(flag_field(t, "attention_bias"@)) is Some {
        failed(flag_field(t, "attention_bias"@))
    } else if failed(flag_field(t, "convolution_bias"@)) is Some {
        failed(flag_field(t, "convolution_bias"@))
    } else if failed(flag_field(t, "scale_input"@)) is Some {
        failed(flag_field(t, "scale_input"@))
    } else if failed(size_field(t, "subsampling_conv_channels"@)) is Some {
        failed(size_field(t, "subsampling_conv_channels"@))
    } else if failed(size_field(t, "subsampling_conv_kernel_size"@)) is Some {
        failed(size_field(t, "subsampling_conv_kernel_size"@))
    } else if failed(size_field(t, "subsampling_conv_stride"@)) is Some {
        failed(size_field(t, "subsampling_conv_stride"@))
    } else if failed(size_field(t, "subsampling_factor"@)) is Some {
        failed(size_field(t, "subsampling_factor"@))
    } else if failed(size_field(t, "max_position_embeddings"@)) is Some {
        failed(size_field(t, "max_position_embeddings"@))
    } else {
        None
    }
}

/// Why the encoder of a configuration cannot be read.
pub open spec fn encoder_fault(t: Tree) -> Option<Seq<char>> {
    match encoder_tree(t) {
        None => Some(missing("encoder_config"@)),
        Some(e) => encoder_fields_fault(e),
    }
}

/// The first field that cannot be read.
pub open spec fn fields_fault(t: Tree) -> Option<Seq<char>> {
    if failed(text_field(t, "model_type"@)) is Some {
        failed(text_field(t, "model_type"@))
    } else if encoder_fault(t) is Some {
        encoder_fault(t)
    } else if failed(size_field(t, "vocab_size"@)) is Some {
        failed(size_field(t, "vocab_size"@))
    } else if failed(size_field(t, "blank_token_id"@)) is Some {
        failed(size_field(t, "blank_token_id"@))
    } else if failed(size_field(t, "decoder_hidden_size"@)) is Some {
        failed(size_field(t, "decoder_hidden_size"@))
    } else if failed(size_field(t, "num_decoder_layers"@)) is Some {
        failed(size_field(t, "num_decoder_layers"@))
    } else if failed(sizes_field(t, "durations"@)) is Some {
        failed(sizes_field(t, "durations"@))
    } else if failed(text_field(t, "hidden_act"@)) is Some {
        failed(text_field(t, "hidden_act"@))
    } else if failed(size_field(t, "max_symbols_per_step"@)) is Some {
        failed(size_field(t, "max_symbols_per_step"@))
    } else {
        None
    }
}

/// The first field of a feature extractor that cannot be read.
pub open spec fn extractor_fault(t: Tree) -> Option<Seq<char>> {
    if failed(size_field(t, "feature_size"@)) is Some {
        failed(size_field(t, "feature_size"@))
    } else if failed(u32_field(t, "sampling_rate"@)) is Some {
        failed(u32_field(t, "sampling_rate"@))
    } else if failed(size_field(t, "n_fft"@)) is Some {
        failed(size_field(t, "n_fft"@))
    } else if failed(size_field(t, "win_length"@)) is Some {
        failed(size_field(t, "win_length"@))
    } else if failed(size_field(t, "hop_length"@)) is Some {
        failed(size_field(t, "hop_length"@))
    } else if failed(number_field(t, "preemphasis"@)) is Some {
        failed(number_field(t, "preemphasis"@))
    } else {
        None
    }
}

/// The encoder holds what the object says.
pub open spec fn encoder_of(t: Tree, c: EncoderConfig) -> bool {
    &&& size_field(t, "hidden_size"@) == Ok::<usize, Seq<char>>(c.hidden_size)
    &&& size_field(t, "intermediate_size"@) == Ok::<usize, Seq<char>>(c.intermediate_size)
    &&& size_field(t, "num_hidden_layers"@) == Ok::<usize, Seq<char>>(c.num_hidden_layers)
    &&& size_field(t, "num_attention_heads"@) == Ok::<usize, Seq<char>>(c.num_attention_heads)
    &&& size_field(t, "num_key_value_heads"@) == Ok::<usize, Seq<char>>(c.num_key_value_heads)
    &&& size_field(t, "num_mel_bins"@) == Ok::<usize, Seq<char>>(c.num_mel_bins)
    &&& size_field(t, "conv_kernel_size"@) == Ok::<usize, Seq<char>>(c.conv_kernel_size)
    &&& text_field(t, "hidden_act"@) == Ok::<Seq<char>, Seq<char>>(c.hidden_act@)
    &&& flag_field(t, "attention_bias"@) == Ok::<bool, Seq<char>>(c.attention_bias)
    &&& flag_field(t, "convolution_bias"@) == Ok::<bool, Seq<char>>(c.convolution_bias)
    &&& flag_field(t, "scale_input"@) == Ok::<bool, Seq<char>>(c.scale_input)
    &&& size_field(t, "subsampling_conv_channels"@) == Ok::<usize, Seq<char>>(c.subsampling_conv_channels)
    &&& size_field(t, "subsampling_conv_kernel_size"@) == Ok::<usize, Seq<char>>(c.subsampling_conv_kernel_size)
    &&& size_field(t, "subsampling_conv_stride"@) == Ok::<usize, Seq<char>>(c.subsampling_conv_stride)
    &&& size_field(t, "subsampling_factor"@) == Ok::<usize, Seq<char>>(c.subsampling_factor)
    &&& size_field(t, "max_position_embeddings"@) == Ok::<usize, Seq<char>>(c.max_position_embeddings)
}

/// The configuration holds what the object says.
pub open spec fn fields_of(t: Tree, c: Config) -> bool {
    &&& text_field(t, "model_type"@) == Ok::<Seq<char>, Seq<char>>(c.model_type@)
    &&& encoder_tree(t) is Some && encoder_of(encoder_tree(t)->Some_0, c.encoder_config)
    &&& size_field(t, "vocab_size"@) == Ok::<usize, Seq<char>>(c.vocab_size)
    &&& size_field(t, "blank_token_id"@) == Ok::<usize, Seq<char>>(c.blank_token_id)
    &&& size_field(t, "decoder_hidden_size"@) == Ok::<usize, Seq<char>>(c.decoder_hidden_size)
    &&& size_field(t, "num_decoder_layers"@) == Ok::<usize, Seq<char>>(c.num_decoder_layers)
    &&& sizes_field(t, "durations"@) == Ok::<Seq<usize>, Seq<char>>(c.durations@)
    &&& text_field(t, "hidden_act"@) == Ok::<Seq<char>, Seq<char>>(c.hidden_act@)
    &&& size_field(t, "max_symbols_per_step"@) == Ok::<usize, Seq<char>>(c.max_symbols_per_step)
}

/// The feature extractor holds what the object says.
pub open spec fn extractor_of(t: Tree, c: FeatureExtractor) -> bool {
    &&& size_field(t, "feature_size"@) == Ok::<usize, Seq<char>>(c.feature_size)
    &&& u32_field(t, "sampling_rate"@) == Ok::<u32, Seq<char>>(c.sampling_rate)
    &&& size_field(t, "n_fft"@) == Ok::<usize, Seq<char>>(c.n_fft)
    &&& size_field(t, "win_length"@) == Ok::<usize, Seq<char>>(c.win_length)
    &&& size_field(t, "hop_length"@) == Ok::<usize, Seq<char>>(c.hop_length)
    &&& number_field(t, "preemphasis"@) == Ok::<Number, Seq<char>>(c.preemphasis)
}

fn read_encoder(t: &Json) -> (r: core::result::Result<EncoderConfig, String>)
    ensures
        r matches Ok(c) ==> encoder_fields_fault(t@) is None && encoder_of(t@, c),
        r matches Err(m) ==> encoder_fields_fault(t@) == Some(m@),
{
    let hidden_size: usize = t.size_field("hidden_size")?;
    let intermediate_size: usize = t.size_field("intermediate_size")?;
    let num_hidden_layers: usize = t.size_field("num_hidden_layers")?;
    let num_attention_heads: usize = t.size_field("num_attention_heads")?;
    let num_key_value_heads: usize = t.size_field("num_key_value_heads")?;
    let num_mel_bins: usize = t.size_field("num_mel_bins")?;
    let conv_kernel_size: usize = t.size_field("conv_kernel_size")?;
    let hidden_act: String = t.text_field("hidden_act")?;
    let attention_bias: bool = t.flag_field("attention_bias")?;
    let convolution_bias: bool = t.flag_field("convolution_bias")?;
    let scale_input: bool = t.flag_field("scale_input")?;
    let subsampling_conv_channels: usize = t.size_field("subsampling_conv_channels")?;
    let subsampling_conv_kernel_size: usize = t.size_field("subsampling_conv_kernel_size")?;
    let subsampling_conv_stride: usize = t.size_field("subsampling_conv_stride")?;
    let subsampling_factor: usize = t.size_field("subsampling_factor")?;
    let max_position_embeddings: usize = t.size_field("max_position_embeddings")?;
    Ok(
        EncoderConfig {
            hidden_size,
            intermediate_size,
            num_hidden_layers,
            num_attention_heads,
            num_key_value_heads,
            num_mel_bins,
            conv_kernel_size,
            hidden_act,
            attention_bias,
            convolution_bias,
            scale_input,
            subsampling_conv_channels,
            subsampling_conv_kernel_size,
            subsampling_conv_stride,
            subsampling_factor,
            max_position_embeddings,
        },
    )
}

fn read_fields(t: &Json) -> (r: core::result::Result<Config, String>)
    ensures
        r matches Ok(c) ==> fields_fault(t@) is None && fields_of(t@, c),
        r matches Err(m) ==> fields_fault(t@) == Some(m@),
{
    let model_type: String = t.text_field("model_type")?;
    let encoder_config: EncoderConfig = match t.get("encoder_config") {
        None => {
            return Err(missing_text("encoder_config"));
        },
        Some(found) => read_encoder(&found.named(&encoder_names_list(), 16))?,
    };
    let vocab_size: usize = t.size_field("vocab_size")?;
    let blank_token_id: usize = t.size_field("blank_token_id")?;
    let decoder_hidden_size: usize = t.size_field("decoder_hidden_size")?;
    let num_decoder_layers: usize = t.size_field("num_decoder_layers")?;
    let durations: Vec<usize> = t.sizes_field("durations")?;
    let hidden_act: String = t.text_field("hidden_act")?;
    let max_symbols_per_step: usize = t.size_field("max_symbols_per_step")?;
    Ok(
        Config {
            model_type,
            encoder_config,
            vocab_size,
            blank_token_id,
            decoder_hidden_size,
            num_decoder_layers,
            durations,
            hidden_act,
            max_symbols_per_step,
        },
    )
}

fn read_extractor(t: &Json) -> (r: core::result::Result<FeatureExtractor, String>)
    ensures
        r matches Ok(c) ==> extractor_fault(t@) is None && extractor_of(t@, c),
        r matches Err(m) ==> extractor_fault(t@) == Some(m@),
{
    let feature_size: usize = t.size_field("feature_size")?;
    let sampling_rate: u32 = t.u32_field("sampling_rate")?;
    let n_fft: usize = t.size_field("n_fft")?;
    let win_length: usize = t.size_field("win_length")?;
    let hop_length: usize = t.size_field("hop_length")?;
    let preemphasis: Number = t.number_field("preemphasis")?;
    Ok(
        FeatureExtractor {
            feature_size,
            sampling_rate,
            n_fft,
            win_length,
            hop_length,
            preemphasis,
        },
    )
}

/// An error of a configuration.
pub open spec fn config_error(message: Seq<char>) -> ErrorModel {
    ErrorModel::UnsupportedModel("Parakeet TDT config: "@ + message)
}

fn unsupported(message: &str) -> (r: Error)
    ensures
        r@ == config_error(message@),
{
    Error::UnsupportedModel("Parakeet TDT config: ".to_owned().concat(message))
}

// ---------------------------------------------------------------------------------------------
// What is implemented
// ---------------------------------------------------------------------------------------------

/// The first `n` sizes as a list.
pub open spec fn listed(sizes: Seq<usize>, n: nat) -> Seq<char>
    decreases n,
{
    if n == 0 {
        Seq::empty()
    } else if n == 1 {
        digits(sizes[0] as nat)
    } else {
        listed(sizes, (n - 1) as nat) + ", "@ + digits(sizes[n - 1] as nat)
    }
}

fn show_sizes(sizes: &Vec<usize>) -> (r: String)
    ensures
        r@ == listed(sizes@, sizes@.len()),
{
    proof {
        reveal_strlit("");
        assert(""@ =~= Seq::<char>::empty());
    }
    let mut out: String = "".to_owned();
    let mut i: usize = 0;
    while i < sizes.len()
        invariant
            i <= sizes@.len(),
            out@ == listed(sizes@, i as nat),
        decreases sizes@.len() - i,
    {
        if i == 0 {
            out = decimal(sizes[i] as u64);
        } else {
            out = out.concat(", ").concat(decimal(sizes[i] as u64).as_str());
        }
        i += 1;
    }
    out
}

/// Duration `i` is `i`, and there is one.
pub open spec fn counted(durations: Seq<usize>) -> bool {
    durations.len() > 0 && forall|i: int|
        0 <= i < durations.len() ==> #[trigger] durations[i] == i
}

fn are_counted(durations: &Vec<usize>) -> (r: bool)
    ensures
        r == counted(durations@),
{
    if durations.len() == 0 {
        return false;
    }
    let mut i: usize = 0;
    while i < durations.len()
        invariant
            i <= durations@.len(),
            forall|k: int| 0 <= k < i ==> #[trigger] durations@[k] == k,
        decreases durations@.len() - i,
    {
        if durations[i] != i {
            assert(durations@[i as int] != i);
            return false;
        }
        i += 1;
    }
    true
}

/// What decides whether a configuration is implemented.
#[verifier::ext_equal]
pub struct Facts {
    pub model_type: Seq<char>,
    pub encoder_act: Seq<char>,
    pub hidden_act: Seq<char>,
    pub biased_or_scaled: bool,
    pub hidden: usize,
    pub heads: usize,
    pub kv_heads: usize,
    pub mels: usize,
    pub kernel: usize,
    pub sub_kernel: usize,
    pub sub_stride: usize,
    pub factor: usize,
    pub vocab: usize,
    pub blank: usize,
    pub durations: Seq<usize>,
    pub layers: usize,
    pub max_symbols: usize,
}

impl Facts {
    /// Each head has its own keys, and heads divide the width.
    pub open spec fn heads_fit(self) -> bool {
        self.heads > 0 && self.kv_heads == self.heads && self.hidden as int % self.heads as int == 0
    }

    /// Time and frequency are halved by 3x3 convolutions of stride 2, a whole number of times.
    pub open spec fn subsampling_fits(self) -> bool {
        &&& self.sub_kernel == 3
        &&& self.sub_stride == 2
        &&& power_of_two(self.factor as int)
        &&& self.factor >= 2
        &&& self.mels as int % self.factor as int == 0
    }

    /// The first part that this runtime does not implement.
    pub open spec fn limits(self) -> Option<Seq<char>> {
        if self.model_type != "parakeet_tdt"@ {
            Some("unsupported model_type "@ + quoted_text(self.model_type))
        } else if self.encoder_act != "silu"@ || self.hidden_act != "relu"@ {
            Some(
                "unsupported activations "@ + quoted_text(self.encoder_act) + " / "@ + quoted_text(
                    self.hidden_act,
                ),
            )
        } else if self.biased_or_scaled {
            Some("unsupported attention or convolution biases, or input scaling"@)
        } else if !self.heads_fit() {
            Some(
                "unsupported "@ + digits(self.heads as nat) + " heads, "@ + digits(
                    self.kv_heads as nat,
                ) + " KV heads"@,
            )
        } else if !self.subsampling_fits() {
            Some(
                "unsupported subsampling kernel "@ + digits(self.sub_kernel as nat) + " stride "@
                    + digits(self.sub_stride as nat) + " factor "@ + digits(self.factor as nat),
            )
        } else if self.kernel % 2 != 1 {
            Some("unsupported even convolution kernel "@ + digits(self.kernel as nat))
        } else if self.blank + 1 != self.vocab {
            Some(
                "unsupported blank token "@ + digits(self.blank as nat) + " of vocabulary "@
                    + digits(self.vocab as nat),
            )
        } else if !counted(self.durations) {
            Some(
                "unsupported durations ["@ + listed(self.durations, self.durations.len()) + "]"@,
            )
        } else if self.layers == 0 || self.max_symbols == 0 {
            Some("unsupported empty prediction network"@)
        } else {
            None
        }
    }
}

/// The facts of an object whose fields can be read.
pub open spec fn facts_of(t: Tree) -> Facts {
    let e = encoder_tree(t)->Some_0;
    Facts {
        model_type: text_field(t, "model_type"@)->Ok_0,
        encoder_act: text_field(e, "hidden_act"@)->Ok_0,
        hidden_act: text_field(t, "hidden_act"@)->Ok_0,
        biased_or_scaled: flag_field(e, "attention_bias"@)->Ok_0 || flag_field(
            e,
            "convolution_bias"@,
        )->Ok_0 || flag_field(e, "scale_input"@)->Ok_0,
        hidden: size_field(e, "hidden_size"@)->Ok_0,
        heads: size_field(e, "num_attention_heads"@)->Ok_0,
        kv_heads: size_field(e, "num_key_value_heads"@)->Ok_0,
        mels: size_field(e, "num_mel_bins"@)->Ok_0,
        kernel: size_field(e, "conv_kernel_size"@)->Ok_0,
        sub_kernel: size_field(e, "subsampling_conv_kernel_size"@)->Ok_0,
        sub_stride: size_field(e, "subsampling_conv_stride"@)->Ok_0,
        factor: size_field(e, "subsampling_factor"@)->Ok_0,
        vocab: size_field(t, "vocab_size"@)->Ok_0,
        blank: size_field(t, "blank_token_id"@)->Ok_0,
        durations: sizes_field(t, "durations"@)->Ok_0,
        layers: size_field(t, "num_decoder_layers"@)->Ok_0,
        max_symbols: size_field(t, "max_symbols_per_step"@)->Ok_0,
    }
}

/// Why an object is no configuration of a model that this runtime implements.
pub open spec fn object_fault(t: Tree) -> Option<Seq<char>> {
    match fields_fault(t) {
        Some(m) => Some("invalid config.json: "@ + m),
        None => facts_of(t).limits(),
    }
}

/// Why a text is no configuration of a model that this runtime implements.
pub open spec fn parse_fault(text: Seq<char>) -> Option<Seq<char>> {
    match json_text(text) {
        Err(m) => Some("invalid config.json: "@ + m),
        Ok(t) => object_fault(config_tree(t)),
    }
}

impl Config {
    /// What decides whether it is implemented.
    pub open spec fn facts(self) -> Facts {
        let e = self.encoder_config;
        Facts {
            model_type: self.model_type@,
            encoder_act: e.hidden_act@,
            hidden_act: self.hidden_act@,
            biased_or_scaled: e.attention_bias || e.convolution_bias || e.scale_input,
            hidden: e.hidden_size,
            heads: e.num_attention_heads,
            kv_heads: e.num_key_value_heads,
            mels: e.num_mel_bins,
            kernel: e.conv_kernel_size,
            sub_kernel: e.subsampling_conv_kernel_size,
            sub_stride: e.subsampling_conv_stride,
            factor: e.subsampling_factor,
            vocab: self.vocab_size,
            blank: self.blank_token_id,
            durations: self.durations@,
            layers: self.num_decoder_layers,
            max_symbols: self.max_symbols_per_step,
        }
    }

    /// Refuses what this runtime does not implement.
    pub fn validate(&self) -> (r: Result<()>)
        ensures
            r is Ok <==> self.facts().limits() is None,
            r matches Err(e) ==> self.facts().limits() is Some && e@ == config_error(
                self.facts().limits()->Some_0,
            ),
    {
        let e: &EncoderConfig = &self.encoder_config;
        let heads: usize = e.num_attention_heads;
        if !same_text(self.model_type.as_str(), "parakeet_tdt") {
            return refuse(
                "unsupported model_type ".to_owned().concat(
                    quoted(self.model_type.as_str()).as_str(),
                ),
            );
        }
        if !same_text(e.hidden_act.as_str(), "silu") || !same_text(
            self.hidden_act.as_str(),
            "relu",
        ) {
            return refuse(
                "unsupported activations ".to_owned().concat(
                    quoted(e.hidden_act.as_str()).as_str(),
                ).concat(" / ").concat(quoted(self.hidden_act.as_str()).as_str()),
            );
        }
        if e.attention_bias || e.convolution_bias || e.scale_input {
            return refuse(
                "unsupported attention or convolution biases, or input scaling".to_owned(),
            );
        }
        if heads == 0 || e.num_key_value_heads != heads || e.hidden_size % heads != 0 {
            return refuse(
                "unsupported ".to_owned().concat(decimal(heads as u64).as_str()).concat(
                    " heads, ",
                ).concat(decimal(e.num_key_value_heads as u64).as_str()).concat(" KV heads"),
            );
        }
        if e.subsampling_conv_kernel_size != 3 || e.subsampling_conv_stride != 2
            || !is_power_of_two(e.subsampling_factor as u64) || e.subsampling_factor < 2
            || e.num_mel_bins % e.subsampling_factor != 0 {
            return refuse(
                "unsupported subsampling kernel ".to_owned().concat(
                    decimal(e.subsampling_conv_kernel_size as u64).as_str(),
                ).concat(" stride ").concat(
                    decimal(e.subsampling_conv_stride as u64).as_str(),
                ).concat(" factor ").concat(decimal(e.subsampling_factor as u64).as_str()),
            );
        }
        if e.conv_kernel_size % 2 != 1 {
            return refuse(
                "unsupported even convolution kernel ".to_owned().concat(
                    decimal(e.conv_kernel_size as u64).as_str(),
                ),
            );
        }
        if self.vocab_size == 0 || self.blank_token_id != self.vocab_size - 1 {
            return refuse(
                "unsupported blank token ".to_owned().concat(
                    decimal(self.blank_token_id as u64).as_str(),
                ).concat(" of vocabulary ").concat(decimal(self.vocab_size as u64).as_str()),
            );
        }
        if !are_counted(&self.durations) {
            return refuse(
                "unsupported durations [".to_owned().concat(
                    show_sizes(&self.durations).as_str(),
                ).concat("]"),
            );
        }
        if self.num_decoder_layers == 0 || self.max_symbols_per_step == 0 {
            return refuse("unsupported empty prediction network".to_owned());
        }
        Ok(())
    }

    /// The configuration of a `config.json`. Where its text is no JSON, the error holds that of
    /// the reader; where a field is missing or of another type, it names the field.
    /// The reader keeps the last value of a field that stands twice.
    pub fn parse(text: &str) -> (r: Result<Self>)
        ensures
            r is Ok <==> parse_fault(text@) is None,
            r matches Ok(c) ==> json_text(text@) is Ok && fields_of(
                config_tree(json_text(text@)->Ok_0),
                c,
            ) && c.facts().limits() is None,
            r matches Err(e) ==> parse_fault(text@) is Some && e@ == config_error(
                parse_fault(text@)->Some_0,
            ),
    {
        let t: Json = match Json::parse(text) {
            Ok(t) => t,
            Err(m) => {
                return Err(
                    unsupported("invalid config.json: ".to_owned().concat(m.as_str()).as_str()),
                );
            },
        };
        Config::from_json(&t)
    }

    /// The configuration of an object.
    pub fn from_json(t: &Json) -> (r: Result<Self>)
        ensures
            r is Ok <==> object_fault(config_tree(t@)) is None,
            r matches Ok(c) ==> fields_of(config_tree(t@), c) && c.facts().limits() is None,
            r matches Err(e) ==> object_fault(config_tree(t@)) is Some && e@ == config_error(
                object_fault(config_tree(t@))->Some_0,
            ),
    {
        let config: Config = match read_fields(&t.named(&config_names_list(), 9)) {
            Ok(c) => c,
            Err(m) => {
                return Err(
                    unsupported("invalid config.json: ".to_owned().concat(m.as_str()).as_str()),
                );
            },
        };
        assert(config.facts() =~= facts_of(config_tree(t@)));
        config.validate()?;
        Ok(config)
    }
}

fn refuse(message: String) -> (r: Result<()>)
    ensures
        r matches Err(e) && e@ == config_error(message@),
{
    Err(unsupported(message.as_str()))
}

// ---------------------------------------------------------------------------------------------
// Frames and features
// ---------------------------------------------------------------------------------------------

/// `n` halved and rounded up as often as `factor` can be halved. Zero can be halved as often as a
/// size has bits, which leaves one of any number.
pub open spec fn halved(n: nat, factor: nat) -> nat
    decreases factor,
{
    if factor == 0 {
        if n == 0 {
            0
        } else {
            1
        }
    } else if factor >= 2 && factor % 2 == 0 {
        halved((n + 1) / 2, factor / 2)
    } else {
        n
    }
}

/// Encoder frames of `mel` feature frames: each stride-2 convolution maps `n` to
/// `(n + 2 - 3) / 2 + 1`.
pub fn halve_frames(mel: usize, factor: usize) -> (r: usize)
    ensures
        r == halved(mel as nat, factor as nat),
{
    if factor == 0 {
        return if mel == 0 {
            0
        } else {
            1
        };
    }
    let mut n: usize = mel;
    let mut f: usize = factor;
    while f >= 2 && f % 2 == 0
        invariant
            f > 0,
            halved(mel as nat, factor as nat) == halved(n as nat, f as nat),
        decreases f,
    {
        n = n / 2 + n % 2;
        f = f / 2;
    }
    n
}

impl Config {
    /// Encoder frames of `mel` feature frames.
    pub fn encoded_frames(&self, mel: usize) -> (r: usize)
        ensures
            r == halved(mel as nat, self.encoder_config.subsampling_factor as nat),
    {
        halve_frames(mel, self.encoder_config.subsampling_factor)
    }
}

/// Log-mel features.
#[derive(Clone, Debug)]
pub struct MelConfig {
    pub sample_rate: u32,
    pub n_fft: usize,
    pub win_length: usize,
    pub hop_length: usize,
    pub n_mels: usize,
    pub preemphasis: Number,
}

/// Why a processor is refused for a model of `mels` bins.
pub open spec fn processor_fault(t: Tree, mels: usize) -> Option<Seq<char>> {
    match extractor_tree(t) {
        None => Some("invalid processor_config.json: "@ + missing("feature_extractor"@)),
        Some(f) => match extractor_fault(f) {
            Some(m) => Some("invalid processor_config.json: "@ + m),
            None => {
                let size = size_field(f, "feature_size"@)->Ok_0;
                let window = size_field(f, "win_length"@)->Ok_0;
                let fft = size_field(f, "n_fft"@)->Ok_0;
                let hop = size_field(f, "hop_length"@)->Ok_0;
                if size != mels || window > fft || hop == 0 {
                    Some(
                        "feature extractor with "@ + digits(size as nat) + " mels, window "@
                            + digits(window as nat) + ", FFT "@ + digits(fft as nat) + ", hop "@
                            + digits(hop as nat),
                    )
                } else {
                    None
                }
            },
        },
    }
}

/// The features of a `processor_config.json` for a model.
pub fn parse_mel(text: &str, config: &Config) -> (r: Result<MelConfig>)
    ensures
        r matches Ok(m) ==> json_text(text@) is Ok && mel_of(
            json_text(text@)->Ok_0,
            config.encoder_config.num_mel_bins,
            m,
        ),
        r matches Err(e) ==> match json_text(text@) {
            Err(m) => e@ == config_error("invalid processor_config.json: "@ + m),
            Ok(t) => processor_fault(t, config.encoder_config.num_mel_bins) is Some && e@
                == config_error(
                processor_fault(t, config.encoder_config.num_mel_bins)->Some_0,
            ),
        },
{
    let t: Json = match Json::parse(text) {
        Ok(t) => t,
        Err(m) => {
            return Err(
                unsupported(
                    "invalid processor_config.json: ".to_owned().concat(m.as_str()).as_str(),
                ),
            );
        },
    };
    mel_from_json(&t, config.encoder_config.num_mel_bins)
}

/// The features hold what the object says, and fit a model of `mels` bins.
pub open spec fn mel_of(t: Tree, mels: usize, m: MelConfig) -> bool {
    let f = extractor_tree(t)->Some_0;
    &&& processor_fault(t, mels) is None
    &&& m.n_mels == mels
    &&& size_field(f, "feature_size"@) == Ok::<usize, Seq<char>>(m.n_mels)
    &&& u32_field(f, "sampling_rate"@) == Ok::<u32, Seq<char>>(m.sample_rate)
    &&& size_field(f, "n_fft"@) == Ok::<usize, Seq<char>>(m.n_fft)
    &&& size_field(f, "win_length"@) == Ok::<usize, Seq<char>>(m.win_length)
    &&& size_field(f, "hop_length"@) == Ok::<usize, Seq<char>>(m.hop_length)
    &&& number_field(f, "preemphasis"@) == Ok::<Number, Seq<char>>(m.preemphasis)
}

/// The features of a processor for a model of `mels` bins.
pub fn mel_from_json(t: &Json, mels: usize) -> (r: Result<MelConfig>)
    ensures
        r is Ok <==> processor_fault(t@, mels) is None,
        r matches Ok(m) ==> mel_of(t@, mels, m),
        r matches Err(e) ==> processor_fault(t@, mels) is Some && e@ == config_error(
            processor_fault(t@, mels)->Some_0,
        ),
{
    let processor: Json = t.named(&processor_names_list(), 1);
    let found: &Json = match processor.get("feature_extractor") {
        Some(found) => found,
        None => {
            return Err(
                unsupported(
                    "invalid processor_config.json: ".to_owned().concat(
                        missing_text("feature_extractor").as_str(),
                    ).as_str(),
                ),
            );
        },
    };
    let f: FeatureExtractor = match read_extractor(&found.named(&extractor_names_list(), 6)) {
        Ok(f) => f,
        Err(m) => {
            return Err(
                unsupported(
                    "invalid processor_config.json: ".to_owned().concat(m.as_str()).as_str(),
                ),
            );
        },
    };
    if f.feature_size != mels || f.win_length > f.n_fft || f.hop_length == 0 {
        return Err(
            unsupported(
                "feature extractor with ".to_owned().concat(
                    decimal(f.feature_size as u64).as_str(),
                ).concat(" mels, window ").concat(decimal(f.win_length as u64).as_str()).concat(
                    ", FFT ",
                ).concat(decimal(f.n_fft as u64).as_str()).concat(", hop ").concat(
                    decimal(f.hop_length as u64).as_str(),
                ).as_str(),
            ),
        );
    }
    Ok(
        MelConfig {
            sample_rate: f.sampling_rate,
            n_fft: f.n_fft,
            win_length: f.win_length,
            hop_length: f.hop_length,
            n_mels: f.feature_size,
            preemphasis: f.preemphasis,
        },
    )
}

} // verus!
