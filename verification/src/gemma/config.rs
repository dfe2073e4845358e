//! Hyperparameters of a DiffusionGemma file.
use crate::engine::generated::clamp;
use crate::formats::gguf::file::{find_tensor, Gguf};
use crate::formats::gguf::format::Catalog;
use crate::formats::gguf::value::{
    datum, Datum, GgufError, GgufFault, MetadataValue, TensorType,
};
use crate::gemma::error::{unsupported, ModelError, ModelFault, Result};
use crate::sequences::lookup;
use crate::text::{quoted, quoted_text, same_text};
use vstd::prelude::*;
use vstd::string::*;

verus! {

/// A float of the metadata as its IEEE 754 bits, single or double.
#[derive(Clone, Copy, Debug, PartialEq, Eq, Structural)]
pub enum FloatBits {
    Single(u32),
    Double(u64),
}

/// Hyperparameters read from GGUF metadata.
#[derive(Debug)]
pub struct Config {
    pub d: usize,
    pub layers: usize,
    pub heads: usize,
    pub vocab: usize,
    pub ff: usize,
    pub ff_exp: usize,
    pub experts: usize,
    pub top_k: usize,
    pub eps: FloatBits,
    pub window: usize,
    pub softcap: FloatBits,
    pub swa: Vec<bool>,
    pub kv_heads: Vec<usize>,
    pub hd_full: usize,
    pub hd_swa: usize,
    pub rope_base: FloatBits,
    pub rope_base_swa: FloatBits,
    /// Where the file holds the frequency factors: offset and bytes.
    pub rope_freqs: (u64, u64),
}

/// A number of the metadata as a size; one beyond the machine's sizes is the largest of them.
pub open spec fn number(c: Catalog, key: Seq<char>) -> core::result::Result<usize, ModelFault> {
    match lookup(c.metadata, key) {
        None => Err(ModelFault::Gguf(GgufFault::MissingKey(key))),
        Some(v) => match v.unsigned() {
            None => Err(
                ModelFault::Gguf(GgufFault::Format(key + " is not an unsigned integer"@)),
            ),
            Some(n) => Ok(clamp(n as nat)),
        },
    }
}

/// The bits of a float.
pub open spec fn float_of(v: Datum) -> Option<FloatBits> {
    match v {
        Datum::F32(bits) => Some(FloatBits::Single(bits)),
        Datum::F64(bits) => Some(FloatBits::Double(bits)),
        _ => None,
    }
}

/// A float of the metadata.
pub open spec fn float(c: Catalog, key: Seq<char>) -> core::result::Result<FloatBits, ModelFault> {
    match lookup(c.metadata, key) {
        None => Err(ModelFault::Gguf(GgufFault::MissingKey(key))),
        Some(v) => match float_of(v) {
            None => Err(ModelFault::Gguf(GgufFault::Format(key + " is not a float"@))),
            Some(bits) => Ok(bits),
        },
    }
}

/// The items of an array of the metadata; none where it is another value.
pub open spec fn items(c: Catalog, key: Seq<char>) -> core::result::Result<Seq<Datum>, ModelFault> {
    match lookup(c.metadata, key) {
        None => Err(ModelFault::Gguf(GgufFault::MissingKey(key))),
        Some(Datum::Array(list)) => Ok(list),
        Some(_) => Ok(Seq::empty()),
    }
}

/// One entry per layer.
pub open spec fn per_layer(c: Catalog, key: Seq<char>, layers: usize) -> core::result::Result<
    Seq<Datum>,
    ModelFault,
> {
    match items(c, key) {
        Err(e) => Err(e),
        Ok(list) => if list.len() != layers {
            Err(ModelFault::Unsupported(key + " must have one entry per layer"@))
        } else {
            Ok(list)
        },
    }
}

/// Which layers slide.
pub open spec fn flags(c: Catalog, key: Seq<char>, layers: usize) -> core::result::Result<
    Seq<bool>,
    ModelFault,
> {
    match per_layer(c, key, layers) {
        Err(e) => Err(e),
        Ok(list) => if forall|i: int| 0 <= i < list.len() ==> (#[trigger] list[i]) is Bool {
            Ok(Seq::new(list.len(), |i: int| list[i]->Bool_0))
        } else {
            Err(ModelFault::Unsupported("bad SWA pattern"@))
        },
    }
}

/// The key/value heads of each layer.
pub open spec fn head_counts(c: Catalog, key: Seq<char>, layers: usize) -> core::result::Result<
    Seq<usize>,
    ModelFault,
> {
    match per_layer(c, key, layers) {
        Err(e) => Err(e),
        Ok(list) => if forall|i: int|
            0 <= i < list.len() ==> (#[trigger] list[i]).unsigned() is Some {
            Ok(Seq::new(list.len(), |i: int| clamp(list[i].unsigned()->Some_0 as nat)))
        } else {
            Err(ModelFault::Unsupported("bad KV heads"@))
        },
    }
}

/// Where the frequency factors lie.
pub open spec fn factors(c: Catalog) -> core::result::Result<(u64, u64), ModelFault> {
    match find_tensor(c.tensors, "rope_freqs.weight"@) {
        None => Err(ModelFault::Gguf(GgufFault::MissingTensor("rope_freqs.weight"@))),
        Some(t) => if t.kind == TensorType::F32 {
            Ok((t.offset as u64, t.bytes as u64))
        } else {
            Err(
                ModelFault::Gguf(
                    GgufFault::Format("tensor "@ + "rope_freqs.weight"@ + " is not F32"@),
                ),
            )
        },
    }
}

/// The architecture's name; empty where it is not text.
pub open spec fn architecture(c: Catalog) -> core::result::Result<Seq<char>, ModelFault> {
    match lookup(c.metadata, "general.architecture"@) {
        None => Err(ModelFault::Gguf(GgufFault::MissingKey("general.architecture"@))),
        Some(Datum::String(name)) => Ok(name),
        Some(_) => Ok(Seq::empty()),
    }
}

/// Head widths that the kernels are written for.
pub open spec fn head_width(n: usize) -> bool {
    n == 256 || n == 512
}

/// Every count of key/value heads divides the heads.
pub open spec fn heads_divide(kv_heads: Seq<usize>, heads: usize) -> bool {
    forall|i: int|
        0 <= i < kv_heads.len() ==> (#[trigger] kv_heads[i]) > 0 && heads as int
            % kv_heads[i] as int == 0
}

/// Dimensions that the kernels support, but for the value widths.
pub open spec fn dimensions_fit(
    d: usize,
    experts: usize,
    top_k: usize,
    hd_full: usize,
    hd_swa: usize,
    rot_full: usize,
    rot_swa: usize,
) -> bool {
    &&& d % 256 == 0
    &&& experts <= 128
    &&& experts % 32 == 0
    &&& top_k <= 32
    &&& head_width(hd_full)
    &&& head_width(hd_swa)
    &&& rot_full == hd_full
    &&& rot_swa == hd_swa
}

/// The error of a result.
pub open spec fn fault<T>(r: core::result::Result<T, ModelFault>) -> Option<ModelFault> {
    match r {
        Ok(_) => None,
        Err(e) => Some(e),
    }
}

/// The keys of the metadata and the fields they fill, checked in this order; the first that
/// fails is the error of the file.
pub open spec fn config_fault(c: Catalog) -> Option<ModelFault> {
    let layers = number(c, "diffusion-gemma.block_count"@);
    let n = layers->Ok_0;
    let swa = flags(c, "diffusion-gemma.attention.sliding_window_pattern"@, n);
    let kv = head_counts(c, "diffusion-gemma.attention.head_count_kv"@, n);
    let d = number(c, "diffusion-gemma.embedding_length"@);
    let heads = number(c, "diffusion-gemma.attention.head_count"@);
    let vocab = items(c, "tokenizer.ggml.tokens"@);
    let ff = number(c, "diffusion-gemma.feed_forward_length"@);
    let ff_exp = number(c, "diffusion-gemma.expert_feed_forward_length"@);
    let experts = number(c, "diffusion-gemma.expert_count"@);
    let top_k = number(c, "diffusion-gemma.expert_used_count"@);
    let eps = float(c, "diffusion-gemma.attention.layer_norm_rms_epsilon"@);
    let window = number(c, "diffusion-gemma.attention.sliding_window"@);
    let softcap = float(c, "diffusion-gemma.final_logit_softcapping"@);
    let hd_full = number(c, "diffusion-gemma.attention.key_length"@);
    let hd_swa = number(c, "diffusion-gemma.attention.key_length_swa"@);
    let base = float(c, "diffusion-gemma.rope.freq_base"@);
    let base_swa = float(c, "diffusion-gemma.rope.freq_base_swa"@);
    let freqs = factors(c);
    let rot_full = number(c, "diffusion-gemma.rope.dimension_count"@);
    let rot_swa = number(c, "diffusion-gemma.rope.dimension_count_swa"@);
    let v_full = number(c, "diffusion-gemma.attention.value_length"@);
    let v_swa = number(c, "diffusion-gemma.attention.value_length_swa"@);
    let shape = Some(
        ModelFault::Unsupported("DiffusionGemma dimensions outside the supported kernel set"@),
    );
    if architecture(c) is Err {
        fault(architecture(c))
    } else if architecture(c)->Ok_0 != "diffusion-gemma"@ {
        Some(
            ModelFault::Unsupported(
                "architecture "@ + quoted_text(architecture(c)->Ok_0) + " is not diffusion-gemma"@,
            ),
        )
    } else if layers is Err {
        fault(layers)
    } else if swa is Err {
        fault(swa)
    } else if kv is Err {
        fault(kv)
    } else if d is Err {
        fault(d)
    } else if heads is Err {
        fault(heads)
    } else if vocab is Err {
        fault(vocab)
    } else if ff is Err {
        fault(ff)
    } else if ff_exp is Err {
        fault(ff_exp)
    } else if experts is Err {
        fault(experts)
    } else if top_k is Err {
        fault(top_k)
    } else if eps is Err {
        fault(eps)
    } else if window is Err {
        fault(window)
    } else if softcap is Err {
        fault(softcap)
    } else if hd_full is Err {
        fault(hd_full)
    } else if hd_swa is Err {
        fault(hd_swa)
    } else if base is Err {
        fault(base)
    } else if base_swa is Err {
        fault(base_swa)
    } else if freqs is Err {
        fault(freqs)
    } else if rot_full is Err {
        fault(rot_full)
    } else if rot_swa is Err {
        fault(rot_swa)
    } else if !dimensions_fit(
        d->Ok_0,
        experts->Ok_0,
        top_k->Ok_0,
        hd_full->Ok_0,
        hd_swa->Ok_0,
        rot_full->Ok_0,
        rot_swa->Ok_0,
    ) {
        shape
    } else if v_full is Err {
        fault(v_full)
    } else if v_full->Ok_0 != hd_full->Ok_0 {
        shape
    } else if v_swa is Err {
        fault(v_swa)
    } else if v_swa->Ok_0 != hd_swa->Ok_0 {
        shape
    } else if freqs->Ok_0.1 / 4 != hd_full->Ok_0 / 2 || !heads_divide(kv->Ok_0, heads->Ok_0) {
        shape
    } else {
        None
    }
}

/// The configuration holds what the file says.
pub open spec fn config_of(c: Catalog, cfg: Config) -> bool {
    &&& number(c, "diffusion-gemma.block_count"@) == Ok::<usize, ModelFault>(cfg.layers)
    &&& flags(c, "diffusion-gemma.attention.sliding_window_pattern"@, cfg.layers) == Ok::<
        Seq<bool>,
        ModelFault,
    >(cfg.swa@)
    &&& head_counts(c, "diffusion-gemma.attention.head_count_kv"@, cfg.layers) == Ok::<
        Seq<usize>,
        ModelFault,
    >(cfg.kv_heads@)
    &&& number(c, "diffusion-gemma.embedding_length"@) == Ok::<usize, ModelFault>(cfg.d)
    &&& number(c, "diffusion-gemma.attention.head_count"@) == Ok::<usize, ModelFault>(cfg.heads)
    &&& items(c, "tokenizer.ggml.tokens"@) matches Ok(list) && list.len() == cfg.vocab
    &&& number(c, "diffusion-gemma.feed_forward_length"@) == Ok::<usize, ModelFault>(cfg.ff)
    &&& number(c, "diffusion-gemma.expert_feed_forward_length"@) == Ok::<usize, ModelFault>(
        cfg.ff_exp,
    )
    &&& number(c, "diffusion-gemma.expert_count"@) == Ok::<usize, ModelFault>(cfg.experts)
    &&& number(c, "diffusion-gemma.expert_used_count"@) == Ok::<usize, ModelFault>(cfg.top_k)
    &&& float(c, "diffusion-gemma.attention.layer_norm_rms_epsilon"@) == Ok::<
        FloatBits,
        ModelFault,
    >(cfg.eps)
    &&& number(c, "diffusion-gemma.attention.sliding_window"@) == Ok::<usize, ModelFault>(
        cfg.window,
    )
    &&& float(c, "diffusion-gemma.final_logit_softcapping"@) == Ok::<FloatBits, ModelFault>(
        cfg.softcap,
    )
    &&& number(c, "diffusion-gemma.attention.key_length"@) == Ok::<usize, ModelFault>(cfg.hd_full)
    &&& number(c, "diffusion-gemma.attention.key_length_swa"@) == Ok::<usize, ModelFault>(
        cfg.hd_swa,
    )
    &&& float(c, "diffusion-gemma.rope.freq_base"@) == Ok::<FloatBits, ModelFault>(cfg.rope_base)
    &&& float(c, "diffusion-gemma.rope.freq_base_swa"@) == Ok::<FloatBits, ModelFault>(
        cfg.rope_base_swa,
    )
    &&& factors(c) == Ok::<(u64, u64), ModelFault>(cfg.rope_freqs)
}

impl Config {
    /// Dimensions that the kernels support.
    pub open spec fn supported(self) -> bool {
        &&& self.d % 256 == 0
        &&& self.experts <= 128
        &&& self.experts % 32 == 0
        &&& self.top_k <= 32
        &&& head_width(self.hd_full)
        &&& head_width(self.hd_swa)
        &&& self.swa@.len() == self.layers
        &&& self.kv_heads@.len() == self.layers
        &&& self.rope_freqs.1 / 4 == self.hd_full / 2
        &&& heads_divide(self.kv_heads@, self.heads)
    }

    /// The head width of a layer.
    pub open spec fn head_dim(self, layer: int) -> usize {
        if self.swa@[layer] {
            self.hd_swa
        } else {
            self.hd_full
        }
    }

    pub fn hd(&self, layer: usize) -> (r: usize)
        requires
            layer < self.swa@.len(),
        ensures
            r == self.head_dim(layer as int),
    {
        if self.swa[layer] {
            self.hd_swa
        } else {
            self.hd_full
        }
    }

    /// The hyperparameters of a file, or why it is not supported.
    pub fn from_gguf(g: &Gguf) -> (r: Result<Self>)
        ensures
            r is Ok <==> config_fault(g@) is None,
            r matches Ok(cfg) ==> config_of(g@, cfg) && cfg.supported(),
            r matches Err(e) ==> config_fault(g@) == Some(e@),
    {
        let arch: String = read_architecture(g)?;
        if !same_text(arch.as_str(), "diffusion-gemma") {
            return Err(
                ModelError::Unsupported(
                    "architecture ".to_owned().concat(quoted(arch.as_str()).as_str()).concat(
                        " is not diffusion-gemma",
                    ),
                ),
            );
        }
        let layers: usize = read_number(g, "diffusion-gemma.block_count")?;
        let swa: Vec<bool> = read_flags(
            g,
            "diffusion-gemma.attention.sliding_window_pattern",
            layers,
        )?;
        let kv_heads: Vec<usize> = read_head_counts(
            g,
            "diffusion-gemma.attention.head_count_kv",
            layers,
        )?;
        let cfg: Config = Config {
            d: read_number(g, "diffusion-gemma.embedding_length")?,
            layers,
            heads: read_number(g, "diffusion-gemma.attention.head_count")?,
            vocab: read_length(g, "tokenizer.ggml.tokens")?,
            ff: read_number(g, "diffusion-gemma.feed_forward_length")?,
            ff_exp: read_number(g, "diffusion-gemma.expert_feed_forward_length")?,
            experts: read_number(g, "diffusion-gemma.expert_count")?,
            top_k: read_number(g, "diffusion-gemma.expert_used_count")?,
            eps: read_float(g, "diffusion-gemma.attention.layer_norm_rms_epsilon")?,
            window: read_number(g, "diffusion-gemma.attention.sliding_window")?,
            softcap: read_float(g, "diffusion-gemma.final_logit_softcapping")?,
            swa,
            kv_heads,
            hd_full: read_number(g, "diffusion-gemma.attention.key_length")?,
            hd_swa: read_number(g, "diffusion-gemma.attention.key_length_swa")?,
            rope_base: read_float(g, "diffusion-gemma.rope.freq_base")?,
            rope_base_swa: read_float(g, "diffusion-gemma.rope.freq_base_swa")?,
            rope_freqs: read_factors(g)?,
        };
        let rot_full: usize = read_number(g, "diffusion-gemma.rope.dimension_count")?;
        let rot_swa: usize = read_number(g, "diffusion-gemma.rope.dimension_count_swa")?;
        if cfg.d % 256 != 0 || cfg.experts > 128 || cfg.experts % 32 != 0 || cfg.top_k > 32 || !(
        cfg.hd_full == 256 || cfg.hd_full == 512) || !(cfg.hd_swa == 256 || cfg.hd_swa == 512)
            || rot_full != cfg.hd_full || rot_swa != cfg.hd_swa {
            return unsupported("DiffusionGemma dimensions outside the supported kernel set");
        }
        if read_number(g, "diffusion-gemma.attention.value_length")? != cfg.hd_full {
            return unsupported("DiffusionGemma dimensions outside the supported kernel set");
        }
        if read_number(g, "diffusion-gemma.attention.value_length_swa")? != cfg.hd_swa {
            return unsupported("DiffusionGemma dimensions outside the supported kernel set");
        }
        if cfg.rope_freqs.1 / 4 != (cfg.hd_full / 2) as u64 || !all_divide(
            &cfg.kv_heads,
            cfg.heads,
        ) {
            return unsupported("DiffusionGemma dimensions outside the supported kernel set");
        }
        Ok(cfg)
    }
}

fn read_architecture(g: &Gguf) -> (r: Result<String>)
    ensures
        r matches Ok(name) ==> architecture(g@) == Ok::<Seq<char>, ModelFault>(name@),
        r matches Err(e) ==> architecture(g@) == Err::<Seq<char>, ModelFault>(e@),
{
    match g.get("general.architecture") {
        Ok(v) => match v.as_str() {
            Some(name) => Ok(name.to_owned()),
            None => {
                proof {
                    reveal_strlit("");
                    assert(""@ =~= Seq::<char>::empty());
                }
                Ok("".to_owned())
            },
        },
        Err(e) => Err(ModelError::Gguf(e)),
    }
}

fn read_number(g: &Gguf, key: &str) -> (r: Result<usize>)
    ensures
        r matches Ok(n) ==> number(g@, key@) == Ok::<usize, ModelFault>(n),
        r matches Err(e) ==> number(g@, key@) == Err::<usize, ModelFault>(e@),
{
    match g.u64(key) {
        Ok(n) => Ok(
            if n > usize::MAX as u64 {
                usize::MAX
            } else {
                n as usize
            },
        ),
        Err(e) => Err(ModelError::Gguf(e)),
    }
}

fn read_float(g: &Gguf, key: &str) -> (r: Result<FloatBits>)
    ensures
        r matches Ok(bits) ==> float(g@, key@) == Ok::<FloatBits, ModelFault>(bits),
        r matches Err(e) ==> float(g@, key@) == Err::<FloatBits, ModelFault>(e@),
{
    match g.get(key) {
        Ok(v) => match v {
            MetadataValue::F32(bits) => Ok(FloatBits::Single(*bits)),
            MetadataValue::F64(bits) => Ok(FloatBits::Double(*bits)),
            _ => Err(
                ModelError::Gguf(GgufError::Format(key.to_owned().concat(" is not a float"))),
            ),
        },
        Err(e) => Err(ModelError::Gguf(e)),
    }
}

fn read_length(g: &Gguf, key: &str) -> (r: Result<usize>)
    ensures
        r matches Ok(n) ==> items(g@, key@) matches Ok(list) && list.len() == n,
        r matches Err(e) ==> items(g@, key@) == Err::<Seq<Datum>, ModelFault>(e@),
{
    match g.get(key) {
        Ok(v) => match v {
            MetadataValue::Array(list) => Ok(list.len()),
            _ => Ok(0),
        },
        Err(e) => Err(ModelError::Gguf(e)),
    }
}

fn per_layer_error<T>(key: &str) -> (r: Result<T>)
    ensures
        r matches Err(e) && e@ == ModelFault::Unsupported(key@ + " must have one entry per layer"@),
{
    Err(ModelError::Unsupported(key.to_owned().concat(" must have one entry per layer")))
}

fn read_flags(g: &Gguf, key: &str, layers: usize) -> (r: Result<Vec<bool>>)
    ensures
        r matches Ok(list) ==> flags(g@, key@, layers) == Ok::<Seq<bool>, ModelFault>(list@),
        r matches Err(e) ==> flags(g@, key@, layers) == Err::<Seq<bool>, ModelFault>(e@),
{
    let value: &MetadataValue = match g.get(key) {
        Ok(v) => v,
        Err(e) => {
            return Err(ModelError::Gguf(e));
        },
    };
    let mut out: Vec<bool> = Vec::new();
    match value {
        MetadataValue::Array(list) => {
            let ghost model = items(g@, key@)->Ok_0;
            if list.len() != layers {
                return per_layer_error(key);
            }
            let mut i: usize = 0;
            while i < list.len()
                invariant
                    i <= list@.len(),
                    model.len() == list@.len(),
                    forall|k: int| 0 <= k < list@.len() ==> #[trigger] model[k] == datum(list@[k]),
                    out@.len() == i,
                    forall|k: int|
                        0 <= k < i ==> (#[trigger] model[k]) is Bool && out@[k]
                            == model[k]->Bool_0,
                    per_layer(g@, key@, layers) == Ok::<Seq<Datum>, ModelFault>(model),
                decreases list@.len() - i,
            {
                assert(model[i as int] == datum(list@[i as int]));
                match list[i] {
                    MetadataValue::Bool(b) => out.push(b),
                    _ => {
                        return unsupported("bad SWA pattern");
                    },
                }
                i += 1;
            }
            assert(out@ =~= Seq::new(model.len(), |k: int| model[k]->Bool_0));
            Ok(out)
        },
        _ => {
            if layers != 0 {
                return per_layer_error(key);
            }
            let ghost none = Seq::<Datum>::empty();
            assert(out@ =~= Seq::new(none.len(), |k: int| none[k]->Bool_0));
            Ok(out)
        },
    }
}

fn read_head_counts(g: &Gguf, key: &str, layers: usize) -> (r: Result<Vec<usize>>)
    ensures
        r matches Ok(list) ==> head_counts(g@, key@, layers) == Ok::<Seq<usize>, ModelFault>(list@),
        r matches Err(e) ==> head_counts(g@, key@, layers) == Err::<Seq<usize>, ModelFault>(e@),
{
    let value: &MetadataValue = match g.get(key) {
        Ok(v) => v,
        Err(e) => {
            return Err(ModelError::Gguf(e));
        },
    };
    let mut out: Vec<usize> = Vec::new();
    match value {
        MetadataValue::Array(list) => {
            let ghost model = items(g@, key@)->Ok_0;
            if list.len() != layers {
                return per_layer_error(key);
            }
            let mut i: usize = 0;
            while i < list.len()
                invariant
                    i <= list@.len(),
                    model.len() == list@.len(),
                    forall|k: int| 0 <= k < list@.len() ==> #[trigger] model[k] == datum(list@[k]),
                    out@.len() == i,
                    forall|k: int|
                        0 <= k < i ==> (#[trigger] model[k]).unsigned() is Some && out@[k] == clamp(
                            model[k].unsigned()->Some_0 as nat,
                        ),
                    per_layer(g@, key@, layers) == Ok::<Seq<Datum>, ModelFault>(model),
                decreases list@.len() - i,
            {
                assert(model[i as int] == datum(list@[i as int]));
                match list[i].as_u64() {
                    Some(n) => out.push(
                        if n > usize::MAX as u64 {
                            usize::MAX
                        } else {
                            n as usize
                        },
                    ),
                    None => {
                        return unsupported("bad KV heads");
                    },
                }
                i += 1;
            }
            assert(out@ =~= Seq::new(
                model.len(),
                |k: int| clamp(model[k].unsigned()->Some_0 as nat),
            ));
            Ok(out)
        },
        _ => {
            if layers != 0 {
                return per_layer_error(key);
            }
            let ghost none = Seq::<Datum>::empty();
            assert(out@ =~= Seq::new(
                none.len(),
                |k: int| clamp(none[k].unsigned()->Some_0 as nat),
            ));
            Ok(out)
        },
    }
}

fn read_factors(g: &Gguf) -> (r: Result<(u64, u64)>)
    ensures
        r matches Ok(range) ==> factors(g@) == Ok::<(u64, u64), ModelFault>(range),
        r matches Err(e) ==> factors(g@) == Err::<(u64, u64), ModelFault>(e@),
{
    match g.read_f32("rope_freqs.weight") {
        Ok(range) => Ok(range),
        Err(e) => Err(ModelError::Gguf(e)),
    }
}

fn all_divide(kv_heads: &Vec<usize>, heads: usize) -> (r: bool)
    ensures
        r == heads_divide(kv_heads@, heads),
{
    let mut i: usize = 0;
    while i < kv_heads.len()
        invariant
            i <= kv_heads@.len(),
            forall|k: int|
                0 <= k < i ==> (#[trigger] kv_heads@[k]) > 0 && heads as int % kv_heads@[k] as int
                    == 0,
        decreases kv_heads@.len() - i,
    {
        if kv_heads[i] == 0 || heads % kv_heads[i] != 0 {
            assert(kv_heads@[i as int] == 0 || heads as int % kv_heads@[i as int] as int != 0);
            return false;
        }
        i += 1;
    }
    true
}

} // verus!
