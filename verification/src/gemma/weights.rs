//! The tensors of a DiffusionGemma file: what is read of it, in which order and in which shape.
use crate::arith::wide;
use crate::formats::gguf::file::{find_tensor, show_type, storage_name, Gguf};
use crate::formats::gguf::format::{Catalog, Placed};
use crate::formats::gguf::reader::numbers;
use crate::formats::gguf::value::{GgufFault, TensorType};
use crate::gemma::config::Config;
use crate::gemma::error::{input, unsupported, ModelError, ModelFault, Result};
use crate::gemma::passes::MAX_CHUNK;
use crate::sequences::texts;
use crate::text::{decimal, digits};
use vstd::prelude::*;
use vstd::string::*;

verus! {

/// A tensor that loading reads, or several.
#[derive(Debug)]
pub enum Need {
    /// A quantized matrix of one or more row-concatenated tensors of one shape and one storage
    /// type.
    Matrix { names: Vec<String>, dims: Vec<u128> },
    /// Single-precision values.
    Values { name: String, len: u128 },
    /// One single-precision value.
    Scalar { name: String },
    /// The weights of a router.
    Router { name: String, len: u128 },
    /// A tensor stored as Q6_K.
    Table { name: String },
}

/// The mathematical model of a [`Need`].
#[verifier::ext_equal]
pub enum NeedModel {
    Matrix { names: Seq<Seq<char>>, dims: Seq<nat> },
    Values { name: Seq<char>, len: nat },
    Scalar { name: Seq<char> },
    Router { name: Seq<char>, len: nat },
    Table { name: Seq<char> },
}

impl View for Need {
    type V = NeedModel;

    open spec fn view(&self) -> NeedModel {
        match self {
            Need::Matrix { names, dims } => NeedModel::Matrix {
                names: texts(names@),
                dims: wide(dims@),
            },
            Need::Values { name, len } => NeedModel::Values { name: name@, len: *len as nat },
            Need::Scalar { name } => NeedModel::Scalar { name: name@ },
            Need::Router { name, len } => NeedModel::Router { name: name@, len: *len as nat },
            Need::Table { name } => NeedModel::Table { name: name@ },
        }
    }
}

/// The models of a list of needs.
pub open spec fn need_models(needs: Seq<Need>) -> Seq<NeedModel> {
    Seq::new(needs.len(), |i: int| needs[i]@)
}

// ---------------------------------------------------------------------------------------------
// Whether a file has what is needed
// ---------------------------------------------------------------------------------------------

/// A list of numbers in brackets, the first `n` of them.
pub open spec fn listed(dims: Seq<nat>, n: nat) -> Seq<char>
    decreases n,
{
    if n == 0 {
        Seq::empty()
    } else if n == 1 {
        digits(dims[0])
    } else {
        listed(dims, (n - 1) as nat) + ", "@ + digits(dims[n - 1])
    }
}

/// A tensor of another shape or storage type.
pub open spec fn shape_fault(name: Seq<char>, t: Placed) -> ModelFault {
    ModelFault::Unsupported(
        name + " has shape ["@ + listed(t.dims, t.dims.len()) + "] ("@ + storage_name(t.kind)
            + ")"@,
    )
}

/// The first of `names[i..]` that is missing or not of this shape and storage type.
pub open spec fn matrix_fault(
    c: Catalog,
    names: Seq<Seq<char>>,
    dims: Seq<nat>,
    kind: TensorType,
    i: nat,
) -> Option<ModelFault>
    decreases names.len() - i,
{
    if i >= names.len() {
        None
    } else {
        match find_tensor(c.tensors, names[i as int]) {
            None => Some(ModelFault::Gguf(GgufFault::MissingTensor(names[i as int]))),
            Some(t) => if t.dims != dims || t.kind != kind {
                Some(shape_fault(names[i as int], t))
            } else {
                matrix_fault(c, names, dims, kind, i + 1)
            },
        }
    }
}

/// The number of single-precision values of a tensor.
pub open spec fn value_count(c: Catalog, name: Seq<char>) -> core::result::Result<nat, ModelFault> {
    match find_tensor(c.tensors, name) {
        None => Err(ModelFault::Gguf(GgufFault::MissingTensor(name))),
        Some(t) => if t.kind == TensorType::F32 {
            Ok(t.bytes / 4)
        } else {
            Err(ModelFault::Gguf(GgufFault::Format("tensor "@ + name + " is not F32"@)))
        },
    }
}

/// Why a file does not have what is needed.
pub open spec fn need_fault(c: Catalog, need: NeedModel) -> Option<ModelFault> {
    match need {
        NeedModel::Matrix { names, dims } => match find_tensor(c.tensors, names[0]) {
            None => Some(ModelFault::Gguf(GgufFault::MissingTensor(names[0]))),
            Some(first) => matrix_fault(c, names, dims, first.kind, 0),
        },
        NeedModel::Values { name, len } => match value_count(c, name) {
            Err(e) => Some(e),
            Ok(n) => if n == len {
                None
            } else {
                Some(ModelFault::Unsupported(name + " has "@ + digits(n) + " values"@))
            },
        },
        NeedModel::Scalar { name } => match value_count(c, name) {
            Err(e) => Some(e),
            Ok(n) => if n == 1 {
                None
            } else {
                Some(ModelFault::Unsupported(name + " is not a scalar"@))
            },
        },
        NeedModel::Router { name, len } => match value_count(c, name) {
            Err(e) => Some(e),
            Ok(n) => if n == len {
                None
            } else {
                Some(ModelFault::Unsupported("router weight has an unexpected size"@))
            },
        },
        NeedModel::Table { name } => match find_tensor(c.tensors, name) {
            None => Some(ModelFault::Gguf(GgufFault::MissingTensor(name))),
            Some(t) => if t.kind == TensorType::Q6K {
                None
            } else {
                Some(ModelFault::Unsupported("token_embd must be Q6_K"@))
            },
        },
    }
}

/// The first fault among `needs[i..]`.
pub open spec fn needs_fault(c: Catalog, needs: Seq<NeedModel>, i: nat) -> Option<ModelFault>
    decreases needs.len() - i,
{
    if i >= needs.len() {
        None
    } else {
        match need_fault(c, needs[i as int]) {
            Some(e) => Some(e),
            None => needs_fault(c, needs, i + 1),
        }
    }
}

fn show_list(dims: &Vec<u64>) -> (r: String)
    ensures
        r@ == listed(numbers(dims@), dims@.len()),
{
    let ghost all = numbers(dims@);
    proof {
        reveal_strlit("");
        assert(""@ =~= Seq::<char>::empty());
    }
    let mut out: String = "".to_owned();
    let mut i: usize = 0;
    while i < dims.len()
        invariant
            i <= dims@.len(),
            all == numbers(dims@),
            out@ == listed(all, i as nat),
        decreases dims@.len() - i,
    {
        assert(all[i as int] == dims@[i as int] as nat);
        if i == 0 {
            out = decimal(dims[i]);
        } else {
            out = out.concat(", ").concat(decimal(dims[i]).as_str());
        }
        i += 1;
    }
    out
}

fn same_dims(dims: &Vec<u64>, want: &Vec<u128>) -> (r: bool)
    ensures
        r == (numbers(dims@) == wide(want@)),
{
    let ghost a = numbers(dims@);
    let ghost b = wide(want@);
    if dims.len() != want.len() {
        assert(a.len() != b.len());
        return false;
    }
    let mut i: usize = 0;
    while i < dims.len()
        invariant
            i <= dims@.len(),
            dims@.len() == want@.len(),
            a == numbers(dims@),
            b == wide(want@),
            forall|k: int| 0 <= k < i ==> #[trigger] a[k] == b[k],
        decreases dims@.len() - i,
    {
        if dims[i] as u128 != want[i] {
            assert(a[i as int] != b[i as int]);
            return false;
        }
        i += 1;
    }
    assert(a =~= b);
    true
}

fn check_matrix(g: &Gguf, names: &Vec<String>, dims: &Vec<u128>) -> (r: Result<()>)
    requires
        names@.len() > 0,
    ensures
        r is Ok <==> need_fault(
            g@,
            NeedModel::Matrix { names: texts(names@), dims: wide(dims@) },
        ) is None,
        r matches Err(e) ==> need_fault(
            g@,
            NeedModel::Matrix { names: texts(names@), dims: wide(dims@) },
        ) == Some(e@),
{
    let ghost all = texts(names@);
    assert(all[0] == names@[0]@);
    let kind: TensorType = match g.tensor(names[0].as_str()) {
        Ok(t) => t.kind,
        Err(e) => {
            return Err(ModelError::Gguf(e));
        },
    };
    let mut i: usize = 0;
    while i < names.len()
        invariant
            i <= names@.len(),
            all == texts(names@),
            matrix_fault(g@, all, wide(dims@), kind, 0) == matrix_fault(
                g@,
                all,
                wide(dims@),
                kind,
                i as nat,
            ),
            need_fault(g@, NeedModel::Matrix { names: all, dims: wide(dims@) }) == matrix_fault(
                g@,
                all,
                wide(dims@),
                kind,
                0,
            ),
        decreases names@.len() - i,
    {
        assert(all[i as int] == names@[i as int]@);
        let name: &str = names[i].as_str();
        match g.tensor(name) {
            Ok(t) => {
                let matched: bool = same_dims(&t.dims, dims);
                if !matched || t.kind != kind {
                    return Err(
                        ModelError::Unsupported(
                            name.to_owned().concat(" has shape [").concat(
                                show_list(&t.dims).as_str(),
                            ).concat("] (").concat(show_type(t.kind).as_str()).concat(")"),
                        ),
                    );
                }
            },
            Err(e) => {
                return Err(ModelError::Gguf(e));
            },
        }
        i += 1;
    }
    Ok(())
}

fn count_values(g: &Gguf, name: &str) -> (r: Result<u64>)
    ensures
        r matches Ok(n) ==> value_count(g@, name@) == Ok::<nat, ModelFault>(n as nat),
        r matches Err(e) ==> value_count(g@, name@) == Err::<nat, ModelFault>(e@),
{
    match g.read_f32(name) {
        Ok((_, bytes)) => Ok(bytes / 4),
        Err(e) => Err(ModelError::Gguf(e)),
    }
}

impl NeedModel {
    /// A matrix names at least one tensor.
    pub open spec fn named(self) -> bool {
        self matches NeedModel::Matrix { names, .. } ==> names.len() > 0
    }
}

/// Checks one need against a file.
pub fn check_need(g: &Gguf, need: &Need) -> (r: Result<()>)
    requires
        need@.named(),
    ensures
        r is Ok <==> need_fault(g@, need@) is None,
        r matches Err(e) ==> need_fault(g@, need@) == Some(e@),
{
    match need {
        Need::Matrix { names, dims } => check_matrix(g, names, dims),
        Need::Values { name, len } => {
            let n: u64 = count_values(g, name.as_str())?;
            if n as u128 != *len {
                return Err(
                    ModelError::Unsupported(
                        name.as_str().to_owned().concat(" has ").concat(decimal(n).as_str()).concat(
                            " values",
                        ),
                    ),
                );
            }
            Ok(())
        },
        Need::Scalar { name } => {
            let n: u64 = count_values(g, name.as_str())?;
            if n != 1 {
                return Err(
                    ModelError::Unsupported(
                        name.as_str().to_owned().concat(" is not a scalar"),
                    ),
                );
            }
            Ok(())
        },
        Need::Router { name, len } => {
            let n: u64 = count_values(g, name.as_str())?;
            if n as u128 != *len {
                return unsupported("router weight has an unexpected size");
            }
            Ok(())
        },
        Need::Table { name } => match g.tensor(name.as_str()) {
            Ok(t) => {
                if t.kind != TensorType::Q6K {
                    return unsupported("token_embd must be Q6_K");
                }
                Ok(())
            },
            Err(e) => Err(ModelError::Gguf(e)),
        },
    }
}

/// Checks all needs against a file; the first fault is the error.
pub fn check_needs(g: &Gguf, needs: &Vec<Need>) -> (r: Result<()>)
    requires
        forall|i: int| 0 <= i < needs@.len() ==> (#[trigger] needs@[i])@.named(),
    ensures
        r is Ok <==> needs_fault(g@, need_models(needs@), 0) is None,
        r matches Err(e) ==> needs_fault(g@, need_models(needs@), 0) == Some(e@),
{
    let ghost all = need_models(needs@);
    let mut i: usize = 0;
    while i < needs.len()
        invariant
            i <= needs@.len(),
            all == need_models(needs@),
            forall|k: int| 0 <= k < needs@.len() ==> (#[trigger] needs@[k])@.named(),
            needs_fault(g@, all, 0) == needs_fault(g@, all, i as nat),
        decreases needs@.len() - i,
    {
        assert(all[i as int] == needs@[i as int]@);
        check_need(g, &needs[i])?;
        i += 1;
    }
    Ok(())
}

// ---------------------------------------------------------------------------------------------
// What is needed
// ---------------------------------------------------------------------------------------------

/// The name of a tensor of layer `l`.
pub open spec fn block_name(l: nat, name: Seq<char>) -> Seq<char> {
    "blk."@ + digits(l) + "."@ + name
}

fn block(l: usize, name: &str) -> (r: String)
    ensures
        r@ == block_name(l as nat, name@),
{
    "blk.".to_owned().concat(decimal(l as u64).as_str()).concat(".").concat(name)
}

/// A matrix of `n` rows of `k` values.
pub open spec fn dense_need(name: Seq<char>, n: nat, k: nat) -> NeedModel {
    NeedModel::Matrix { names: seq![name], dims: seq![k, n] }
}

/// Values of layer `l`.
pub open spec fn values_need(l: nat, name: Seq<char>, len: nat) -> NeedModel {
    NeedModel::Values { name: block_name(l, name), len }
}

/// The tensors of layer `l`, in the order they are read.
pub open spec fn layer_needs(cfg: Config, l: nat, has_values: bool) -> Seq<NeedModel> {
    let d = cfg.d as nat;
    let hd = cfg.head_dim(l as int) as nat;
    let kv = (cfg.kv_heads@[l as int] * hd) as nat;
    let q = (cfg.heads * hd) as nat;
    let (ff, ff_exp, experts) = (cfg.ff as nat, cfg.ff_exp as nat, cfg.experts as nat);
    (if has_values {
        seq![dense_need(block_name(l, "attn_v.weight"@), kv, d)]
    } else {
        Seq::empty()
    }) + seq![
        NeedModel::Matrix {
            names: seq![block_name(l, "ffn_gate.weight"@), block_name(l, "ffn_up.weight"@)],
            dims: seq![d, ff],
        },
        NeedModel::Matrix {
            names: seq![block_name(l, "ffn_gate_up_exps.weight"@)],
            dims: seq![d, (2 * ff_exp) as nat, experts],
        },
        NeedModel::Matrix {
            names: seq![block_name(l, "ffn_down_exps.weight"@)],
            dims: seq![ff_exp, d, experts],
        },
        values_need(l, "attn_norm.weight"@, d),
        dense_need(block_name(l, "attn_q.weight"@), q, d),
        dense_need(block_name(l, "attn_k.weight"@), kv, d),
        dense_need(block_name(l, "attn_output.weight"@), d, q),
        values_need(l, "attn_q_norm.weight"@, hd),
        values_need(l, "attn_k_norm.weight"@, hd),
        values_need(l, "post_attention_norm.weight"@, d),
        values_need(l, "ffn_norm.weight"@, d),
        dense_need(block_name(l, "ffn_down.weight"@), d, ff),
        NeedModel::Router {
            name: block_name(l, "ffn_gate_inp.weight"@),
            len: (d * experts) as nat,
        },
        values_need(l, "ffn_gate_inp.scale"@, d),
        values_need(l, "pre_ffw_norm_2.weight"@, d),
        values_need(l, "post_ffw_norm_1.weight"@, d),
        values_need(l, "post_ffw_norm_2.weight"@, d),
        values_need(l, "post_ffw_norm.weight"@, d),
        values_need(l, "ffn_down_exps.scale"@, experts),
        NeedModel::Scalar { name: block_name(l, "layer_output_scale.weight"@) },
        NeedModel::Scalar { name: block_name(l, "enc_layer_output_scale.weight"@) },
    ]
}

/// The tensors outside the layers.
pub open spec fn shared_needs(cfg: Config) -> Seq<NeedModel> {
    let d = cfg.d as nat;
    let ff = cfg.ff as nat;
    seq![
        NeedModel::Table { name: "token_embd.weight"@ },
        dense_need("token_embd.weight"@, cfg.vocab as nat, d),
        NeedModel::Values { name: "output_norm.weight"@, len: d },
        NeedModel::Values { name: "self_cond_pre_norm.weight"@, len: d },
        NeedModel::Matrix {
            names: seq!["self_cond_gate.weight"@, "self_cond_up.weight"@],
            dims: seq![d, ff],
        },
        dense_need("self_cond_down.weight"@, d, ff),
    ]
}

/// Whether a layer has values of its own.
pub open spec fn has_values(c: Catalog, l: nat) -> bool {
    find_tensor(c.tensors, block_name(l, "attn_v.weight"@)) is Some
}

/// The tensors of the first `n` layers.
pub open spec fn tower_needs(c: Catalog, cfg: Config, n: nat) -> Seq<NeedModel>
    decreases n,
{
    if n == 0 {
        Seq::empty()
    } else {
        tower_needs(c, cfg, (n - 1) as nat) + layer_needs(
            cfg,
            (n - 1) as nat,
            has_values(c, (n - 1) as nat),
        )
    }
}

/// All tensors that loading reads, in order.
pub open spec fn model_needs(c: Catalog, cfg: Config) -> Seq<NeedModel> {
    tower_needs(c, cfg, cfg.layers as nat) + shared_needs(cfg)
}

fn one(name: String) -> (r: Vec<String>)
    ensures
        texts(r@) == seq![name@],
{
    let ghost text = name@;
    let mut names: Vec<String> = Vec::new();
    names.push(name);
    assert(texts(names@) =~= seq![text]);
    names
}

fn two(a: String, b: String) -> (r: Vec<String>)
    ensures
        texts(r@) == seq![a@, b@],
{
    let ghost (x, y) = (a@, b@);
    let mut names: Vec<String> = Vec::new();
    names.push(a);
    names.push(b);
    assert(texts(names@) =~= seq![x, y]);
    names
}

fn pair(a: u128, b: u128) -> (r: Vec<u128>)
    ensures
        wide(r@) == seq![a as nat, b as nat],
{
    let mut dims: Vec<u128> = Vec::new();
    dims.push(a);
    dims.push(b);
    assert(wide(dims@) =~= seq![a as nat, b as nat]);
    dims
}

fn triple(a: u128, b: u128, c: u128) -> (r: Vec<u128>)
    ensures
        wide(r@) == seq![a as nat, b as nat, c as nat],
{
    let mut dims: Vec<u128> = Vec::new();
    dims.push(a);
    dims.push(b);
    dims.push(c);
    assert(wide(dims@) =~= seq![a as nat, b as nat, c as nat]);
    dims
}

fn dense(name: String, n: u128, k: u128) -> (r: Need)
    ensures
        r@ == dense_need(name@, n as nat, k as nat),
{
    Need::Matrix { names: one(name), dims: pair(k, n) }
}

fn values(l: usize, name: &str, len: usize) -> (r: Need)
    ensures
        r@ == values_need(l as nat, name@, len as nat),
{
    Need::Values { name: block(l, name), len: len as u128 }
}

fn push_need(needs: &mut Vec<Need>, need: Need)
    ensures
        need_models(final(needs)@) == need_models(old(needs)@).push(need@),
{
    let ghost before = needs@;
    let ghost model = need@;
    needs.push(need);
    assert(need_models(needs@) =~= need_models(before).push(model));
}

fn push_layer(cfg: &Config, l: usize, has_v: bool, needs: &mut Vec<Need>)
    requires
        cfg.supported(),
        l < cfg.layers,
    ensures
        need_models(final(needs)@) == need_models(old(needs)@) + layer_needs(
            *cfg,
            l as nat,
            has_v,
        ),
{
    let ghost before = need_models(needs@);
    let (d, ff, ff_exp, experts): (u128, u128, u128, u128) = (
        cfg.d as u128,
        cfg.ff as u128,
        cfg.ff_exp as u128,
        cfg.experts as u128,
    );
    let hd: usize = cfg.hd(l);
    let kv_heads: usize = cfg.kv_heads[l];
    proof {
        let (a, b, h) = (kv_heads as int, cfg.heads as int, hd as int);
        assert(0 <= a * h <= 512 * 0xffff_ffff_ffff_ffff && 0 <= b * h <= 512
            * 0xffff_ffff_ffff_ffff) by (nonlinear_arith)
            requires
                0 <= a <= 0xffff_ffff_ffff_ffff,
                0 <= b <= 0xffff_ffff_ffff_ffff,
                0 <= h <= 512,
        ;
        let (x, y) = (d as int, experts as int);
        assert(0 <= x * y <= 128 * 0xffff_ffff_ffff_ffff) by (nonlinear_arith)
            requires
                0 <= x <= 0xffff_ffff_ffff_ffff,
                0 <= y <= 128,
        ;
    }
    let kv: u128 = kv_heads as u128 * hd as u128;
    let q: u128 = cfg.heads as u128 * hd as u128;
    if has_v {
        push_need(needs, dense(block(l, "attn_v.weight"), kv, d));
    }
    push_need(
        needs,
        Need::Matrix {
            names: two(block(l, "ffn_gate.weight"), block(l, "ffn_up.weight")),
            dims: pair(d, ff),
        },
    );
    push_need(
        needs,
        Need::Matrix {
            names: one(block(l, "ffn_gate_up_exps.weight")),
            dims: triple(d, 2 * ff_exp, experts),
        },
    );
    push_need(
        needs,
        Need::Matrix {
            names: one(block(l, "ffn_down_exps.weight")),
            dims: triple(ff_exp, d, experts),
        },
    );
    push_need(needs, values(l, "attn_norm.weight", cfg.d));
    push_need(needs, dense(block(l, "attn_q.weight"), q, d));
    push_need(needs, dense(block(l, "attn_k.weight"), kv, d));
    push_need(needs, dense(block(l, "attn_output.weight"), d, q));
    push_need(needs, values(l, "attn_q_norm.weight", hd));
    push_need(needs, values(l, "attn_k_norm.weight", hd));
    push_need(needs, values(l, "post_attention_norm.weight", cfg.d));
    push_need(needs, values(l, "ffn_norm.weight", cfg.d));
    push_need(needs, dense(block(l, "ffn_down.weight"), d, ff));
    push_need(
        needs,
        Need::Router { name: block(l, "ffn_gate_inp.weight"), len: d * experts },
    );
    push_need(needs, values(l, "ffn_gate_inp.scale", cfg.d));
    push_need(needs, values(l, "pre_ffw_norm_2.weight", cfg.d));
    push_need(needs, values(l, "post_ffw_norm_1.weight", cfg.d));
    push_need(needs, values(l, "post_ffw_norm_2.weight", cfg.d));
    push_need(needs, values(l, "post_ffw_norm.weight", cfg.d));
    push_need(needs, values(l, "ffn_down_exps.scale", cfg.experts));
    push_need(needs, Need::Scalar { name: block(l, "layer_output_scale.weight") });
    push_need(needs, Need::Scalar { name: block(l, "enc_layer_output_scale.weight") });
    assert(need_models(needs@) =~= before + layer_needs(*cfg, l as nat, has_v));
}

/// All tensors that loading reads, in order.
pub fn list_needs(g: &Gguf, cfg: &Config) -> (r: Vec<Need>)
    requires
        cfg.supported(),
    ensures
        need_models(r@) == model_needs(g@, *cfg),
{
    let mut needs: Vec<Need> = Vec::new();
    let mut l: usize = 0;
    assert(need_models(needs@) =~= tower_needs(g@, *cfg, 0));
    while l < cfg.layers
        invariant
            l <= cfg.layers,
            cfg.supported(),
            need_models(needs@) == tower_needs(g@, *cfg, l as nat),
        decreases cfg.layers - l,
    {
        let has_v: bool = g.tensor(block(l, "attn_v.weight").as_str()).is_ok();
        push_layer(cfg, l, has_v, &mut needs);
        l += 1;
    }
    let ghost before = need_models(needs@);
    let (d, ff): (u128, u128) = (cfg.d as u128, cfg.ff as u128);
    push_need(&mut needs, Need::Table { name: "token_embd.weight".to_owned() });
    push_need(&mut needs, dense("token_embd.weight".to_owned(), cfg.vocab as u128, d));
    push_need(&mut needs, Need::Values { name: "output_norm.weight".to_owned(), len: d });
    push_need(&mut needs, Need::Values { name: "self_cond_pre_norm.weight".to_owned(), len: d });
    push_need(
        &mut needs,
        Need::Matrix {
            names: two("self_cond_gate.weight".to_owned(), "self_cond_up.weight".to_owned()),
            dims: pair(d, ff),
        },
    );
    push_need(&mut needs, dense("self_cond_down.weight".to_owned(), d, ff));
    assert(need_models(needs@) =~= before + shared_needs(*cfg));
    needs
}

// ---------------------------------------------------------------------------------------------
// Loading
// ---------------------------------------------------------------------------------------------

/// Every matrix of the list names a tensor.
proof fn lemma_named(c: Catalog, cfg: Config, n: nat)
    ensures
        forall|i: int|
            0 <= i < tower_needs(c, cfg, n).len() ==> (#[trigger] tower_needs(
                c,
                cfg,
                n,
            )[i]).named(),
    decreases n,
{
    if n > 0 {
        lemma_named(c, cfg, (n - 1) as nat);
        let a = tower_needs(c, cfg, (n - 1) as nat);
        let b = layer_needs(cfg, (n - 1) as nat, has_values(c, (n - 1) as nat));
        let all = tower_needs(c, cfg, n);
        assert forall|i: int| 0 <= i < all.len() implies (#[trigger] all[i]).named() by {
            if i < a.len() {
                assert(all[i] == a[i]);
            } else {
                assert(all[i] == b[i - a.len()]);
            }
        }
    }
}

/// Positions for `n` tokens: whole runs of 64.
pub open spec fn positions(n: nat) -> nat {
    ((n + 63) / 64 * 64) as nat
}

/// Why a file with this configuration cannot be loaded for `context` positions and `chunk` rows.
pub open spec fn load_fault(c: Catalog, cfg: Config, context: usize, chunk: usize) -> Option<
    ModelFault,
> {
    if chunk == 0 || chunk > positions(context as nat) || chunk > MAX_CHUNK {
        Some(
            ModelFault::Input(
                "batch size must be in 1..=min(context, 1024) for the CubeCL backend"@,
            ),
        )
    } else {
        needs_fault(c, model_needs(c, cfg), 0)
    }
}

/// Checks a file and the limits before anything is sent to the device. Gives the positions to
/// provide, and the tensors to read in order.
pub fn check_load(g: &Gguf, cfg: &Config, context: usize, chunk: usize) -> (r: Result<
    (usize, Vec<Need>),
>)
    requires
        cfg.supported(),
        context <= usize::MAX - 63,
    ensures
        r matches Ok((cap, needs)) ==> load_fault(g@, *cfg, context, chunk) is None && cap
            == positions(context as nat) && need_models(needs@) == model_needs(g@, *cfg),
        r matches Err(e) ==> load_fault(g@, *cfg, context, chunk) == Some(e@),
{
    let cap: usize = (context + 63) / 64 * 64;
    if chunk == 0 || chunk > cap || chunk > MAX_CHUNK {
        return input("batch size must be in 1..=min(context, 1024) for the CubeCL backend");
    }
    let needs: Vec<Need> = list_needs(g, cfg);
    proof {
        lemma_named(g@, *cfg, cfg.layers as nat);
        let all = need_models(needs@);
        let a = tower_needs(g@, *cfg, cfg.layers as nat);
        assert forall|i: int| 0 <= i < needs@.len() implies (#[trigger] needs@[i])@.named() by {
            assert(all[i] == needs@[i]@);
            if i < a.len() {
                assert(all[i] == a[i]);
            } else {
                assert(all[i] == shared_needs(*cfg)[i - a.len()]);
            }
        }
    }
    check_needs(g, &needs)?;
    Ok((cap, needs))
}

/// The quantized tensors of a need: those of matrices.
pub open spec fn quantized(need: NeedModel) -> Seq<Seq<char>> {
    match need {
        NeedModel::Matrix { names, .. } => names,
        _ => Seq::empty(),
    }
}

/// The quantized tensors of the first `n` needs.
pub open spec fn quantized_names(needs: Seq<NeedModel>, n: nat) -> Seq<Seq<char>>
    decreases n,
{
    if n == 0 {
        Seq::empty()
    } else {
        quantized_names(needs, (n - 1) as nat) + quantized(needs[n - 1])
    }
}

/// The quantized tensors of layer `l` in the order they are read ahead.
pub open spec fn layer_order(l: nat, has_values: bool) -> Seq<Seq<char>> {
    (if has_values {
        seq![block_name(l, "attn_v.weight"@)]
    } else {
        Seq::empty()
    }) + seq![
        block_name(l, "ffn_gate.weight"@),
        block_name(l, "ffn_up.weight"@),
        block_name(l, "ffn_gate_up_exps.weight"@),
        block_name(l, "ffn_down_exps.weight"@),
        block_name(l, "attn_q.weight"@),
        block_name(l, "attn_k.weight"@),
        block_name(l, "attn_output.weight"@),
        block_name(l, "ffn_down.weight"@),
    ]
}

/// The quantized tensors of the first `n` layers.
pub open spec fn tower_order(c: Catalog, n: nat) -> Seq<Seq<char>>
    decreases n,
{
    if n == 0 {
        Seq::empty()
    } else {
        tower_order(c, (n - 1) as nat) + layer_order((n - 1) as nat, has_values(c, (n - 1) as nat))
    }
}

/// Quantized tensors in the order they are read ahead.
pub open spec fn order_of(c: Catalog, layers: nat) -> Seq<Seq<char>> {
    tower_order(c, layers) + seq![
        "token_embd.weight"@,
        "self_cond_gate.weight"@,
        "self_cond_up.weight"@,
        "self_cond_down.weight"@,
    ]
}

fn push_name(names: &mut Vec<String>, name: String)
    ensures
        texts(final(names)@) == texts(old(names)@).push(name@),
{
    let ghost before = names@;
    let ghost text = name@;
    names.push(name);
    assert(texts(names@) =~= texts(before).push(text));
}

/// Quantized tensors in the order that loading consumes them.
pub fn load_order(g: &Gguf, layers: usize) -> (r: Vec<String>)
    ensures
        texts(r@) == order_of(g@, layers as nat),
{
    let mut names: Vec<String> = Vec::new();
    let mut l: usize = 0;
    assert(texts(names@) =~= tower_order(g@, 0));
    while l < layers
        invariant
            l <= layers,
            texts(names@) == tower_order(g@, l as nat),
        decreases layers - l,
    {
        let ghost before = texts(names@);
        let has_v: bool = g.tensor(block(l, "attn_v.weight").as_str()).is_ok();
        if has_v {
            push_name(&mut names, block(l, "attn_v.weight"));
        }
        push_name(&mut names, block(l, "ffn_gate.weight"));
        push_name(&mut names, block(l, "ffn_up.weight"));
        push_name(&mut names, block(l, "ffn_gate_up_exps.weight"));
        push_name(&mut names, block(l, "ffn_down_exps.weight"));
        push_name(&mut names, block(l, "attn_q.weight"));
        push_name(&mut names, block(l, "attn_k.weight"));
        push_name(&mut names, block(l, "attn_output.weight"));
        push_name(&mut names, block(l, "ffn_down.weight"));
        assert(texts(names@) =~= before + layer_order(l as nat, has_v));
        l += 1;
    }
    let ghost before = texts(names@);
    push_name(&mut names, "token_embd.weight".to_owned());
    push_name(&mut names, "self_cond_gate.weight".to_owned());
    push_name(&mut names, "self_cond_up.weight".to_owned());
    push_name(&mut names, "self_cond_down.weight".to_owned());
    assert(texts(names@) =~= order_of(g@, layers as nat));
    names
}

proof fn lemma_quantized_append(a: Seq<NeedModel>, b: Seq<NeedModel>, n: nat)
    requires
        n <= b.len(),
    ensures
        quantized_names(a + b, a.len() + n) == quantized_names(a, a.len()) + quantized_names(b, n),
    decreases n,
{
    if n == 0 {
        lemma_quantized_prefix(a, b, a.len());
        assert(quantized_names(a, a.len()) + quantized_names(b, 0) =~= quantized_names(
            a,
            a.len(),
        ));
    } else {
        lemma_quantized_append(a, b, (n - 1) as nat);
        assert((a + b)[a.len() + n - 1] == b[n - 1]);
        assert(quantized_names(a, a.len()) + (quantized_names(b, (n - 1) as nat) + quantized(
            b[n - 1],
        )) =~= quantized_names(a, a.len()) + quantized_names(b, (n - 1) as nat) + quantized(
            b[n - 1],
        ));
    }
}

proof fn lemma_quantized_prefix(a: Seq<NeedModel>, b: Seq<NeedModel>, n: nat)
    requires
        n <= a.len(),
    ensures
        quantized_names(a + b, n) == quantized_names(a, n),
    decreases n,
{
    if n > 0 {
        lemma_quantized_prefix(a, b, (n - 1) as nat);
        assert((a + b)[n - 1] == a[n - 1]);
    }
}

proof fn lemma_layer_order(cfg: Config, l: nat, has_values: bool)
    ensures
        quantized_names(
            layer_needs(cfg, l, has_values),
            layer_needs(cfg, l, has_values).len(),
        ) == layer_order(l, has_values),
{
    let needs = layer_needs(cfg, l, has_values);
    reveal_with_fuel(quantized_names, 24);
    assert(quantized_names(needs, needs.len()) =~= layer_order(l, has_values));
}

proof fn lemma_tower_order(c: Catalog, cfg: Config, n: nat)
    ensures
        quantized_names(tower_needs(c, cfg, n), tower_needs(c, cfg, n).len()) == tower_order(c, n),
    decreases n,
{
    if n > 0 {
        let l = (n - 1) as nat;
        lemma_tower_order(c, cfg, l);
        let b = layer_needs(cfg, l, has_values(c, l));
        lemma_layer_order(cfg, l, has_values(c, l));
        lemma_quantized_append(tower_needs(c, cfg, l), b, b.len());
    }
}

/// The tensors read ahead are exactly the quantized tensors that loading takes, in the order it
/// takes them: reading ahead never waits for a tensor that comes later.
pub proof fn law_tensors_are_read_ahead_in_the_order_of_use(c: Catalog, cfg: Config)
    ensures
        quantized_names(model_needs(c, cfg), model_needs(c, cfg).len()) == order_of(
            c,
            cfg.layers as nat,
        ),
{
    let a = tower_needs(c, cfg, cfg.layers as nat);
    let b = shared_needs(cfg);
    lemma_tower_order(c, cfg, cfg.layers as nat);
    lemma_quantized_append(a, b, b.len());
    reveal_with_fuel(quantized_names, 8);
    assert(quantized_names(b, b.len()) =~= seq![
        "token_embd.weight"@,
        "self_cond_gate.weight"@,
        "self_cond_up.weight"@,
        "self_cond_down.weight"@,
    ]);
}

} // verus!
