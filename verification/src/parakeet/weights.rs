//! The tensors of a Parakeet TDT checkpoint: names and shapes, in the order they are loaded.
use crate::arith::power_of_two;
use crate::parakeet::config::{Config, EncoderConfig};
use crate::parakeet::encoder::{convolutions, list_convolutions, Conv};
use crate::text::{decimal, digits};
use vstd::prelude::*;
use vstd::string::*;

verus! {

/// A tensor to load.
#[derive(Debug)]
pub struct Tensor {
    pub name: String,
    pub shape: Vec<u128>,
}

/// The shape as numbers.
pub open spec fn sizes(shape: Seq<u128>) -> Seq<nat> {
    Seq::new(shape.len(), |i: int| shape[i] as nat)
}

impl View for Tensor {
    type V = (Seq<char>, Seq<nat>);

    open spec fn view(&self) -> (Seq<char>, Seq<nat>) {
        (self.name@, sizes(self.shape@))
    }
}

/// The names and shapes of a list of tensors.
pub open spec fn tensor_models(list: Seq<Tensor>) -> Seq<(Seq<char>, Seq<nat>)> {
    Seq::new(list.len(), |i: int| list[i]@)
}

// ---------------------------------------------------------------------------------------------
// Encoder
// ---------------------------------------------------------------------------------------------

/// The name of a subsampling tensor.
pub open spec fn sub_name(index: nat, kind: Seq<char>) -> Seq<char> {
    "encoder.subsampling.layers."@ + digits(index) + kind
}

/// The tensors of the first `n` convolutions.
pub open spec fn conv_tensors(convs: Seq<Conv>, channels: nat, n: nat) -> Seq<
    (Seq<char>, Seq<nat>),
>
    decreases n,
{
    if n == 0 {
        Seq::empty()
    } else {
        let c = convs[n - 1];
        conv_tensors(convs, channels, (n - 1) as nat) + seq![
            (
                sub_name(c.index as nat, ".weight"@),
                seq![channels, c.inputs as nat, c.kernel as nat, c.kernel as nat],
            ),
            (sub_name(c.index as nat, ".bias"@), seq![channels]),
        ]
    }
}

/// The name of a tensor of layer `l`.
pub open spec fn layer_name(l: nat, suffix: Seq<char>) -> Seq<char> {
    "encoder.layers."@ + digits(l) + "."@ + suffix
}

/// The tensors of conformer block `l`.
pub open spec fn block_tensors(e: EncoderConfig, l: nat) -> Seq<(Seq<char>, Seq<nat>)> {
    let d = e.hidden_size as nat;
    let ff = e.intermediate_size as nat;
    let heads = e.num_attention_heads as nat;
    let hd = d / heads;
    let kernel = e.conv_kernel_size as nat;
    seq![
        (layer_name(l, "conv.pointwise_conv1.weight"@), seq![(2 * d) as nat, (d) as nat, 1nat]),
        (layer_name(l, "conv.pointwise_conv2.weight"@), seq![(d) as nat, (d) as nat, 1nat]),
        (layer_name(l, "conv.depthwise_conv.weight"@), seq![(d) as nat, 1nat, (kernel) as nat]),
        (layer_name(l, "conv.norm.weight"@), seq![(d) as nat]),
        (layer_name(l, "conv.norm.bias"@), seq![(d) as nat]),
        (layer_name(l, "conv.norm.running_mean"@), seq![(d) as nat]),
        (layer_name(l, "conv.norm.running_var"@), seq![(d) as nat]),
        (layer_name(l, "norm_feed_forward1.weight"@), seq![(d) as nat]),
        (layer_name(l, "norm_feed_forward1.bias"@), seq![(d) as nat]),
        (layer_name(l, "feed_forward1.linear1.weight"@), seq![(ff) as nat, (d) as nat]),
        (layer_name(l, "feed_forward1.linear2.weight"@), seq![(d) as nat, (ff) as nat]),
        (layer_name(l, "norm_self_att.weight"@), seq![(d) as nat]),
        (layer_name(l, "norm_self_att.bias"@), seq![(d) as nat]),
        (layer_name(l, "self_attn.q_proj.weight"@), seq![(d) as nat, (d) as nat]),
        (layer_name(l, "self_attn.k_proj.weight"@), seq![(d) as nat, (d) as nat]),
        (layer_name(l, "self_attn.v_proj.weight"@), seq![(d) as nat, (d) as nat]),
        (layer_name(l, "self_attn.o_proj.weight"@), seq![(d) as nat, (d) as nat]),
        (layer_name(l, "self_attn.relative_k_proj.weight"@), seq![(d) as nat, (d) as nat]),
        (layer_name(l, "self_attn.bias_u"@), seq![(heads) as nat, (hd) as nat]),
        (layer_name(l, "self_attn.bias_v"@), seq![(heads) as nat, (hd) as nat]),
        (layer_name(l, "norm_conv.weight"@), seq![(d) as nat]),
        (layer_name(l, "norm_conv.bias"@), seq![(d) as nat]),
        (layer_name(l, "norm_feed_forward2.weight"@), seq![(d) as nat]),
        (layer_name(l, "norm_feed_forward2.bias"@), seq![(d) as nat]),
        (layer_name(l, "feed_forward2.linear1.weight"@), seq![(ff) as nat, (d) as nat]),
        (layer_name(l, "feed_forward2.linear2.weight"@), seq![(d) as nat, (ff) as nat]),
        (layer_name(l, "norm_out.weight"@), seq![(d) as nat]),
        (layer_name(l, "norm_out.bias"@), seq![(d) as nat]),
    ]
}

/// The tensors of the first `n` blocks.
pub open spec fn blocks_tensors(e: EncoderConfig, n: nat) -> Seq<(Seq<char>, Seq<nat>)>
    decreases n,
{
    if n == 0 {
        Seq::empty()
    } else {
        blocks_tensors(e, (n - 1) as nat) + block_tensors(e, (n - 1) as nat)
    }
}

/// The values of a row after subsampling.
pub open spec fn flat_size(e: EncoderConfig) -> nat {
    (e.subsampling_conv_channels * e.num_mel_bins / e.subsampling_factor as int) as nat
}

/// All tensors of the encoder.
pub open spec fn encoder_tensors(e: EncoderConfig) -> Seq<(Seq<char>, Seq<nat>)> {
    let d = e.hidden_size as nat;
    conv_tensors(
        convolutions(e),
        e.subsampling_conv_channels as nat,
        convolutions(e).len(),
    ) + blocks_tensors(e, e.num_hidden_layers as nat) + seq![
        ("encoder.subsampling.linear.weight"@, seq![d, flat_size(e)]),
        ("encoder.subsampling.linear.bias"@, seq![d]),
    ]
}

fn push_tensor(list: &mut Vec<Tensor>, name: String, shape: Vec<u128>)
    ensures
        tensor_models(final(list)@) == tensor_models(old(list)@).push((name@, sizes(shape@))),
{
    let ghost before = list@;
    let ghost model = (name@, sizes(shape@));
    list.push(Tensor { name, shape });
    assert(tensor_models(list@) =~= tensor_models(before).push(model));
}

fn dims1(a: u128) -> (r: Vec<u128>)
    ensures
        sizes(r@) == seq![a as nat],
{
    let mut shape: Vec<u128> = Vec::new();
    shape.push(a);
    assert(sizes(shape@) =~= seq![a as nat]);
    shape
}

fn dims2(a: u128, b: u128) -> (r: Vec<u128>)
    ensures
        sizes(r@) == seq![a as nat, b as nat],
{
    let mut shape: Vec<u128> = Vec::new();
    shape.push(a);
    shape.push(b);
    assert(sizes(shape@) =~= seq![a as nat, b as nat]);
    shape
}

fn dims3(a: u128, b: u128, c: u128) -> (r: Vec<u128>)
    ensures
        sizes(r@) == seq![a as nat, b as nat, c as nat],
{
    let mut shape: Vec<u128> = Vec::new();
    shape.push(a);
    shape.push(b);
    shape.push(c);
    assert(sizes(shape@) =~= seq![a as nat, b as nat, c as nat]);
    shape
}

fn dims4(a: u128, b: u128, c: u128, d: u128) -> (r: Vec<u128>)
    ensures
        sizes(r@) == seq![a as nat, b as nat, c as nat, d as nat],
{
    let mut shape: Vec<u128> = Vec::new();
    shape.push(a);
    shape.push(b);
    shape.push(c);
    shape.push(d);
    assert(sizes(shape@) =~= seq![a as nat, b as nat, c as nat, d as nat]);
    shape
}

fn subsampling(index: usize, kind: &str) -> (r: String)
    ensures
        r@ == sub_name(index as nat, kind@),
{
    "encoder.subsampling.layers.".to_owned().concat(decimal(index as u64).as_str()).concat(kind)
}

fn block(l: usize, suffix: &str) -> (r: String)
    ensures
        r@ == layer_name(l as nat, suffix@),
{
    "encoder.layers.".to_owned().concat(decimal(l as u64).as_str()).concat(".").concat(suffix)
}

fn push_block(e: &EncoderConfig, l: usize, list: &mut Vec<Tensor>)
    requires
        e.num_attention_heads > 0,
    ensures
        tensor_models(final(list)@) == tensor_models(old(list)@) + block_tensors(*e, l as nat),
{
    let ghost before = tensor_models(list@);
    let d: u128 = e.hidden_size as u128;
    let ff: u128 = e.intermediate_size as u128;
    let heads: u128 = e.num_attention_heads as u128;
    let hd: u128 = (e.hidden_size / e.num_attention_heads) as u128;
    let kernel: u128 = e.conv_kernel_size as u128;
    push_tensor(list, block(l, "conv.pointwise_conv1.weight"), dims3(2 * d, d, 1));
    push_tensor(list, block(l, "conv.pointwise_conv2.weight"), dims3(d, d, 1));
    push_tensor(list, block(l, "conv.depthwise_conv.weight"), dims3(d, 1, kernel));
    push_tensor(list, block(l, "conv.norm.weight"), dims1(d));
    push_tensor(list, block(l, "conv.norm.bias"), dims1(d));
    push_tensor(list, block(l, "conv.norm.running_mean"), dims1(d));
    push_tensor(list, block(l, "conv.norm.running_var"), dims1(d));
    push_tensor(list, block(l, "norm_feed_forward1.weight"), dims1(d));
    push_tensor(list, block(l, "norm_feed_forward1.bias"), dims1(d));
    push_tensor(list, block(l, "feed_forward1.linear1.weight"), dims2(ff, d));
    push_tensor(list, block(l, "feed_forward1.linear2.weight"), dims2(d, ff));
    push_tensor(list, block(l, "norm_self_att.weight"), dims1(d));
    push_tensor(list, block(l, "norm_self_att.bias"), dims1(d));
    push_tensor(list, block(l, "self_attn.q_proj.weight"), dims2(d, d));
    push_tensor(list, block(l, "self_attn.k_proj.weight"), dims2(d, d));
    push_tensor(list, block(l, "self_attn.v_proj.weight"), dims2(d, d));
    push_tensor(list, block(l, "self_attn.o_proj.weight"), dims2(d, d));
    push_tensor(list, block(l, "self_attn.relative_k_proj.weight"), dims2(d, d));
    push_tensor(list, block(l, "self_attn.bias_u"), dims2(heads, hd));
    push_tensor(list, block(l, "self_attn.bias_v"), dims2(heads, hd));
    push_tensor(list, block(l, "norm_conv.weight"), dims1(d));
    push_tensor(list, block(l, "norm_conv.bias"), dims1(d));
    push_tensor(list, block(l, "norm_feed_forward2.weight"), dims1(d));
    push_tensor(list, block(l, "norm_feed_forward2.bias"), dims1(d));
    push_tensor(list, block(l, "feed_forward2.linear1.weight"), dims2(ff, d));
    push_tensor(list, block(l, "feed_forward2.linear2.weight"), dims2(d, ff));
    push_tensor(list, block(l, "norm_out.weight"), dims1(d));
    push_tensor(list, block(l, "norm_out.bias"), dims1(d));
    assert(tensor_models(list@) =~= before + block_tensors(*e, l as nat));
}

/// Lists all tensors of the encoder in order.
pub fn list_encoder_tensors(e: &EncoderConfig) -> (r: Vec<Tensor>)
    requires
        power_of_two(e.subsampling_factor as int),
        e.num_attention_heads > 0,
    ensures
        tensor_models(r@) == encoder_tensors(*e),
{
    let convs: Vec<Conv> = list_convolutions(e);
    let channels: u128 = e.subsampling_conv_channels as u128;
    let mut list: Vec<Tensor> = Vec::new();
    let mut i: usize = 0;
    assert(tensor_models(list@) =~= Seq::empty());
    while i < convs.len()
        invariant
            i <= convs@.len(),
            channels == e.subsampling_conv_channels,
            tensor_models(list@) == conv_tensors(convs@, channels as nat, i as nat),
        decreases convs@.len() - i,
    {
        let c: Conv = convs[i];
        let ghost before = tensor_models(list@);
        push_tensor(
            &mut list,
            subsampling(c.index, ".weight"),
            dims4(channels, c.inputs as u128, c.kernel as u128, c.kernel as u128),
        );
        push_tensor(&mut list, subsampling(c.index, ".bias"), dims1(channels));
        assert(tensor_models(list@) =~= conv_tensors(convs@, channels as nat, (i + 1) as nat));
        i += 1;
    }
    let ghost convolved = tensor_models(list@);
    let mut l: usize = 0;
    assert(convolved + blocks_tensors(*e, 0) =~= convolved);
    while l < e.num_hidden_layers
        invariant
            l <= e.num_hidden_layers,
            e.num_attention_heads > 0,
            tensor_models(list@) == convolved + blocks_tensors(*e, l as nat),
        decreases e.num_hidden_layers - l,
    {
        push_block(e, l, &mut list);
        assert(tensor_models(list@) =~= convolved + blocks_tensors(*e, (l + 1) as nat));
        l += 1;
    }
    proof {
        let (a, b) = (e.subsampling_conv_channels as int, e.num_mel_bins as int);
        assert(0 <= a * b <= 0xffff_ffff_ffff_ffff * 0xffff_ffff_ffff_ffff) by (nonlinear_arith)
            requires
                0 <= a <= 0xffff_ffff_ffff_ffff,
                0 <= b <= 0xffff_ffff_ffff_ffff,
        ;
    }
    let flat: u128 = channels * e.num_mel_bins as u128 / e.subsampling_factor as u128;
    push_tensor(
        &mut list,
        "encoder.subsampling.linear.weight".to_owned(),
        dims2(e.hidden_size as u128, flat),
    );
    push_tensor(
        &mut list,
        "encoder.subsampling.linear.bias".to_owned(),
        dims1(e.hidden_size as u128),
    );
    assert(tensor_models(list@) =~= encoder_tensors(*e));
    list
}

// ---------------------------------------------------------------------------------------------
// Decoder
// ---------------------------------------------------------------------------------------------

/// The name of a tensor of prediction layer `l`.
pub open spec fn lstm_name(kind: Seq<char>, l: nat) -> Seq<char> {
    "decoder.lstm."@ + kind + "_l"@ + digits(l)
}

/// The tensors of the first `n` prediction layers of width `h`: four gates each.
pub open spec fn lstm_tensors(h: nat, n: nat) -> Seq<(Seq<char>, Seq<nat>)>
    decreases n,
{
    if n == 0 {
        Seq::empty()
    } else {
        let l = (n - 1) as nat;
        lstm_tensors(h, l) + seq![
            (lstm_name("bias_ih"@, l), seq![4 * h]),
            (lstm_name("bias_hh"@, l), seq![4 * h]),
            (lstm_name("weight_ih"@, l), seq![4 * h, h]),
            (lstm_name("weight_hh"@, l), seq![4 * h, h]),
        ]
    }
}

/// All tensors of the prediction and joint networks.
pub open spec fn decoder_tensors(c: Config) -> Seq<(Seq<char>, Seq<nat>)> {
    let h = c.decoder_hidden_size as nat;
    let d = c.encoder_config.hidden_size as nat;
    let outputs = c.vocab_size as nat + c.durations@.len();
    lstm_tensors(h, c.num_decoder_layers as nat) + seq![
        ("decoder.embedding.weight"@, seq![c.vocab_size as nat, h]),
        ("decoder.decoder_projector.weight"@, seq![h, h]),
        ("decoder.decoder_projector.bias"@, seq![h]),
        ("encoder_projector.weight"@, seq![h, d]),
        ("encoder_projector.bias"@, seq![h]),
        ("joint.head.weight"@, seq![outputs, h]),
        ("joint.head.bias"@, seq![outputs]),
    ]
}

fn lstm(kind: &str, l: usize) -> (r: String)
    ensures
        r@ == lstm_name(kind@, l as nat),
{
    "decoder.lstm.".to_owned().concat(kind).concat("_l").concat(decimal(l as u64).as_str())
}

/// Lists all tensors of the prediction and joint networks in order.
pub fn list_decoder_tensors(c: &Config) -> (r: Vec<Tensor>)
    ensures
        tensor_models(r@) == decoder_tensors(*c),
{
    let h: u128 = c.decoder_hidden_size as u128;
    let d: u128 = c.encoder_config.hidden_size as u128;
    let outputs: u128 = c.vocab_size as u128 + c.durations.len() as u128;
    let mut list: Vec<Tensor> = Vec::new();
    let mut l: usize = 0;
    assert(tensor_models(list@) =~= Seq::empty());
    while l < c.num_decoder_layers
        invariant
            l <= c.num_decoder_layers,
            h == c.decoder_hidden_size,
            tensor_models(list@) == lstm_tensors(h as nat, l as nat),
        decreases c.num_decoder_layers - l,
    {
        push_tensor(&mut list, lstm("bias_ih", l), dims1(4 * h));
        push_tensor(&mut list, lstm("bias_hh", l), dims1(4 * h));
        push_tensor(&mut list, lstm("weight_ih", l), dims2(4 * h, h));
        push_tensor(&mut list, lstm("weight_hh", l), dims2(4 * h, h));
        assert(tensor_models(list@) =~= lstm_tensors(h as nat, (l + 1) as nat));
        l += 1;
    }
    push_tensor(
        &mut list,
        "decoder.embedding.weight".to_owned(),
        dims2(c.vocab_size as u128, h),
    );
    push_tensor(&mut list, "decoder.decoder_projector.weight".to_owned(), dims2(h, h));
    push_tensor(&mut list, "decoder.decoder_projector.bias".to_owned(), dims1(h));
    push_tensor(&mut list, "encoder_projector.weight".to_owned(), dims2(h, d));
    push_tensor(&mut list, "encoder_projector.bias".to_owned(), dims1(h));
    push_tensor(&mut list, "joint.head.weight".to_owned(), dims2(outputs, h));
    push_tensor(&mut list, "joint.head.bias".to_owned(), dims1(outputs));
    assert(tensor_models(list@) =~= decoder_tensors(*c));
    list
}

} // verus!
