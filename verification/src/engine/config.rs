//! Model loading and context configuration.
use crate::error::{Error, ErrorModel, Result};
use crate::text::{quoted, quoted_text, same_text};
use vstd::prelude::*;
use vstd::string::*;

verus! {

#[derive(Debug)]
pub struct ModelConfig {
    /// Reuse resident prompt KV for the longest common token prefix across prefills.
    pub prompt_cache: bool,
    /// The model's path.
    pub model: String,
    /// Vision projector GGUF; enables image input.
    pub mmproj: Option<String>,
    /// HIP device index.
    pub main_gpu: usize,
    /// Positions reserved in the KV cache for prompt, thought and canvas.
    pub context_size: u32,
    /// Maximum tokens per prefill chunk and canvas.
    pub batch_size: u32,
}

impl ModelConfig {
    pub fn new(model: &str) -> (r: Self)
        ensures
            r.prompt_cache,
            r.model@ == model@,
            r.mmproj is None,
            r.main_gpu == 0,
            r.context_size == 8192,
            r.batch_size == 512,
    {
        ModelConfig {
            prompt_cache: true,
            model: model.to_owned(),
            mmproj: None,
            main_gpu: 0,
            context_size: 8192,
            batch_size: 512,
        }
    }

    pub fn validate(&self) -> (r: Result<()>)
        ensures
            r is Ok <==> 0 < self.batch_size <= self.context_size <= i32::MAX,
            r matches Err(e) ==> e@ == ErrorModel::InvalidInput(
                "Require 0 < batch_size <= context_size <= i32::MAX"@,
            ),
    {
        if self.context_size == 0 || self.context_size > 0x7FFF_FFFF || self.batch_size == 0
            || self.batch_size > self.context_size {
            return Err(Error::input("Require 0 < batch_size <= context_size <= i32::MAX"));
        }
        Ok(())
    }
}

/// How text (thoughts and answers) is generated.
#[derive(Clone, Copy, Debug, PartialEq, Eq, Structural)]
pub enum Decoding {
    /// The model's diffusion sampler. For masked models, each block starts with the causal
    /// prediction after the committed text and its masks are unmasked by confidence.
    Diffusion,
    /// Linear self-speculation: one bidirectional forward drafts a block, one causal forward
    /// verifies it, and the longest prefix the causal predictions agree with is kept, plus the
    /// prediction after it. The tokens equal greedy autoregressive decoding.
    SelfSpeculation,
    /// Greedy autoregressive decoding, one causal forward per token.
    Autoregressive,
}

impl Default for Decoding {
    fn default() -> (r: Self)
        ensures
            r == Decoding::Diffusion,
    {
        Decoding::Diffusion
    }
}

/// The error of a name that is no decoding's.
pub open spec fn unknown_decoding(name: Seq<char>) -> ErrorModel {
    ErrorModel::InvalidInput(
        "Unknown decoding "@ + quoted_text(name)
            + "; expected diffusion, self-speculation or autoregressive"@,
    )
}

impl Decoding {
    pub const ALL: [Decoding; 3] = [
        Decoding::Diffusion,
        Decoding::SelfSpeculation,
        Decoding::Autoregressive,
    ];

    /// The `--decoding` value.
    pub open spec fn name(self) -> Seq<char> {
        match self {
            Decoding::Diffusion => "diffusion"@,
            Decoding::SelfSpeculation => "self-speculation"@,
            Decoding::Autoregressive => "autoregressive"@,
        }
    }

    /// The decoding with this `--decoding` value.
    pub open spec fn named(name: Seq<char>) -> Option<Decoding> {
        if name == "diffusion"@ {
            Some(Decoding::Diffusion)
        } else if name == "self-speculation"@ {
            Some(Decoding::SelfSpeculation)
        } else if name == "autoregressive"@ {
            Some(Decoding::Autoregressive)
        } else {
            None
        }
    }

    /// The `--decoding` value.
    pub fn id(self) -> (r: &'static str)
        ensures
            r@ == self.name(),
    {
        match self {
            Decoding::Diffusion => "diffusion",
            Decoding::SelfSpeculation => "self-speculation",
            Decoding::Autoregressive => "autoregressive",
        }
    }

    /// The decoding with this `--decoding` value.
    pub fn parse(name: &str) -> (r: Result<Self>)
        ensures
            r matches Ok(d) ==> Decoding::named(name@) == Some(d),
            r matches Err(e) ==> Decoding::named(name@) is None && e@ == unknown_decoding(
                name@,
            ),
    {
        if same_text(name, "diffusion") {
            Ok(Decoding::Diffusion)
        } else if same_text(name, "self-speculation") {
            Ok(Decoding::SelfSpeculation)
        } else if same_text(name, "autoregressive") {
            Ok(Decoding::Autoregressive)
        } else {
            let shown: String = quoted(name);
            Err(
                Error::InvalidInput(
                    "Unknown decoding ".to_owned().concat(shown.as_str()).concat(
                        "; expected diffusion, self-speculation or autoregressive",
                    ),
                ),
            )
        }
    }
}

impl core::str::FromStr for Decoding {
    type Err = Error;

    fn from_str(name: &str) -> (r: Result<Self>)
        ensures
            r matches Ok(d) ==> Decoding::named(name@) == Some(d),
            r matches Err(e) ==> Decoding::named(name@) is None && e@ == unknown_decoding(
                name@,
            ),
    {
        Decoding::parse(name)
    }
}

/// Decoding names round trip.
pub proof fn law_decoding_names_round_trip(decoding: Decoding)
    ensures
        Decoding::named(decoding.name()) == Some(decoding),
{
    reveal_strlit("diffusion");
    reveal_strlit("self-speculation");
    reveal_strlit("autoregressive");
    assert("diffusion"@.len() == 9 && "self-speculation"@.len() == 16 && "autoregressive"@.len()
        == 14);
}

/// A part of a prompt.
#[derive(Debug)]
pub enum PromptPart {
    Text(Vec<i32>),
    /// An encoded image; `index` names it within its request.
    Image { tokens: usize, index: usize },
}

/// The mathematical model of a [`PromptPart`].
#[verifier::ext_equal]
pub enum Part {
    Text(Seq<i32>),
    Image { tokens: nat, index: nat },
}

impl View for PromptPart {
    type V = Part;

    open spec fn view(&self) -> Part {
        match self {
            PromptPart::Text(tokens) => Part::Text(tokens@),
            PromptPart::Image { tokens, index } => Part::Image {
                tokens: *tokens as nat,
                index: *index as nat,
            },
        }
    }
}

impl Part {
    /// The positions the part takes.
    pub open spec fn size(self) -> nat {
        match self {
            Part::Text(tokens) => tokens.len(),
            Part::Image { tokens, .. } => tokens,
        }
    }
}

impl PromptPart {
    pub fn len(&self) -> (r: usize)
        ensures
            r == self@.size(),
    {
        match self {
            PromptPart::Text(tokens) => tokens.len(),
            PromptPart::Image { tokens, .. } => *tokens,
        }
    }
}

/// The models of prompt parts.
pub open spec fn parts_model(parts: Seq<PromptPart>) -> Seq<Part> {
    Seq::new(parts.len(), |i: int| parts[i]@)
}

/// The positions that prompt parts take.
pub open spec fn total_size(parts: Seq<Part>) -> nat
    decreases parts.len(),
{
    if parts.len() == 0 {
        0
    } else {
        total_size(parts.drop_last()) + parts.last().size()
    }
}

/// The positions that the parts take, where 64 bits hold the number.
pub fn prompt_length(parts: &Vec<PromptPart>) -> (r: Option<usize>)
    ensures
        r matches Some(n) ==> n == total_size(parts_model(parts@)),
        r is None ==> total_size(parts_model(parts@)) > usize::MAX,
{
    let ghost all = parts_model(parts@);
    let mut n: usize = 0;
    let mut i: usize = 0;
    assert(all.take(0) =~= Seq::<Part>::empty());
    while i < parts.len()
        invariant
            i <= parts@.len(),
            all == parts_model(parts@),
            n == total_size(all.take(i as int)),
        decreases parts@.len() - i,
    {
        proof {
            assert(all.take(i + 1).drop_last() =~= all.take(i as int));
        }
        match n.checked_add(parts[i].len()) {
            Some(m) => {
                n = m;
            },
            None => {
                proof {
                    lemma_total_size_grows(all, i + 1);
                }
                return None;
            },
        }
        i += 1;
    }
    proof {
        assert(all.take(i as int) =~= all);
    }
    Some(n)
}

proof fn lemma_total_size_grows(parts: Seq<Part>, i: int)
    requires
        0 <= i <= parts.len(),
    ensures
        total_size(parts.take(i)) <= total_size(parts),
    decreases parts.len() - i,
{
    if i < parts.len() {
        assert(parts.take(i + 1).drop_last() =~= parts.take(i));
        lemma_total_size_grows(parts, i + 1);
    } else {
        assert(parts.take(i) =~= parts);
    }
}

} // verus!
