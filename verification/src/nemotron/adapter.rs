//! Nemotron-Labs-Diffusion as a diffusion model: chat format and denoising.
use crate::engine::model::{ChatFormat, DiffusionScheme};
use crate::nemotron::config::Config;
use vstd::prelude::*;
use vstd::string::*;

verus! {

/// The bits of 0.9, the confidence from which a position is unmasked.
pub const THRESHOLD: u64 = 0x3fec_cccc_cccc_cccd;

fn markers(first: &str, second: Option<&str>) -> (r: Vec<String>)
    ensures
        r@.len() == if second is Some {
            2nat
        } else {
            1nat
        },
        r@[0]@ == first@,
        second matches Some(s) ==> r@[1]@ == s@,
{
    let mut list: Vec<String> = Vec::new();
    list.push(first.to_owned());
    if let Some(s) = second {
        list.push(s.to_owned());
    }
    list
}

/// How Nemotron-Labs-Diffusion frames a conversation.
pub fn chat_format() -> (r: ChatFormat)
    ensures
        !r.bos,
        r.system_open@ == "<|im_start|>system\n"@,
        r.user_open@ == "<|im_start|>user\n"@,
        r.assistant_open@ == "<|im_start|>assistant\n"@,
        r.turn_close@ == "<|im_end|>\n"@,
        r.history_prefix@ == ""@,
        r.model_open@ == "<|im_end|>\n<|im_start|>assistant\n"@,
        r.thought_open@ == "<think>\n"@,
        r.thought_close@ == "</think>"@,
        r.empty_thought@ == "<think></think>"@,
        r.thought_stops@.len() == 2,
        r.thought_stops@[0]@ == "</think>"@,
        r.thought_stops@[1]@ == "<|im_end|>"@,
        r.answer_stops@.len() == 1,
        r.answer_stops@[0]@ == "<|im_end|>"@,
        r.space_joins_answers,
{
    ChatFormat {
        bos: false,
        system_open: "<|im_start|>system\n".to_owned(),
        user_open: "<|im_start|>user\n".to_owned(),
        assistant_open: "<|im_start|>assistant\n".to_owned(),
        turn_close: "<|im_end|>\n".to_owned(),
        history_prefix: "".to_owned(),
        model_open: "<|im_end|>\n<|im_start|>assistant\n".to_owned(),
        thought_open: "<think>\n".to_owned(),
        thought_close: "</think>".to_owned(),
        empty_thought: "<think></think>".to_owned(),
        thought_stops: markers("</think>", Some("<|im_end|>")),
        answer_stops: markers("<|im_end|>", None),
        space_joins_answers: true,
    }
}

impl Config {
    /// Masks, unmasked by confidence: a block of tokens in at most as many steps.
    pub fn scheme(&self) -> (r: DiffusionScheme)
        ensures
            r == (DiffusionScheme::Masked {
                mask: self.mask_token_id,
                block: self.block_size,
                threshold: THRESHOLD,
                max_steps: self.block_size,
            }),
    {
        DiffusionScheme::Masked {
            mask: self.mask_token_id,
            block: self.block_size,
            threshold: THRESHOLD,
            max_steps: self.block_size,
        }
    }
}

} // verus!
