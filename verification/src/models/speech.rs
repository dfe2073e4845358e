//! Speech-to-text architecture detection.
use crate::error::{Error, ErrorModel, Result};
use crate::json::{json_text, Json, Tree};
use crate::text::{quoted, quoted_text, same_text};
use vstd::prelude::*;
use vstd::string::*;

verus! {

#[derive(Clone, Copy, Debug, PartialEq, Eq, Structural)]
pub enum SpeechArchitecture {
    /// NVIDIA Parakeet TDT Hugging Face checkpoint directory (`ParakeetForTDT`).
    ParakeetTdt,
}

impl SpeechArchitecture {
    pub fn id(self) -> (r: &'static str)
        ensures
            r@ == "parakeet-tdt"@,
    {
        match self {
            SpeechArchitecture::ParakeetTdt => "parakeet-tdt",
        }
    }

    /// Routing alias that names the newest local model of this architecture.
    pub fn latest_alias(self) -> (r: &'static str)
        ensures
            r@ == "parakeet-latest"@,
    {
        match self {
            SpeechArchitecture::ParakeetTdt => "parakeet-latest",
        }
    }
}

/// A configuration of a speech model.
pub open spec fn speech_checkpoint(config: Tree) -> bool {
    config.at("model_type"@) == Tree::Text("parakeet_tdt"@)
}

/// Whether the checkpoint `config.json` describes a speech model this binary knows.
pub fn is_speech_checkpoint(config: &Json) -> (r: bool)
    ensures
        r == speech_checkpoint(config@),
{
    match config.text_at("model_type") {
        Some(s) => same_text(s, "parakeet_tdt"),
        None => false,
    }
}

/// The error of a path that names no checkpoint directory.
pub fn not_a_checkpoint(path: &str) -> (r: Error)
    ensures
        r@ == ErrorModel::UnsupportedModel(
            path@ + " is not a Hugging Face checkpoint directory"@,
        ),
{
    Error::UnsupportedModel(
        path.to_owned().concat(" is not a Hugging Face checkpoint directory"),
    )
}

/// The speech architecture of a checkpoint with this configuration.
pub open spec fn speech_outcome(config: Tree) -> core::result::Result<
    SpeechArchitecture,
    ErrorModel,
> {
    if speech_checkpoint(config) {
        Ok(SpeechArchitecture::ParakeetTdt)
    } else {
        Err(
            ErrorModel::UnsupportedModel(
                "checkpoint model_type "@ + quoted_text(
                    config.at("model_type"@).text_or_empty(),
                ) + " is not a supported speech model"@,
            ),
        )
    }
}

/// The speech architecture of a checkpoint with this configuration.
pub fn detect_speech_config(config: &Json) -> (r: Result<SpeechArchitecture>)
    ensures
        r matches Ok(a) ==> speech_outcome(config@) == Ok::<SpeechArchitecture, ErrorModel>(a),
        r matches Err(e) ==> speech_outcome(config@) == Err::<SpeechArchitecture, ErrorModel>(e@),
{
    if is_speech_checkpoint(config) {
        return Ok(SpeechArchitecture::ParakeetTdt);
    }
    let model_type: &str = match config.text_at("model_type") {
        Some(s) => s,
        None => "",
    };
    proof {
        reveal_strlit("");
        assert(model_type@ =~= config@.at("model_type"@).text_or_empty());
    }
    let shown: String = quoted(model_type);
    Err(
        Error::UnsupportedModel(
            "checkpoint model_type ".to_owned().concat(shown.as_str()).concat(
                " is not a supported speech model",
            ),
        ),
    )
}

/// The speech architecture of a checkpoint whose `config.json` holds `text`.
pub fn detect_speech(text: &str) -> (r: Result<SpeechArchitecture>)
    ensures
        match json_text(text@) {
            Err(_) => r matches Err(e) && e@ == ErrorModel::ModelLoad,
            Ok(config) => match r {
                Ok(a) => speech_outcome(config) == Ok::<SpeechArchitecture, ErrorModel>(a),
                Err(e) => speech_outcome(config) == Err::<SpeechArchitecture, ErrorModel>(e@),
            },
        },
{
    match Json::parse(text) {
        Ok(config) => detect_speech_config(&config),
        Err(_) => Err(Error::ModelLoad),
    }
}

/// The configuration of the 24-layer multilingual checkpoint.
pub open spec fn multilingual(config: Tree) -> bool {
    config.at("vocab_size"@) == Tree::Unsigned(8193) && config.at("encoder_config"@).at(
        "num_hidden_layers"@,
    ) == Tree::Unsigned(24)
}

/// The model ID served by default for a speech model whose configuration, where it has one that
/// can be read, is `config`: `parakeet-tdt-0.6b-v3` for the 24-layer multilingual checkpoint,
/// otherwise the architecture ID.
pub fn default_speech_model_id(config: Option<&Json>, architecture: SpeechArchitecture) -> (r:
    String)
    ensures
        r@ == if config is Some && multilingual(config->Some_0@) {
            "parakeet-tdt-0.6b-v3"@
        } else {
            "parakeet-tdt"@
        },
{
    if let Some(config) = config {
        if let Some(Json::Unsigned(vocab)) = config.get("vocab_size") {
            if let Some(encoder) = config.get("encoder_config") {
                if let Some(Json::Unsigned(layers)) = encoder.get("num_hidden_layers") {
                    if *vocab == 8193 && *layers == 24 {
                        return "parakeet-tdt-0.6b-v3".to_owned();
                    }
                }
            }
        }
    }
    architecture.id().to_owned()
}

} // verus!
