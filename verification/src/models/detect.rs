//! Identifies a model's architecture from its files.
use crate::error::{Error, ErrorModel, Result};
use crate::formats::gguf::file::Gguf;
use crate::formats::gguf::format::{catalog, magic};
use crate::formats::gguf::value::Datum;
use crate::json::{json_text, Json, Tree};
use crate::models::speech::{is_speech_checkpoint, speech_checkpoint};
use crate::sequences::lookup;
use crate::text::{ends_with, has_suffix, quoted, quoted_text, same_text};
use vstd::prelude::*;
use vstd::string::*;

verus! {

#[derive(Clone, Copy, Debug, PartialEq, Eq, Structural)]
pub enum Architecture {
    /// DiffusionGemma GGUF (`general.architecture = diffusion-gemma`).
    Gemma4Diffusion,
    /// Nemotron-Labs-Diffusion Hugging Face checkpoint directory (text or VLM).
    NemotronDiffusion,
}

impl Architecture {
    pub const ALL: [Architecture; 2] = [
        Architecture::Gemma4Diffusion,
        Architecture::NemotronDiffusion,
    ];

    /// The `--arch` value.
    pub open spec fn name(self) -> Seq<char> {
        match self {
            Architecture::Gemma4Diffusion => "gemma4-diffusion"@,
            Architecture::NemotronDiffusion => "nemotron-diffusion"@,
        }
    }

    /// The architecture with this `--arch` value.
    pub open spec fn named(name: Seq<char>) -> Option<Architecture> {
        if name == "gemma4-diffusion"@ {
            Some(Architecture::Gemma4Diffusion)
        } else if name == "nemotron-diffusion"@ {
            Some(Architecture::NemotronDiffusion)
        } else {
            None
        }
    }

    /// The model ID served by default when the files do not name a size.
    pub open spec fn model_name(self) -> Seq<char> {
        match self {
            Architecture::Gemma4Diffusion => "gemmadiffusion-0.1"@,
            Architecture::NemotronDiffusion => "nemotron-diffusion-8b"@,
        }
    }

    /// The `--arch` value.
    pub fn id(self) -> (r: &'static str)
        ensures
            r@ == self.name(),
    {
        match self {
            Architecture::Gemma4Diffusion => "gemma4-diffusion",
            Architecture::NemotronDiffusion => "nemotron-diffusion",
        }
    }

    /// Whether image input needs a separate vision projector file (`--mmproj`).
    pub fn uses_separate_projector(self) -> (r: bool)
        ensures
            r == (self == Architecture::Gemma4Diffusion),
    {
        matches!(self, Architecture::Gemma4Diffusion)
    }

    /// Routing alias that names the newest local model of this architecture.
    pub fn latest_alias(self) -> (r: &'static str)
        ensures
            r@ == match self {
                Architecture::Gemma4Diffusion => "gemmadiffusion-latest"@,
                Architecture::NemotronDiffusion => "nemotron-diffusion-latest"@,
            },
    {
        match self {
            Architecture::Gemma4Diffusion => "gemmadiffusion-latest",
            Architecture::NemotronDiffusion => "nemotron-diffusion-latest",
        }
    }

    /// The model ID served by default for this architecture when the files do not name a size.
    pub fn default_model_id(self) -> (r: &'static str)
        ensures
            r@ == self.model_name(),
    {
        match self {
            Architecture::Gemma4Diffusion => "gemmadiffusion-0.1",
            Architecture::NemotronDiffusion => "nemotron-diffusion-8b",
        }
    }

    /// The architecture with this `--arch` value.
    pub fn parse(name: &str) -> (r: Result<Self>)
        ensures
            r matches Ok(a) ==> Architecture::named(name@) == Some(a),
            r matches Err(e) ==> Architecture::named(name@) is None && e@ == unknown_architecture(
                name@,
            ),
    {
        if same_text(name, "gemma4-diffusion") {
            Ok(Architecture::Gemma4Diffusion)
        } else if same_text(name, "nemotron-diffusion") {
            Ok(Architecture::NemotronDiffusion)
        } else {
            let shown: String = quoted(name);
            Err(
                Error::InvalidInput(
                    "Unknown architecture ".to_owned().concat(shown.as_str()).concat(
                        "; expected auto or one of gemma4-diffusion, nemotron-diffusion",
                    ),
                ),
            )
        }
    }
}

/// The error of an `--arch` value that names nothing.
pub open spec fn unknown_architecture(name: Seq<char>) -> ErrorModel {
    ErrorModel::InvalidInput(
        "Unknown architecture "@ + quoted_text(name)
            + "; expected auto or one of gemma4-diffusion, nemotron-diffusion"@,
    )
}

impl core::str::FromStr for Architecture {
    type Err = Error;

    fn from_str(name: &str) -> (r: Result<Self>)
        ensures
            r matches Ok(a) ==> Architecture::named(name@) == Some(a),
            r matches Err(e) ==> Architecture::named(name@) is None && e@ == unknown_architecture(
                name@,
            ),
    {
        Architecture::parse(name)
    }
}

/// The size of a Nemotron-Labs-Diffusion checkpoint with these dimensions.
pub open spec fn nemotron_size(config: Tree) -> Option<Seq<char>> {
    match (config.at("num_hidden_layers"@), config.at("hidden_size"@)) {
        (Tree::Unsigned(layers), Tree::Unsigned(hidden)) => if layers == 26 && hidden == 3072 {
            Some("3b"@)
        } else if layers == 34 && hidden == 4096 {
            Some("8b"@)
        } else if layers == 40 && hidden == 5120 {
            Some("14b"@)
        } else {
            None
        },
        _ => None,
    }
}

/// The model ID served by default for a model whose configuration, where it has one that can be
/// read, is `config`.
pub open spec fn served_id(config: Option<Tree>, architecture: Architecture) -> Seq<char> {
    match (architecture, config) {
        (Architecture::NemotronDiffusion, Some(config)) => match nemotron_size(config) {
            Some(size) => "nemotron-diffusion-"@ + size,
            None => architecture.model_name(),
        },
        _ => architecture.model_name(),
    }
}

fn unsigned_at(config: &Json, key: &str) -> (r: Option<u64>)
    ensures
        r matches Some(n) ==> config@.at(key@) == Tree::Unsigned(n),
        r is None ==> config@.at(key@) !is Unsigned,
{
    match config.get(key) {
        Some(Json::Unsigned(n)) => Some(*n),
        _ => None,
    }
}

/// The model ID served by default: the architecture's ID, sized for Nemotron-Labs-Diffusion
/// checkpoints (`nemotron-diffusion-3b`, `-8b` or `-14b`).
pub fn default_model_id(config: Option<&Json>, architecture: Architecture) -> (r: String)
    ensures
        r@ == served_id(
            match config {
                Some(c) => Some(c@),
                None => None,
            },
            architecture,
        ),
{
    if let (Architecture::NemotronDiffusion, Some(config)) = (architecture, config) {
        if let (Some(layers), Some(hidden)) = (
            unsigned_at(config, "num_hidden_layers"),
            unsigned_at(config, "hidden_size"),
        ) {
            if layers == 26 && hidden == 3072 {
                return "nemotron-diffusion-".to_owned().concat("3b");
            }
            if layers == 34 && hidden == 4096 {
                return "nemotron-diffusion-".to_owned().concat("8b");
            }
            if layers == 40 && hidden == 5120 {
                return "nemotron-diffusion-".to_owned().concat("14b");
            }
        }
    }
    architecture.default_model_id().to_owned()
}

/// The file names that stand for the checkpoint in their directory.
pub open spec fn names_checkpoint(name: Seq<char>) -> bool {
    name == "config.json"@ || has_suffix(name, ".safetensors"@) || has_suffix(
        name,
        ".safetensors.index.json"@,
    )
}

/// The directory holding a Hugging Face checkpoint named by `path`: the directory itself, or
/// the parent of its `config.json` or a `.safetensors` file inside it. `name` and `parent` are
/// the last component of the path and what is before it.
pub fn checkpoint_dir(path: &str, is_dir: bool, name: Option<&str>, parent: Option<&str>) -> (r:
    Option<String>)
    ensures
        match r {
            Some(dir) => if is_dir {
                dir@ == path@
            } else {
                name is Some && names_checkpoint(name->Some_0@) && parent is Some && dir@
                    == parent->Some_0@
            },
            None => !is_dir && !(name is Some && names_checkpoint(name->Some_0@) && parent is Some),
        },
{
    if is_dir {
        return Some(path.to_owned());
    }
    match (name, parent) {
        (Some(name), Some(parent)) => {
            if same_text(name, "config.json") || ends_with(name, ".safetensors") || ends_with(
                name,
                ".safetensors.index.json",
            ) {
                Some(parent.to_owned())
            } else {
                None
            }
        },
        _ => None,
    }
}

/// The architecture that a GGUF file's `general.architecture` names.
pub open spec fn gguf_outcome(name: Option<Seq<char>>) -> core::result::Result<
    Architecture,
    ErrorModel,
> {
    if name == Some("diffusion-gemma"@) {
        Ok(Architecture::Gemma4Diffusion)
    } else {
        let shown = match name {
            Some(n) => n,
            None => "(missing)"@,
        };
        Err(
            ErrorModel::UnsupportedModel("GGUF architecture "@ + shown + " is not supported"@),
        )
    }
}

/// The text under a metadata key.
pub open spec fn metadata_text(metadata: Seq<(Seq<char>, Datum)>, key: Seq<char>) -> Option<
    Seq<char>,
> {
    match lookup(metadata, key) {
        Some(Datum::String(s)) => Some(s),
        _ => None,
    }
}

/// The architecture of a GGUF file.
pub fn detect_gguf(gguf: &Gguf) -> (r: Result<Architecture>)
    ensures
        r matches Ok(a) ==> gguf_outcome(metadata_text(gguf@.metadata, "general.architecture"@))
            == Ok::<Architecture, ErrorModel>(a),
        r matches Err(e) ==> gguf_outcome(metadata_text(gguf@.metadata, "general.architecture"@))
            == Err::<Architecture, ErrorModel>(e@),
{
    let mut shown: &str = "(missing)";
    if let Ok(value) = gguf.get("general.architecture") {
        if let Some(name) = value.as_str() {
            if same_text(name, "diffusion-gemma") {
                return Ok(Architecture::Gemma4Diffusion);
            }
            shown = name;
        }
    }
    Err(
        Error::UnsupportedModel(
            "GGUF architecture ".to_owned().concat(shown).concat(" is not supported"),
        ),
    )
}

/// The architecture of a file of `file_len` bytes that starts with `head`: a GGUF file, whose whole
/// header `head` holds.
pub open spec fn file_outcome(head: Seq<u8>, file_len: int, path: Seq<char>) -> core::result::Result<
    Architecture,
    ErrorModel,
> {
    if head.len() < 4 {
        Err(ErrorModel::ModelLoad)
    } else if head.take(4) != magic() {
        Err(
            ErrorModel::UnsupportedModel(
                path + " is neither a GGUF file nor a Hugging Face checkpoint directory"@,
            ),
        )
    } else {
        match catalog(head, file_len) {
            Err(_) => Err(ErrorModel::ModelLoad),
            Ok(c) => gguf_outcome(metadata_text(c.metadata, "general.architecture"@)),
        }
    }
}

/// The architecture of a model file.
pub fn detect_file(head: &[u8], file_len: u64, path: &str) -> (r: Result<Architecture>)
    requires
        head@.len() <= isize::MAX,
    ensures
        r matches Ok(a) ==> file_outcome(head@, file_len as int, path@) == Ok::<
            Architecture,
            ErrorModel,
        >(a),
        r matches Err(e) ==> file_outcome(head@, file_len as int, path@) == Err::<
            Architecture,
            ErrorModel,
        >(e@),
{
    if head.len() < 4 {
        return Err(Error::ModelLoad);
    }
    let magical: bool = head[0] == 0x47 && head[1] == 0x47 && head[2] == 0x55 && head[3] == 0x46;
    proof {
        let start = head@.take(4);
        if magical {
            assert(start =~= magic());
        } else {
            assert(magic()[0] == 0x47 && magic()[1] == 0x47 && magic()[2] == 0x55 && magic()[3]
                == 0x46);
            assert(start[0] == head@[0] && start[1] == head@[1] && start[2] == head@[2] && start[3]
                == head@[3]);
        }
    }
    if !magical {
        return Err(
            Error::UnsupportedModel(
                path.to_owned().concat(
                    " is neither a GGUF file nor a Hugging Face checkpoint directory",
                ),
            ),
        );
    }
    match Gguf::parse(head, file_len) {
        Ok(gguf) => detect_gguf(&gguf),
        Err(_) => Err(Error::ModelLoad),
    }
}

/// Some string of the `architectures` list names a Nemotron-Labs-Diffusion model.
pub open spec fn lists_nemotron(config: Tree) -> bool {
    config.at("architectures"@) matches Tree::List(items) && exists|i: int|
        0 <= i < items.len() && nemotron_class(#[trigger] items[i])
}

/// A class name of a Nemotron-Labs-Diffusion model.
pub open spec fn nemotron_class(value: Tree) -> bool {
    value == Tree::Text("NemotronLabsDiffusionModel"@) || value == Tree::Text(
        "NemotronLabsDiffusionVLMModel"@,
    )
}

/// The architecture of the checkpoint in `dir` with this configuration. A speech checkpoint is
/// pointed to `--speech-model`.
pub open spec fn config_outcome(config: Tree, dir: Seq<char>) -> core::result::Result<
    Architecture,
    ErrorModel,
> {
    let model_type = config.at("model_type"@).text_or_empty();
    if model_type == "nemotron_labs_diffusion"@ || model_type == "nemotron_labs_diffusion_vlm"@
        || lists_nemotron(config) {
        Ok(Architecture::NemotronDiffusion)
    } else if speech_checkpoint(config) {
        Err(
            ErrorModel::UnsupportedModel(
                dir + " is a speech-to-text model; use it with --speech-model"@,
            ),
        )
    } else {
        Err(
            ErrorModel::UnsupportedModel(
                "checkpoint model_type "@ + quoted_text(model_type) + " is not supported"@,
            ),
        )
    }
}

fn has_nemotron_class(config: &Json) -> (r: bool)
    ensures
        r == lists_nemotron(config@),
{
    match config.get("architectures") {
        Some(Json::List(items)) => {
            let ghost model = config@.at("architectures"@)->List_0;
            let mut i: usize = 0;
            while i < items.len()
                invariant
                    i <= items@.len(),
                    config@.at("architectures"@) == Tree::List(model),
                    model.len() == items@.len(),
                    forall|k: int| 0 <= k < model.len() ==> #[trigger] model[k] == items@[k]@,
                    forall|k: int| 0 <= k < i ==> !nemotron_class(#[trigger] model[k]),
                decreases items@.len() - i,
            {
                if let Json::Text(s) = &items[i] {
                    if same_text(s.as_str(), "NemotronLabsDiffusionModel") || same_text(
                        s.as_str(),
                        "NemotronLabsDiffusionVLMModel",
                    ) {
                        proof {
                            let found = config@.at("architectures"@)->List_0;
                            assert(nemotron_class(found[i as int]));
                            assert(lists_nemotron(config@));
                        }
                        return true;
                    }
                }
                assert(!nemotron_class(model[i as int]));
                i += 1;
            }
            false
        },
        _ => false,
    }
}

/// The architecture of the checkpoint in `dir` with this configuration.
pub fn detect_config(config: &Json, dir: &str) -> (r: Result<Architecture>)
    ensures
        r matches Ok(a) ==> config_outcome(config@, dir@) == Ok::<Architecture, ErrorModel>(a),
        r matches Err(e) ==> config_outcome(config@, dir@) == Err::<Architecture, ErrorModel>(e@),
{
    let model_type: &str = match config.text_at("model_type") {
        Some(s) => s,
        None => "",
    };
    proof {
        reveal_strlit("");
        assert(model_type@ =~= config@.at("model_type"@).text_or_empty());
    }
    if same_text(model_type, "nemotron_labs_diffusion") || same_text(
        model_type,
        "nemotron_labs_diffusion_vlm",
    ) || has_nemotron_class(config) {
        return Ok(Architecture::NemotronDiffusion);
    }
    if is_speech_checkpoint(config) {
        return Err(
            Error::UnsupportedModel(
                dir.to_owned().concat(" is a speech-to-text model; use it with --speech-model"),
            ),
        );
    }
    let shown: String = quoted(model_type);
    Err(
        Error::UnsupportedModel(
            "checkpoint model_type ".to_owned().concat(shown.as_str()).concat(" is not supported"),
        ),
    )
}

/// The architecture of the checkpoint in `dir` whose `config.json` holds `text`.
pub fn detect_checkpoint(text: &str, dir: &str) -> (r: Result<Architecture>)
    ensures
        match json_text(text@) {
            Err(_) => r matches Err(e) && e@ == ErrorModel::ModelLoad,
            Ok(config) => match r {
                Ok(a) => config_outcome(config, dir@) == Ok::<Architecture, ErrorModel>(a),
                Err(e) => config_outcome(config, dir@) == Err::<Architecture, ErrorModel>(e@),
            },
        },
{
    match Json::parse(text) {
        Ok(config) => detect_config(&config, dir),
        Err(_) => Err(Error::ModelLoad),
    }
}

/// The architecture selected by an `--arch` value, checked against the detected one.
pub open spec fn resolve_outcome(choice: Option<Seq<char>>, detected: Architecture) -> core::result::Result<
    Architecture,
    ErrorModel,
> {
    match choice {
        None => Ok(detected),
        Some(name) => if name == "auto"@ {
            Ok(detected)
        } else {
            match Architecture::named(name) {
                None => Err(unknown_architecture(name)),
                Some(chosen) => if chosen == detected {
                    Ok(chosen)
                } else {
                    Err(
                        ErrorModel::UnsupportedModel(
                            "--arch "@ + chosen.name()
                                + " does not match the model files, which contain "@
                                + detected.name(),
                        ),
                    )
                },
            }
        },
    }
}

/// The architecture that is selected: the explicit choice, checked against the files, or the
/// detected one.
pub fn resolve(choice: Option<&str>, detected: Architecture) -> (r: Result<Architecture>)
    ensures
        r matches Ok(a) ==> resolve_outcome(
            match choice {
                Some(c) => Some(c@),
                None => None,
            },
            detected,
        ) == Ok::<Architecture, ErrorModel>(a),
        r matches Err(e) ==> resolve_outcome(
            match choice {
                Some(c) => Some(c@),
                None => None,
            },
            detected,
        ) == Err::<Architecture, ErrorModel>(e@),
{
    match choice {
        None => Ok(detected),
        Some(name) => {
            if same_text(name, "auto") {
                return Ok(detected);
            }
            let chosen: Architecture = Architecture::parse(name)?;
            if chosen != detected {
                return Err(
                    Error::UnsupportedModel(
                        "--arch ".to_owned().concat(chosen.id()).concat(
                            " does not match the model files, which contain ",
                        ).concat(detected.id()),
                    ),
                );
            }
            Ok(chosen)
        },
    }
}

/// Architecture names round trip: the one with an architecture's `--arch` value is that
/// architecture.
pub proof fn law_architecture_names_round_trip(architecture: Architecture)
    ensures
        Architecture::named(architecture.name()) == Some(architecture),
{
    reveal_strlit("gemma4-diffusion");
    reveal_strlit("nemotron-diffusion");
    assert("gemma4-diffusion"@.len() != "nemotron-diffusion"@.len());
}

/// An explicit choice never overrides the files: whatever is selected is what was detected.
pub proof fn law_the_choice_never_overrides_the_files(
    choice: Option<Seq<char>>,
    detected: Architecture,
)
    ensures
        resolve_outcome(choice, detected) matches Ok(selected) ==> selected == detected,
        resolve_outcome(None, detected) == Ok::<Architecture, ErrorModel>(detected),
        resolve_outcome(Some(detected.name()), detected) == Ok::<Architecture, ErrorModel>(
            detected,
        ),
{
    law_architecture_names_round_trip(detected);
}

} // verus!
