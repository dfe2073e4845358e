//! How models are recognized.
use crate::error::ErrorModel;
use crate::formats::gguf::format::catalog;
use crate::formats::gguf::value::Datum;
use crate::json::Tree;
use crate::models::detect::{
    config_outcome, file_outcome, nemotron_class, served_id, Architecture,
};
use crate::models::speech::speech_outcome;
use crate::sequences::lemma_lookup_found;
use vstd::prelude::*;
use vstd::string::*;

verus! {

/// A GGUF file is a model of this kind exactly where it starts with the magic bytes, its directory can be
/// read, and an entry names the architecture; nothing else is taken for one.
pub proof fn law_files_are_known_by_their_architecture(
    head: Seq<u8>,
    file_len: int,
    path: Seq<char>,
)
    ensures
        ({
            let found = catalog(head, file_len);
            let starts = head.len() >= 4 && head[0] == 0x47 && head[1] == 0x47 && head[2] == 0x55
                && head[3] == 0x46;
            &&& file_outcome(head, file_len, path) is Ok ==> file_outcome(head, file_len, path) == Ok::<
                Architecture,
                ErrorModel,
            >(Architecture::Gemma4Diffusion) && starts && found is Ok && exists|i: int|
                0 <= i < found->Ok_0.metadata.len() && #[trigger] found->Ok_0.metadata[i] == (
                    "general.architecture"@,
                    Datum::String("diffusion-gemma"@),
                )
            &&& starts && found is Ok && (exists|i: int|
                0 <= i < found->Ok_0.metadata.len() && #[trigger] found->Ok_0.metadata[i] == (
                    "general.architecture"@,
                    Datum::String("diffusion-gemma"@),
                )) && (forall|i: int, j: int|
                0 <= i < j < found->Ok_0.metadata.len() ==> (
                #[trigger] found->Ok_0.metadata[i]).0 != (#[trigger] found->Ok_0.metadata[j]).0)
                ==> file_outcome(head, file_len, path) is Ok
            &&& starts && found is Err ==> file_outcome(head, file_len, path) == Err::<
                Architecture,
                ErrorModel,
            >(ErrorModel::ModelLoad)
        }),
{
    let key = "general.architecture"@;
    let found = catalog(head, file_len);
    if head.len() >= 4 {
        assert(head.take(4) == crate::formats::gguf::format::magic() <==> head[0] == 0x47 && head[1]
            == 0x47 && head[2] == 0x55 && head[3] == 0x46) by {
            let m = crate::formats::gguf::format::magic();
            if head[0] == 0x47 && head[1] == 0x47 && head[2] == 0x55 && head[3] == 0x46 {
                assert(head.take(4) =~= m);
            }
            if head.take(4) == m {
                assert(head.take(4)[0] == m[0] && head.take(4)[1] == m[1] && head.take(4)[2] == m[2]
                    && head.take(4)[3] == m[3]);
            }
        }
    }
    if let Ok(c) = found {
        lemma_lookup_found(c.metadata, key);
        if let Some(v) = crate::sequences::lookup(c.metadata, key) {
            let k = choose|k: int| 0 <= k < c.metadata.len() && #[trigger] c.metadata[k] == (key, v);
            if exists|i: int|
                0 <= i < c.metadata.len() && #[trigger] c.metadata[i] == (
                    key,
                    Datum::String("diffusion-gemma"@),
                ) {
                let i = choose|i: int|
                    0 <= i < c.metadata.len() && #[trigger] c.metadata[i] == (
                        key,
                        Datum::String("diffusion-gemma"@),
                    );
                if forall|i: int, j: int|
                    0 <= i < j < c.metadata.len() ==> (#[trigger] c.metadata[i]).0 != (
                    #[trigger] c.metadata[j]).0 {
                    if i < k {
                        assert(c.metadata[i].0 != c.metadata[k].0);
                    } else if k < i {
                        assert(c.metadata[k].0 != c.metadata[i].0);
                    }
                }
            }
        }
    }
}

/// A checkpoint is a language model of this kind exactly where its type or one of its classes says
/// so, and a speech model where its type does; neither is taken for the other.
pub proof fn law_checkpoints_are_known_by_their_type(config: Tree, dir: Seq<char>)
    ensures
        ({
            let kind = config.at("model_type"@);
            let classes = config.at("architectures"@);
            let named = kind == Tree::Text("nemotron_labs_diffusion"@) || kind == Tree::Text(
                "nemotron_labs_diffusion_vlm"@,
            );
            let listed = classes is List && (classes->List_0.contains(
                Tree::Text("NemotronLabsDiffusionModel"@),
            ) || classes->List_0.contains(Tree::Text("NemotronLabsDiffusionVLMModel"@)));
            &&& config_outcome(config, dir) is Ok <==> named || listed
            &&& config_outcome(config, dir) matches Ok(a) ==> a == Architecture::NemotronDiffusion
            &&& speech_outcome(config) is Ok <==> kind == Tree::Text("parakeet_tdt"@)
            &&& kind == Tree::Text("parakeet_tdt"@) && !listed ==> config_outcome(config, dir)
                == Err::<Architecture, ErrorModel>(
                ErrorModel::UnsupportedModel(
                    dir + " is a speech-to-text model; use it with --speech-model"@,
                ),
            )
        }),
{
    let kind = config.at("model_type"@);
    reveal_strlit("nemotron_labs_diffusion");
    reveal_strlit("nemotron_labs_diffusion_vlm");
    reveal_strlit("parakeet_tdt");
    assert("nemotron_labs_diffusion"@.len() == 23 && "nemotron_labs_diffusion_vlm"@.len() == 27
        && "parakeet_tdt"@.len() == 12);
    if let Tree::List(items) = config.at("architectures"@) {
        let (a, b) = (
            Tree::Text("NemotronLabsDiffusionModel"@),
            Tree::Text("NemotronLabsDiffusionVLMModel"@),
        );
        if items.contains(a) {
            let i = choose|i: int| 0 <= i < items.len() && items[i] == a;
            assert(nemotron_class(items[i]));
        }
        if items.contains(b) {
            let i = choose|i: int| 0 <= i < items.len() && items[i] == b;
            assert(nemotron_class(items[i]));
        }
        if exists|i: int| 0 <= i < items.len() && nemotron_class(#[trigger] items[i]) {
            let i = choose|i: int| 0 <= i < items.len() && nemotron_class(#[trigger] items[i]);
            assert(items.contains(items[i]));
        }
    }
}

/// A Nemotron checkpoint is served under the size that its layers and its width have, and under the
/// ID of its architecture where they are no known size.
pub proof fn law_models_are_served_under_their_size(layers: u64, hidden: u64, config: Tree)
    requires
        config.at("num_hidden_layers"@) == Tree::Unsigned(layers),
        config.at("hidden_size"@) == Tree::Unsigned(hidden),
    ensures
        ({
            let id = served_id(Some(config), Architecture::NemotronDiffusion);
            let start = "nemotron-diffusion-"@;
            &&& layers == 26 && hidden == 3072 ==> id == start + "3b"@
            &&& layers == 34 && hidden == 4096 ==> id == start + "8b"@
            &&& layers == 40 && hidden == 5120 ==> id == start + "14b"@
            &&& !(layers == 26 && hidden == 3072) && !(layers == 34 && hidden == 4096) && !(layers
                == 40 && hidden == 5120) ==> id == "nemotron-diffusion-8b"@
            &&& served_id(Some(config), Architecture::Gemma4Diffusion) == "gemmadiffusion-0.1"@
        }),
{
}

} // verus!
