//! Errors of the DiffusionGemma model.
use crate::error::{Error, ErrorModel};
use crate::formats::gguf::value::{GgufError, GgufFault};
use vstd::prelude::*;
use vstd::string::*;

verus! {

/// Why a model cannot be loaded or run.
#[derive(Debug)]
pub enum ModelError {
    Gguf(GgufError),
    Unsupported(String),
    Input(String),
}

/// The mathematical model of a [`ModelError`].
#[verifier::ext_equal]
pub enum ModelFault {
    Gguf(GgufFault),
    Unsupported(Seq<char>),
    Input(Seq<char>),
}

impl View for ModelError {
    type V = ModelFault;

    open spec fn view(&self) -> ModelFault {
        match self {
            ModelError::Gguf(e) => ModelFault::Gguf(e@),
            ModelError::Unsupported(message) => ModelFault::Unsupported(message@),
            ModelError::Input(message) => ModelFault::Input(message@),
        }
    }
}

pub type Result<T> = core::result::Result<T, ModelError>;

impl ModelFault {
    pub open spec fn message(self) -> Seq<char> {
        match self {
            ModelFault::Gguf(e) => e.message(),
            ModelFault::Unsupported(message) => "Unsupported model: "@ + message,
            ModelFault::Input(message) => "Invalid input: "@ + message,
        }
    }

    /// The error of a server over this model.
    pub open spec fn served(self) -> ErrorModel {
        match self {
            ModelFault::Gguf(_) => ErrorModel::ModelLoad,
            ModelFault::Unsupported(message) => ErrorModel::Backend(message),
            ModelFault::Input(message) => ErrorModel::InvalidInput(message),
        }
    }
}

impl ModelError {
    pub fn message(&self) -> (r: String)
        ensures
            r@ == self@.message(),
    {
        match self {
            ModelError::Gguf(e) => e.message(),
            ModelError::Unsupported(message) => "Unsupported model: ".to_owned().concat(
                message.as_str(),
            ),
            ModelError::Input(message) => "Invalid input: ".to_owned().concat(message.as_str()),
        }
    }
}

pub fn unsupported<T>(message: &str) -> (r: Result<T>)
    ensures
        r matches Err(e) && e@ == ModelFault::Unsupported(message@),
{
    Err(ModelError::Unsupported(message.to_owned()))
}

pub fn input<T>(message: &str) -> (r: Result<T>)
    ensures
        r matches Err(e) && e@ == ModelFault::Input(message@),
{
    Err(ModelError::Input(message.to_owned()))
}

/// What a server reports for an error of the model.
pub fn map(error: ModelError) -> (r: Error)
    ensures
        r@ == error@.served(),
{
    match error {
        ModelError::Input(message) => Error::InvalidInput(message),
        ModelError::Gguf(_) => Error::ModelLoad,
        ModelError::Unsupported(message) => Error::Backend(message),
    }
}

} // verus!
