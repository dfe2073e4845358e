//! Errors of the engine and of model loading.
use vstd::prelude::*;
use vstd::string::*;

verus! {

/// What an engine or a model reports.
#[derive(Clone, Debug, PartialEq, Eq)]
pub enum Error {
    /// The caller's request cannot be run.
    InvalidInput(String),
    /// The checkpoint is not one that this runtime implements.
    UnsupportedModel(String),
    /// The model's files cannot be read.
    ModelLoad,
    /// The device failed.
    Backend(String),
    /// Logits were asked for before a forward.
    MissingLogits,
    /// The model returned logits of the wrong shape.
    InvalidLogits,
}

pub type Result<T> = core::result::Result<T, Error>;

/// The mathematical model of an [`Error`].
#[verifier::ext_equal]
pub enum ErrorModel {
    InvalidInput(Seq<char>),
    UnsupportedModel(Seq<char>),
    ModelLoad,
    Backend(Seq<char>),
    MissingLogits,
    InvalidLogits,
}

impl View for Error {
    type V = ErrorModel;

    open spec fn view(&self) -> ErrorModel {
        match self {
            Error::InvalidInput(m) => ErrorModel::InvalidInput(m@),
            Error::UnsupportedModel(m) => ErrorModel::UnsupportedModel(m@),
            Error::ModelLoad => ErrorModel::ModelLoad,
            Error::Backend(m) => ErrorModel::Backend(m@),
            Error::MissingLogits => ErrorModel::MissingLogits,
            Error::InvalidLogits => ErrorModel::InvalidLogits,
        }
    }
}

impl ErrorModel {
    /// The text shown to a user.
    pub open spec fn message(self) -> Seq<char> {
        match self {
            ErrorModel::InvalidInput(m) => m,
            ErrorModel::UnsupportedModel(m) => "Unsupported model: "@ + m,
            ErrorModel::ModelLoad => "The model could not be loaded"@,
            ErrorModel::Backend(m) => "Backend error: "@ + m,
            ErrorModel::MissingLogits => "No logits are available"@,
            ErrorModel::InvalidLogits => "The model returned invalid logits"@,
        }
    }
}

impl Error {
    /// An [`Error::InvalidInput`] with this message.
    pub fn input(message: &str) -> (r: Error)
        ensures
            r@ == ErrorModel::InvalidInput(message@),
    {
        Error::InvalidInput(message.to_owned())
    }

    /// An [`Error::UnsupportedModel`] with this message.
    pub fn unsupported(message: &str) -> (r: Error)
        ensures
            r@ == ErrorModel::UnsupportedModel(message@),
    {
        Error::UnsupportedModel(message.to_owned())
    }

    /// The text shown to a user.
    pub fn message(&self) -> (r: String)
        ensures
            r@ == self@.message(),
    {
        match self {
            Error::InvalidInput(m) => m.clone(),
            Error::UnsupportedModel(m) => "Unsupported model: ".to_owned().concat(m.as_str()),
            Error::ModelLoad => "The model could not be loaded".to_owned(),
            Error::Backend(m) => "Backend error: ".to_owned().concat(m.as_str()),
            Error::MissingLogits => "No logits are available".to_owned(),
            Error::InvalidLogits => "The model returned invalid logits".to_owned(),
        }
    }
}

} // verus!
