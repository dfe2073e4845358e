//! The course of a generation request: what the worker reports, and what the client gets.
use crate::error::{Error, ErrorModel};
use crate::generation::Generation;
use crate::openai::error::{invalid_fault, Fault, OpenAiError};
use crate::sequences::texts;
use crate::server::error::{detail, validation_body, ApiError, ApiFault};
use crate::text::{quoted, quoted_text};
use vstd::prelude::*;
use vstd::string::*;

verus! {

/// Progress of a generation job: answer text as it is decided, then the result.
#[derive(Debug)]
pub enum Update {
    Text(String),
    Done(Result<Generation, Error>),
}

/// What happened to a job that was handed to the queue.
#[derive(Clone, Copy, Debug, PartialEq, Eq, Structural)]
pub enum Queued {
    Accepted,
    Full,
    Closed,
}

/// Whether a job was accepted.
pub fn submitted(outcome: Queued) -> (r: Result<(), ApiError>)
    ensures
        r is Ok <==> outcome == Queued::Accepted,
        r matches Err(e) ==> e@ == if outcome == Queued::Full {
            ApiFault {
                status: 529,
                body: detail(
                    "overloaded_error"@,
                    "The inference queue is full. Retry later."@,
                ),
            }
        } else {
            ApiFault {
                status: 503,
                body: detail("overloaded_error"@, "The inference worker is unavailable"@),
            }
        },
{
    match outcome {
        Queued::Accepted => Ok(()),
        Queued::Full => Err(ApiError::overloaded()),
        Queued::Closed => Err(ApiError::unavailable()),
    }
}

/// The OpenAI-style error of a failed generation: invalid input is the client's, all else ours.
pub open spec fn generation_fault(error: ErrorModel) -> Fault {
    match error {
        ErrorModel::InvalidInput(message) => invalid_fault(message, None),
        _ => Fault {
            status: 500,
            kind: "server_error"@,
            message: "Generation failed"@,
            param: None,
            code: None,
        },
    }
}

pub fn engine_error(error: &Error) -> (r: OpenAiError)
    ensures
        r@ == generation_fault(error@),
{
    match error {
        Error::InvalidInput(message) => OpenAiError::invalid(message.as_str(), None),
        _ => OpenAiError::new(500, "server_error", "Generation failed"),
    }
}

/// The error of a failed read: invalid input is the client's, all else ours.
pub open spec fn read_fault(error: ErrorModel) -> ApiFault {
    match error {
        ErrorModel::InvalidInput(message) => ApiFault {
            status: 422,
            body: validation_body(seq!["body"@], message, "value_error"@),
        },
        _ => ApiFault { status: 500, body: detail("internal_error"@, "Inference failed"@) },
    }
}

pub fn read_error(error: &Error) -> (r: ApiError)
    ensures
        r@ == read_fault(error@),
{
    match error {
        Error::InvalidInput(message) => {
            let mut loc: Vec<String> = Vec::new();
            loc.push("body".to_owned());
            assert(texts(loc@) =~= seq!["body"@]);
            ApiError::validation(&loc, message.as_str(), "value_error")
        },
        _ => ApiError::new(500, "internal_error", "Inference failed"),
    }
}

/// Why a System One request has no answer.
#[derive(Debug)]
pub enum Unanswered {
    /// The body is too large.
    TooLarge,
    /// The body is no JSON, for this reason.
    NoJson(String),
    /// The model is not served.
    UnknownModel,
    /// The questions cannot be asked, for this reason.
    Questions(String),
    /// The read failed.
    Read(Error),
    /// The answers do not fit the questions.
    Mapping,
}

/// The response to a System One request without an answer.
pub open spec fn unanswered_fault(reason: Unanswered) -> ApiFault {
    match reason {
        Unanswered::TooLarge => ApiFault {
            status: 413,
            body: detail("invalid_request_error"@, "Request body exceeds 64 MiB"@),
        },
        Unanswered::NoJson(text) => ApiFault {
            status: 422,
            body: validation_body(seq!["body"@], text@, "json_invalid"@),
        },
        Unanswered::UnknownModel => ApiFault {
            status: 404,
            body: detail("not_found_error"@, "Unknown model"@),
        },
        Unanswered::Questions(text) => ApiFault {
            status: 422,
            body: validation_body(seq!["body"@, "questions"@], text@, "value_error"@),
        },
        Unanswered::Read(error) => read_fault(error@),
        Unanswered::Mapping => ApiFault {
            status: 500,
            body: detail("internal_error"@, "Answer mapping failed"@),
        },
    }
}

pub fn unanswered(reason: &Unanswered) -> (r: ApiError)
    ensures
        r@ == unanswered_fault(*reason),
{
    let mut loc: Vec<String> = Vec::new();
    loc.push("body".to_owned());
    assert(texts(loc@) =~= seq!["body"@]);
    match reason {
        Unanswered::TooLarge => ApiError::new(
            413,
            "invalid_request_error",
            "Request body exceeds 64 MiB",
        ),
        Unanswered::NoJson(text) => ApiError::validation(&loc, text.as_str(), "json_invalid"),
        Unanswered::UnknownModel => ApiError::new(404, "not_found_error", "Unknown model"),
        Unanswered::Questions(text) => {
            loc.push("questions".to_owned());
            assert(texts(loc@) =~= seq!["body"@, "questions"@]);
            ApiError::validation(&loc, text.as_str(), "value_error")
        },
        Unanswered::Read(error) => read_error(error),
        Unanswered::Mapping => ApiError::new(500, "internal_error", "Answer mapping failed"),
    }
}

/// The error of a request for a model that is not served.
pub fn unknown_model(model: &str) -> (r: OpenAiError)
    ensures
        r@ == (Fault {
            status: 404,
            kind: "invalid_request_error"@,
            message: "The model "@ + quoted_text(model@) + " does not exist"@,
            param: Some("model"@),
            code: Some("model_not_found"@),
        }),
{
    let message: String = "The model ".to_owned().concat(quoted(model).as_str()).concat(
        " does not exist",
    );
    OpenAiError {
        status: 404,
        kind: "invalid_request_error",
        message,
        param: Some("model".to_owned()),
        code: Some("model_not_found"),
    }
}

/// What to do with an update of a request that is answered at once.
#[derive(Debug)]
pub enum Collected {
    /// Wait for the next update.
    Waiting,
    Answer(Generation),
    Failed(ApiError),
}

/// Takes an update (none where the worker is gone) of a request that is answered at once.
pub fn collect(update: Option<Update>) -> (r: Collected)
    ensures
        match update {
            None => r matches Collected::Failed(e) && e@ == (ApiFault {
                status: 503,
                body: detail("overloaded_error"@, "The inference worker is unavailable"@),
            }),
            Some(Update::Text(_)) => r is Waiting,
            Some(Update::Done(Ok(g))) => r == Collected::Answer(g),
            Some(Update::Done(Err(error))) => r matches Collected::Failed(e) && e@ == (ApiFault {
                status: generation_fault(error@).status,
                body: generation_fault(error@).body(),
            }),
        },
{
    match update {
        None => Collected::Failed(ApiError::unavailable()),
        Some(Update::Text(_)) => Collected::Waiting,
        Some(Update::Done(Ok(g))) => Collected::Answer(g),
        Some(Update::Done(Err(error))) => Collected::Failed(
            ApiError::from_openai(&engine_error(&error)),
        ),
    }
}

/// What to render of an update of a streamed request.
#[derive(Debug)]
pub enum Rendered {
    Nothing,
    Delta(String),
    Finish(Generation),
    Error(OpenAiError),
}

/// A streamed answer: done once a result was rendered.
#[derive(Debug)]
pub struct Relay {
    pub done: bool,
}

/// A worker that stopped fails the answer.
pub open spec fn worker_stopped() -> ErrorModel {
    ErrorModel::Backend("the worker stopped"@)
}

/// What an update renders; none where the worker is gone.
pub open spec fn rendering(update: Option<Update>, r: Rendered) -> bool {
    match update {
        None => r matches Rendered::Error(e) && e@ == generation_fault(worker_stopped()),
        Some(Update::Text(text)) => if text@.len() == 0 {
            r is Nothing
        } else {
            r == Rendered::Delta(text)
        },
        Some(Update::Done(Ok(g))) => r == Rendered::Finish(g),
        Some(Update::Done(Err(error))) => r matches Rendered::Error(e) && e@ == generation_fault(
            error@,
        ),
    }
}

impl Relay {
    pub fn new() -> (r: Self)
        ensures
            !r.done,
    {
        Relay { done: false }
    }

    /// The first update decides whether there is a stream at all: a prompt that is refused fails
    /// with a status, not mid-stream.
    pub fn opens(first: &Option<Update>) -> (r: Result<(), ApiError>)
        ensures
            match first {
                None => r matches Err(e) && e@ == (ApiFault {
                    status: 503,
                    body: detail("overloaded_error"@, "The inference worker is unavailable"@),
                }),
                Some(Update::Done(Err(error))) => r matches Err(e) && e@ == (ApiFault {
                    status: generation_fault(error@).status,
                    body: generation_fault(error@).body(),
                }),
                Some(_) => r is Ok,
            },
    {
        match first {
            None => Err(ApiError::unavailable()),
            Some(Update::Done(Err(error))) => Err(ApiError::from_openai(&engine_error(error))),
            Some(_) => Ok(()),
        }
    }

    /// Takes an update, or learns that the worker is gone. After a result, nothing more follows.
    pub fn take(&mut self, update: Option<Update>) -> (r: Rendered)
        requires
            !old(self).done,
        ensures
            rendering(update, r),
            final(self).done <==> (r is Finish || r is Error),
    {
        match update {
            None => {
                self.done = true;
                let stopped: Error = Error::Backend("the worker stopped".to_owned());
                Rendered::Error(engine_error(&stopped))
            },
            Some(Update::Text(text)) => {
                if text.as_str().unicode_len() == 0 {
                    Rendered::Nothing
                } else {
                    Rendered::Delta(text)
                }
            },
            Some(Update::Done(Ok(g))) => {
                self.done = true;
                Rendered::Finish(g)
            },
            Some(Update::Done(Err(error))) => {
                self.done = true;
                Rendered::Error(engine_error(&error))
            },
        }
    }
}

} // verus!
