//! Free-form generation requests and their answers.
use crate::error::{Error, ErrorModel, Result};
use crate::sequences::texts;
use vstd::prelude::*;

verus! {

/// Most stop sequences a request may name.
pub const MAX_STOP_SEQUENCES: usize = 4;

/// Who speaks in a conversation.
#[derive(Clone, Copy, Debug, PartialEq, Eq, Structural)]
pub enum Role {
    System,
    User,
    Assistant,
}

/// One turn of a conversation.
#[derive(Clone, Debug, PartialEq, Eq)]
pub struct Message {
    pub role: Role,
    pub text: String,
}

impl View for Message {
    type V = (Role, Seq<char>);

    open spec fn view(&self) -> (Role, Seq<char>) {
        (self.role, self.text@)
    }
}

/// The role and text of each message.
pub open spec fn turns(messages: Seq<Message>) -> Seq<(Role, Seq<char>)> {
    Seq::new(messages.len(), |i: int| messages[i]@)
}

/// What to continue: a conversation framed by the model's chat format, or plain text.
#[derive(Clone, Debug, PartialEq, Eq)]
pub enum GenerationPrompt {
    Chat(Vec<Message>),
    Text(String),
}

/// The mathematical model of a [`GenerationPrompt`].
#[verifier::ext_equal]
pub enum PromptModel {
    Chat(Seq<(Role, Seq<char>)>),
    Text(Seq<char>),
}

impl View for GenerationPrompt {
    type V = PromptModel;

    open spec fn view(&self) -> PromptModel {
        match self {
            GenerationPrompt::Chat(messages) => PromptModel::Chat(turns(messages@)),
            GenerationPrompt::Text(text) => PromptModel::Text(text@),
        }
    }
}

/// A generation to run.
#[derive(Clone, Debug, PartialEq, Eq)]
pub struct GenerationRequest {
    pub prompt: GenerationPrompt,
    pub max_tokens: Option<usize>,
    /// Most tokens of a thought before the answer; zero for none.
    pub think: usize,
    pub stop: Vec<String>,
}

/// The mathematical model of a [`GenerationRequest`].
#[verifier::ext_equal]
pub struct RequestModel {
    pub prompt: PromptModel,
    pub max_tokens: Option<usize>,
    pub think: usize,
    pub stop: Seq<Seq<char>>,
}

impl View for GenerationRequest {
    type V = RequestModel;

    open spec fn view(&self) -> RequestModel {
        RequestModel {
            prompt: self.prompt@,
            max_tokens: self.max_tokens,
            think: self.think,
            stop: texts(self.stop@),
        }
    }
}

/// At most [`MAX_STOP_SEQUENCES`] stop sequences, none of them empty.
pub open spec fn stops_allowed(stop: Seq<Seq<char>>) -> bool {
    &&& stop.len() <= MAX_STOP_SEQUENCES
    &&& forall|i: int| 0 <= i < stop.len() ==> (#[trigger] stop[i]).len() > 0
}

/// Whether `stop` holds at most [`MAX_STOP_SEQUENCES`] sequences, none of them empty.
pub fn check_stops(stop: &Vec<String>) -> (r: bool)
    ensures
        r == stops_allowed(texts(stop@)),
{
    if stop.len() > MAX_STOP_SEQUENCES {
        return false;
    }
    let mut i: usize = 0;
    while i < stop.len()
        invariant
            i <= stop@.len(),
            forall|k: int| 0 <= k < i ==> (#[trigger] texts(stop@)[k]).len() > 0,
        decreases stop@.len() - i,
    {
        if stop[i].as_str().is_empty() {
            assert(texts(stop@)[i as int].len() == 0);
            return false;
        }
        i += 1;
    }
    true
}

impl GenerationRequest {
    /// Whether the request can be run at all: its stop sequences are allowed.
    pub fn validate(&self) -> (r: Result<()>)
        ensures
            r is Ok <==> stops_allowed(self@.stop),
            r matches Err(e) ==> e@ == ErrorModel::InvalidInput(
                "stop must hold at most 4 nonempty sequences"@,
            ),
    {
        if check_stops(&self.stop) {
            Ok(())
        } else {
            Err(Error::input("stop must hold at most 4 nonempty sequences"))
        }
    }
}

/// Why an answer ended.
#[derive(Clone, Copy, Debug, PartialEq, Eq, Structural)]
pub enum FinishReason {
    Stop,
    Length,
}

/// A finished answer.
#[derive(Clone, Debug, PartialEq, Eq)]
pub struct Generation {
    pub text: String,
    pub prompt_tokens: usize,
    pub completion_tokens: usize,
    pub reasoning_tokens: usize,
    pub finish: FinishReason,
}

} // verus!
