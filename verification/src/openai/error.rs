//! OpenAI-style errors.
use crate::json::{Json, Tree};
use vstd::prelude::*;
use vstd::string::*;

verus! {

/// An OpenAI-style error: `{"error": {"message", "type", "param", "code"}}`.
#[derive(Clone, Debug, PartialEq, Eq)]
pub struct OpenAiError {
    pub status: u16,
    pub kind: &'static str,
    pub message: String,
    pub param: Option<String>,
    pub code: Option<&'static str>,
}

/// The mathematical model of an [`OpenAiError`].
#[verifier::ext_equal]
pub struct Fault {
    pub status: u16,
    pub kind: Seq<char>,
    pub message: Seq<char>,
    pub param: Option<Seq<char>>,
    pub code: Option<Seq<char>>,
}

impl View for OpenAiError {
    type V = Fault;

    open spec fn view(&self) -> Fault {
        Fault {
            status: self.status,
            kind: self.kind@,
            message: self.message@,
            param: match self.param {
                Some(p) => Some(p@),
                None => None,
            },
            code: match self.code {
                Some(c) => Some(c@),
                None => None,
            },
        }
    }
}

/// A malformed request: status 400, with the parameter it is about.
pub open spec fn invalid_fault(message: Seq<char>, param: Option<Seq<char>>) -> Fault {
    Fault { status: 400, kind: "invalid_request_error"@, message, param, code: None }
}

/// A parameter that is understood but not implemented.
pub open spec fn unsupported_fault(param: Seq<char>, detail: Seq<char>) -> Fault {
    Fault {
        status: 400,
        kind: "invalid_request_error"@,
        message: param + " is not supported: "@ + detail,
        param: Some(param),
        code: Some("unsupported_parameter"@),
    }
}

/// A string, or null.
pub open spec fn optional_text(text: Option<Seq<char>>) -> Tree {
    match text {
        Some(s) => Tree::Text(s),
        None => Tree::Null,
    }
}

impl Fault {
    /// The JSON body of the error.
    pub open spec fn body(self) -> Tree {
        Tree::Object(
            seq![
                (
                    "error"@,
                    Tree::Object(
                        seq![
                            ("code"@, optional_text(self.code)),
                            ("message"@, Tree::Text(self.message)),
                            ("param"@, optional_text(self.param)),
                            ("type"@, Tree::Text(self.kind)),
                        ],
                    ),
                ),
            ],
        )
    }
}

impl OpenAiError {
    pub fn invalid(message: &str, param: Option<&str>) -> (r: Self)
        ensures
            r@ == invalid_fault(
                message@,
                match param {
                    Some(p) => Some(p@),
                    None => None,
                },
            ),
    {
        OpenAiError {
            status: 400,
            kind: "invalid_request_error",
            message: message.to_owned(),
            param: match param {
                Some(p) => Some(p.to_owned()),
                None => None,
            },
            code: None,
        }
    }

    pub fn unsupported(param: &str, detail: &str) -> (r: Self)
        ensures
            r@ == unsupported_fault(param@, detail@),
    {
        let message: String = param.to_owned().concat(" is not supported: ").concat(detail);
        OpenAiError {
            status: 400,
            kind: "invalid_request_error",
            message,
            param: Some(param.to_owned()),
            code: Some("unsupported_parameter"),
        }
    }

    pub fn new(status: u16, kind: &'static str, message: &str) -> (r: Self)
        ensures
            r@ == (Fault { status, kind: kind@, message: message@, param: None, code: None }),
    {
        OpenAiError { status, kind, message: message.to_owned(), param: None, code: None }
    }

    /// The JSON body that answers a request with this error.
    pub fn body(&self) -> (r: Json)
        ensures
            r@ == self@.body(),
    {
        let code: Json = match self.code {
            Some(c) => Json::Text(c.to_owned()),
            None => Json::Null,
        };
        let param: Json = match &self.param {
            Some(p) => Json::Text(p.clone()),
            None => Json::Null,
        };
        let message: Json = Json::Text(self.message.clone());
        let kind: Json = Json::Text(self.kind.to_owned());
        let ghost parts = (code@, message@, param@, kind@);
        let mut members: Vec<(String, Json)> = Vec::new();
        members.push(("code".to_owned(), code));
        members.push(("message".to_owned(), message));
        members.push(("param".to_owned(), param));
        members.push(("type".to_owned(), kind));
        let inner: Json = Json::Object(members);
        let mut outer: Vec<(String, Json)> = Vec::new();
        outer.push(("error".to_owned(), inner));
        let body: Json = Json::Object(outer);
        proof {
            let want = self@.body();
            assert(parts.0 == optional_text(self@.code));
            assert(parts.1 == Tree::Text(self@.message));
            assert(parts.2 == optional_text(self@.param));
            assert(parts.3 == Tree::Text(self@.kind));
            assert(inner@->Object_0 =~= (want->Object_0)[0].1->Object_0);
            assert(body@->Object_0 =~= want->Object_0);
        }
        body
    }
}

} // verus!
