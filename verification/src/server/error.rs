//! Errors as HTTP responses.
use crate::json::{Json, Tree};
use crate::openai::error::{Fault, OpenAiError};
use vstd::prelude::*;
use vstd::string::*;

verus! {

/// A failed request: its status and JSON body.
#[derive(Debug)]
pub struct ApiError {
    pub status: u16,
    pub body: Json,
}

/// The mathematical model of an [`ApiError`].
#[verifier::ext_equal]
pub struct ApiFault {
    pub status: u16,
    pub body: Tree,
}

impl View for ApiError {
    type V = ApiFault;

    open spec fn view(&self) -> ApiFault {
        ApiFault { status: self.status, body: self.body@ }
    }
}

/// `{"detail": {"error_type": kind, "message": message}}`.
pub open spec fn detail(kind: Seq<char>, message: Seq<char>) -> Tree {
    Tree::Object(
        seq![
            (
                "detail"@,
                Tree::Object(
                    seq![
                        ("error_type"@, Tree::Text(kind)),
                        ("message"@, Tree::Text(message)),
                    ],
                ),
            ),
        ],
    )
}

/// The texts as JSON strings.
pub open spec fn strings(list: Seq<Seq<char>>) -> Seq<Tree> {
    Seq::new(list.len(), |i: int| Tree::Text(list[i]))
}

/// `{"detail": [{"loc": [..], "msg": .., "type": ..}]}`.
pub open spec fn validation_body(loc: Seq<Seq<char>>, message: Seq<char>, kind: Seq<char>) -> Tree {
    Tree::Object(
        seq![
            (
                "detail"@,
                Tree::List(
                    seq![
                        Tree::Object(
                            seq![
                                ("loc"@, Tree::List(strings(loc))),
                                ("msg"@, Tree::Text(message)),
                                ("type"@, Tree::Text(kind)),
                            ],
                        ),
                    ],
                ),
            ),
        ],
    )
}

/// The kind of an OpenAI-style error with this status.
pub open spec fn kind_of(status: u16) -> Seq<char> {
    if status == 401 || status == 403 {
        "authentication_error"@
    } else if status == 404 {
        "not_found_error"@
    } else if status == 529 || status == 503 {
        "overloaded_error"@
    } else {
        "server_error"@
    }
}

/// The message of a body.
pub open spec fn message_of(body: Tree) -> Seq<char> {
    match body.at("detail"@).at("message"@) {
        Tree::Text(message) => message,
        _ => "Request failed"@,
    }
}

impl ApiFault {
    /// The same failure in the OpenAI error shape.
    pub open spec fn openai(self) -> ApiFault {
        if self.body.entry("error"@) is Some {
            self
        } else {
            ApiFault {
                status: self.status,
                body: (Fault {
                    status: self.status,
                    kind: kind_of(self.status),
                    message: message_of(self.body),
                    param: None,
                    code: None,
                }).body(),
            }
        }
    }
}

pub(crate) fn member(key: &str, value: Json) -> (r: (String, Json))
    ensures
        r.0@ == key@,
        r.1 == value,
{
    (key.to_owned(), value)
}

pub(crate) fn text_json(text: &str) -> (r: Json)
    ensures
        r@ == Tree::Text(text@),
{
    Json::Text(text.to_owned())
}

impl ApiError {
    pub fn new(status: u16, kind: &str, message: &str) -> (r: Self)
        ensures
            r@ == (ApiFault { status, body: detail(kind@, message@) }),
    {
        let mut inner: Vec<(String, Json)> = Vec::new();
        inner.push(member("error_type", text_json(kind)));
        inner.push(member("message", text_json(message)));
        let object: Json = Json::Object(inner);
        proof {
            assert(object@->Object_0 =~= seq![
                ("error_type"@, Tree::Text(kind@)),
                ("message"@, Tree::Text(message@)),
            ]);
        }
        let mut outer: Vec<(String, Json)> = Vec::new();
        outer.push(member("detail", object));
        let body: Json = Json::Object(outer);
        proof {
            assert(body@->Object_0 =~= seq![("detail"@, object@)]);
        }
        ApiError { status, body }
    }

    /// The inference queue is full.
    pub fn overloaded() -> (r: Self)
        ensures
            r@ == (ApiFault {
                status: 529,
                body: detail(
                    "overloaded_error"@,
                    "The inference queue is full. Retry later."@,
                ),
            }),
    {
        ApiError::new(529, "overloaded_error", "The inference queue is full. Retry later.")
    }

    /// The inference worker is gone.
    pub fn unavailable() -> (r: Self)
        ensures
            r@ == (ApiFault {
                status: 503,
                body: detail("overloaded_error"@, "The inference worker is unavailable"@),
            }),
    {
        ApiError::new(503, "overloaded_error", "The inference worker is unavailable")
    }

    /// A request that does not validate: where, why and of which kind.
    pub fn validation(loc: &Vec<String>, message: &str, kind: &str) -> (r: Self)
        ensures
            r@ == (ApiFault {
                status: 422,
                body: validation_body(crate::sequences::texts(loc@), message@, kind@),
            }),
    {
        let ghost place = crate::sequences::texts(loc@);
        let mut path: Vec<Json> = Vec::new();
        let mut i: usize = 0;
        while i < loc.len()
            invariant
                i <= loc@.len(),
                path@.len() == i,
                forall|k: int| 0 <= k < i ==> (#[trigger] path@[k])@ == Tree::Text(loc@[k]@),
            decreases loc@.len() - i,
        {
            path.push(Json::Text(loc[i].as_str().to_owned()));
            i += 1;
        }
        let places: Json = Json::List(path);
        proof {
            assert(places@->List_0 =~= strings(place));
        }
        let mut inner: Vec<(String, Json)> = Vec::new();
        inner.push(member("loc", places));
        inner.push(member("msg", text_json(message)));
        inner.push(member("type", text_json(kind)));
        let object: Json = Json::Object(inner);
        proof {
            assert(object@->Object_0 =~= seq![
                ("loc"@, places@),
                ("msg"@, Tree::Text(message@)),
                ("type"@, Tree::Text(kind@)),
            ]);
        }
        let mut list: Vec<Json> = Vec::new();
        list.push(object);
        let errors: Json = Json::List(list);
        proof {
            assert(errors@->List_0 =~= seq![object@]);
        }
        let mut outer: Vec<(String, Json)> = Vec::new();
        outer.push(member("detail", errors));
        let body: Json = Json::Object(outer);
        proof {
            assert(body@->Object_0 =~= seq![("detail"@, errors@)]);
        }
        ApiError { status: 422, body }
    }

    /// An OpenAI-style error; a status that HTTP does not know becomes 400.
    pub fn from_openai(error: &OpenAiError) -> (r: Self)
        ensures
            r@ == (ApiFault {
                status: if 100 <= error.status <= 999 {
                    error.status
                } else {
                    400
                },
                body: error@.body(),
            }),
    {
        let status: u16 = if 100 <= error.status && error.status <= 999 {
            error.status
        } else {
            400
        };
        ApiError { status, body: error.body() }
    }

    /// The same failure in the OpenAI error shape.
    pub fn openai(self) -> (r: Self)
        ensures
            r@ == self@.openai(),
    {
        if self.body.get("error").is_some() {
            return self;
        }
        let message: String = match self.body.get("detail") {
            Some(found) => match found.text_at("message") {
                Some(text) => text.to_owned(),
                None => "Request failed".to_owned(),
            },
            None => "Request failed".to_owned(),
        };
        let kind: &'static str = if self.status == 401 || self.status == 403 {
            "authentication_error"
        } else if self.status == 404 {
            "not_found_error"
        } else if self.status == 529 || self.status == 503 {
            "overloaded_error"
        } else {
            "server_error"
        };
        let error: OpenAiError = OpenAiError::new(self.status, kind, message.as_str());
        ApiError { status: self.status, body: error.body() }
    }

    /// Seconds after which the client may retry.
    pub fn retry_after(&self) -> (r: Option<u32>)
        ensures
            r == if self.status == 529 {
                Some(1u32)
            } else {
                None::<u32>
            },
    {
        if self.status == 529 {
            Some(1)
        } else {
            None
        }
    }
}

/// Rendering a failure in the OpenAI shape twice is rendering it once, and keeps its status.
pub proof fn law_openai_shape_is_stable(fault: ApiFault)
    ensures
        fault.openai().openai() == fault.openai(),
        fault.openai().status == fault.status,
        fault.openai().body.entry("error"@) is Some,
{
    if fault.body.entry("error"@) is None {
        let shaped = fault.openai();
        let members = shaped.body->Object_0;
        assert(members[0].0 == "error"@);
        assert(crate::sequences::lookup(members, "error"@) is Some);
    }
}

} // verus!
