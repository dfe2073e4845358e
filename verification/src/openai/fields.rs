//! The fields of a request object: what each may hold, and the fault of one that holds
//! something else.
use crate::json::{Json, Tree};
use crate::openai::error::{invalid_fault, unsupported_fault, Fault, OpenAiError};
use crate::text::{decimal, digits, same_text};
use vstd::prelude::*;
use vstd::string::*;

verus! {

/// The fault of the first check that has one.
pub open spec fn first(check: Option<Fault>, rest: Option<Fault>) -> Option<Fault> {
    match check {
        Some(fault) => Some(fault),
        None => rest,
    }
}

/// A string field that holds something else.
pub open spec fn string_fault(body: Tree, key: Seq<char>) -> Option<Fault> {
    match body.present(key) {
        None | Some(Tree::Text(_)) => None,
        Some(_) => Some(invalid_fault(key + " must be a string"@, Some(key))),
    }
}

/// The text of a string field.
pub open spec fn string_value(body: Tree, key: Seq<char>) -> Option<Seq<char>> {
    match body.present(key) {
        Some(Tree::Text(s)) => Some(s),
        _ => None,
    }
}

/// A boolean field that holds something else.
pub open spec fn boolean_fault(body: Tree, key: Seq<char>) -> Option<Fault> {
    match body.present(key) {
        None | Some(Tree::Bool(_)) => None,
        Some(_) => Some(invalid_fault(key + " must be a boolean"@, Some(key))),
    }
}

/// A boolean field; false where it is absent.
pub open spec fn boolean_value(body: Tree, key: Seq<char>) -> bool {
    body.present(key) == Some(Tree::Bool(true))
}

/// An integer field that holds anything but an integer from `min` to `max`.
pub open spec fn integer_fault(body: Tree, key: Seq<char>, min: u64, max: u64) -> Option<Fault> {
    match body.present(key) {
        None => None,
        Some(Tree::Unsigned(n)) if min <= n <= max => None,
        Some(_) => Some(
            invalid_fault(
                key + " must be an integer from "@ + digits(min as nat) + " to "@ + digits(
                    max as nat,
                ),
                Some(key),
            ),
        ),
    }
}

/// An integer field.
pub open spec fn integer_value(body: Tree, key: Seq<char>) -> Option<u64> {
    match body.present(key) {
        Some(Tree::Unsigned(n)) => Some(n),
        _ => None,
    }
}

/// The bit pattern of the double `n`, for `n` up to 2.
pub open spec fn double_bits(n: u64) -> u64 {
    if n == 0 {
        0
    } else if n == 1 {
        0x3FF0_0000_0000_0000
    } else {
        0x4000_0000_0000_0000
    }
}

/// The bits of a number from 0 to `max` (1 or 2), as a double. Nonnegative doubles are ordered
/// as their bits are, and negative zero counts as zero.
pub open spec fn number_bits(value: Tree, max: u64) -> Option<u64> {
    match value {
        Tree::Unsigned(n) if n <= max => Some(double_bits(n)),
        Tree::Float(b) if b <= double_bits(max) || b == 0x8000_0000_0000_0000 => Some(b),
        _ => None,
    }
}

/// A number field that holds anything but a number from 0 to `max`.
pub open spec fn number_fault(body: Tree, key: Seq<char>, max: u64) -> Option<Fault> {
    match body.present(key) {
        None => None,
        Some(value) => if number_bits(value, max) is Some {
            None
        } else {
            Some(
                invalid_fault(
                    key + " must be a number from 0 to "@ + digits(max as nat),
                    Some(key),
                ),
            )
        },
    }
}

/// A number field, as the bits of a double.
pub open spec fn number_value(body: Tree, key: Seq<char>, max: u64) -> Option<u64> {
    match body.present(key) {
        Some(value) => number_bits(value, max),
        None => None,
    }
}

/// The values at which a parameter that is not implemented has no effect.
pub enum NoOp {
    /// No value at all.
    Nothing,
    /// The integer one.
    One,
    /// The integer zero.
    Zero,
    /// Zero, as an integer or a double of either sign.
    AnyZero,
    /// False.
    False,
    /// A boolean.
    Boolean,
    /// `"none"` or `"auto"`.
    NoneOrAuto,
    /// `"disabled"`.
    Disabled,
    /// `{"type": "text"}`.
    TextType,
    /// `{"format": {"type": "text"}}`.
    TextFormat,
    /// `["text"]`.
    TextList,
    /// An empty array.
    EmptyList,
}

/// `{"type": "text"}`.
pub open spec fn text_type() -> Tree {
    Tree::Object(seq![("type"@, Tree::Text("text"@))])
}

impl NoOp {
    /// Whether `value` is one of these values.
    pub open spec fn admits(self, value: Tree) -> bool {
        match self {
            NoOp::Nothing => false,
            NoOp::One => value == Tree::Unsigned(1),
            NoOp::Zero => value == Tree::Unsigned(0),
            NoOp::AnyZero => value == Tree::Unsigned(0) || value == Tree::Float(0) || value
                == Tree::Float(0x8000_0000_0000_0000),
            NoOp::False => value == Tree::Bool(false),
            NoOp::Boolean => value is Bool,
            NoOp::NoneOrAuto => value == Tree::Text("none"@) || value == Tree::Text("auto"@),
            NoOp::Disabled => value == Tree::Text("disabled"@),
            NoOp::TextType => value == text_type(),
            NoOp::TextFormat => value == Tree::Object(seq![("format"@, text_type())]),
            NoOp::TextList => value == Tree::List(seq![Tree::Text("text"@)]),
            NoOp::EmptyList => value == Tree::List(Seq::empty()),
        }
    }
}

/// A parameter that is present at a value where it would have an effect.
pub open spec fn effect_fault(
    body: Tree,
    key: Seq<char>,
    accepted: NoOp,
    detail: Seq<char>,
) -> Option<Fault> {
    match body.present(key) {
        None => None,
        Some(value) => if accepted.admits(value) {
            None
        } else {
            Some(unsupported_fault(key, detail))
        },
    }
}

/// The optional text of a borrowed field.
pub open spec fn optional(text: Option<&str>) -> Option<Seq<char>> {
    match text {
        Some(s) => Some(s@),
        None => None,
    }
}

/// The optional text of an owned field.
pub open spec fn optional_owned(text: Option<String>) -> Option<Seq<char>> {
    match text {
        Some(s) => Some(s@),
        None => None,
    }
}

pub(crate) fn string_field<'a>(body: &'a Json, key: &str) -> (r: Result<Option<&'a str>, OpenAiError>)
    ensures
        r matches Err(e) ==> string_fault(body@, key@) == Some(e@),
        r matches Ok(v) ==> string_fault(body@, key@) is None && optional(v) == string_value(
            body@,
            key@,
        ),
{
    match body.field(key) {
        None => Ok(None),
        Some(Json::Text(s)) => Ok(Some(s.as_str())),
        Some(_) => {
            let message: String = key.to_owned().concat(" must be a string");
            Err(OpenAiError::invalid(message.as_str(), Some(key)))
        },
    }
}

pub(crate) fn boolean_field(body: &Json, key: &str) -> (r: Result<bool, OpenAiError>)
    ensures
        r matches Err(e) ==> boolean_fault(body@, key@) == Some(e@),
        r matches Ok(v) ==> boolean_fault(body@, key@) is None && v == boolean_value(body@, key@),
{
    match body.field(key) {
        None => Ok(false),
        Some(Json::Bool(b)) => Ok(*b),
        Some(_) => {
            let message: String = key.to_owned().concat(" must be a boolean");
            Err(OpenAiError::invalid(message.as_str(), Some(key)))
        },
    }
}

pub(crate) fn integer_field(body: &Json, key: &str, min: u64, max: u64) -> (r: Result<
    Option<u64>,
    OpenAiError,
>)
    ensures
        r matches Err(e) ==> integer_fault(body@, key@, min, max) == Some(e@),
        r matches Ok(v) ==> integer_fault(body@, key@, min, max) is None && v == integer_value(
            body@,
            key@,
        ) && (v matches Some(n) ==> min <= n <= max),
{
    match body.field(key) {
        None => return Ok(None),
        Some(Json::Unsigned(n)) => {
            if min <= *n && *n <= max {
                return Ok(Some(*n));
            }
        },
        Some(_) => {},
    }
    let low: String = decimal(min);
    let high: String = decimal(max);
    let message: String = key.to_owned().concat(" must be an integer from ").concat(
        low.as_str(),
    ).concat(" to ").concat(high.as_str());
    Err(OpenAiError::invalid(message.as_str(), Some(key)))
}

pub(crate) fn number_field(body: &Json, key: &str, max: u64) -> (r: Result<Option<u64>, OpenAiError>)
    requires
        max == 1 || max == 2,
    ensures
        r matches Err(e) ==> number_fault(body@, key@, max) == Some(e@),
        r matches Ok(v) ==> number_fault(body@, key@, max) is None && v == number_value(
            body@,
            key@,
            max,
        ),
{
    let top: u64 = if max == 1 {
        0x3FF0_0000_0000_0000
    } else {
        0x4000_0000_0000_0000
    };
    match body.field(key) {
        None => return Ok(None),
        Some(Json::Unsigned(n)) => {
            if *n <= max {
                let bits: u64 = if *n == 0 {
                    0
                } else if *n == 1 {
                    0x3FF0_0000_0000_0000
                } else {
                    0x4000_0000_0000_0000
                };
                return Ok(Some(bits));
            }
        },
        Some(Json::Float(b)) => {
            if *b <= top || *b == 0x8000_0000_0000_0000 {
                return Ok(Some(*b));
            }
        },
        Some(_) => {},
    }
    let high: String = decimal(max);
    let message: String = key.to_owned().concat(" must be a number from 0 to ").concat(
        high.as_str(),
    );
    Err(OpenAiError::invalid(message.as_str(), Some(key)))
}

/// Whether `value` is the string `text`.
pub(crate) fn is_text(value: &Json, text: &str) -> (r: bool)
    ensures
        r == (value@ == Tree::Text(text@)),
{
    match value {
        Json::Text(s) => same_text(s.as_str(), text),
        _ => false,
    }
}

/// Whether `value` is `{"type": "text"}`.
fn is_text_type(value: &Json) -> (r: bool)
    ensures
        r == (value@ == text_type()),
{
    match value {
        Json::Object(members) => {
            if members.len() != 1 {
                assert(value@->Object_0.len() != text_type()->Object_0.len());
                return false;
            }
            let named: bool = same_text(members[0].0.as_str(), "type");
            let typed: bool = is_text(&members[0].1, "text");
            proof {
                let model = value@->Object_0;
                assert(model[0] == (members@[0].0@, members@[0].1@));
                let want = text_type()->Object_0;
                assert(want[0] == ("type"@, Tree::Text("text"@)));
                if named && typed {
                    assert(model =~= want);
                }
            }
            named && typed
        },
        _ => false,
    }
}

impl NoOp {
    /// Whether `value` is one of these values.
    fn check(&self, value: &Json) -> (r: bool)
        ensures
            r == self.admits(value@),
    {
        match self {
            NoOp::Nothing => false,
            NoOp::One => matches!(value, Json::Unsigned(1)),
            NoOp::Zero => matches!(value, Json::Unsigned(0)),
            NoOp::AnyZero => match value {
                Json::Unsigned(n) => *n == 0,
                Json::Float(b) => *b == 0 || *b == 0x8000_0000_0000_0000,
                _ => false,
            },
            NoOp::False => match value {
                Json::Bool(b) => !*b,
                _ => false,
            },
            NoOp::Boolean => matches!(value, Json::Bool(_)),
            NoOp::NoneOrAuto => is_text(value, "none") || is_text(value, "auto"),
            NoOp::Disabled => is_text(value, "disabled"),
            NoOp::TextType => is_text_type(value),
            NoOp::TextFormat => match value {
                Json::Object(members) => {
                    let ghost want = seq![("format"@, text_type())];
                    if members.len() != 1 {
                        assert(value@->Object_0.len() != want.len());
                        return false;
                    }
                    let named: bool = same_text(members[0].0.as_str(), "format");
                    let typed: bool = is_text_type(&members[0].1);
                    proof {
                        let model = value@->Object_0;
                        assert(model[0] == (members@[0].0@, members@[0].1@));
                        assert(want[0] == ("format"@, text_type()));
                        if named && typed {
                            assert(model =~= want);
                        }
                    }
                    named && typed
                },
                _ => false,
            },
            NoOp::TextList => match value {
                Json::List(items) => {
                    let ghost want = seq![Tree::Text("text"@)];
                    if items.len() != 1 {
                        assert(value@->List_0.len() != want.len());
                        return false;
                    }
                    let typed: bool = is_text(&items[0], "text");
                    proof {
                        let model = value@->List_0;
                        assert(model[0] == items@[0]@);
                        assert(want[0] == Tree::Text("text"@));
                        if typed {
                            assert(model =~= want);
                        }
                    }
                    typed
                },
                _ => false,
            },
            NoOp::EmptyList => match value {
                Json::List(items) => {
                    proof {
                        if items@.len() == 0 {
                            assert(value@->List_0 =~= Seq::<Tree>::empty());
                        }
                    }
                    items.len() == 0
                },
                _ => false,
            },
        }
    }
}

/// Accepts the field only where it has no effect.
pub(crate) fn only(body: &Json, key: &str, accepted: NoOp, detail: &str) -> (r: Result<(), OpenAiError>)
    ensures
        r matches Err(e) ==> effect_fault(body@, key@, accepted, detail@) == Some(e@),
        r is Ok ==> effect_fault(body@, key@, accepted, detail@) is None,
{
    match body.field(key) {
        None => Ok(()),
        Some(value) => if accepted.check(value) {
            Ok(())
        } else {
            Err(OpenAiError::unsupported(key, detail))
        },
    }
}

} // verus!
