//! Typed fields of a JSON object. An error is the message that names the field.
use crate::json::{Json, Tree};
use vstd::prelude::*;
use vstd::string::*;

verus! {

/// A number as it is written: floats by their bits.
#[derive(Clone, Copy, Debug, PartialEq, Eq, Structural)]
pub enum Number {
    Unsigned(u64),
    Negative(i64),
    Float(u64),
}

/// A field that is not there.
pub open spec fn missing(key: Seq<char>) -> Seq<char> {
    "missing field `"@ + key + "`"@
}

/// A field that holds a value of another type.
pub open spec fn mistyped(key: Seq<char>) -> Seq<char> {
    "invalid value of `"@ + key + "`"@
}

pub fn missing_text(key: &str) -> (r: String)
    ensures
        r@ == missing(key@),
{
    "missing field `".to_owned().concat(key).concat("`")
}

pub fn mistyped_text(key: &str) -> (r: String)
    ensures
        r@ == mistyped(key@),
{
    "invalid value of `".to_owned().concat(key).concat("`")
}

/// A value as a size: an integer from zero on that a size can hold.
pub open spec fn as_size(value: Tree) -> Option<usize> {
    match value {
        Tree::Unsigned(n) if n <= usize::MAX => Some(n as usize),
        _ => None,
    }
}

/// A value as a 32-bit integer.
pub open spec fn as_int(value: Tree) -> Option<i32> {
    match value {
        Tree::Unsigned(n) if n <= i32::MAX => Some(n as i32),
        Tree::Negative(n) if i32::MIN <= n <= i32::MAX => Some(n as i32),
        _ => None,
    }
}

/// A value as a number.
pub open spec fn as_number(value: Tree) -> Option<Number> {
    match value {
        Tree::Unsigned(n) => Some(Number::Unsigned(n)),
        Tree::Negative(n) => Some(Number::Negative(n)),
        Tree::Float(bits) => Some(Number::Float(bits)),
        _ => None,
    }
}

/// A value as text.
pub open spec fn as_text(value: Tree) -> Option<Seq<char>> {
    match value {
        Tree::Text(s) => Some(s),
        _ => None,
    }
}

/// A value as a boolean.
pub open spec fn as_flag(value: Tree) -> Option<bool> {
    match value {
        Tree::Bool(b) => Some(b),
        _ => None,
    }
}

/// A value as an object with the fields `names`: a list stands for it too, with the values of all
/// fields in their order, or of the first `least` at least.
pub open spec fn named(value: Tree, names: Seq<Seq<char>>, least: nat) -> Tree {
    match value {
        Tree::List(items) => if least <= items.len() <= names.len() {
            Tree::Object(Seq::new(items.len(), |i: int| (names[i], items[i])))
        } else {
            value
        },
        _ => value,
    }
}

/// The characters of words.
pub open spec fn words_of(words: Seq<&'static str>) -> Seq<Seq<char>> {
    Seq::new(words.len(), |i: int| words[i]@)
}

impl Json {
    /// The object with the fields `names` that it is, or that it stands for as a list.
    pub fn named(&self, names: &Vec<&'static str>, least: usize) -> (r: Json)
        ensures
            r@ == named(self@, words_of(names@), least as nat),
    {
        match self {
            Json::List(items) => {
                if least <= items.len() && items.len() <= names.len() {
                    let mut members: Vec<(String, Json)> = Vec::new();
                    let mut i: usize = 0;
                    while i < items.len()
                        invariant
                            i <= items@.len() <= names@.len(),
                            members@.len() == i,
                            forall|k: int|
                                0 <= k < i ==> (#[trigger] members@[k]).0@ == names@[k]@
                                    && members@[k].1@ == items@[k]@,
                        decreases items@.len() - i,
                    {
                        members.push((names[i].to_owned(), items[i].duplicate()));
                        i += 1;
                    }
                    let object: Json = Json::Object(members);
                    assert(object@->Object_0 =~= named(
                        self@,
                        words_of(names@),
                        least as nat,
                    )->Object_0);
                    return object;
                }
            },
            _ => {},
        }
        self.duplicate()
    }
}

/// A field that must be there, read by `f`.
pub open spec fn required<T>(object: Tree, key: Seq<char>, f: spec_fn(Tree) -> Option<T>) -> Result<
    T,
    Seq<char>,
> {
    match object.entry(key) {
        None => Err(missing(key)),
        Some(value) => match f(value) {
            None => Err(mistyped(key)),
            Some(x) => Ok(x),
        },
    }
}

/// A field that may be absent or null, read by `f`.
pub open spec fn optional<T>(object: Tree, key: Seq<char>, f: spec_fn(Tree) -> Option<T>) -> Result<
    Option<T>,
    Seq<char>,
> {
    match object.present(key) {
        None => Ok(None),
        Some(value) => match f(value) {
            None => Err(mistyped(key)),
            Some(x) => Ok(Some(x)),
        },
    }
}

/// A value as a list of sizes.
pub open spec fn as_sizes(value: Tree) -> Option<Seq<usize>> {
    match value {
        Tree::List(items) => if forall|i: int|
            0 <= i < items.len() ==> as_size(#[trigger] items[i]) is Some {
            Some(Seq::new(items.len(), |i: int| as_size(items[i])->Some_0))
        } else {
            None
        },
        _ => None,
    }
}

/// A value as an unsigned 32-bit integer.
pub open spec fn as_u32(value: Tree) -> Option<u32> {
    match value {
        Tree::Unsigned(n) if n <= u32::MAX => Some(n as u32),
        _ => None,
    }
}

pub open spec fn sizes_field(object: Tree, key: Seq<char>) -> Result<Seq<usize>, Seq<char>> {
    required(object, key, |v: Tree| as_sizes(v))
}

pub open spec fn u32_field(object: Tree, key: Seq<char>) -> Result<u32, Seq<char>> {
    required(object, key, |v: Tree| as_u32(v))
}

pub open spec fn size_field(object: Tree, key: Seq<char>) -> Result<usize, Seq<char>> {
    required(object, key, |v: Tree| as_size(v))
}

pub open spec fn int_field(object: Tree, key: Seq<char>) -> Result<i32, Seq<char>> {
    required(object, key, |v: Tree| as_int(v))
}

pub open spec fn number_field(object: Tree, key: Seq<char>) -> Result<Number, Seq<char>> {
    required(object, key, |v: Tree| as_number(v))
}

pub open spec fn text_field(object: Tree, key: Seq<char>) -> Result<Seq<char>, Seq<char>> {
    required(object, key, |v: Tree| as_text(v))
}

pub open spec fn flag_field(object: Tree, key: Seq<char>) -> Result<bool, Seq<char>> {
    required(object, key, |v: Tree| as_flag(v))
}

pub open spec fn size_option(object: Tree, key: Seq<char>) -> Result<Option<usize>, Seq<char>> {
    optional(object, key, |v: Tree| as_size(v))
}

pub open spec fn number_option(object: Tree, key: Seq<char>) -> Result<Option<Number>, Seq<char>> {
    optional(object, key, |v: Tree| as_number(v))
}

pub open spec fn flag_option(object: Tree, key: Seq<char>) -> Result<Option<bool>, Seq<char>> {
    optional(object, key, |v: Tree| as_flag(v))
}

/// A boolean that is false where it is absent.
pub open spec fn flag_default(object: Tree, key: Seq<char>) -> Result<bool, Seq<char>> {
    match object.entry(key) {
        None => Ok(false),
        Some(value) => match as_flag(value) {
            None => Err(mistyped(key)),
            Some(b) => Ok(b),
        },
    }
}

/// The model of a text that was read or a message.
pub open spec fn text_result(r: Result<String, String>) -> Result<Seq<char>, Seq<char>> {
    match r {
        Ok(s) => Ok(s@),
        Err(m) => Err(m@),
    }
}

/// The model of a value that was read or a message.
pub open spec fn plain_result<T>(r: Result<T, String>) -> Result<T, Seq<char>> {
    match r {
        Ok(x) => Ok(x),
        Err(m) => Err(m@),
    }
}

fn to_size(value: &Json) -> (r: Option<usize>)
    ensures
        r == as_size(value@),
{
    match value {
        Json::Unsigned(n) => if *n <= usize::MAX as u64 {
            Some(*n as usize)
        } else {
            None
        },
        _ => None,
    }
}

fn to_sizes(value: &Json) -> (r: Option<Vec<usize>>)
    ensures
        r matches Some(list) ==> as_sizes(value@) == Some(list@),
        r is None ==> as_sizes(value@) is None,
{
    match value {
        Json::List(items) => {
            let ghost model = value@->List_0;
            let mut list: Vec<usize> = Vec::new();
            let mut i: usize = 0;
            while i < items.len()
                invariant
                    i <= items@.len(),
                    value@ == Tree::List(model),
                    model.len() == items@.len(),
                    forall|k: int| 0 <= k < items@.len() ==> #[trigger] model[k] == items@[k]@,
                    list@.len() == i,
                    forall|k: int|
                        0 <= k < i ==> as_size(#[trigger] model[k]) == Some(list@[k]),
                decreases items@.len() - i,
            {
                assert(model[i as int] == items@[i as int]@);
                match to_size(&items[i]) {
                    Some(n) => list.push(n),
                    None => {
                        return None;
                    },
                }
                i += 1;
            }
            assert(list@ =~= Seq::new(model.len(), |k: int| as_size(model[k])->Some_0));
            Some(list)
        },
        _ => None,
    }
}

fn to_int(value: &Json) -> (r: Option<i32>)
    ensures
        r == as_int(value@),
{
    match value {
        Json::Unsigned(n) => if *n <= i32::MAX as u64 {
            Some(*n as i32)
        } else {
            None
        },
        Json::Negative(n) => if *n >= i32::MIN as i64 && *n <= i32::MAX as i64 {
            Some(*n as i32)
        } else {
            None
        },
        _ => None,
    }
}

fn to_number(value: &Json) -> (r: Option<Number>)
    ensures
        r == as_number(value@),
{
    match value {
        Json::Unsigned(n) => Some(Number::Unsigned(*n)),
        Json::Negative(n) => Some(Number::Negative(*n)),
        Json::Float(bits) => Some(Number::Float(*bits)),
        _ => None,
    }
}

fn to_flag(value: &Json) -> (r: Option<bool>)
    ensures
        r == as_flag(value@),
{
    match value {
        Json::Bool(b) => Some(*b),
        _ => None,
    }
}

impl Json {
    pub fn size_field(&self, key: &str) -> (r: Result<usize, String>)
        ensures
            plain_result(r) == size_field(self@, key@),
    {
        match self.get(key) {
            None => Err(missing_text(key)),
            Some(value) => match to_size(value) {
                None => Err(mistyped_text(key)),
                Some(n) => Ok(n),
            },
        }
    }

    pub fn sizes_field(&self, key: &str) -> (r: Result<Vec<usize>, String>)
        ensures
            r matches Ok(list) ==> sizes_field(self@, key@) == Ok::<Seq<usize>, Seq<char>>(list@),
            r matches Err(m) ==> sizes_field(self@, key@) == Err::<Seq<usize>, Seq<char>>(m@),
    {
        match self.get(key) {
            None => Err(missing_text(key)),
            Some(value) => match to_sizes(value) {
                None => Err(mistyped_text(key)),
                Some(list) => Ok(list),
            },
        }
    }

    pub fn u32_field(&self, key: &str) -> (r: Result<u32, String>)
        ensures
            plain_result(r) == u32_field(self@, key@),
    {
        match self.get(key) {
            None => Err(missing_text(key)),
            Some(value) => match value {
                Json::Unsigned(n) => if *n <= u32::MAX as u64 {
                    Ok(*n as u32)
                } else {
                    Err(mistyped_text(key))
                },
                _ => Err(mistyped_text(key)),
            },
        }
    }

    pub fn int_field(&self, key: &str) -> (r: Result<i32, String>)
        ensures
            plain_result(r) == int_field(self@, key@),
    {
        match self.get(key) {
            None => Err(missing_text(key)),
            Some(value) => match to_int(value) {
                None => Err(mistyped_text(key)),
                Some(n) => Ok(n),
            },
        }
    }

    pub fn number_field(&self, key: &str) -> (r: Result<Number, String>)
        ensures
            plain_result(r) == number_field(self@, key@),
    {
        match self.get(key) {
            None => Err(missing_text(key)),
            Some(value) => match to_number(value) {
                None => Err(mistyped_text(key)),
                Some(n) => Ok(n),
            },
        }
    }

    pub fn text_field(&self, key: &str) -> (r: Result<String, String>)
        ensures
            text_result(r) == text_field(self@, key@),
    {
        match self.get(key) {
            None => Err(missing_text(key)),
            Some(value) => match value {
                Json::Text(s) => Ok(s.as_str().to_owned()),
                _ => Err(mistyped_text(key)),
            },
        }
    }

    pub fn flag_field(&self, key: &str) -> (r: Result<bool, String>)
        ensures
            plain_result(r) == flag_field(self@, key@),
    {
        match self.get(key) {
            None => Err(missing_text(key)),
            Some(value) => match to_flag(value) {
                None => Err(mistyped_text(key)),
                Some(b) => Ok(b),
            },
        }
    }

    pub fn size_option(&self, key: &str) -> (r: Result<Option<usize>, String>)
        ensures
            plain_result(r) == size_option(self@, key@),
    {
        match self.field(key) {
            None => Ok(None),
            Some(value) => match to_size(value) {
                None => Err(mistyped_text(key)),
                Some(n) => Ok(Some(n)),
            },
        }
    }

    pub fn number_option(&self, key: &str) -> (r: Result<Option<Number>, String>)
        ensures
            plain_result(r) == number_option(self@, key@),
    {
        match self.field(key) {
            None => Ok(None),
            Some(value) => match to_number(value) {
                None => Err(mistyped_text(key)),
                Some(n) => Ok(Some(n)),
            },
        }
    }

    pub fn flag_option(&self, key: &str) -> (r: Result<Option<bool>, String>)
        ensures
            plain_result(r) == flag_option(self@, key@),
    {
        match self.field(key) {
            None => Ok(None),
            Some(value) => match to_flag(value) {
                None => Err(mistyped_text(key)),
                Some(b) => Ok(Some(b)),
            },
        }
    }

    pub fn flag_default(&self, key: &str) -> (r: Result<bool, String>)
        ensures
            plain_result(r) == flag_default(self@, key@),
    {
        match self.get(key) {
            None => Ok(false),
            Some(value) => match to_flag(value) {
                None => Err(mistyped_text(key)),
                Some(b) => Ok(b),
            },
        }
    }
}

} // verus!
