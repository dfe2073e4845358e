//! JSON values: what `serde_json` reads, as plain data with a mathematical model.
use crate::sequences::{lemma_lookup_step, lookup};
use crate::text::same_text;
use serde_json::Value;
use vstd::prelude::*;

verus! {

/// `serde_json::Value`, the tree that the JSON reader builds.
#[verifier::external_type_specification]
#[verifier::external_body]
pub struct ExValue(serde_json::Value);

/// A JSON value. Doubles are kept as their IEEE 754 bit pattern; an object keeps its members in
/// the order in which the reader lists them.
#[derive(Debug)]
pub enum Json {
    Null,
    Bool(bool),
    /// An integer from 0 to 2^64 - 1.
    Unsigned(u64),
    /// An integer below zero.
    Negative(i64),
    /// Any other number, by its bits.
    Float(u64),
    Text(String),
    List(Vec<Json>),
    Object(Vec<(String, Json)>),
}

/// The mathematical model of a JSON value.
#[verifier::ext_equal]
pub enum Tree {
    Null,
    Bool(bool),
    Unsigned(u64),
    Negative(i64),
    Float(u64),
    Text(Seq<char>),
    List(Seq<Tree>),
    Object(Seq<(Seq<char>, Tree)>),
}

/// The model of `json`.
pub open spec fn tree(json: Json) -> Tree
    decreases json,
{
    match json {
        Json::Null => Tree::Null,
        Json::Bool(b) => Tree::Bool(b),
        Json::Unsigned(n) => Tree::Unsigned(n),
        Json::Negative(n) => Tree::Negative(n),
        Json::Float(bits) => Tree::Float(bits),
        Json::Text(s) => Tree::Text(s@),
        Json::List(items) => Tree::List(
            Seq::new(
                items@.len(),
                |i: int|
                    if 0 <= i < items@.len() {
                        tree(items@[i])
                    } else {
                        Tree::Null
                    },
            ),
        ),
        Json::Object(members) => Tree::Object(
            Seq::new(
                members@.len(),
                |i: int|
                    if 0 <= i < members@.len() {
                        (members@[i].0@, tree(members@[i].1))
                    } else {
                        (Seq::empty(), Tree::Null)
                    },
            ),
        ),
    }
}

impl View for Json {
    type V = Tree;

    open spec fn view(&self) -> Tree {
        tree(*self)
    }
}

/// What a `serde_json::Value` holds.
pub uninterp spec fn value_tree(value: serde_json::Value) -> Tree;

/// What the JSON reader makes of a text: the value, or the message of its error.
pub uninterp spec fn json_text(text: Seq<char>) -> Result<Tree, Seq<char>>;

/// The model of what reading a text returned.
pub open spec fn value_outcome(r: Result<serde_json::Value, String>) -> Result<Tree, Seq<char>> {
    match r {
        Ok(value) => Ok(value_tree(value)),
        Err(message) => Err(message@),
    }
}

/// The model of a parsed text.
pub open spec fn json_outcome(r: Result<Json, String>) -> Result<Tree, Seq<char>> {
    match r {
        Ok(json) => Ok(json@),
        Err(message) => Err(message@),
    }
}

/// `serde_json::from_str` into a `serde_json::Value`: a function of the text alone.
#[verifier::external_body]
fn read_value(text: &str) -> (r: Result<serde_json::Value, String>)
    ensures
        value_outcome(r) == json_text(text@),
{
    serde_json::from_str::<serde_json::Value>(text).map_err(|e| e.to_string())
}

/// What the JSON reader makes of bytes that should hold an object: its members by name, or the
/// message of its error.
pub uninterp spec fn json_members(bytes: Seq<u8>) -> Result<Seq<(Seq<char>, Tree)>, Seq<char>>;

/// The model of what reading the members of an object returned.
pub open spec fn members_outcome(r: Result<Vec<(String, serde_json::Value)>, String>) -> Result<
    Seq<(Seq<char>, Tree)>,
    Seq<char>,
> {
    match r {
        Ok(found) => Ok(Seq::new(found@.len(), |i: int| (found@[i].0@, value_tree(found@[i].1)))),
        Err(message) => Err(message@),
    }
}

/// `serde_json::from_slice` into a `BTreeMap<String, serde_json::Value>`, listed in the order of
/// the map: a function of the bytes alone.
#[verifier::external_body]
fn read_members(bytes: &[u8]) -> (r: Result<Vec<(String, serde_json::Value)>, String>)
    ensures
        members_outcome(r) == json_members(bytes@),
{
    serde_json::from_slice::<std::collections::BTreeMap<String, serde_json::Value>>(bytes)
        .map(|members| members.into_iter().collect())
        .map_err(|e| e.to_string())
}

/// The variants of a `serde_json::Value`, one for one: arrays item by item, objects member by
/// member in the order of the map's iterator, and a number by `as_u64`, then `as_i64`, then the
/// bits of `as_f64`.
#[verifier::external_body]
fn plain(value: Value) -> (r: Json)
    ensures
        r@ == value_tree(value),
{
    match value {
        Value::Null => Json::Null,
        Value::Bool(b) => Json::Bool(b),
        Value::Number(n) => match (n.as_u64(), n.as_i64()) {
            (Some(u), _) => Json::Unsigned(u),
            (None, Some(i)) => Json::Negative(i),
            (None, None) => Json::Float(n.as_f64().unwrap_or_default().to_bits()),
        },
        Value::String(s) => Json::Text(s),
        Value::Array(a) => Json::List(a.into_iter().map(plain).collect()),
        Value::Object(o) => {
            Json::Object(o.into_iter().map(|(k, v)| (k, plain(v))).collect())
        },
    }
}

impl Tree {
    /// The member `key` of an object; nothing of any other value.
    pub open spec fn entry(self, key: Seq<char>) -> Option<Tree> {
        match self {
            Tree::Object(members) => lookup(members, key),
            _ => None,
        }
    }

    /// The member `key`, or null where there is none.
    pub open spec fn at(self, key: Seq<char>) -> Tree {
        match self.entry(key) {
            Some(value) => value,
            None => Tree::Null,
        }
    }

    /// The member `key` where it is there and not null.
    pub open spec fn present(self, key: Seq<char>) -> Option<Tree> {
        match self.entry(key) {
            Some(Tree::Null) => None,
            found => found,
        }
    }

    /// The characters of a string; the empty text of any other value.
    pub open spec fn text_or_empty(self) -> Seq<char> {
        match self {
            Tree::Text(s) => s,
            _ => Seq::empty(),
        }
    }
}

impl Json {
    /// Reads a JSON text.
    pub fn parse(text: &str) -> (r: Result<Json, String>)
        ensures
            json_outcome(r) == json_text(text@),
    {
        match read_value(text) {
            Ok(value) => Ok(plain(value)),
            Err(message) => Err(message),
        }
    }

    /// Reads bytes that hold a JSON object: its members in the order of their names.
    pub fn parse_members(bytes: &[u8]) -> (r: Result<Vec<(String, Json)>, String>)
        ensures
            r matches Ok(members) ==> json_members(bytes@) is Ok && tree(Json::Object(members))
                == Tree::Object(json_members(bytes@)->Ok_0),
            r matches Err(message) ==> json_members(bytes@) is Err && json_members(bytes@)->Err_0
                == message@,
    {
        match read_members(bytes) {
            Ok(found) => {
                let ghost model = json_members(bytes@)->Ok_0;
                let mut members: Vec<(String, Json)> = Vec::new();
                for pair in it: found
                    invariant
                        members@.len() == it.index(),
                        model.len() == it.seq().len(),
                        forall|i: int|
                            0 <= i < model.len() ==> #[trigger] model[i] == (
                                it.seq()[i].0@,
                                value_tree(it.seq()[i].1),
                            ),
                        forall|i: int|
                            0 <= i < members@.len() ==> (#[trigger] members@[i]).0@ == model[i].0
                                && members@[i].1@ == model[i].1,
                {
                    members.push((pair.0, plain(pair.1)));
                }
                proof {
                    assert(tree(Json::Object(members))->Object_0 =~= model);
                }
                Ok(members)
            },
            Err(message) => Err(message),
        }
    }

    /// An equal value of its own.
    pub fn duplicate(&self) -> (r: Json)
        ensures
            r@ == self@,
        decreases self,
    {
        match self {
            Json::Null => Json::Null,
            Json::Bool(b) => Json::Bool(*b),
            Json::Unsigned(n) => Json::Unsigned(*n),
            Json::Negative(n) => Json::Negative(*n),
            Json::Float(bits) => Json::Float(*bits),
            Json::Text(s) => Json::Text(s.clone()),
            Json::List(items) => {
                let mut out: Vec<Json> = Vec::new();
                let mut i: usize = 0;
                #[verifier::loop_isolation(false)]
                while i < items.len()
                    invariant
                        i <= items@.len(),
                        *self == Json::List(*items),
                        out@.len() == i,
                        forall|k: int| 0 <= k < i ==> (#[trigger] out@[k])@ == items@[k]@,
                    decreases items@.len() - i,
                {
                    proof {
                        assert(decreases_to!(*items => items[i as int]));
                    }
                    out.push(items[i].duplicate());
                    i += 1;
                }
                let copy: Json = Json::List(out);
                proof {
                    assert(copy@->List_0 =~= self@->List_0);
                }
                copy
            },
            Json::Object(members) => {
                let mut out: Vec<(String, Json)> = Vec::new();
                let mut i: usize = 0;
                #[verifier::loop_isolation(false)]
                while i < members.len()
                    invariant
                        i <= members@.len(),
                        *self == Json::Object(*members),
                        out@.len() == i,
                        forall|k: int|
                            0 <= k < i ==> (#[trigger] out@[k]).0@ == members@[k].0@ && out@[k].1@
                                == members@[k].1@,
                    decreases members@.len() - i,
                {
                    proof {
                        assert(decreases_to!(*members => members[i as int]));
                    }
                    out.push((members[i].0.clone(), members[i].1.duplicate()));
                    i += 1;
                }
                let copy: Json = Json::Object(out);
                proof {
                    assert(copy@->Object_0 =~= self@->Object_0);
                }
                copy
            },
        }
    }

    /// The member `key` of an object.
    pub fn get(&self, key: &str) -> (r: Option<&Json>)
        ensures
            r matches Some(v) ==> self@.entry(key@) == Some(v@),
            r is None ==> self@.entry(key@) is None,
    {
        match self {
            Json::Object(members) => {
                let ghost model = self@->Object_0;
                let mut i: usize = 0;
                proof {
                    assert(model.skip(0) =~= model);
                }
                while i < members.len()
                    invariant
                        i <= members@.len(),
                        self@ == Tree::Object(model),
                        model.len() == members@.len(),
                        forall|k: int|
                            0 <= k < model.len() ==> #[trigger] model[k] == (
                                members@[k].0@,
                                members@[k].1@,
                            ),
                        lookup(model, key@) == lookup(model.skip(i as int), key@),
                    decreases members@.len() - i,
                {
                    proof {
                        lemma_lookup_step(model, i as int, key@);
                        assert(model[i as int] == (members@[i as int].0@, members@[i as int].1@));
                    }
                    if same_text(members[i].0.as_str(), key) {
                        return Some(&members[i].1);
                    }
                    i += 1;
                }
                None
            },
            _ => None,
        }
    }

    /// The member `key` where it is there and not null.
    pub fn field(&self, key: &str) -> (r: Option<&Json>)
        ensures
            r matches Some(v) ==> self@.present(key@) == Some(v@) && v@ !is Null,
            r is None ==> self@.present(key@) is None,
    {
        match self.get(key) {
            Some(Json::Null) => None,
            found => found,
        }
    }

    /// The characters of the member `key` where it is a string.
    pub fn text_at(&self, key: &str) -> (r: Option<&str>)
        ensures
            r matches Some(s) ==> self@.at(key@) == Tree::Text(s@),
            r is None ==> self@.at(key@) !is Text,
    {
        match self.get(key) {
            Some(Json::Text(s)) => Some(s.as_str()),
            _ => None,
        }
    }
}

/// The member of an object is found by its name, whatever stands before it; of an object without the
/// name, and of anything else, there is none, and null counts as none where a value is asked for.
pub proof fn law_members_are_found_by_name(members: Seq<(Seq<char>, Tree)>, i: int, key: Seq<char>)
    requires
        0 <= i < members.len(),
        forall|j: int| 0 <= j < i ==> (#[trigger] members[j]).0 != members[i].0,
    ensures
        Tree::Object(members).entry(members[i].0) == Some(members[i].1),
        Tree::Object(members).at(members[i].0) == members[i].1,
        Tree::Object(members).present(members[i].0) == if members[i].1 is Null {
            None
        } else {
            Some(members[i].1)
        },
        (forall|j: int| 0 <= j < members.len() ==> (#[trigger] members[j]).0 != key)
            ==> Tree::Object(members).entry(key) is None && Tree::Object(members).present(key) is None
            && Tree::Object(members).at(key) == Tree::Null,
    decreases i,
{
    let name = members[i].0;
    crate::sequences::lemma_lookup_found(members, key);
    if i > 0 {
        let rest = members.drop_first();
        assert(members[0].0 != name);
        assert forall|j: int| 0 <= j < i - 1 implies (#[trigger] rest[j]).0 != rest[i - 1].0 by {
            assert(rest[j] == members[j + 1]);
        }
        law_members_are_found_by_name(rest, i - 1, key);
    }
}

} // verus!
