//! The header of one safetensors file.
use crate::arith::product;
use crate::formats::bytes::{little_endian, little_endian_at};
use crate::json::{Json, Tree};
use crate::text::same_text;
use vstd::prelude::*;
use vstd::string::*;

verus! {

/// Largest accepted JSON header: 100 MiB.
pub const MAX_HEADER: u64 = 104857600;

#[derive(Debug)]
pub enum SafetensorsError {
    Format { path: String, message: String },
    Missing(String),
}

/// The mathematical model of a [`SafetensorsError`].
#[verifier::ext_equal]
pub enum SafetensorsFault {
    Format { path: Seq<char>, message: Seq<char> },
    Missing(Seq<char>),
}

impl View for SafetensorsError {
    type V = SafetensorsFault;

    open spec fn view(&self) -> SafetensorsFault {
        match self {
            SafetensorsError::Format { path, message } => SafetensorsFault::Format {
                path: path@,
                message: message@,
            },
            SafetensorsError::Missing(name) => SafetensorsFault::Missing(name@),
        }
    }
}

impl SafetensorsFault {
    /// The text shown to a user.
    pub open spec fn message(self) -> Seq<char> {
        match self {
            SafetensorsFault::Format { path, message } => "invalid safetensors data in "@ + path
                + ": "@ + message,
            SafetensorsFault::Missing(name) => "tensor "@ + name + " is not in the checkpoint"@,
        }
    }
}

impl SafetensorsError {
    /// The text shown to a user.
    pub fn message(&self) -> (r: String)
        ensures
            r@ == self@.message(),
    {
        match self {
            SafetensorsError::Format { path, message } => {
                "invalid safetensors data in ".to_owned().concat(path.as_str()).concat(": ").concat(
                    message.as_str(),
                )
            },
            SafetensorsError::Missing(name) => {
                "tensor ".to_owned().concat(name.as_str()).concat(" is not in the checkpoint")
            },
        }
    }
}

/// A fault in the file at `path`.
pub open spec fn format_fault(path: Seq<char>, message: Seq<char>) -> SafetensorsFault {
    SafetensorsFault::Format { path, message }
}

pub fn format(path: &str, message: &str) -> (r: SafetensorsError)
    ensures
        r@ == format_fault(path@, message@),
{
    SafetensorsError::Format { path: path.to_owned(), message: message.to_owned() }
}

#[derive(Clone, Copy, Debug, PartialEq, Eq, Structural)]
pub enum Dtype {
    F32,
    F16,
    BF16,
    I64,
    I32,
    U8,
    Bool,
}

impl Dtype {
    /// The type of this name.
    pub open spec fn named(name: Seq<char>) -> Option<Dtype> {
        if name == "F32"@ {
            Some(Dtype::F32)
        } else if name == "F16"@ {
            Some(Dtype::F16)
        } else if name == "BF16"@ {
            Some(Dtype::BF16)
        } else if name == "I64"@ {
            Some(Dtype::I64)
        } else if name == "I32"@ {
            Some(Dtype::I32)
        } else if name == "U8"@ {
            Some(Dtype::U8)
        } else if name == "BOOL"@ {
            Some(Dtype::Bool)
        } else {
            None
        }
    }

    /// Bytes per element.
    pub open spec fn width(self) -> nat {
        match self {
            Dtype::F32 | Dtype::I32 => 4,
            Dtype::F16 | Dtype::BF16 => 2,
            Dtype::I64 => 8,
            Dtype::U8 | Dtype::Bool => 1,
        }
    }

    pub fn parse(name: &str) -> (r: Option<Self>)
        ensures
            r == Dtype::named(name@),
    {
        if same_text(name, "F32") {
            Some(Dtype::F32)
        } else if same_text(name, "F16") {
            Some(Dtype::F16)
        } else if same_text(name, "BF16") {
            Some(Dtype::BF16)
        } else if same_text(name, "I64") {
            Some(Dtype::I64)
        } else if same_text(name, "I32") {
            Some(Dtype::I32)
        } else if same_text(name, "U8") {
            Some(Dtype::U8)
        } else if same_text(name, "BOOL") {
            Some(Dtype::Bool)
        } else {
            None
        }
    }

    pub fn size(self) -> (r: usize)
        ensures
            r == self.width(),
    {
        match self {
            Dtype::F32 | Dtype::I32 => 4,
            Dtype::F16 | Dtype::BF16 => 2,
            Dtype::I64 => 8,
            Dtype::U8 | Dtype::Bool => 1,
        }
    }
}

#[derive(Debug)]
pub struct TensorInfo {
    pub dtype: Dtype,
    pub shape: Vec<usize>,
    /// Byte offset of the tensor data within its file.
    pub offset: u64,
    pub len: u64,
    pub shard: usize,
}

/// The mathematical model of a [`TensorInfo`].
#[verifier::ext_equal]
pub struct Span {
    pub dtype: Dtype,
    pub shape: Seq<nat>,
    pub offset: nat,
    pub len: nat,
    pub shard: nat,
}

/// The sizes of a shape.
pub open spec fn sizes(shape: Seq<usize>) -> Seq<nat> {
    Seq::new(shape.len(), |i: int| shape[i] as nat)
}

impl View for TensorInfo {
    type V = Span;

    open spec fn view(&self) -> Span {
        Span {
            dtype: self.dtype,
            shape: sizes(self.shape@),
            offset: self.offset as nat,
            len: self.len as nat,
            shard: self.shard as nat,
        }
    }
}

/// No product of leading sizes exceeds `limit`.
pub open spec fn within(shape: Seq<nat>, limit: nat) -> bool
    decreases shape.len(),
{
    shape.len() == 0 || (within(shape.drop_last(), limit) && product(shape) <= limit)
}

/// Leading sizes of a shape within a limit are within it.
pub proof fn lemma_within_prefix(shape: Seq<nat>, limit: nat, i: int)
    requires
        within(shape, limit),
        0 <= i <= shape.len(),
    ensures
        within(shape.take(i), limit),
    decreases shape.len(),
{
    if i == shape.len() {
        assert(shape.take(i) =~= shape);
    } else {
        lemma_within_prefix(shape.drop_last(), limit, i);
        assert(shape.drop_last().take(i) =~= shape.take(i));
    }
}

/// The number of elements of a shape, where every product of leading sizes fits 64 bits.
fn element_count(shape: &Vec<usize>) -> (r: Option<u64>)
    ensures
        r is Some <==> within(sizes(shape@), u64::MAX as nat),
        r matches Some(n) ==> n == product(sizes(shape@)),
{
    let ghost all = sizes(shape@);
    let mut n: u64 = 1;
    let mut i: usize = 0;
    assert(all.take(0) =~= Seq::<nat>::empty());
    while i < shape.len()
        invariant
            i <= shape@.len(),
            all == sizes(shape@),
            within(all.take(i as int), u64::MAX as nat),
            n == product(all.take(i as int)),
        decreases shape@.len() - i,
    {
        proof {
            assert(all.take(i + 1).drop_last() =~= all.take(i as int));
            assert(all.take(i + 1).last() == shape@[i as int]);
        }
        match n.checked_mul(shape[i] as u64) {
            Some(m) => {
                n = m;
            },
            None => {
                proof {
                    if within(all, u64::MAX as nat) {
                        lemma_within_prefix(all, u64::MAX as nat, i + 1);
                    }
                }
                return None;
            },
        }
        i += 1;
    }
    proof {
        assert(all.take(i as int) =~= all);
    }
    Some(n)
}

impl TensorInfo {
    pub fn elements(&self) -> (r: usize)
        requires
            within(sizes(self.shape@), usize::MAX as nat),
        ensures
            r == product(sizes(self.shape@)),
    {
        let ghost all = sizes(self.shape@);
        let mut n: usize = 1;
        let mut i: usize = 0;
        assert(all.take(0) =~= Seq::<nat>::empty());
        while i < self.shape.len()
            invariant
                i <= self.shape@.len(),
                all == sizes(self.shape@),
                within(all, usize::MAX as nat),
                n == product(all.take(i as int)),
            decreases self.shape@.len() - i,
        {
            proof {
                assert(all.take(i + 1).drop_last() =~= all.take(i as int));
                assert(all.take(i + 1).last() == self.shape@[i as int]);
                lemma_within_prefix(all, usize::MAX as nat, i + 1);
            }
            n = n * self.shape[i];
            i += 1;
        }
        proof {
            assert(all.take(i as int) =~= all);
        }
        n
    }

    pub fn byte_len(&self) -> (r: usize)
        requires
            self.len <= usize::MAX,
        ensures
            r == self.len,
    {
        self.len as usize
    }
}

// ---------------------------------------------------------------------------------------------
// Entries
// ---------------------------------------------------------------------------------------------

/// What an entry of the header says: the type's name, the shape, and where the data begins and
/// ends.
#[verifier::ext_equal]
pub struct RawModel {
    pub dtype: Seq<char>,
    pub shape: Seq<nat>,
    pub begin: nat,
    pub end: nat,
}

/// An integer that a `usize` holds.
pub open spec fn size_value(value: Tree) -> Option<nat> {
    match value {
        Tree::Unsigned(n) if n <= usize::MAX => Some(n as nat),
        _ => None,
    }
}

/// A list of sizes.
pub open spec fn shape_of(value: Tree) -> Option<Seq<nat>> {
    match value {
        Tree::List(items) => if forall|i: int|
            0 <= i < items.len() ==> size_value(#[trigger] items[i]) is Some {
            Some(Seq::new(items.len(), |i: int| size_value(items[i])->Some_0))
        } else {
            None
        },
        _ => None,
    }
}

/// A pair of offsets.
pub open spec fn offsets_of(value: Tree) -> Option<(nat, nat)> {
    match value {
        Tree::List(items) => if items.len() == 2 && items[0] is Unsigned && items[1] is Unsigned {
            Some((items[0]->Unsigned_0 as nat, items[1]->Unsigned_0 as nat))
        } else {
            None
        },
        _ => None,
    }
}

/// The three parts of an entry: members of an object, or the items of a list of three.
pub open spec fn entry_parts(value: Tree) -> Option<(Tree, Tree, Tree)> {
    match value {
        Tree::Object(_) => Some(
            (value.at("dtype"@), value.at("shape"@), value.at("data_offsets"@)),
        ),
        Tree::List(items) => if items.len() == 3 {
            Some((items[0], items[1], items[2]))
        } else {
            None
        },
        _ => None,
    }
}

/// An entry of the header.
pub open spec fn raw_entry(value: Tree) -> Option<RawModel> {
    match entry_parts(value) {
        None => None,
        Some((dtype, shape, offsets)) => match (dtype, shape_of(shape), offsets_of(offsets)) {
            (Tree::Text(dtype), Some(shape), Some((begin, end))) => Some(
                RawModel { dtype, shape, begin, end },
            ),
            _ => None,
        },
    }
}

/// The tensor `name` as its header entry places it, or what is wrong with the entry.
pub open spec fn tensor_outcome(
    name: Seq<char>,
    value: Tree,
    data_start: nat,
    data_len: nat,
    shard: nat,
) -> Result<Span, Seq<char>> {
    match raw_entry(value) {
        None => Err(name + ": invalid tensor entry"@),
        Some(raw) => match Dtype::named(raw.dtype) {
            None => Err(name + ": dtype "@ + raw.dtype),
            Some(dtype) => if raw.begin <= raw.end <= data_len && within(
                raw.shape,
                u64::MAX as nat,
            ) && product(raw.shape) * dtype.width() == raw.end - raw.begin {
                Ok(
                    Span {
                        dtype,
                        shape: raw.shape,
                        offset: data_start + raw.begin,
                        len: (raw.end - raw.begin) as nat,
                        shard,
                    },
                )
            } else {
                Err(name + ": data offsets do not match shape"@)
            },
        },
    }
}

/// A header entry as read.
struct RawInfo<'a> {
    dtype: &'a str,
    shape: Vec<usize>,
    begin: u64,
    end: u64,
}

fn read_shape(value: &Json) -> (r: Option<Vec<usize>>)
    ensures
        r matches Some(shape) ==> shape_of(value@) == Some(sizes(shape@)),
        r is None ==> shape_of(value@) is None,
{
    match value {
        Json::List(items) => {
            let ghost model = value@->List_0;
            let mut shape: Vec<usize> = Vec::new();
            let mut i: usize = 0;
            while i < items.len()
                invariant
                    i <= items@.len(),
                    value@ == Tree::List(model),
                    model.len() == items@.len(),
                    forall|k: int| 0 <= k < model.len() ==> #[trigger] model[k] == items@[k]@,
                    shape@.len() == i,
                    forall|k: int|
                        0 <= k < i ==> size_value(#[trigger] model[k]) == Some(shape@[k] as nat),
                decreases items@.len() - i,
            {
                let mut found: bool = false;
                if let Json::Unsigned(n) = &items[i] {
                    if *n <= usize::MAX as u64 {
                        shape.push(*n as usize);
                        found = true;
                    }
                }
                if !found {
                    assert(size_value(model[i as int]) is None);
                    return None;
                }
                i += 1;
            }
            proof {
                assert(shape_of(value@)->Some_0 =~= sizes(shape@));
            }
            Some(shape)
        },
        _ => None,
    }
}

fn read_offsets(value: &Json) -> (r: Option<(u64, u64)>)
    ensures
        r matches Some((a, b)) ==> offsets_of(value@) == Some((a as nat, b as nat)),
        r is None ==> offsets_of(value@) is None,
{
    match value {
        Json::List(items) => {
            if items.len() != 2 {
                return None;
            }
            proof {
                assert(value@->List_0[0] == items@[0]@);
                assert(value@->List_0[1] == items@[1]@);
            }
            match (&items[0], &items[1]) {
                (Json::Unsigned(a), Json::Unsigned(b)) => Some((*a, *b)),
                _ => None,
            }
        },
        _ => None,
    }
}

fn read_entry<'a>(value: &'a Json) -> (r: Option<RawInfo<'a>>)
    ensures
        r matches Some(raw) ==> raw_entry(value@) == Some(
            (RawModel {
                dtype: raw.dtype@,
                shape: sizes(raw.shape@),
                begin: raw.begin as nat,
                end: raw.end as nat,
            }),
        ),
        r is None ==> raw_entry(value@) is None,
{
    let (dtype, shape, offsets): (&Json, &Json, &Json) = match value {
        Json::Object(_) => match (
            value.get("dtype"),
            value.get("shape"),
            value.get("data_offsets"),
        ) {
            (Some(dtype), Some(shape), Some(offsets)) => (dtype, shape, offsets),
            _ => return None,
        },
        Json::List(items) => {
            if items.len() != 3 {
                return None;
            }
            proof {
                assert(value@->List_0[0] == items@[0]@);
                assert(value@->List_0[1] == items@[1]@);
                assert(value@->List_0[2] == items@[2]@);
            }
            (&items[0], &items[1], &items[2])
        },
        _ => return None,
    };
    let name: &str = match dtype {
        Json::Text(s) => s.as_str(),
        _ => return None,
    };
    match (read_shape(shape), read_offsets(offsets)) {
        (Some(shape), Some((begin, end))) => Some(RawInfo { dtype: name, shape, begin, end }),
        _ => None,
    }
}

/// The tensor `name` as its header entry places it, or what is wrong with the entry.
pub fn read_tensor(name: &str, value: &Json, data_start: u64, data_len: u64, shard: usize) -> (r:
    Result<TensorInfo, String>)
    requires
        data_start + data_len <= u64::MAX,
    ensures
        r matches Ok(info) ==> tensor_outcome(
            name@,
            value@,
            data_start as nat,
            data_len as nat,
            shard as nat,
        ) == Ok::<Span, Seq<char>>(info@),
        r matches Err(message) ==> tensor_outcome(
            name@,
            value@,
            data_start as nat,
            data_len as nat,
            shard as nat,
        ) == Err::<Span, Seq<char>>(message@),
{
    let raw: RawInfo = match read_entry(value) {
        Some(raw) => raw,
        None => return Err(name.to_owned().concat(": invalid tensor entry")),
    };
    let dtype: Dtype = match Dtype::parse(raw.dtype) {
        Some(dtype) => dtype,
        None => return Err(name.to_owned().concat(": dtype ").concat(raw.dtype)),
    };
    if raw.begin <= raw.end && raw.end <= data_len {
        if let Some(n) = element_count(&raw.shape) {
            let width: usize = dtype.size();
            proof {
                assert(n * width <= u64::MAX * 8) by (nonlinear_arith)
                    requires
                        0 <= n <= u64::MAX,
                        0 <= width <= 8,
                ;
            }
            let size: u128 = (n as u128) * (width as u128);
            if size == (raw.end - raw.begin) as u128 {
                return Ok(
                    TensorInfo {
                        dtype,
                        shape: raw.shape,
                        offset: data_start + raw.begin,
                        len: raw.end - raw.begin,
                        shard,
                    },
                );
            }
        }
    }
    Err(name.to_owned().concat(": data offsets do not match shape"))
}

/// The length of the header that follows the first eight bytes of a file.
pub open spec fn header_outcome(prefix: Seq<u8>, file_len: nat, path: Seq<char>) -> Result<
    nat,
    SafetensorsFault,
> {
    let len = little_endian(prefix);
    if len <= MAX_HEADER && 8 + len <= file_len {
        Ok(len)
    } else {
        Err(format_fault(path, "header length out of range"@))
    }
}

/// The length of the header that follows the first eight bytes of a file.
pub fn header_length(prefix: &[u8], file_len: u64, path: &str) -> (r: Result<u64, SafetensorsError>)
    requires
        prefix@.len() == 8,
    ensures
        r matches Ok(n) ==> header_outcome(prefix@, file_len as nat, path@) == Ok::<
            nat,
            SafetensorsFault,
        >(n as nat),
        r matches Err(e) ==> header_outcome(prefix@, file_len as nat, path@) == Err::<
            nat,
            SafetensorsFault,
        >(e@),
{
    let len: u64 = little_endian_at(prefix, 0, 8);
    assert(prefix@.subrange(0, 8) =~= prefix@);
    if len > MAX_HEADER || 8 + len > file_len {
        return Err(format(path, "header length out of range"));
    }
    Ok(len)
}

} // verus!
