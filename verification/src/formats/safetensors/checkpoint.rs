//! One or more safetensors files presented as a single tensor namespace.
use crate::arith::product;
use crate::formats::bytes::{little_endian, little_endian_at};
use crate::formats::safetensors::header::{
    format_fault, read_tensor, tensor_outcome, Dtype, SafetensorsError, SafetensorsFault,
    Span, TensorInfo,
};
use crate::formats::safetensors::header;
use crate::formats::safetensors::laws::law_adding_a_file_extends_the_namespace;
use crate::json::{json_members, tree, Json, Tree};
use crate::formats::gguf::file::f32_bits;
use crate::sequences::{lemma_lookup_found, lemma_lookup_step, lookup, texts};
use crate::text::{is_before, lemma_text_order, same_text, strictly_sorted, text_before};
use vstd::prelude::*;
use vstd::string::*;

verus! {

/// One or more safetensors files presented as a single tensor namespace.
#[derive(Debug)]
pub struct Checkpoint {
    /// The path of each file.
    pub shards: Vec<String>,
    /// The tensors by name, in the order in which they were listed.
    pub tensors: Vec<(String, TensorInfo)>,
}

/// The tensors of a checkpoint by name.
pub open spec fn spans(tensors: Seq<(String, TensorInfo)>) -> Seq<(Seq<char>, Span)> {
    Seq::new(tensors.len(), |i: int| (tensors[i].0@, tensors[i].1@))
}

/// A tensor has as many bytes as its shape and type take.
pub open spec fn filled(span: Span) -> bool {
    product(span.shape) * span.dtype.width() == span.len
}

/// The mathematical model of a [`Checkpoint`].
#[verifier::ext_equal]
pub struct Namespace {
    pub shards: Seq<Seq<char>>,
    pub tensors: Seq<(Seq<char>, Span)>,
}

impl View for Checkpoint {
    type V = Namespace;

    open spec fn view(&self) -> Namespace {
        Namespace { shards: texts(self.shards@), tensors: spans(self.tensors@) }
    }
}

impl Namespace {
    /// No name occurs twice, and each tensor is in one of the files, in as many bytes as its shape
    /// and type take.
    pub open spec fn valid(self) -> bool {
        &&& forall|i: int, j: int|
            0 <= i < j < self.tensors.len() ==> (#[trigger] self.tensors[i]).0 != (
            #[trigger] self.tensors[j]).0
        &&& forall|i: int|
            0 <= i < self.tensors.len() ==> (#[trigger] self.tensors[i]).1.shard
                < self.shards.len() && filled(self.tensors[i].1)
    }
}

/// The tensors that the members of one header add, or what is wrong with the first bad one.
/// The `__metadata__` member is no tensor.
pub open spec fn add_members(
    known: Seq<(Seq<char>, Span)>,
    members: Seq<(Seq<char>, Tree)>,
    data_start: nat,
    data_len: nat,
    shard: nat,
) -> Result<Seq<(Seq<char>, Span)>, Seq<char>>
    decreases members.len(),
{
    if members.len() == 0 {
        Ok(known)
    } else {
        match add_members(known, members.drop_last(), data_start, data_len, shard) {
            Err(e) => Err(e),
            Ok(before) => {
                let (name, value) = members.last();
                if name == "__metadata__"@ {
                    Ok(before)
                } else {
                    match tensor_outcome(name, value, data_start, data_len, shard) {
                        Err(e) => Err(e),
                        Ok(span) => if lookup(before, name) is Some {
                            Err("duplicate tensor "@ + name)
                        } else {
                            Ok(before.push((name, span)))
                        },
                    }
                }
            },
        }
    }
}

proof fn lemma_add_members_fails(
    known: Seq<(Seq<char>, Span)>,
    members: Seq<(Seq<char>, Tree)>,
    data_start: nat,
    data_len: nat,
    shard: nat,
    i: int,
)
    requires
        0 <= i <= members.len(),
        add_members(known, members.take(i), data_start, data_len, shard) is Err,
    ensures
        add_members(known, members, data_start, data_len, shard) == add_members(
            known,
            members.take(i),
            data_start,
            data_len,
            shard,
        ),
    decreases members.len() - i,
{
    if i < members.len() {
        assert(members.take(i + 1).drop_last() =~= members.take(i));
        lemma_add_members_fails(known, members, data_start, data_len, shard, i + 1);
    } else {
        assert(members.take(i) =~= members);
    }
}

/// The checkpoint with one more file of `file_len` bytes, whose header `header` follows eight
/// bytes.
pub open spec fn add_outcome(
    before: Namespace,
    path: Seq<char>,
    header: Seq<u8>,
    file_len: nat,
) -> Result<Namespace, SafetensorsFault> {
    match json_members(header) {
        Err(e) => Err(format_fault(path, "header: "@ + e)),
        Ok(members) => match add_members(
            before.tensors,
            members,
            (8 + header.len()) as nat,
            (file_len - 8 - header.len()) as nat,
            before.shards.len(),
        ) {
            Err(e) => Err(format_fault(path, e)),
            Ok(tensors) => Ok(Namespace { shards: before.shards.push(path), tensors }),
        },
    }
}

/// The value of the first entry under `name`, by index.
fn find<'a>(tensors: &'a Vec<(String, TensorInfo)>, name: &str) -> (r: Option<&'a TensorInfo>)
    ensures
        r matches Some(info) ==> lookup(spans(tensors@), name@) == Some(info@),
        r is None ==> lookup(spans(tensors@), name@) is None,
{
    let ghost model = spans(tensors@);
    let mut i: usize = 0;
    assert(model.skip(0) =~= model);
    while i < tensors.len()
        invariant
            i <= tensors@.len(),
            model == spans(tensors@),
            lookup(model, name@) == lookup(model.skip(i as int), name@),
        decreases tensors@.len() - i,
    {
        proof {
            lemma_lookup_step(model, i as int, name@);
        }
        if same_text(tensors[i].0.as_str(), name) {
            return Some(&tensors[i].1);
        }
        i += 1;
    }
    None
}

impl Checkpoint {
    /// A checkpoint of no files.
    pub fn new() -> (r: Self)
        ensures
            r@ == (Namespace { shards: Seq::empty(), tensors: Seq::empty() }),
            r@.valid(),
    {
        let r: Checkpoint = Checkpoint { shards: Vec::new(), tensors: Vec::new() };
        proof {
            assert(r@.shards =~= Seq::empty());
            assert(r@.tensors =~= Seq::empty());
        }
        r
    }

    /// Adds the file at `path`, of `file_len` bytes, whose header bytes are `head`; tensor
    /// names must be unique across files. A file that is refused leaves the checkpoint as it was.
    pub fn add(&mut self, path: &str, head: &[u8], file_len: u64) -> (r: Result<
        (),
        SafetensorsError,
    >)
        requires
            8 + head@.len() <= file_len,
        ensures
            r is Ok ==> add_outcome(old(self)@, path@, head@, file_len as nat) == Ok::<
                Namespace,
                SafetensorsFault,
            >(final(self)@),
            r matches Err(e) ==> add_outcome(old(self)@, path@, head@, file_len as nat) == Err::<
                Namespace,
                SafetensorsFault,
            >(e@),
            r is Err ==> final(self)@ == old(self)@,
            old(self)@.valid() ==> final(self)@.valid(),
    {
        let members: Vec<(String, Json)> = match Json::parse_members(head) {
            Ok(members) => members,
            Err(e) => {
                let message: String = "header: ".to_owned().concat(e.as_str());
                return Err(header::format(path, message.as_str()));
            },
        };
        let ghost model = json_members(head@)->Ok_0;
        let data_start: u64 = 8 + head.len() as u64;
        let data_len: u64 = file_len - data_start;
        let shard: usize = self.shards.len();
        let count: usize = self.tensors.len();
        let ghost known = self@.tensors;
        let ghost paths = self@.shards;
        let ghost (d, n, s) = (data_start as nat, data_len as nat, shard as nat);
        let mut i: usize = 0;
        proof {
            assert(tree(Json::Object(members))->Object_0 == model);
            assert(model.take(0) =~= Seq::<(Seq<char>, Tree)>::empty());
        }
        while i < members.len()
            invariant
                i <= members@.len(),
                model == json_members(head@)->Ok_0,
                json_members(head@) is Ok,
                model.len() == members@.len(),
                forall|k: int|
                    0 <= k < model.len() ==> #[trigger] model[k] == (
                        members@[k].0@,
                        members@[k].1@,
                    ),
                (d, n, s) == (data_start as nat, data_len as nat, shard as nat),
                data_start == 8 + head@.len(),
                data_len == file_len - data_start,
                known == old(self)@.tensors,
                count == known.len(),
                count <= self@.tensors.len(),
                self@.tensors.take(count as int) =~= known,
                paths == old(self)@.shards,
                self@.shards == paths,
                s == paths.len(),
                add_members(known, model.take(i as int), d, n, s) == Ok::<
                    Seq<(Seq<char>, Span)>,
                    Seq<char>,
                >(self@.tensors),
            decreases members@.len() - i,
        {
            let name: &str = members[i].0.as_str();
            proof {
                assert(model.take(i + 1).drop_last() =~= model.take(i as int));
                assert(model.take(i + 1).last() == model[i as int]);
            }
            if !same_text(name, "__metadata__") {
                let info: TensorInfo = match read_tensor(
                    name,
                    &members[i].1,
                    data_start,
                    data_len,
                    shard,
                ) {
                    Ok(info) => info,
                    Err(message) => {
                        proof {
                            lemma_add_members_fails(known, model, d, n, s, i + 1);
                        }
                        self.forget(count);
                        return Err(header::format(path, message.as_str()));
                    },
                };
                if find(&self.tensors, name).is_some() {
                    proof {
                        lemma_add_members_fails(known, model, d, n, s, i + 1);
                    }
                    self.forget(count);
                    let message: String = "duplicate tensor ".to_owned().concat(name);
                    return Err(header::format(path, message.as_str()));
                }
                let ghost before = self@.tensors;
                let ghost span = info@;
                self.tensors.push((name.to_owned(), info));
                proof {
                    assert(self@.tensors =~= before.push((name@, span)));
                }
            }
            i += 1;
        }
        proof {
            assert(model.take(i as int) =~= model);
        }
        self.shards.push(path.to_owned());
        proof {
            assert(self@.shards =~= paths.push(path@));
            if old(self)@.valid() {
                law_adding_a_file_extends_the_namespace(old(self)@, path@, head@, file_len as nat);
            }
        }
        Ok(())
    }

    /// Keeps the first `count` tensors.
    fn forget(&mut self, count: usize)
        requires
            count <= old(self)@.tensors.len(),
        ensures
            final(self)@ == (Namespace {
                tensors: old(self)@.tensors.take(count as int),
                ..old(self)@
            }),
    {
        let ghost all = self@.tensors;
        self.tensors.truncate(count);
        assert(self@.tensors =~= all.take(count as int));
    }

    pub fn tensor(&self, name: &str) -> (r: Result<&TensorInfo, SafetensorsError>)
        ensures
            r matches Ok(info) ==> lookup(self@.tensors, name@) == Some(info@),
            r matches Err(e) ==> lookup(self@.tensors, name@) is None && e@
                == SafetensorsFault::Missing(name@),
    {
        match find(&self.tensors, name) {
            Some(info) => Ok(info),
            None => Err(SafetensorsError::Missing(name.to_owned())),
        }
    }

    /// Where to read a tensor's raw little-endian bytes: the file's index, the offset in it and
    /// the number of bytes.
    pub fn read(&self, name: &str) -> (r: Result<(usize, u64, u64), SafetensorsError>)
        ensures
            r matches Ok((shard, offset, len)) ==> lookup(self@.tensors, name@) matches Some(span)
                && span.shard == shard && span.offset == offset && span.len == len,
            r matches Err(e) ==> lookup(self@.tensors, name@) is None && e@
                == SafetensorsFault::Missing(name@),
    {
        let info: &TensorInfo = self.tensor(name)?;
        Ok((info.shard, info.offset, info.len))
    }
}

/// The values of a floating-point tensor as the bit patterns they are stored in.
#[derive(Debug, PartialEq)]
pub enum Floats {
    /// Single precision.
    Single(Vec<u32>),
    /// Half precision.
    Half(Vec<u16>),
    /// bfloat16.
    Brain(Vec<u16>),
}

/// A type by name.
pub open spec fn dtype_name(dtype: Dtype) -> Seq<char> {
    match dtype {
        Dtype::F32 => "F32"@,
        Dtype::F16 => "F16"@,
        Dtype::BF16 => "BF16"@,
        Dtype::I64 => "I64"@,
        Dtype::I32 => "I32"@,
        Dtype::U8 => "U8"@,
        Dtype::Bool => "Bool"@,
    }
}

fn show_dtype(dtype: Dtype) -> (r: &'static str)
    ensures
        r@ == dtype_name(dtype),
{
    match dtype {
        Dtype::F32 => "F32",
        Dtype::F16 => "F16",
        Dtype::BF16 => "BF16",
        Dtype::I64 => "I64",
        Dtype::I32 => "I32",
        Dtype::U8 => "U8",
        Dtype::Bool => "Bool",
    }
}

/// The little-endian number in the `i`-th group of `n` bytes.
pub open spec fn group_value(bytes: Seq<u8>, n: int, i: int) -> nat {
    little_endian(bytes.subrange(n * i, n * i + n))
}

/// The little-endian 16-bit values of `bytes`; a last odd byte is dropped.
pub fn halves(bytes: &[u8]) -> (r: Vec<u16>)
    ensures
        r@.len() == bytes@.len() / 2,
        forall|i: int| 0 <= i < r@.len() ==> #[trigger] r@[i] == group_value(bytes@, 2, i),
{
    let size: usize = bytes.len();
    let mut values: Vec<u16> = Vec::new();
    let mut at: usize = 0;
    while size - at >= 2
        invariant
            size == bytes@.len(),
            at <= size,
            at == 2 * values@.len(),
            forall|i: int|
                0 <= i < values@.len() ==> #[trigger] values@[i] == group_value(bytes@, 2, i),
        decreases size - at,
    {
        let bits: u64 = little_endian_at(bytes, at, 2);
        values.push(bits as u16);
        at += 2;
    }
    values
}

/// The single-precision bits of a bfloat16 value: its own, followed by zeros; what is no number
/// becomes quiet.
pub open spec fn widened(bits: u16) -> int {
    let quiet = if bits % 0x8000 > 0x7f80 && bits / 64 % 2 == 0 {
        bits + 64
    } else {
        bits as int
    };
    quiet * 0x1_0000
}

/// The single-precision bits of bfloat16 values.
pub fn widen_brain(values: &Vec<u16>) -> (r: Vec<u32>)
    ensures
        r@.len() == values@.len(),
        forall|i: int| 0 <= i < r@.len() ==> #[trigger] r@[i] == widened(values@[i]),
{
    let mut out: Vec<u32> = Vec::new();
    let mut i: usize = 0;
    while i < values.len()
        invariant
            i <= values@.len(),
            out@.len() == i,
            forall|k: int| 0 <= k < i ==> #[trigger] out@[k] == widened(values@[k]),
        decreases values@.len() - i,
    {
        let bits: u32 = values[i] as u32;
        let quiet: u32 = if bits % 0x8000 > 0x7f80 && bits / 64 % 2 == 0 {
            bits + 64
        } else {
            bits
        };
        assert(quiet <= 0xffff);
        out.push(quiet * 0x1_0000);
        i += 1;
    }
    out
}

/// What decoding the bytes of the tensor `name` gives.
pub open spec fn floats_hold(floats: Floats, dtype: Dtype, bytes: Seq<u8>) -> bool {
    match floats {
        Floats::Single(v) => {
            &&& dtype == Dtype::F32
            &&& v@.len() == bytes.len() / 4
            &&& forall|i: int| 0 <= i < v@.len() ==> #[trigger] v@[i] == group_value(bytes, 4, i)
        },
        Floats::Half(v) => {
            &&& dtype == Dtype::F16
            &&& v@.len() == bytes.len() / 2
            &&& forall|i: int| 0 <= i < v@.len() ==> #[trigger] v@[i] == group_value(bytes, 2, i)
        },
        Floats::Brain(v) => {
            &&& dtype == Dtype::BF16
            &&& v@.len() == bytes.len() / 2
            &&& forall|i: int| 0 <= i < v@.len() ==> #[trigger] v@[i] == group_value(bytes, 2, i)
        },
    }
}

/// A type of floating-point values.
pub open spec fn is_float(dtype: Dtype) -> bool {
    dtype == Dtype::F32 || dtype == Dtype::F16 || dtype == Dtype::BF16
}

impl Checkpoint {
    /// The values of the floating-point tensor `name`, whose raw bytes are `bytes`.
    pub fn read_f32(&self, name: &str, bytes: &[u8]) -> (r: Result<Floats, SafetensorsError>)
        requires
            self@.valid(),
        ensures
            r matches Ok(floats) ==> lookup(self@.tensors, name@) matches Some(span) && floats_hold(
                floats,
                span.dtype,
                bytes@,
            ),
            r matches Err(e) ==> match lookup(self@.tensors, name@) {
                None => e@ == SafetensorsFault::Missing(name@),
                Some(span) => !is_float(span.dtype) && span.shard < self@.shards.len() && e@
                    == format_fault(
                    self@.shards[span.shard as int],
                    name@ + ": "@ + dtype_name(span.dtype) + " is not a float"@,
                ),
            },
    {
        let info: &TensorInfo = self.tensor(name)?;
        proof {
            lemma_lookup_found(self@.tensors, name@);
        }
        match info.dtype {
            Dtype::F32 => {
                let values: Vec<u32> = f32_bits(bytes);
                proof {
                    assert forall|i: int| 0 <= i < values@.len() implies #[trigger] values@[i]
                        == group_value(bytes@, 4, i) by {}
                }
                Ok(Floats::Single(values))
            },
            Dtype::F16 => Ok(Floats::Half(halves(bytes))),
            Dtype::BF16 => Ok(Floats::Brain(halves(bytes))),
            other => {
                let message: String = name.to_owned().concat(": ").concat(
                    show_dtype(other),
                ).concat(" is not a float");
                assert(self@.shards[info.shard as int] == self.shards@[info.shard as int]@);
                Err(header::format(self.shards[info.shard].as_str(), message.as_str()))
            },
        }
    }

    /// Checks that a buffer of `size` bytes takes exactly the tensor.
    pub fn read_into(&self, info: &TensorInfo, size: usize) -> (r: Result<(), SafetensorsError>)
        requires
            info.shard < self@.shards.len(),
        ensures
            r is Ok <==> size == info.len,
            r matches Err(e) ==> e@ == format_fault(
                self@.shards[info.shard as int],
                "output buffer size mismatch"@,
            ),
    {
        if size as u64 != info.len {
            assert(self@.shards[info.shard as int] == self.shards@[info.shard as int]@);
            return Err(
                header::format(self.shards[info.shard].as_str(), "output buffer size mismatch"),
            );
        }
        Ok(())
    }

    /// The names of all tensors, in order.
    pub fn names(&self) -> (r: Vec<String>)
        requires
            self@.valid(),
        ensures
            strictly_sorted(texts(r@)),
            forall|name: Seq<char>|
                texts(r@).contains(name) <==> lookup(self@.tensors, name) is Some,
    {
        let mut sorted: Vec<String> = Vec::new();
        let mut i: usize = 0;
        while i < self.tensors.len()
            invariant
                i <= self.tensors@.len(),
                strictly_sorted(texts(sorted@)),
                forall|name: Seq<char>|
                    #[trigger] texts(sorted@).contains(name) <==> exists|k: int|
                        0 <= k < i && (#[trigger] self@.tensors[k]).0 == name,
            decreases self.tensors@.len() - i,
        {
            let ghost before = texts(sorted@);
            let name: &str = self.tensors[i].0.as_str();
            insert_sorted(&mut sorted, name);
            proof {
                assert(self@.tensors[i as int].0 == name@);
                assert forall|x: Seq<char>| #[trigger] texts(sorted@).contains(x) <==> exists|k:
                    int| 0 <= k < i + 1 && (#[trigger] self@.tensors[k]).0 == x by {
                    if before.contains(x) {
                        let k = choose|k: int| 0 <= k < i && (#[trigger] self@.tensors[k]).0 == x;
                        assert(self@.tensors[k].0 == x);
                    }
                }
            }
            i += 1;
        }
        proof {
            assert forall|name: Seq<char>| texts(sorted@).contains(name) <==> lookup(
                self@.tensors,
                name,
            ) is Some by {
                lemma_lookup_found(self@.tensors, name);
            }
        }
        sorted
    }
}

/// Adds `name` to a sorted list, unless it is there.
pub fn insert_sorted(list: &mut Vec<String>, name: &str)
    requires
        strictly_sorted(texts(old(list)@)),
    ensures
        strictly_sorted(texts(final(list)@)),
        forall|x: Seq<char>| #[trigger]
            texts(final(list)@).contains(x) <==> texts(old(list)@).contains(x) || x == name@,
{
    let ghost all = texts(list@);
    let mut i: usize = 0;
    while i < list.len() && is_before(list[i].as_str(), name)
        invariant
            i <= list@.len(),
            all == texts(list@),
            forall|k: int| 0 <= k < i ==> text_before(#[trigger] all[k], name@),
        decreases list@.len() - i,
    {
        i += 1;
    }
    if i < list.len() {
        assert(all[i as int] == list@[i as int]@);
        if same_text(list[i].as_str(), name) {
            return;
        }
    }
    list.insert(i, name.to_owned());
    proof {
        let new = texts(list@);
        assert(new =~= all.insert(i as int, name@));
        assert forall|a: int, b: int| 0 <= a < b < new.len() implies text_before(
            #[trigger] new[a],
            #[trigger] new[b],
        ) by {
            if a == i {
                lemma_text_order(name@, all[i as int], all[b - 1]);
                if b - 1 > i {
                    assert(text_before(all[i as int], all[b - 1]));
                }
            } else if b == i {
            } else {
                let x = if a < i { a } else { a - 1 };
                let y = if b < i { b } else { b - 1 };
                assert(new[a] == all[x] && new[b] == all[y]);
            }
        }
        assert forall|x: Seq<char>| #[trigger] new.contains(x) <==> all.contains(x) || x
            == name@ by {
            if new.contains(x) {
                let k = choose|k: int| 0 <= k < new.len() && new[k] == x;
                if k < i {
                    assert(all[k] == x);
                } else if k > i {
                    assert(all[k - 1] == x);
                }
            }
            if all.contains(x) {
                let k = choose|k: int| 0 <= k < all.len() && all[k] == x;
                if k < i {
                    assert(new[k] == x);
                } else {
                    assert(new[k + 1] == x);
                }
            }
            if x == name@ {
                assert(new[i as int] == x);
            }
        }
    }
}

} // verus!
