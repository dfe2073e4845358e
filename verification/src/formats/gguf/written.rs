//! Reading gives back what was written.
use crate::arith::{power_of_two, round_up};
use crate::formats::bytes::{little_endian, utf8_text};
use crate::formats::gguf::format::{
    alignment_of, catalog, dimensions, directory, entries, has_key, items, listing, metadata_value,
    place_all, scalar, string, unsigned, Listing,
};
use crate::formats::gguf::value::{Datum, GgufFault, TensorType};
use crate::sequences::lemma_lookup_found;
use vstd::prelude::*;
use vstd::string::*;
use vstd::utf8::{encode_utf8, encode_utf8_decode_utf8, encode_utf8_valid_utf8};

verus! {

/// `n` in `k` bytes, the lowest first.
pub open spec fn bytes_of(n: nat, k: nat) -> Seq<u8>
    decreases k,
{
    if k == 0 {
        Seq::empty()
    } else {
        seq![(n % 256) as u8] + bytes_of(n / 256, (k - 1) as nat)
    }
}

/// 256 to the power `k`.
pub open spec fn numbers_in(k: nat) -> nat
    decreases k,
{
    if k == 0 {
        1
    } else {
        256 * numbers_in((k - 1) as nat)
    }
}

/// A text: its length in bytes, and then its bytes.
pub open spec fn write_text(text: Seq<char>) -> Seq<u8> {
    bytes_of(encode_utf8(text).len(), 8) + encode_utf8(text)
}

/// The bits of a signed number of `n` values.
pub open spec fn wrapped(v: int, n: nat) -> nat {
    if v >= 0 {
        v as nat
    } else {
        (v + n) as nat
    }
}

/// The number that stands for the type of a value.
pub open spec fn type_number(value: Datum) -> nat {
    match value {
        Datum::U8(_) => 0,
        Datum::I8(_) => 1,
        Datum::U16(_) => 2,
        Datum::I16(_) => 3,
        Datum::U32(_) => 4,
        Datum::I32(_) => 5,
        Datum::F32(_) => 6,
        Datum::Bool(_) => 7,
        Datum::String(_) => 8,
        Datum::Array(_) => 9,
        Datum::U64(_) => 10,
        Datum::I64(_) => 11,
        Datum::F64(_) => 12,
    }
}

/// A value that is no array.
pub open spec fn write_scalar(value: Datum) -> Seq<u8> {
    match value {
        Datum::U8(v) => bytes_of(v as nat, 1),
        Datum::I8(v) => bytes_of(wrapped(v as int, 0x100), 1),
        Datum::U16(v) => bytes_of(v as nat, 2),
        Datum::I16(v) => bytes_of(wrapped(v as int, 0x1_0000), 2),
        Datum::U32(v) => bytes_of(v as nat, 4),
        Datum::I32(v) => bytes_of(wrapped(v as int, 0x1_0000_0000), 4),
        Datum::F32(v) => bytes_of(v as nat, 4),
        Datum::Bool(v) => bytes_of(
            if v {
                1
            } else {
                0
            },
            1,
        ),
        Datum::String(v) => write_text(v),
        Datum::U64(v) => bytes_of(v as nat, 8),
        Datum::I64(v) => bytes_of(wrapped(v as int, 0x1_0000_0000_0000_0000), 8),
        Datum::F64(v) => bytes_of(v as nat, 8),
        Datum::Array(_) => Seq::empty(),
    }
}

/// Values one after another.
pub open spec fn write_items(values: Seq<Datum>) -> Seq<u8>
    decreases values.len(),
{
    if values.len() == 0 {
        Seq::empty()
    } else {
        write_items(values.drop_last()) + write_scalar(values.last())
    }
}

/// A value: an array is the type and number of its items, and then the items.
pub open spec fn write_value(value: Datum) -> Seq<u8> {
    match value {
        Datum::Array(values) => bytes_of(
            if values.len() == 0 {
                0
            } else {
                type_number(values[0])
            },
            4,
        ) + bytes_of(values.len(), 8) + write_items(values),
        _ => write_scalar(value),
    }
}

/// A text that is not too long.
pub open spec fn short(text: Seq<char>) -> bool {
    encode_utf8(text).len() <= 0x100_0000
}

/// A value that can be written: an array is not too long and holds values of one type, no arrays.
pub open spec fn writable(value: Datum) -> bool {
    match value {
        Datum::String(text) => short(text),
        Datum::Array(values) => values.len() <= 0x400_0000 && forall|i: int|
            0 <= i < values.len() ==> item_like(#[trigger] values[i], values[0]),
        _ => true,
    }
}

/// An item of an array whose first item is `first`.
pub open spec fn item_like(value: Datum, first: Datum) -> bool {
    &&& value !is Array
    &&& type_number(value) == type_number(first)
    &&& value matches Datum::String(text) ==> short(text)
}

/// Entries one after another: each its key, its type and its value.
pub open spec fn write_entries(list: Seq<(Seq<char>, Datum)>) -> Seq<u8>
    decreases list.len(),
{
    if list.len() == 0 {
        Seq::empty()
    } else {
        write_entries(list.drop_last()) + (write_text(list.last().0) + bytes_of(
            type_number(list.last().1),
            4,
        ) + write_value(list.last().1))
    }
}

/// Dimensions one after another.
pub open spec fn write_dims(dims: Seq<nat>) -> Seq<u8>
    decreases dims.len(),
{
    if dims.len() == 0 {
        Seq::empty()
    } else {
        write_dims(dims.drop_last()) + bytes_of(dims.last(), 8)
    }
}

/// A tensor in the directory: its name, its dimensions, the number of its type, and where its data
/// starts in the data of all tensors.
pub struct Entry {
    pub name: Seq<char>,
    pub dims: Seq<nat>,
    pub id: u32,
    pub offset: nat,
}

impl Entry {
    /// It can be written.
    pub open spec fn writable(self) -> bool {
        &&& short(self.name)
        &&& 1 <= self.dims.len() <= 4
        &&& forall|i: int| 0 <= i < self.dims.len() ==> #[trigger] self.dims[i] <= u64::MAX
        &&& self.offset <= u64::MAX
    }

    /// As it is read.
    pub open spec fn listed(self) -> Listing {
        Listing {
            name: self.name,
            dims: self.dims,
            kind: TensorType::of_id(self.id),
            offset: self.offset,
        }
    }

    /// As it is written.
    pub open spec fn write(self) -> Seq<u8> {
        write_text(self.name) + bytes_of(self.dims.len(), 4) + write_dims(self.dims) + bytes_of(
            self.id as nat,
            4,
        ) + bytes_of(self.offset, 8)
    }
}

/// The tensors of a directory, one after another.
pub open spec fn write_directory(list: Seq<Entry>) -> Seq<u8>
    decreases list.len(),
{
    if list.len() == 0 {
        Seq::empty()
    } else {
        write_directory(list.drop_last()) + list.last().write()
    }
}

/// The front of a file: the magic, the version, how many tensors and entries there are, the entries
/// and the directory.
pub open spec fn write_head(
    version: nat,
    metadata: Seq<(Seq<char>, Datum)>,
    tensors: Seq<Entry>,
) -> Seq<u8> {
    seq![0x47u8, 0x47u8, 0x55u8, 0x46u8] + bytes_of(version, 4) + bytes_of(tensors.len(), 8)
        + bytes_of(metadata.len(), 8) + write_entries(metadata) + write_directory(tensors)
}

// ---------------------------------------------------------------------------------------------
// Proof
// ---------------------------------------------------------------------------------------------

/// The bytes stand in the data from `at` on.
spec fn stands(data: Seq<u8>, at: int, bytes: Seq<u8>) -> bool {
    0 <= at && at + bytes.len() <= data.len() && data.subrange(at, at + bytes.len()) == bytes
}

proof fn lemma_parts(data: Seq<u8>, at: int, a: Seq<u8>, b: Seq<u8>)
    requires
        stands(data, at, a + b),
    ensures
        stands(data, at, a),
        stands(data, at + a.len(), b),
{
    let whole = data.subrange(at, at + (a + b).len());
    assert(data.subrange(at, at + a.len()) =~= whole.subrange(0, a.len() as int));
    assert(whole.subrange(0, a.len() as int) =~= a);
    assert(data.subrange(at + a.len(), at + a.len() + b.len()) =~= whole.skip(a.len() as int));
    assert(whole.skip(a.len() as int) =~= b);
}

proof fn lemma_number(n: nat, k: nat)
    requires
        n < numbers_in(k),
    ensures
        bytes_of(n, k).len() == k,
        little_endian(bytes_of(n, k)) == n,
    decreases k,
{
    if k > 0 {
        lemma_number(n / 256, (k - 1) as nat);
        let rest = bytes_of(n / 256, (k - 1) as nat);
        assert(bytes_of(n, k).drop_first() =~= rest);
    }
}

proof fn lemma_sizes()
    ensures
        numbers_in(1) == 0x100,
        numbers_in(2) == 0x1_0000,
        numbers_in(4) == 0x1_0000_0000,
        numbers_in(8) == 0x1_0000_0000_0000_0000,
{
    reveal_with_fuel(numbers_in, 10);
}

proof fn lemma_unsigned(data: Seq<u8>, at: int, n: nat, k: nat)
    requires
        n < numbers_in(k),
        stands(data, at, bytes_of(n, k)),
    ensures
        unsigned(data, at, k as int) == Ok::<(nat, int), GgufFault>((n, at + k)),
{
    lemma_number(n, k);
}

proof fn lemma_string(data: Seq<u8>, at: int, text: Seq<char>)
    requires
        short(text),
        stands(data, at, write_text(text)),
    ensures
        string(data, at) == Ok::<(Seq<char>, int), GgufFault>((text, at + write_text(text).len())),
{
    let bytes = encode_utf8(text);
    lemma_sizes();
    lemma_number(bytes.len(), 8);
    lemma_parts(data, at, bytes_of(bytes.len(), 8), bytes);
    lemma_unsigned(data, at, bytes.len(), 8);
    encode_utf8_decode_utf8(text);
    encode_utf8_valid_utf8(text);
    assert(utf8_text(bytes) == Some(text));
}

proof fn lemma_scalar(data: Seq<u8>, at: int, value: Datum)
    requires
        value !is Array,
        writable(value),
        stands(data, at, write_scalar(value)),
    ensures
        scalar(data, at, type_number(value) as u32) == Ok::<(Datum, int), GgufFault>(
            (value, at + write_scalar(value).len()),
        ),
{
    lemma_sizes();
    match value {
        Datum::String(text) => {
            lemma_string(data, at, text);
        },
        Datum::U8(v) => {
            lemma_number(v as nat, 1);
            lemma_unsigned(data, at, v as nat, 1);
        },
        Datum::I8(v) => {
            lemma_number(wrapped(v as int, 0x100), 1);
            lemma_unsigned(data, at, wrapped(v as int, 0x100), 1);
        },
        Datum::U16(v) => {
            lemma_number(v as nat, 2);
            lemma_unsigned(data, at, v as nat, 2);
        },
        Datum::I16(v) => {
            lemma_number(wrapped(v as int, 0x1_0000), 2);
            lemma_unsigned(data, at, wrapped(v as int, 0x1_0000), 2);
        },
        Datum::U32(v) => {
            lemma_number(v as nat, 4);
            lemma_unsigned(data, at, v as nat, 4);
        },
        Datum::I32(v) => {
            lemma_number(wrapped(v as int, 0x1_0000_0000), 4);
            lemma_unsigned(data, at, wrapped(v as int, 0x1_0000_0000), 4);
        },
        Datum::F32(v) => {
            lemma_number(v as nat, 4);
            lemma_unsigned(data, at, v as nat, 4);
        },
        Datum::Bool(v) => {
            let n: nat = if v {
                1
            } else {
                0
            };
            lemma_number(n, 1);
            lemma_unsigned(data, at, n, 1);
        },
        Datum::U64(v) => {
            lemma_number(v as nat, 8);
            lemma_unsigned(data, at, v as nat, 8);
        },
        Datum::I64(v) => {
            lemma_number(wrapped(v as int, 0x1_0000_0000_0000_0000), 8);
            lemma_unsigned(data, at, wrapped(v as int, 0x1_0000_0000_0000_0000), 8);
        },
        Datum::F64(v) => {
            lemma_number(v as nat, 8);
            lemma_unsigned(data, at, v as nat, 8);
        },
        Datum::Array(_) => {},
    }
}

proof fn lemma_items(data: Seq<u8>, at: int, values: Seq<Datum>, first: Datum)
    requires
        forall|i: int| 0 <= i < values.len() ==> item_like(#[trigger] values[i], first),
        stands(data, at, write_items(values)),
    ensures
        items(data, at, type_number(first) as u32, values.len()) == Ok::<
            (Seq<Datum>, int),
            GgufFault,
        >((values, at + write_items(values).len())),
    decreases values.len(),
{
    if values.len() > 0 {
        let rest = values.drop_last();
        let last = values.last();
        lemma_parts(data, at, write_items(rest), write_scalar(last));
        assert forall|i: int| 0 <= i < rest.len() implies item_like(#[trigger] rest[i], first) by {
            assert(rest[i] == values[i]);
        }
        lemma_items(data, at, rest, first);
        assert(item_like(values[values.len() - 1], first));
        lemma_scalar(data, at + write_items(rest).len(), last);
        assert(rest.push(last) =~= values);
    } else {
        assert(values =~= Seq::<Datum>::empty());
    }
}

proof fn lemma_value(data: Seq<u8>, at: int, value: Datum)
    requires
        writable(value),
        stands(data, at, write_value(value)),
    ensures
        metadata_value(data, at, type_number(value) as u32) == Ok::<(Datum, int), GgufFault>(
            (value, at + write_value(value).len()),
        ),
{
    if let Datum::Array(values) = value {
        let kind = if values.len() == 0 {
            0
        } else {
            type_number(values[0])
        };
        let (a, b, c) = (bytes_of(kind, 4), bytes_of(values.len(), 8), write_items(values));
        lemma_sizes();
        lemma_number(kind, 4);
        lemma_number(values.len(), 8);
        lemma_parts(data, at, a + b, c);
        lemma_parts(data, at, a, b);
        lemma_unsigned(data, at, kind, 4);
        lemma_unsigned(data, at + 4, values.len(), 8);
        let first = if values.len() == 0 {
            Datum::U8(0)
        } else {
            values[0]
        };
        lemma_items(data, at + 12, values, first);
    } else {
        lemma_scalar(data, at, value);
    }
}

/// The keys are different.
pub open spec fn distinct_keys(list: Seq<(Seq<char>, Datum)>) -> bool {
    forall|i: int, j: int|
        0 <= i < j < list.len() ==> (#[trigger] list[i]).0 != (#[trigger] list[j]).0
}

proof fn lemma_entries(data: Seq<u8>, at: int, list: Seq<(Seq<char>, Datum)>)
    requires
        distinct_keys(list),
        forall|i: int|
            0 <= i < list.len() ==> short((#[trigger] list[i]).0) && writable(list[i].1),
        stands(data, at, write_entries(list)),
    ensures
        entries(data, at, list.len()) == Ok::<(Seq<(Seq<char>, Datum)>, int), GgufFault>(
            (list, at + write_entries(list).len()),
        ),
    decreases list.len(),
{
    if list.len() > 0 {
        let rest = list.drop_last();
        let (key, value) = list.last();
        let front = write_entries(rest);
        let kind = bytes_of(type_number(value), 4);
        lemma_parts(data, at, front, write_text(key) + kind + write_value(value));
        let mid = at + front.len();
        lemma_parts(data, mid, write_text(key) + kind, write_value(value));
        lemma_parts(data, mid, write_text(key), kind);
        assert forall|i: int| 0 <= i < rest.len() implies short((#[trigger] rest[i]).0) && writable(
            rest[i].1,
        ) by {
            assert(rest[i] == list[i]);
        }
        lemma_entries(data, at, rest);
        lemma_sizes();
        assert(short(list[list.len() - 1].0));
        lemma_string(data, mid, key);
        lemma_number(type_number(value), 4);
        lemma_unsigned(data, mid + write_text(key).len(), type_number(value), 4);
        lemma_value(data, mid + write_text(key).len() + 4, value);
        assert(!has_key(rest, key)) by {
            if has_key(rest, key) {
                let i = choose|i: int| 0 <= i < rest.len() && (#[trigger] rest[i]).0 == key;
                assert(list[i].0 != list[list.len() - 1].0);
            }
        }
        assert(rest.push((key, value)) =~= list);
    } else {
        assert(list =~= Seq::<(Seq<char>, Datum)>::empty());
    }
}

proof fn lemma_dims(data: Seq<u8>, at: int, dims: Seq<nat>)
    requires
        forall|i: int| 0 <= i < dims.len() ==> #[trigger] dims[i] <= u64::MAX,
        stands(data, at, write_dims(dims)),
    ensures
        dimensions(data, at, dims.len()) == Ok::<(Seq<nat>, int), GgufFault>(
            (dims, at + write_dims(dims).len()),
        ),
    decreases dims.len(),
{
    if dims.len() > 0 {
        let rest = dims.drop_last();
        let d = dims.last();
        lemma_parts(data, at, write_dims(rest), bytes_of(d, 8));
        assert forall|i: int| 0 <= i < rest.len() implies #[trigger] rest[i] <= u64::MAX by {
            assert(rest[i] == dims[i]);
        }
        lemma_dims(data, at, rest);
        lemma_sizes();
        assert(dims[dims.len() - 1] <= u64::MAX);
        lemma_number(d, 8);
        lemma_unsigned(data, at + write_dims(rest).len(), d, 8);
        assert(rest.push(d) =~= dims);
    } else {
        assert(dims =~= Seq::<nat>::empty());
    }
}

proof fn lemma_listing(data: Seq<u8>, at: int, e: Entry)
    requires
        e.writable(),
        stands(data, at, e.write()),
    ensures
        listing(data, at) == Ok::<(Listing, int), GgufFault>((e.listed(), at + e.write().len())),
{
    let (a, b, c) = (write_text(e.name), bytes_of(e.dims.len(), 4), write_dims(e.dims));
    let (d, f) = (bytes_of(e.id as nat, 4), bytes_of(e.offset, 8));
    lemma_parts(data, at, a + b + c + d, f);
    lemma_parts(data, at, a + b + c, d);
    lemma_parts(data, at, a + b, c);
    lemma_parts(data, at, a, b);
    lemma_sizes();
    lemma_string(data, at, e.name);
    lemma_number(e.dims.len(), 4);
    lemma_number(e.id as nat, 4);
    lemma_number(e.offset, 8);
    let p1 = at + a.len();
    lemma_unsigned(data, p1, e.dims.len(), 4);
    lemma_dims(data, p1 + 4, e.dims);
    lemma_unsigned(data, p1 + 4 + c.len(), e.id as nat, 4);
    lemma_unsigned(data, p1 + 4 + c.len() + 4, e.offset, 8);
}

/// The tensors as they are read.
pub open spec fn listed_all(list: Seq<Entry>) -> Seq<Listing> {
    Seq::new(list.len(), |i: int| list[i].listed())
}

proof fn lemma_directory(data: Seq<u8>, at: int, list: Seq<Entry>)
    requires
        forall|i: int| 0 <= i < list.len() ==> (#[trigger] list[i]).writable(),
        stands(data, at, write_directory(list)),
    ensures
        directory(data, at, list.len()) == Ok::<(Seq<Listing>, int), GgufFault>(
            (listed_all(list), at + write_directory(list).len()),
        ),
    decreases list.len(),
{
    if list.len() > 0 {
        let rest = list.drop_last();
        let last = list.last();
        lemma_parts(data, at, write_directory(rest), last.write());
        assert forall|i: int| 0 <= i < rest.len() implies (#[trigger] rest[i]).writable() by {
            assert(rest[i] == list[i]);
        }
        lemma_directory(data, at, rest);
        assert(list[list.len() - 1].writable());
        lemma_listing(data, at + write_directory(rest).len(), last);
        assert(listed_all(rest).push(last.listed()) =~= listed_all(list));
    } else {
        assert(listed_all(list) =~= Seq::<Listing>::empty());
    }
}

/// The tensors are placed one for one, each at its offset in the data.
proof fn lemma_placed(listed: Seq<Listing>, start: int, alignment: int, file_len: int)
    requires
        0 <= start,
    ensures
        place_all(listed, start, alignment, file_len) matches Ok(tensors) ==> tensors.len()
            == listed.len() && forall|i: int|
            0 <= i < listed.len() ==> {
                let t = #[trigger] tensors[i];
                &&& t.name == listed[i].name && t.dims == listed[i].dims && t.kind == listed[i].kind
                &&& t.offset == start + listed[i].offset
            },
    decreases listed.len(),
{
    if listed.len() > 0 {
        let rest = listed.drop_last();
        lemma_placed(rest, start, alignment, file_len);
        if let Ok(tensors) = place_all(listed, start, alignment, file_len) {
            let before = place_all(rest, start, alignment, file_len)->Ok_0;
            assert forall|i: int| 0 <= i < listed.len() implies {
                let t = #[trigger] tensors[i];
                &&& t.name == listed[i].name && t.dims == listed[i].dims && t.kind == listed[i].kind
                &&& t.offset == start + listed[i].offset
            } by {
                if i < rest.len() {
                    assert(tensors[i] == before[i]);
                    assert(rest[i] == listed[i]);
                }
            }
        }
    }
}

/// Reading a file gives back what was written into its head: every entry with its key and value, and
/// every tensor with its name, its dimensions and its type, in order; the data of a tensor is at its
/// offset after the head, which is filled up to the alignment.
pub proof fn law_heads_are_read_as_written(
    version: nat,
    metadata: Seq<(Seq<char>, Datum)>,
    tensors: Seq<Entry>,
    data: Seq<u8>,
    file_len: int,
)
    requires
        2 <= version <= 3,
        metadata.len() <= 0x10_0000 && tensors.len() <= 0x10_0000,
        distinct_keys(metadata),
        forall|i: int|
            0 <= i < metadata.len() ==> short((#[trigger] metadata[i]).0) && writable(
                metadata[i].1,
            ),
        forall|i: int| 0 <= i < tensors.len() ==> (#[trigger] tensors[i]).writable(),
        write_head(version, metadata, tensors).len() <= data.len(),
        data.take(write_head(version, metadata, tensors).len() as int) == write_head(
            version,
            metadata,
            tensors,
        ),
    ensures
        catalog(data, file_len) matches Ok(found) ==> {
            &&& found.metadata == metadata
            &&& found.tensors.len() == tensors.len()
            &&& alignment_of(metadata) is Ok
            &&& forall|i: int|
                0 <= i < tensors.len() ==> {
                    let t = #[trigger] found.tensors[i];
                    &&& t.name == tensors[i].name && t.dims == tensors[i].dims && t.kind
                        == TensorType::of_id(tensors[i].id)
                    &&& t.offset == round_up(
                        write_head(version, metadata, tensors).len() as int,
                        alignment_of(metadata)->Ok_0 as int,
                    ) + tensors[i].offset
                }
        },
        (forall|i: int|
            0 <= i < metadata.len() ==> (#[trigger] metadata[i]).0 != "general.alignment"@)
            ==> alignment_of(metadata) == Ok::<u64, GgufFault>(32),
        alignment_of(metadata) matches Ok(alignment) ==> (catalog(data, file_len) is Ok <==> place_all(
            listed_all(tensors),
            round_up(write_head(version, metadata, tensors).len() as int, alignment as int),
            alignment as int,
            file_len,
        ) is Ok),
{
    let head = write_head(version, metadata, tensors);
    let magic = seq![0x47u8, 0x47u8, 0x55u8, 0x46u8];
    let (v, t, m) = (bytes_of(version, 4), bytes_of(tensors.len(), 8), bytes_of(metadata.len(), 8));
    let (e, d) = (write_entries(metadata), write_directory(tensors));
    assert(data.subrange(0, head.len() as int) =~= data.take(head.len() as int));
    assert(stands(data, 0, head));
    lemma_parts(data, 0, magic + v + t + m + e, d);
    lemma_parts(data, 0, magic + v + t + m, e);
    lemma_parts(data, 0, magic + v + t, m);
    lemma_parts(data, 0, magic + v, t);
    lemma_parts(data, 0, magic, v);
    lemma_sizes();
    lemma_number(version, 4);
    lemma_number(tensors.len(), 8);
    lemma_number(metadata.len(), 8);
    lemma_unsigned(data, 4, version, 4);
    lemma_unsigned(data, 8, tensors.len(), 8);
    lemma_unsigned(data, 16, metadata.len(), 8);
    lemma_entries(data, 24, metadata);
    lemma_directory(data, 24 + e.len() as int, tensors);
    assert(head.len() == 24 + e.len() + d.len());
    lemma_lookup_found(metadata, "general.alignment"@);
    if let Ok(alignment) = alignment_of(metadata) {
        let start = round_up(head.len() as int, alignment as int);
        if let Ok(found) = catalog(data, file_len) {
            let (end, a) = (head.len() as int, alignment as int);
            assert(a > 0) by {
                reveal_with_fuel(power_of_two, 2);
            }
            assert(start >= 0) by (nonlinear_arith)
                requires
                    start == (end + a - 1) / a * a,
                    a > 0,
                    end >= 0,
            ;
            lemma_placed(listed_all(tensors), start, alignment as int, file_len);
            assert forall|i: int| 0 <= i < tensors.len() implies {
                let t = #[trigger] found.tensors[i];
                &&& t.name == tensors[i].name && t.dims == tensors[i].dims && t.kind
                    == TensorType::of_id(tensors[i].id)
                &&& t.offset == start + tensors[i].offset
            } by {
                assert(listed_all(tensors)[i] == tensors[i].listed());
            }
        }
    }
}

/// The storage types have the numbers and block sizes of their format: elements and bytes of a block.
pub proof fn law_storage_types_have_their_blocks(id: u32)
    ensures
        ({
            let kind = TensorType::of_id(id);
            &&& kind == TensorType::F32 <==> id == 0
            &&& kind == TensorType::F16 <==> id == 1
            &&& kind == TensorType::Q5_0 <==> id == 6
            &&& kind == TensorType::Q8_0 <==> id == 8
            &&& kind == TensorType::Q4K <==> id == 12
            &&& kind == TensorType::Q6K <==> id == 14
            &&& kind is Other ==> kind == TensorType::Other(id) && kind.layout() is None
            // A block holds its elements in so many bits each, and its scales.
            &&& kind == TensorType::F32 ==> kind.layout() == Some((1u64, 4u64))
            &&& kind == TensorType::F16 ==> kind.layout() == Some((1u64, 2u64))
            &&& kind == TensorType::Q5_0 ==> kind.layout() == Some((32u64, 22u64))
            &&& kind == TensorType::Q8_0 ==> kind.layout() == Some((32u64, 34u64))
            &&& kind == TensorType::Q4K ==> kind.layout() == Some((256u64, 144u64))
            &&& kind == TensorType::Q6K ==> kind.layout() == Some((256u64, 210u64))
        }),
{
}

} // verus!
