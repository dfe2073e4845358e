//! The GGUF v2/v3 header as a function of the file's bytes.
use crate::arith::{power_of_two, product, round_up};
use crate::formats::bytes::{little_endian, twos_complement, utf8_text};
use crate::formats::gguf::value::{Datum, GgufFault, TensorType};
use crate::sequences::lookup;
use crate::text::digits;
use vstd::prelude::*;

verus! {

pub const MAX_STRING: u64 = 0x100_0000;
pub const MAX_ARRAY: u64 = 0x400_0000;
pub const MAX_DIMS: u32 = 4;
pub const MAX_ENTRIES: u64 = 0x10_0000;

/// What reading something at a position gives: the thing and the position after it.
pub type Read<T> = Result<(T, int), GgufFault>;

/// `n` raw bytes.
pub open spec fn raw(data: Seq<u8>, at: int, n: int) -> Read<Seq<u8>> {
    if at + n <= data.len() {
        Ok((data.subrange(at, at + n), at + n))
    } else {
        Err(GgufFault::Truncated)
    }
}

/// An unsigned integer of `n` bytes.
pub open spec fn unsigned(data: Seq<u8>, at: int, n: int) -> Read<nat> {
    match raw(data, at, n) {
        Ok((bytes, end)) => Ok((little_endian(bytes), end)),
        Err(e) => Err(e),
    }
}

/// A string: its length as 64 bits, then its UTF-8 bytes.
pub open spec fn string(data: Seq<u8>, at: int) -> Read<Seq<char>> {
    match unsigned(data, at, 8) {
        Err(e) => Err(e),
        Ok((len, start)) => if len > MAX_STRING {
            Err(GgufFault::Format("string is too long"@))
        } else {
            match raw(data, start, len as int) {
                Err(e) => Err(e),
                Ok((bytes, end)) => match utf8_text(bytes) {
                    Some(text) => Ok((text, end)),
                    None => Err(GgufFault::Format("string is not UTF-8"@)),
                },
            }
        },
    }
}

/// The number of bytes of a fixed-size value type.
pub open spec fn width(kind: u32) -> int {
    if kind == 0 || kind == 1 || kind == 7 {
        1
    } else if kind == 2 || kind == 3 {
        2
    } else if kind == 4 || kind == 5 || kind == 6 {
        4
    } else {
        8
    }
}

/// The value of a fixed-size type whose bytes make the number `n`.
pub open spec fn fixed(kind: u32, n: nat) -> Result<Datum, GgufFault> {
    if kind == 0 {
        Ok(Datum::U8(n as u8))
    } else if kind == 1 {
        Ok(Datum::I8(twos_complement(n as int, 0x80) as i8))
    } else if kind == 2 {
        Ok(Datum::U16(n as u16))
    } else if kind == 3 {
        Ok(Datum::I16(twos_complement(n as int, 0x8000) as i16))
    } else if kind == 4 {
        Ok(Datum::U32(n as u32))
    } else if kind == 5 {
        Ok(Datum::I32(twos_complement(n as int, 0x8000_0000) as i32))
    } else if kind == 6 {
        Ok(Datum::F32(n as u32))
    } else if kind == 7 {
        if n == 0 {
            Ok(Datum::Bool(false))
        } else if n == 1 {
            Ok(Datum::Bool(true))
        } else {
            Err(GgufFault::Format("invalid boolean"@))
        }
    } else if kind == 10 {
        Ok(Datum::U64(n as u64))
    } else if kind == 11 {
        Ok(Datum::I64(twos_complement(n as int, 0x8000_0000_0000_0000) as i64))
    } else {
        Ok(Datum::F64(n as u64))
    }
}

/// A value that is not an array, of type `kind`.
pub open spec fn scalar(data: Seq<u8>, at: int, kind: u32) -> Read<Datum> {
    if kind == 8 {
        match string(data, at) {
            Ok((text, end)) => Ok((Datum::String(text), end)),
            Err(e) => Err(e),
        }
    } else if kind == 9 {
        Err(GgufFault::Format("nested arrays are not supported"@))
    } else if kind > 12 {
        Err(GgufFault::Format("unknown metadata type "@ + digits(kind as nat)))
    } else {
        match unsigned(data, at, width(kind)) {
            Err(e) => Err(e),
            Ok((n, end)) => match fixed(kind, n) {
                Ok(value) => Ok((value, end)),
                Err(e) => Err(e),
            },
        }
    }
}

/// `n` values of type `kind`, one after another.
pub open spec fn items(data: Seq<u8>, at: int, kind: u32, n: nat) -> Read<Seq<Datum>>
    decreases n,
{
    if n == 0 {
        Ok((Seq::empty(), at))
    } else {
        match items(data, at, kind, (n - 1) as nat) {
            Err(e) => Err(e),
            Ok((before, mid)) => match scalar(data, mid, kind) {
                Err(e) => Err(e),
                Ok((value, end)) => Ok((before.push(value), end)),
            },
        }
    }
}

/// A metadata value of type `kind`: an array holds its type and length, then its items.
pub open spec fn metadata_value(data: Seq<u8>, at: int, kind: u32) -> Read<Datum> {
    if kind == 9 {
        match unsigned(data, at, 4) {
            Err(e) => Err(e),
            Ok((inner, mid)) => match unsigned(data, mid, 8) {
                Err(e) => Err(e),
                Ok((len, start)) => if len > MAX_ARRAY {
                    Err(GgufFault::Format("array is too long"@))
                } else {
                    match items(data, start, inner as u32, len) {
                        Err(e) => Err(e),
                        Ok((values, end)) => Ok((Datum::Array(values), end)),
                    }
                },
            },
        }
    } else {
        scalar(data, at, kind)
    }
}

/// One metadata entry: its key, its type and its value.
pub open spec fn entry(data: Seq<u8>, at: int) -> Read<(Seq<char>, Datum)> {
    match string(data, at) {
        Err(e) => Err(e),
        Ok((key, mid)) => match unsigned(data, mid, 4) {
            Err(e) => Err(e),
            Ok((kind, start)) => match metadata_value(data, start, kind as u32) {
                Err(e) => Err(e),
                Ok((value, end)) => Ok(((key, value), end)),
            },
        },
    }
}

/// Whether some entry has this key.
pub open spec fn has_key<T>(entries: Seq<(Seq<char>, T)>, key: Seq<char>) -> bool {
    exists|i: int| 0 <= i < entries.len() && (#[trigger] entries[i]).0 == key
}

/// `n` metadata entries with different keys.
pub open spec fn entries(data: Seq<u8>, at: int, n: nat) -> Read<Seq<(Seq<char>, Datum)>>
    decreases n,
{
    if n == 0 {
        Ok((Seq::empty(), at))
    } else {
        match entries(data, at, (n - 1) as nat) {
            Err(e) => Err(e),
            Ok((before, mid)) => match entry(data, mid) {
                Err(e) => Err(e),
                Ok((found, end)) => if has_key(before, found.0) {
                    Err(GgufFault::Format("duplicate metadata key"@))
                } else {
                    Ok((before.push(found), end))
                },
            },
        }
    }
}

/// `n` dimensions.
pub open spec fn dimensions(data: Seq<u8>, at: int, n: nat) -> Read<Seq<nat>>
    decreases n,
{
    if n == 0 {
        Ok((Seq::empty(), at))
    } else {
        match dimensions(data, at, (n - 1) as nat) {
            Err(e) => Err(e),
            Ok((before, mid)) => match unsigned(data, mid, 8) {
                Err(e) => Err(e),
                Ok((d, end)) => Ok((before.push(d), end)),
            },
        }
    }
}

/// One entry of the tensor directory, before it is placed in the file.
#[verifier::ext_equal]
pub struct Listing {
    pub name: Seq<char>,
    pub dims: Seq<nat>,
    pub kind: TensorType,
    pub offset: nat,
}

/// One entry of the tensor directory.
pub open spec fn listing(data: Seq<u8>, at: int) -> Read<Listing> {
    match string(data, at) {
        Err(e) => Err(e),
        Ok((name, p1)) => match unsigned(data, p1, 4) {
            Err(e) => Err(e),
            Ok((n, p2)) => if n == 0 || n > MAX_DIMS {
                Err(
                    GgufFault::Format(
                        "tensor "@ + name + " has "@ + digits(n) + " dimensions"@,
                    ),
                )
            } else {
                match dimensions(data, p2, n) {
                    Err(e) => Err(e),
                    Ok((dims, p3)) => match unsigned(data, p3, 4) {
                        Err(e) => Err(e),
                        Ok((id, p4)) => match unsigned(data, p4, 8) {
                            Err(e) => Err(e),
                            Ok((offset, end)) => Ok(
                                (
                                    Listing {
                                        name,
                                        dims,
                                        kind: TensorType::of_id(id as u32),
                                        offset,
                                    },
                                    end,
                                ),
                            ),
                        },
                    },
                }
            },
        },
    }
}

/// `n` entries of the tensor directory.
pub open spec fn directory(data: Seq<u8>, at: int, n: nat) -> Read<Seq<Listing>>
    decreases n,
{
    if n == 0 {
        Ok((Seq::empty(), at))
    } else {
        match directory(data, at, (n - 1) as nat) {
            Err(e) => Err(e),
            Ok((before, mid)) => match listing(data, mid) {
                Err(e) => Err(e),
                Ok((found, end)) => Ok((before.push(found), end)),
            },
        }
    }
}

/// Where a tensor's data lies.
#[verifier::ext_equal]
pub struct Placed {
    pub name: Seq<char>,
    pub dims: Seq<nat>,
    pub kind: TensorType,
    /// Absolute byte offset in the file.
    pub offset: nat,
    pub bytes: nat,
}

/// No product of leading dimensions exceeds 64 bits.
pub open spec fn countable(dims: Seq<nat>) -> bool
    decreases dims.len(),
{
    dims.len() == 0 || (countable(dims.drop_last()) && product(dims) <= u64::MAX)
}

/// The bytes of a tensor of this type and shape.
pub open spec fn tensor_bytes(kind: TensorType, dims: Seq<nat>) -> nat {
    match kind.layout() {
        Some((block, size)) => product(dims) / (block as nat) * (size as nat),
        None => 0,
    }
}

/// A listed tensor in a file of `file_len` bytes whose data starts at `data_start`.
pub open spec fn place(listed: Listing, data_start: int, alignment: int, file_len: int) -> Result<
    Placed,
    GgufFault,
> {
    if !countable(listed.dims) {
        Err(GgufFault::Format("tensor "@ + listed.name + " is too large"@))
    } else if listed.kind.layout() matches Some((block, _)) && listed.dims[0] % (block as nat) != 0 {
        Err(GgufFault::Format("tensor "@ + listed.name + " rows are not block aligned"@))
    } else {
        let start = data_start + listed.offset;
        let bytes = tensor_bytes(listed.kind, listed.dims);
        if listed.offset % (alignment as nat) == 0 && start + bytes <= file_len {
            Ok(
                Placed {
                    name: listed.name,
                    dims: listed.dims,
                    kind: listed.kind,
                    offset: start as nat,
                    bytes,
                },
            )
        } else {
            Err(GgufFault::Format("tensor "@ + listed.name + " is out of bounds"@))
        }
    }
}

/// Whether some tensor has this name.
pub open spec fn has_name(tensors: Seq<Placed>, name: Seq<char>) -> bool {
    exists|i: int| 0 <= i < tensors.len() && (#[trigger] tensors[i]).name == name
}

/// All listed tensors, in order, with different names.
pub open spec fn place_all(
    listed: Seq<Listing>,
    data_start: int,
    alignment: int,
    file_len: int,
) -> Result<Seq<Placed>, GgufFault>
    decreases listed.len(),
{
    if listed.len() == 0 {
        Ok(Seq::empty())
    } else {
        match place_all(listed.drop_last(), data_start, alignment, file_len) {
            Err(e) => Err(e),
            Ok(before) => match place(listed.last(), data_start, alignment, file_len) {
                Err(e) => Err(e),
                Ok(tensor) => if has_name(before, tensor.name) {
                    Err(GgufFault::Format("duplicate tensor name"@))
                } else {
                    Ok(before.push(tensor))
                },
            },
        }
    }
}

/// The alignment of tensor data: 32 bytes unless the metadata names a power of two.
pub open spec fn alignment_of(metadata: Seq<(Seq<char>, Datum)>) -> Result<u64, GgufFault> {
    match lookup(metadata, "general.alignment"@) {
        None => Ok(32),
        Some(value) => match value.unsigned() {
            Some(a) if power_of_two(a as int) => Ok(a),
            _ => Err(GgufFault::Format("invalid alignment"@)),
        },
    }
}

/// The mathematical model of a [`Gguf`].
#[verifier::ext_equal]
pub struct Catalog {
    pub metadata: Seq<(Seq<char>, Datum)>,
    pub tensors: Seq<Placed>,
}

/// The magic bytes.
pub open spec fn magic() -> Seq<u8> {
    seq![0x47u8, 0x47u8, 0x55u8, 0x46u8]
}

/// The metadata and tensors of a file of `file_len` bytes that starts with `data`.
pub open spec fn catalog(data: Seq<u8>, file_len: int) -> Result<Catalog, GgufFault> {
    match raw(data, 0, 4) {
        Err(e) => Err(e),
        Ok((found, _)) => if found != magic() {
            Err(GgufFault::Format("bad magic"@))
        } else {
            match unsigned(data, 4, 4) {
                Err(e) => Err(e),
                Ok((version, _)) => if !(2 <= version <= 3) {
                    Err(GgufFault::Format("unsupported version "@ + digits(version)))
                } else {
                    match unsigned(data, 8, 8) {
                        Err(e) => Err(e),
                        Ok((tensors, _)) => match unsigned(data, 16, 8) {
                            Err(e) => Err(e),
                            Ok((pairs, _)) => if tensors > MAX_ENTRIES || pairs > MAX_ENTRIES {
                                Err(GgufFault::Format("implausible header counts"@))
                            } else {
                                catalog_body(data, file_len, tensors, pairs)
                            },
                        },
                    }
                },
            }
        },
    }
}

/// What follows the counts of the header.
pub open spec fn catalog_body(data: Seq<u8>, file_len: int, tensors: nat, pairs: nat) -> Result<
    Catalog,
    GgufFault,
> {
    match entries(data, 24, pairs) {
        Err(e) => Err(e),
        Ok((metadata, mid)) => match alignment_of(metadata) {
            Err(e) => Err(e),
            Ok(alignment) => match directory(data, mid, tensors) {
                Err(e) => Err(e),
                Ok((listed, end)) => match place_all(
                    listed,
                    round_up(end, alignment as int),
                    alignment as int,
                    file_len,
                ) {
                    Err(e) => Err(e),
                    Ok(placed) => Ok(Catalog { metadata, tensors: placed }),
                },
            },
        },
    }
}

} // verus!
