//! Reading the header from front to back.
use crate::arith::product;
use crate::formats::bytes::{little_endian_at, text_of_bytes};
use crate::formats::gguf::format::{
    countable, dimensions, directory, entries, entry, has_key, has_name, items, listing,
    metadata_value, place, place_all, raw, scalar, string, tensor_bytes, unsigned, Listing, Placed,
    MAX_ARRAY, MAX_DIMS, MAX_STRING,
};
use crate::formats::gguf::value::{
    format_err, Datum, GgufError, GgufFault, MetadataValue, TensorType,
};
use crate::text::{decimal, same_text};
use vstd::prelude::*;
use vstd::slice::slice_subrange;
use vstd::string::*;

verus! {

/// Reads the header from front to back.
pub struct Reader<'a> {
    pub data: &'a [u8],
    pub pos: usize,
}

impl<'a> Reader<'a> {
    /// The position lies in the data.
    pub open spec fn valid(self) -> bool {
        self.pos <= self.data@.len()
    }

    /// The next `n` bytes.
    pub fn bytes(&mut self, n: usize) -> (r: Result<&'a [u8], GgufError>)
        requires
            old(self).valid(),
        ensures
            final(self).valid(),
            final(self).data == old(self).data,
            r matches Ok(b) ==> raw(old(self).data@, old(self).pos as int, n as int) == Ok::<
                (Seq<u8>, int),
                GgufFault,
            >((b@, final(self).pos as int)),
            r matches Err(e) ==> raw(old(self).data@, old(self).pos as int, n as int) == Err::<
                (Seq<u8>, int),
                GgufFault,
            >(e@),
    {
        let size: usize = self.data.len();
        if n > size - self.pos {
            return Err(GgufError::Truncated);
        }
        let part: &'a [u8] = slice_subrange(self.data, self.pos, self.pos + n);
        self.pos = self.pos + n;
        Ok(part)
    }

    /// The number in the next `n` bytes.
    pub fn number(&mut self, n: usize) -> (r: Result<u64, GgufError>)
        requires
            old(self).valid(),
            n == 1 || n == 2 || n == 4 || n == 8,
        ensures
            final(self).valid(),
            final(self).data == old(self).data,
            r matches Ok(x) ==> unsigned(old(self).data@, old(self).pos as int, n as int) == Ok::<
                (nat, int),
                GgufFault,
            >((x as nat, final(self).pos as int)) && (n == 1 ==> x < 0x100) && (n == 2 ==> x
                < 0x1_0000) && (n == 4 ==> x < 0x1_0000_0000),
            r matches Err(e) ==> unsigned(old(self).data@, old(self).pos as int, n as int) == Err::<
                (nat, int),
                GgufFault,
            >(e@),
    {
        let size: usize = self.data.len();
        if n > size - self.pos {
            return Err(GgufError::Truncated);
        }
        let value: u64 = little_endian_at(self.data, self.pos, n);
        self.pos = self.pos + n;
        Ok(value)
    }

    pub fn u32(&mut self) -> (r: Result<u32, GgufError>)
        requires
            old(self).valid(),
        ensures
            final(self).valid(),
            final(self).data == old(self).data,
            r matches Ok(x) ==> unsigned(old(self).data@, old(self).pos as int, 4) == Ok::<
                (nat, int),
                GgufFault,
            >((x as nat, final(self).pos as int)),
            r matches Err(e) ==> unsigned(old(self).data@, old(self).pos as int, 4) == Err::<
                (nat, int),
                GgufFault,
            >(e@),
    {
        match self.number(4) {
            Ok(x) => Ok(x as u32),
            Err(e) => Err(e),
        }
    }

    pub fn u64(&mut self) -> (r: Result<u64, GgufError>)
        requires
            old(self).valid(),
        ensures
            final(self).valid(),
            final(self).data == old(self).data,
            r matches Ok(x) ==> unsigned(old(self).data@, old(self).pos as int, 8) == Ok::<
                (nat, int),
                GgufFault,
            >((x as nat, final(self).pos as int)),
            r matches Err(e) ==> unsigned(old(self).data@, old(self).pos as int, 8) == Err::<
                (nat, int),
                GgufFault,
            >(e@),
    {
        self.number(8)
    }

    pub fn string(&mut self) -> (r: Result<String, GgufError>)
        requires
            old(self).valid(),
        ensures
            final(self).valid(),
            final(self).data == old(self).data,
            r matches Ok(x) ==> string(old(self).data@, old(self).pos as int) == Ok::<
                (Seq<char>, int),
                GgufFault,
            >((x@, final(self).pos as int)),
            r matches Err(e) ==> string(old(self).data@, old(self).pos as int) == Err::<
                (Seq<char>, int),
                GgufFault,
            >(e@),
    {
        let len: u64 = self.u64()?;
        if len > MAX_STRING {
            return format_err("string is too long");
        }
        let part: &[u8] = self.bytes(len as usize)?;
        let owned: Vec<u8> = vstd::slice::slice_to_vec(part);
        match text_of_bytes(owned) {
            Some(text) => Ok(text),
            None => format_err("string is not UTF-8"),
        }
    }

    /// A value of a fixed-size type.
    fn fixed(&mut self, kind: u32) -> (r: Result<MetadataValue, GgufError>)
        requires
            old(self).valid(),
            kind <= 12,
            kind != 8,
            kind != 9,
        ensures
            final(self).valid(),
            final(self).data == old(self).data,
            r matches Ok(x) ==> scalar(old(self).data@, old(self).pos as int, kind) == Ok::<
                (Datum, int),
                GgufFault,
            >((x@, final(self).pos as int)),
            r matches Err(e) ==> scalar(old(self).data@, old(self).pos as int, kind) == Err::<
                (Datum, int),
                GgufFault,
            >(e@),
    {
        let size: usize = if kind == 0 || kind == 1 || kind == 7 {
            1
        } else if kind == 2 || kind == 3 {
            2
        } else if kind == 4 || kind == 5 || kind == 6 {
            4
        } else {
            8
        };
        let n: u64 = self.number(size)?;
        if kind == 0 {
            Ok(MetadataValue::U8(n as u8))
        } else if kind == 1 {
            Ok(MetadataValue::I8(if n < 0x80 { n as i8 } else { (n as i16 - 0x100) as i8 }))
        } else if kind == 2 {
            Ok(MetadataValue::U16(n as u16))
        } else if kind == 3 {
            Ok(MetadataValue::I16(if n < 0x8000 { n as i16 } else { (n as i32 - 0x1_0000) as i16 }))
        } else if kind == 4 {
            Ok(MetadataValue::U32(n as u32))
        } else if kind == 5 {
            Ok(
                MetadataValue::I32(
                    if n < 0x8000_0000 {
                        n as i32
                    } else {
                        (n as i64 - 0x1_0000_0000) as i32
                    },
                ),
            )
        } else if kind == 6 {
            Ok(MetadataValue::F32(n as u32))
        } else if kind == 7 {
            if n == 0 {
                Ok(MetadataValue::Bool(false))
            } else if n == 1 {
                Ok(MetadataValue::Bool(true))
            } else {
                format_err("invalid boolean")
            }
        } else if kind == 10 {
            Ok(MetadataValue::U64(n))
        } else if kind == 11 {
            Ok(
                MetadataValue::I64(
                    if n < 0x8000_0000_0000_0000 {
                        n as i64
                    } else {
                        (n as i128 - 0x1_0000_0000_0000_0000) as i64
                    },
                ),
            )
        } else {
            Ok(MetadataValue::F64(n))
        }
    }

    /// A value that is not an array.
    fn scalar(&mut self, kind: u32) -> (r: Result<MetadataValue, GgufError>)
        requires
            old(self).valid(),
        ensures
            final(self).valid(),
            final(self).data == old(self).data,
            r matches Ok(x) ==> scalar(old(self).data@, old(self).pos as int, kind) == Ok::<
                (Datum, int),
                GgufFault,
            >((x@, final(self).pos as int)),
            r matches Err(e) ==> scalar(old(self).data@, old(self).pos as int, kind) == Err::<
                (Datum, int),
                GgufFault,
            >(e@),
    {
        if kind == 8 {
            match self.string() {
                Ok(text) => Ok(MetadataValue::String(text)),
                Err(e) => Err(e),
            }
        } else if kind == 9 {
            format_err("nested arrays are not supported")
        } else if kind > 12 {
            let number: String = decimal(kind as u64);
            let message: String = "unknown metadata type ".to_owned().concat(number.as_str());
            format_err(message.as_str())
        } else {
            self.fixed(kind)
        }
    }
}

proof fn lemma_items_fails(data: Seq<u8>, at: int, kind: u32, n: nat, m: nat)
    requires
        n <= m,
        items(data, at, kind, n) is Err,
    ensures
        items(data, at, kind, m) == items(data, at, kind, n),
    decreases m,
{
    if n < m {
        lemma_items_fails(data, at, kind, n, (m - 1) as nat);
    }
}

proof fn lemma_entries_fails(data: Seq<u8>, at: int, n: nat, m: nat)
    requires
        n <= m,
        entries(data, at, n) is Err,
    ensures
        entries(data, at, m) == entries(data, at, n),
    decreases m,
{
    if n < m {
        lemma_entries_fails(data, at, n, (m - 1) as nat);
    }
}

proof fn lemma_dimensions_fails(data: Seq<u8>, at: int, n: nat, m: nat)
    requires
        n <= m,
        dimensions(data, at, n) is Err,
    ensures
        dimensions(data, at, m) == dimensions(data, at, n),
    decreases m,
{
    if n < m {
        lemma_dimensions_fails(data, at, n, (m - 1) as nat);
    }
}

proof fn lemma_directory_fails(data: Seq<u8>, at: int, n: nat, m: nat)
    requires
        n <= m,
        directory(data, at, n) is Err,
    ensures
        directory(data, at, m) == directory(data, at, n),
    decreases m,
{
    if n < m {
        lemma_directory_fails(data, at, n, (m - 1) as nat);
    }
}

proof fn lemma_place_all_fails(
    listed: Seq<Listing>,
    data_start: int,
    alignment: int,
    file_len: int,
    i: int,
)
    requires
        0 <= i <= listed.len(),
        place_all(listed.take(i), data_start, alignment, file_len) is Err,
    ensures
        place_all(listed, data_start, alignment, file_len) == place_all(
            listed.take(i),
            data_start,
            alignment,
            file_len,
        ),
    decreases listed.len() - i,
{
    if i < listed.len() {
        assert(listed.take(i + 1).drop_last() =~= listed.take(i));
        lemma_place_all_fails(listed, data_start, alignment, file_len, i + 1);
    } else {
        assert(listed.take(i) =~= listed);
    }
}

/// The model of metadata entries.
pub open spec fn metadata_model(entries: Seq<(String, MetadataValue)>) -> Seq<(Seq<char>, Datum)> {
    Seq::new(entries.len(), |i: int| (entries[i].0@, entries[i].1@))
}

/// The numbers of a list of 64-bit integers.
pub open spec fn numbers(list: Seq<u64>) -> Seq<nat> {
    Seq::new(list.len(), |i: int| list[i] as nat)
}

#[derive(Debug)]
pub struct TensorInfo {
    pub name: String,
    /// GGML order: `dims[0]` is the contiguous row length.
    pub dims: Vec<u64>,
    pub kind: TensorType,
    /// Absolute byte offset in the file.
    pub offset: u64,
    pub bytes: u64,
}

impl View for TensorInfo {
    type V = Placed;

    open spec fn view(&self) -> Placed {
        Placed {
            name: self.name@,
            dims: numbers(self.dims@),
            kind: self.kind,
            offset: self.offset as nat,
            bytes: self.bytes as nat,
        }
    }
}

/// The models of a list of tensors.
pub open spec fn tensor_models(tensors: Seq<TensorInfo>) -> Seq<Placed> {
    Seq::new(tensors.len(), |i: int| tensors[i]@)
}

/// One entry of the tensor directory as read.
pub(crate) struct Listed {
    pub(crate) name: String,
    pub(crate) dims: Vec<u64>,
    pub(crate) kind: TensorType,
    pub(crate) offset: u64,
}

impl Listed {
    pub(crate) open spec fn model(self) -> Listing {
        Listing {
            name: self.name@,
            dims: numbers(self.dims@),
            kind: self.kind,
            offset: self.offset as nat,
        }
    }
}

pub(crate) open spec fn listed_models(listed: Seq<Listed>) -> Seq<Listing> {
    Seq::new(listed.len(), |i: int| listed[i].model())
}

impl<'a> Reader<'a> {
    /// A metadata value.
    pub fn value(&mut self, kind: u32) -> (r: Result<MetadataValue, GgufError>)
        requires
            old(self).valid(),
        ensures
            final(self).valid(),
            final(self).data == old(self).data,
            r matches Ok(x) ==> metadata_value(old(self).data@, old(self).pos as int, kind) == Ok::<
                (Datum, int),
                GgufFault,
            >((x@, final(self).pos as int)),
            r matches Err(e) ==> metadata_value(old(self).data@, old(self).pos as int, kind)
                == Err::<(Datum, int), GgufFault>(e@),
    {
        if kind != 9 {
            return self.scalar(kind);
        }
        let inner: u32 = self.u32()?;
        let len: u64 = self.u64()?;
        if len > MAX_ARRAY {
            return format_err("array is too long");
        }
        let ghost data = self.data@;
        let ghost start = self.pos as int;
        let mut values: Vec<MetadataValue> = Vec::new();
        let ghost mut models: Seq<Datum> = Seq::empty();
        let mut i: u64 = 0;
        while i < len
            invariant
                i <= len,
                self.valid(),
                self.data@ == data,
                self.data == old(self).data,
                items(data, start, inner, i as nat) == Ok::<(Seq<Datum>, int), GgufFault>(
                    (models, self.pos as int),
                ),
                values@.len() == models.len(),
                forall|k: int| 0 <= k < values@.len() ==> (#[trigger] values@[k])@ == models[k],
                metadata_value(old(self).data@, old(self).pos as int, kind) == (match items(
                    data,
                    start,
                    inner,
                    len as nat,
                ) {
                    Err(e) => Err(e),
                    Ok((values, end)) => Ok((Datum::Array(values), end)),
                }),
            decreases len - i,
        {
            match self.scalar(inner) {
                Ok(value) => {
                    proof {
                        models = models.push(value@);
                    }
                    values.push(value);
                },
                Err(e) => {
                    proof {
                        lemma_items_fails(data, start, inner, (i + 1) as nat, len as nat);
                    }
                    return Err(e);
                },
            }
            i += 1;
        }
        let array: MetadataValue = MetadataValue::Array(values);
        proof {
            assert(array@->Array_0 =~= models);
        }
        Ok(array)
    }

    /// One metadata entry.
    fn entry(&mut self) -> (r: Result<(String, MetadataValue), GgufError>)
        requires
            old(self).valid(),
        ensures
            final(self).valid(),
            final(self).data == old(self).data,
            r matches Ok(x) ==> entry(old(self).data@, old(self).pos as int) == Ok::<
                ((Seq<char>, Datum), int),
                GgufFault,
            >(((x.0@, x.1@), final(self).pos as int)),
            r matches Err(e) ==> entry(old(self).data@, old(self).pos as int) == Err::<
                ((Seq<char>, Datum), int),
                GgufFault,
            >(e@),
    {
        let key: String = self.string()?;
        let kind: u32 = self.u32()?;
        let value: MetadataValue = self.value(kind)?;
        Ok((key, value))
    }

    /// `n` metadata entries with different keys.
    pub(crate) fn entries(&mut self, n: u64) -> (r: Result<Vec<(String, MetadataValue)>, GgufError>)
        requires
            old(self).valid(),
        ensures
            final(self).valid(),
            final(self).data == old(self).data,
            r matches Ok(x) ==> entries(old(self).data@, old(self).pos as int, n as nat) == Ok::<
                (Seq<(Seq<char>, Datum)>, int),
                GgufFault,
            >((metadata_model(x@), final(self).pos as int)),
            r matches Err(e) ==> entries(old(self).data@, old(self).pos as int, n as nat) == Err::<
                (Seq<(Seq<char>, Datum)>, int),
                GgufFault,
            >(e@),
    {
        let ghost data = self.data@;
        let ghost start = self.pos as int;
        let mut found: Vec<(String, MetadataValue)> = Vec::new();
        let mut i: u64 = 0;
        assert(metadata_model(found@) =~= Seq::<(Seq<char>, Datum)>::empty());
        while i < n
            invariant
                i <= n,
                self.valid(),
                self.data@ == data,
                self.data == old(self).data,
                data == old(self).data@,
                start == old(self).pos,
                entries(data, start, i as nat) == Ok::<(Seq<(Seq<char>, Datum)>, int), GgufFault>(
                    (metadata_model(found@), self.pos as int),
                ),
            decreases n - i,
        {
            let pair: (String, MetadataValue) = match self.entry() {
                Ok(pair) => pair,
                Err(e) => {
                    proof {
                        lemma_entries_fails(data, start, (i + 1) as nat, n as nat);
                    }
                    return Err(e);
                },
            };
            let ghost before = metadata_model(found@);
            let mut k: usize = 0;
            while k < found.len()
                invariant
                    k <= found@.len(),
                    i < n,
                    before == metadata_model(found@),
                    data == old(self).data@,
                    start == old(self).pos,
                    self.valid(),
                    self.data == old(self).data,
                    has_key(before, pair.0@) ==> entries(data, start, (i + 1) as nat) == Err::<
                        (Seq<(Seq<char>, Datum)>, int),
                        GgufFault,
                    >(GgufFault::Format("duplicate metadata key"@)),
                    forall|m: int| 0 <= m < k ==> (#[trigger] before[m]).0 != pair.0@,
                decreases found@.len() - k,
            {
                if same_text(found[k].0.as_str(), pair.0.as_str()) {
                    proof {
                        assert(before[k as int].0 == pair.0@);
                        lemma_entries_fails(data, start, (i + 1) as nat, n as nat);
                    }
                    return format_err("duplicate metadata key");
                }
                k += 1;
            }
            let ghost model = (pair.0@, pair.1@);
            found.push(pair);
            proof {
                assert(metadata_model(found@) =~= before.push(model));
            }
            i += 1;
        }
        Ok(found)
    }

    /// `n` dimensions.
    fn dimensions(&mut self, n: u32) -> (r: Result<Vec<u64>, GgufError>)
        requires
            old(self).valid(),
        ensures
            final(self).valid(),
            final(self).data == old(self).data,
            r matches Ok(x) ==> x@.len() == n && dimensions(
                old(self).data@,
                old(self).pos as int,
                n as nat,
            ) == Ok::<(Seq<nat>, int), GgufFault>((numbers(x@), final(self).pos as int)),
            r matches Err(e) ==> dimensions(old(self).data@, old(self).pos as int, n as nat)
                == Err::<(Seq<nat>, int), GgufFault>(e@),
    {
        let ghost data = self.data@;
        let ghost start = self.pos as int;
        let mut dims: Vec<u64> = Vec::new();
        let mut i: u32 = 0;
        assert(numbers(dims@) =~= Seq::<nat>::empty());
        while i < n
            invariant
                i <= n,
                dims@.len() == i,
                self.valid(),
                self.data@ == data,
                self.data == old(self).data,
                data == old(self).data@,
                start == old(self).pos,
                dimensions(data, start, i as nat) == Ok::<(Seq<nat>, int), GgufFault>(
                    (numbers(dims@), self.pos as int),
                ),
            decreases n - i,
        {
            let ghost before = numbers(dims@);
            match self.u64() {
                Ok(d) => {
                    dims.push(d);
                    proof {
                        assert(numbers(dims@) =~= before.push(d as nat));
                    }
                },
                Err(e) => {
                    proof {
                        lemma_dimensions_fails(data, start, (i + 1) as nat, n as nat);
                    }
                    return Err(e);
                },
            }
            i += 1;
        }
        Ok(dims)
    }

    /// One entry of the tensor directory.
    fn listing(&mut self) -> (r: Result<Listed, GgufError>)
        requires
            old(self).valid(),
        ensures
            final(self).valid(),
            final(self).data == old(self).data,
            r matches Ok(x) ==> x.dims@.len() > 0 && listing(
                old(self).data@,
                old(self).pos as int,
            ) == Ok::<(Listing, int), GgufFault>((x.model(), final(self).pos as int)),
            r matches Err(e) ==> listing(old(self).data@, old(self).pos as int) == Err::<
                (Listing, int),
                GgufFault,
            >(e@),
    {
        let name: String = self.string()?;
        let n: u32 = self.u32()?;
        if n == 0 || n > MAX_DIMS {
            let count: String = decimal(n as u64);
            let message: String = "tensor ".to_owned().concat(name.as_str()).concat(
                " has ",
            ).concat(count.as_str()).concat(" dimensions");
            return format_err(message.as_str());
        }
        let dims: Vec<u64> = self.dimensions(n)?;
        let id: u32 = self.u32()?;
        let offset: u64 = self.u64()?;
        Ok(Listed { name, dims, kind: TensorType::from_id(id), offset })
    }

    /// `n` entries of the tensor directory.
    pub(crate) fn directory(&mut self, n: u64) -> (r: Result<Vec<Listed>, GgufError>)
        requires
            old(self).valid(),
        ensures
            final(self).valid(),
            final(self).data == old(self).data,
            r matches Ok(x) ==> directory(old(self).data@, old(self).pos as int, n as nat) == Ok::<
                (Seq<Listing>, int),
                GgufFault,
            >((listed_models(x@), final(self).pos as int)) && forall|k: int|
                0 <= k < x@.len() ==> (#[trigger] x@[k]).dims@.len() > 0,
            r matches Err(e) ==> directory(old(self).data@, old(self).pos as int, n as nat)
                == Err::<(Seq<Listing>, int), GgufFault>(e@),
    {
        let ghost data = self.data@;
        let ghost start = self.pos as int;
        let mut listed: Vec<Listed> = Vec::new();
        let mut i: u64 = 0;
        assert(listed_models(listed@) =~= Seq::<Listing>::empty());
        while i < n
            invariant
                i <= n,
                self.valid(),
                self.data@ == data,
                self.data == old(self).data,
                data == old(self).data@,
                start == old(self).pos,
                forall|k: int| 0 <= k < listed@.len() ==> (#[trigger] listed@[k]).dims@.len() > 0,
                directory(data, start, i as nat) == Ok::<(Seq<Listing>, int), GgufFault>(
                    (listed_models(listed@), self.pos as int),
                ),
            decreases n - i,
        {
            let ghost before = listed_models(listed@);
            match self.listing() {
                Ok(one) => {
                    let ghost model = one.model();
                    listed.push(one);
                    proof {
                        assert(listed_models(listed@) =~= before.push(model));
                    }
                },
                Err(e) => {
                    proof {
                        lemma_directory_fails(data, start, (i + 1) as nat, n as nat);
                    }
                    return Err(e);
                },
            }
            i += 1;
        }
        Ok(listed)
    }
}

/// Leading dimensions of countable dimensions are countable.
proof fn lemma_countable_prefix(dims: Seq<nat>, i: int)
    requires
        countable(dims),
        0 <= i <= dims.len(),
    ensures
        countable(dims.take(i)),
    decreases dims.len(),
{
    if i == dims.len() {
        assert(dims.take(i) =~= dims);
    } else {
        lemma_countable_prefix(dims.drop_last(), i);
        assert(dims.drop_last().take(i) =~= dims.take(i));
    }
}

/// The number of elements, where every product of leading dimensions fits.
pub(crate) fn count(dims: &Vec<u64>) -> (r: Option<u64>)
    ensures
        r is Some <==> countable(numbers(dims@)),
        r matches Some(n) ==> n == product(numbers(dims@)),
{
    let ghost all = numbers(dims@);
    let mut n: u64 = 1;
    let mut i: usize = 0;
    assert(all.take(0) =~= Seq::<nat>::empty());
    while i < dims.len()
        invariant
            i <= dims@.len(),
            all == numbers(dims@),
            countable(all.take(i as int)),
            n == product(all.take(i as int)),
        decreases dims@.len() - i,
    {
        proof {
            assert(all.take(i + 1).drop_last() =~= all.take(i as int));
            assert(all.take(i + 1).last() == dims@[i as int]);
        }
        match n.checked_mul(dims[i]) {
            Some(m) => {
                n = m;
            },
            None => {
                proof {
                    if countable(all) {
                        lemma_countable_prefix(all, i + 1);
                    }
                }
                return None;
            },
        }
        i += 1;
    }
    proof {
        assert(all.take(i as int) =~= all);
    }
    Some(n)
}

/// A [`GgufError::Format`] about one tensor.
fn tensor_err(name: &str, what: &str) -> (r: GgufError)
    ensures
        r@ == GgufFault::Format("tensor "@ + name@ + what@),
{
    GgufError::Format("tensor ".to_owned().concat(name).concat(what))
}

impl Listed {
    /// Places the tensor in the file.
    fn place(self, data_start: u64, alignment: u64, file_len: u64) -> (r: Result<
        TensorInfo,
        GgufError,
    >)
        requires
            alignment > 0,
            self.dims@.len() > 0,
        ensures
            r matches Ok(t) ==> place(
                self.model(),
                data_start as int,
                alignment as int,
                file_len as int,
            ) == Ok::<Placed, GgufFault>(t@),
            r matches Err(e) ==> place(
                self.model(),
                data_start as int,
                alignment as int,
                file_len as int,
            ) == Err::<Placed, GgufFault>(e@),
    {
        let ghost model = self.model();
        assert(model.dims[0] == self.dims@[0]);
        let elements: u64 = match count(&self.dims) {
            Some(n) => n,
            None => return Err(tensor_err(self.name.as_str(), " is too large")),
        };
        let bytes: u128 = match self.kind.block() {
            Some((block, size)) => {
                if self.dims[0] % block != 0 {
                    return Err(tensor_err(self.name.as_str(), " rows are not block aligned"));
                }
                let blocks: u64 = elements / block;
                proof {
                    assert(blocks * size <= u64::MAX * 210) by (nonlinear_arith)
                        requires
                            0 <= blocks <= u64::MAX,
                            0 <= size <= 210,
                    ;
                }
                (blocks as u128) * (size as u128)
            },
            None => 0,
        };
        assert(bytes == tensor_bytes(model.kind, model.dims));
        let start: u128 = data_start as u128 + self.offset as u128;
        if self.offset % alignment == 0 && start + bytes <= file_len as u128 {
            Ok(
                TensorInfo {
                    name: self.name,
                    dims: self.dims,
                    kind: self.kind,
                    offset: start as u64,
                    bytes: bytes as u64,
                },
            )
        } else {
            Err(tensor_err(self.name.as_str(), " is out of bounds"))
        }
    }
}

/// Places all listed tensors, in order, with different names.
pub(crate) fn place_tensors(listed: Vec<Listed>, data_start: u64, alignment: u64, file_len: u64) -> (r: Result<
    Vec<TensorInfo>,
    GgufError,
>)
    requires
        alignment > 0,
        forall|k: int| 0 <= k < listed@.len() ==> (#[trigger] listed@[k]).dims@.len() > 0,
    ensures
        r matches Ok(t) ==> place_all(
            listed_models(listed@),
            data_start as int,
            alignment as int,
            file_len as int,
        ) == Ok::<Seq<Placed>, GgufFault>(tensor_models(t@)),
        r matches Err(e) ==> place_all(
            listed_models(listed@),
            data_start as int,
            alignment as int,
            file_len as int,
        ) == Err::<Seq<Placed>, GgufFault>(e@),
{
    let ghost all = listed_models(listed@);
    let ghost (d, a, f) = (data_start as int, alignment as int, file_len as int);
    let mut tensors: Vec<TensorInfo> = Vec::new();
    let ghost mut i: int = 0;
    assert(all.take(0) =~= Seq::<Listing>::empty());
    assert(tensor_models(tensors@) =~= Seq::<Placed>::empty());
    for one in it: listed
        invariant
            alignment > 0,
            all == listed_models(it.seq()),
            (d, a, f) == (data_start as int, alignment as int, file_len as int),
            i == it.index(),
            forall|k: int|
                0 <= k < it.seq().len() ==> (#[trigger] it.seq()[k]).dims@.len() > 0,
            place_all(all.take(i), d, a, f) == Ok::<Seq<Placed>, GgufFault>(
                tensor_models(tensors@),
            ),
    {
        proof {
            assert(all.take(i + 1).drop_last() =~= all.take(i));
            assert(all.take(i + 1).last() == one.model());
        }
        let info: TensorInfo = match one.place(data_start, alignment, file_len) {
            Ok(info) => info,
            Err(e) => {
                proof {
                    lemma_place_all_fails(all, d, a, f, i + 1);
                }
                return Err(e);
            },
        };
        let ghost before = tensor_models(tensors@);
        let mut k: usize = 0;
        while k < tensors.len()
            invariant
                k <= tensors@.len(),
                0 <= i < all.len(),
                before == tensor_models(tensors@),
                (d, a, f) == (data_start as int, alignment as int, file_len as int),
                has_name(before, info.name@) ==> place_all(all.take(i + 1), d, a, f) == Err::<
                    Seq<Placed>,
                    GgufFault,
                >(GgufFault::Format("duplicate tensor name"@)),
                forall|m: int| 0 <= m < k ==> (#[trigger] before[m]).name != info.name@,
                all == listed_models(listed@),
            decreases tensors@.len() - k,
        {
            if same_text(tensors[k].name.as_str(), info.name.as_str()) {
                proof {
                    assert(before[k as int].name == info.name@);
                    lemma_place_all_fails(all, d, a, f, i + 1);
                }
                return format_err("duplicate tensor name");
            }
            k += 1;
        }
        let ghost model = info@;
        tensors.push(info);
        proof {
            assert(tensor_models(tensors@) =~= before.push(model));
            i = i + 1;
        }
    }
    proof {
        assert(all.take(i) =~= all);
    }
    Ok(tensors)
}

} // verus!
