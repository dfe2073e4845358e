//! A GGUF file: its metadata and its tensors.
use crate::arith::{is_power_of_two, lemma_powers_double, power_of_two, product, round_up};
use crate::formats::bytes::{little_endian, little_endian_at};
use crate::formats::gguf::format::{
    catalog, countable, directory, entries, magic, Catalog, Placed, MAX_ENTRIES,
};
use crate::formats::gguf::reader::{
    count, metadata_model, numbers, place_tensors, tensor_models, Listed, Reader, TensorInfo,
};
use crate::formats::gguf::value::{format_err, GgufError, GgufFault, MetadataValue, TensorType};
use crate::sequences::{lemma_lookup_step, lookup};
use crate::text::{decimal, digits, same_text};
use vstd::prelude::*;
use vstd::string::*;

verus! {

/// A GGUF file's metadata and tensor directory.
#[derive(Debug)]
pub struct Gguf {
    pub metadata: Vec<(String, MetadataValue)>,
    pub tensors: Vec<TensorInfo>,
}

impl View for Gguf {
    type V = Catalog;

    open spec fn view(&self) -> Catalog {
        Catalog {
            metadata: metadata_model(self.metadata@),
            tensors: tensor_models(self.tensors@),
        }
    }
}

/// The value under `key`.
fn find_value<'a>(metadata: &'a Vec<(String, MetadataValue)>, key: &str) -> (r: Option<
    &'a MetadataValue,
>)
    ensures
        r matches Some(v) ==> lookup(metadata_model(metadata@), key@) == Some(v@),
        r is None ==> lookup(metadata_model(metadata@), key@) is None,
{
    let ghost model = metadata_model(metadata@);
    let mut i: usize = 0;
    assert(model.skip(0) =~= model);
    while i < metadata.len()
        invariant
            i <= metadata@.len(),
            model == metadata_model(metadata@),
            lookup(model, key@) == lookup(model.skip(i as int), key@),
        decreases metadata@.len() - i,
    {
        proof {
            lemma_lookup_step(model, i as int, key@);
        }
        if same_text(metadata[i].0.as_str(), key) {
            return Some(&metadata[i].1);
        }
        i += 1;
    }
    None
}

/// The first tensor of this name.
pub open spec fn find_tensor(tensors: Seq<Placed>, name: Seq<char>) -> Option<Placed>
    decreases tensors.len(),
{
    if tensors.len() == 0 {
        None
    } else if tensors[0].name == name {
        Some(tensors[0])
    } else {
        find_tensor(tensors.drop_first(), name)
    }
}

impl Gguf {
    /// Reads the header of a file of `file_len` bytes that starts with `head`. Where `head` is
    /// only part of the file and the header goes on past it, the error is
    /// [`GgufError::Truncated`].
    pub fn parse(head: &[u8], file_len: u64) -> (r: Result<Self, GgufError>)
        requires
            head@.len() <= isize::MAX,
        ensures
            r matches Ok(g) ==> catalog(head@, file_len as int) == Ok::<Catalog, GgufFault>(g@),
            r matches Err(e) ==> catalog(head@, file_len as int) == Err::<Catalog, GgufFault>(e@),
    {
        let mut reader: Reader = Reader { data: head, pos: 0 };
        let start: &[u8] = reader.bytes(4)?;
        let magical: bool = start[0] == 0x47 && start[1] == 0x47 && start[2] == 0x55 && start[3]
            == 0x46;
        proof {
            assert(magical == (start@ == magic())) by {
                if magical {
                    assert(start@ =~= magic());
                } else {
                    assert(magic()[0] == 0x47 && magic()[1] == 0x47 && magic()[2] == 0x55
                        && magic()[3] == 0x46);
                }
            }
        }
        if !magical {
            return format_err("bad magic");
        }
        let version: u32 = reader.u32()?;
        if version < 2 || version > 3 {
            let number: String = decimal(version as u64);
            let message: String = "unsupported version ".to_owned().concat(number.as_str());
            return format_err(message.as_str());
        }
        let tensor_count: u64 = reader.u64()?;
        let pair_count: u64 = reader.u64()?;
        if tensor_count > MAX_ENTRIES || pair_count > MAX_ENTRIES {
            return format_err("implausible header counts");
        }
        let metadata: Vec<(String, MetadataValue)> = reader.entries(pair_count)?;
        let alignment: u64 = match find_value(&metadata, "general.alignment") {
            Some(v) => match v.as_u64() {
                Some(a) => {
                    if !is_power_of_two(a) {
                        return format_err("invalid alignment");
                    }
                    a
                },
                None => return format_err("invalid alignment"),
            },
            None => 32,
        };
        proof {
            reveal_with_fuel(power_of_two, 7);
        }
        let listed: Vec<Listed> = reader.directory(tensor_count)?;
        let data_start: u64 = align_up(reader.pos as u64, alignment);
        let tensors: Vec<TensorInfo> = place_tensors(listed, data_start, alignment, file_len)?;
        Ok(Gguf { metadata, tensors })
    }

    pub fn get(&self, key: &str) -> (r: Result<&MetadataValue, GgufError>)
        ensures
            r matches Ok(v) ==> lookup(self@.metadata, key@) == Some(v@),
            r matches Err(e) ==> lookup(self@.metadata, key@) is None && e@
                == GgufFault::MissingKey(key@),
    {
        match find_value(&self.metadata, key) {
            Some(v) => Ok(v),
            None => Err(GgufError::MissingKey(key.to_owned())),
        }
    }

    pub fn u64(&self, key: &str) -> (r: Result<u64, GgufError>)
        ensures
            r matches Ok(n) ==> lookup(self@.metadata, key@) is Some && lookup(
                self@.metadata,
                key@,
            )->Some_0.unsigned() == Some(n),
            r matches Err(e) ==> match lookup(self@.metadata, key@) {
                None => e@ == GgufFault::MissingKey(key@),
                Some(v) => v.unsigned() is None && e@ == GgufFault::Format(
                    key@ + " is not an unsigned integer"@,
                ),
            },
    {
        match self.get(key)?.as_u64() {
            Some(n) => Ok(n),
            None => Err(GgufError::Format(key.to_owned().concat(" is not an unsigned integer"))),
        }
    }

    pub fn tensor(&self, name: &str) -> (r: Result<&TensorInfo, GgufError>)
        ensures
            r matches Ok(t) ==> find_tensor(self@.tensors, name@) == Some(t@),
            r matches Err(e) ==> find_tensor(self@.tensors, name@) is None && e@
                == GgufFault::MissingTensor(name@),
    {
        let ghost model = self@.tensors;
        let mut i: usize = 0;
        assert(model.skip(0) =~= model);
        while i < self.tensors.len()
            invariant
                i <= self.tensors@.len(),
                model == self@.tensors,
                find_tensor(model, name@) == find_tensor(model.skip(i as int), name@),
            decreases self.tensors@.len() - i,
        {
            proof {
                assert(model.skip(i as int)[0] == model[i as int]);
                assert(model.skip(i as int).drop_first() =~= model.skip(i + 1));
            }
            if same_text(self.tensors[i].name.as_str(), name) {
                return Ok(&self.tensors[i]);
            }
            i += 1;
        }
        Err(GgufError::MissingTensor(name.to_owned()))
    }
}

/// `n` rounded up to a multiple of a power of two.
fn align_up(n: u64, alignment: u64) -> (r: u64)
    requires
        n <= isize::MAX,
        power_of_two(alignment as int),
    ensures
        r == round_up(n as int, alignment as int),
{
    let rest: u64 = n % alignment;
    proof {
        let (x, m, q) = (n as int, alignment as int, n as int / alignment as int);
        assert(x == q * m + rest) by (nonlinear_arith)
            requires
                q == x / m,
                rest == x % m,
                m > 0,
        ;
        assert(rest == 0 ==> round_up(x, m) == x) by (nonlinear_arith)
            requires
                x == q * m + rest,
                m > 0,
                round_up(x, m) == (x + m - 1) / m * m,
        ;
        assert(rest > 0 ==> round_up(x, m) == x - rest + m) by (nonlinear_arith)
            requires
                x == q * m + rest,
                0 <= rest < m,
                round_up(x, m) == (x + m - 1) / m * m,
        ;
        lemma_alignment_bound(alignment as int);
    }
    if rest == 0 {
        n
    } else {
        n - rest + alignment
    }
}

/// A power of two that 64 bits hold is at most 2^63.
proof fn lemma_alignment_bound(a: int)
    requires
        power_of_two(a),
        a <= u64::MAX,
    ensures
        a <= 0x8000_0000_0000_0000,
{
    if a > 0x8000_0000_0000_0000 {
        assert(power_of_two(0x8000_0000_0000_0000)) by {
            reveal_with_fuel(power_of_two, 65);
        }
        lemma_powers_double(0x8000_0000_0000_0000, a);
    }
}

/// A storage type by name.
pub open spec fn storage_name(kind: TensorType) -> Seq<char> {
    match kind {
        TensorType::F32 => "F32"@,
        TensorType::F16 => "F16"@,
        TensorType::Q4K => "Q4K"@,
        TensorType::Q5_0 => "Q5_0"@,
        TensorType::Q6K => "Q6K"@,
        TensorType::Q8_0 => "Q8_0"@,
        TensorType::Other(id) => "Other("@ + digits(id as nat) + ")"@,
    }
}

pub fn show_type(kind: TensorType) -> (r: String)
    ensures
        r@ == storage_name(kind),
{
    match kind {
        TensorType::F32 => "F32".to_owned(),
        TensorType::F16 => "F16".to_owned(),
        TensorType::Q4K => "Q4K".to_owned(),
        TensorType::Q5_0 => "Q5_0".to_owned(),
        TensorType::Q6K => "Q6K".to_owned(),
        TensorType::Q8_0 => "Q8_0".to_owned(),
        TensorType::Other(id) => {
            let number: String = decimal(id as u64);
            "Other(".to_owned().concat(number.as_str()).concat(")")
        },
    }
}

/// The bytes of the file that reading a whole tensor takes: where they start and how many.
/// Types this runtime cannot decode are rejected.
pub open spec fn read_outcome(tensor: Placed) -> Result<(nat, nat), GgufFault> {
    match tensor.kind.layout() {
        Some(_) => Ok((tensor.offset, tensor.bytes)),
        None => Err(
            GgufFault::Format(
                "tensor "@ + tensor.name + " has unsupported type "@ + storage_name(tensor.kind),
            ),
        ),
    }
}

/// The bytes of the file that reading `len` bytes from `start` of a tensor takes.
pub open spec fn range_outcome(tensor: Placed, start: nat, len: nat) -> Result<
    (nat, nat),
    GgufFault,
> {
    if start + len <= tensor.bytes {
        Ok((tensor.offset + start, len))
    } else {
        Err(GgufFault::Format("range is outside tensor "@ + tensor.name))
    }
}

impl TensorInfo {
    /// The tensor's data ends at a position that 64 bits hold.
    pub open spec fn bounded(self) -> bool {
        self.offset + self.bytes <= u64::MAX
    }

    pub fn elements(&self) -> (r: u64)
        requires
            countable(numbers(self.dims@)),
        ensures
            r == product(numbers(self.dims@)),
    {
        match count(&self.dims) {
            Some(n) => n,
            None => 0,
        }
    }

    /// Where to read the raw tensor bytes, and how many; rejects types this runtime cannot
    /// decode.
    pub fn read(&self) -> (r: Result<(u64, u64), GgufError>)
        ensures
            r matches Ok((offset, len)) ==> read_outcome(self@) == Ok::<(nat, nat), GgufFault>(
                (offset as nat, len as nat),
            ),
            r matches Err(e) ==> read_outcome(self@) == Err::<(nat, nat), GgufFault>(e@),
    {
        match self.kind.block() {
            Some(_) => Ok((self.offset, self.bytes)),
            None => {
                let kind: String = show_type(self.kind);
                Err(
                    GgufError::Format(
                        "tensor ".to_owned().concat(self.name.as_str()).concat(
                            " has unsupported type ",
                        ).concat(kind.as_str()),
                    ),
                )
            },
        }
    }

    /// Where to read a contiguous byte range inside the tensor (e.g. a single expert).
    pub fn read_range(&self, start: u64, len: u64) -> (r: Result<(u64, u64), GgufError>)
        requires
            self.bounded(),
        ensures
            r matches Ok((offset, n)) ==> range_outcome(self@, start as nat, len as nat) == Ok::<
                (nat, nat),
                GgufFault,
            >((offset as nat, n as nat)),
            r matches Err(e) ==> range_outcome(self@, start as nat, len as nat) == Err::<
                (nat, nat),
                GgufFault,
            >(e@),
    {
        match start.checked_add(len) {
            Some(end) => {
                if end <= self.bytes {
                    return Ok((self.offset + start, len));
                }
            },
            None => {},
        }
        Err(GgufError::Format("range is outside tensor ".to_owned().concat(self.name.as_str())))
    }
}

impl Gguf {
    /// Where to read the values of the F32 tensor `name`.
    pub fn read_f32(&self, name: &str) -> (r: Result<(u64, u64), GgufError>)
        ensures
            r matches Ok((offset, len)) ==> find_tensor(self@.tensors, name@) matches Some(t)
                && t.kind == TensorType::F32 && t.offset == offset && t.bytes == len,
            r matches Err(e) ==> match find_tensor(self@.tensors, name@) {
                None => e@ == GgufFault::MissingTensor(name@),
                Some(t) => t.kind != TensorType::F32 && e@ == GgufFault::Format(
                    "tensor "@ + name@ + " is not F32"@,
                ),
            },
    {
        let info: &TensorInfo = self.tensor(name)?;
        if info.kind != TensorType::F32 {
            return Err(GgufError::Format("tensor ".to_owned().concat(name).concat(" is not F32")));
        }
        info.read()
    }
}

/// The bit patterns of the single-precision values in `data`, four little-endian bytes each;
/// bytes after the last whole value are dropped.
pub fn f32_bits(data: &[u8]) -> (r: Vec<u32>)
    ensures
        r@.len() == data@.len() / 4,
        forall|i: int|
            0 <= i < r@.len() ==> #[trigger] r@[i] == little_endian(
                data@.subrange(4 * i, 4 * i + 4),
            ),
{
    let size: usize = data.len();
    let mut values: Vec<u32> = Vec::new();
    let mut at: usize = 0;
    while size - at >= 4
        invariant
            size == data@.len(),
            at <= size,
            at == 4 * values@.len(),
            forall|i: int|
                0 <= i < values@.len() ==> #[trigger] values@[i] == little_endian(
                    data@.subrange(4 * i, 4 * i + 4),
                ),
        decreases size - at,
    {
        let bits: u64 = little_endian_at(data, at, 4);
        values.push(bits as u32);
        at += 4;
    }
    values
}

} // verus!
