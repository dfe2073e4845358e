//! Errors, metadata values and tensor types.
use vstd::prelude::*;
use vstd::string::*;

verus! {

#[derive(Debug)]
pub enum GgufError {
    /// The file ends inside its header.
    Truncated,
    /// The header does not follow the format.
    Format(String),
    /// No metadata under this key.
    MissingKey(String),
    /// No tensor of this name.
    MissingTensor(String),
}

/// The mathematical model of a [`GgufError`].
#[verifier::ext_equal]
pub enum GgufFault {
    Truncated,
    Format(Seq<char>),
    MissingKey(Seq<char>),
    MissingTensor(Seq<char>),
}

impl View for GgufError {
    type V = GgufFault;

    open spec fn view(&self) -> GgufFault {
        match self {
            GgufError::Truncated => GgufFault::Truncated,
            GgufError::Format(m) => GgufFault::Format(m@),
            GgufError::MissingKey(k) => GgufFault::MissingKey(k@),
            GgufError::MissingTensor(n) => GgufFault::MissingTensor(n@),
        }
    }
}

impl GgufFault {
    /// The text shown to a user.
    pub open spec fn message(self) -> Seq<char> {
        match self {
            GgufFault::Truncated => "I/O error reading the model: unexpected end of file"@,
            GgufFault::Format(m) => "Invalid GGUF file: "@ + m,
            GgufFault::MissingKey(k) => "Missing GGUF metadata key "@ + k,
            GgufFault::MissingTensor(n) => "Missing tensor "@ + n,
        }
    }
}

impl GgufError {
    /// The text shown to a user.
    pub fn message(&self) -> (r: String)
        ensures
            r@ == self@.message(),
    {
        match self {
            GgufError::Truncated => {
                "I/O error reading the model: unexpected end of file".to_owned()
            },
            GgufError::Format(m) => "Invalid GGUF file: ".to_owned().concat(m.as_str()),
            GgufError::MissingKey(k) => "Missing GGUF metadata key ".to_owned().concat(k.as_str()),
            GgufError::MissingTensor(n) => "Missing tensor ".to_owned().concat(n.as_str()),
        }
    }
}

/// A [`GgufError::Format`] as a result.
pub fn format_err<T>(message: &str) -> (r: Result<T, GgufError>)
    ensures
        r matches Err(e) && e@ == GgufFault::Format(message@),
{
    Err(GgufError::Format(message.to_owned()))
}

// ---------------------------------------------------------------------------------------------
// Metadata values
// ---------------------------------------------------------------------------------------------

/// A metadata value. Floats are kept as their IEEE 754 bit patterns.
#[derive(Debug, PartialEq)]
pub enum MetadataValue {
    U8(u8),
    I8(i8),
    U16(u16),
    I16(i16),
    U32(u32),
    I32(i32),
    F32(u32),
    Bool(bool),
    String(String),
    Array(Vec<MetadataValue>),
    U64(u64),
    I64(i64),
    F64(u64),
}

/// The mathematical model of a [`MetadataValue`].
#[verifier::ext_equal]
pub enum Datum {
    U8(u8),
    I8(i8),
    U16(u16),
    I16(i16),
    U32(u32),
    I32(i32),
    F32(u32),
    Bool(bool),
    String(Seq<char>),
    Array(Seq<Datum>),
    U64(u64),
    I64(i64),
    F64(u64),
}

/// The model of `value`.
pub open spec fn datum(value: MetadataValue) -> Datum
    decreases value,
{
    match value {
        MetadataValue::U8(v) => Datum::U8(v),
        MetadataValue::I8(v) => Datum::I8(v),
        MetadataValue::U16(v) => Datum::U16(v),
        MetadataValue::I16(v) => Datum::I16(v),
        MetadataValue::U32(v) => Datum::U32(v),
        MetadataValue::I32(v) => Datum::I32(v),
        MetadataValue::F32(v) => Datum::F32(v),
        MetadataValue::Bool(v) => Datum::Bool(v),
        MetadataValue::String(v) => Datum::String(v@),
        MetadataValue::Array(v) => Datum::Array(
            Seq::new(
                v@.len(),
                |i: int|
                    if 0 <= i < v@.len() {
                        datum(v@[i])
                    } else {
                        Datum::U8(0)
                    },
            ),
        ),
        MetadataValue::U64(v) => Datum::U64(v),
        MetadataValue::I64(v) => Datum::I64(v),
        MetadataValue::F64(v) => Datum::F64(v),
    }
}

impl View for MetadataValue {
    type V = Datum;

    open spec fn view(&self) -> Datum {
        datum(*self)
    }
}

impl Datum {
    /// The value of an integer of any width.
    pub open spec fn integer(self) -> Option<int> {
        match self {
            Datum::U8(v) => Some(v as int),
            Datum::I8(v) => Some(v as int),
            Datum::U16(v) => Some(v as int),
            Datum::I16(v) => Some(v as int),
            Datum::U32(v) => Some(v as int),
            Datum::I32(v) => Some(v as int),
            Datum::U64(v) => Some(v as int),
            Datum::I64(v) => Some(v as int),
            _ => None,
        }
    }

    /// An integer of any width that is not negative.
    pub open spec fn unsigned(self) -> Option<u64> {
        match self.integer() {
            Some(n) if n >= 0 => Some(n as u64),
            _ => None,
        }
    }

    /// An integer of any width that a signed 64-bit integer holds.
    pub open spec fn signed(self) -> Option<i64> {
        match self.integer() {
            Some(n) if n <= i64::MAX => Some(n as i64),
            _ => None,
        }
    }
}

impl MetadataValue {
    pub fn as_u64(&self) -> (r: Option<u64>)
        ensures
            r == self@.unsigned(),
    {
        match self {
            MetadataValue::U8(v) => Some(*v as u64),
            MetadataValue::U16(v) => Some(*v as u64),
            MetadataValue::U32(v) => Some(*v as u64),
            MetadataValue::U64(v) => Some(*v),
            MetadataValue::I8(v) => if *v >= 0 {
                Some(*v as u64)
            } else {
                None
            },
            MetadataValue::I16(v) => if *v >= 0 {
                Some(*v as u64)
            } else {
                None
            },
            MetadataValue::I32(v) => if *v >= 0 {
                Some(*v as u64)
            } else {
                None
            },
            MetadataValue::I64(v) => if *v >= 0 {
                Some(*v as u64)
            } else {
                None
            },
            _ => None,
        }
    }

    pub fn as_i64(&self) -> (r: Option<i64>)
        ensures
            r == self@.signed(),
    {
        match self {
            MetadataValue::I8(v) => Some(*v as i64),
            MetadataValue::I16(v) => Some(*v as i64),
            MetadataValue::I32(v) => Some(*v as i64),
            MetadataValue::I64(v) => Some(*v),
            _ => match self.as_u64() {
                Some(v) => if v <= 0x7FFF_FFFF_FFFF_FFFF {
                    Some(v as i64)
                } else {
                    None
                },
                None => None,
            },
        }
    }

    pub fn as_bool(&self) -> (r: Option<bool>)
        ensures
            r == match self@ {
                Datum::Bool(v) => Some(v),
                _ => None,
            },
    {
        match self {
            MetadataValue::Bool(v) => Some(*v),
            _ => None,
        }
    }

    pub fn as_str(&self) -> (r: Option<&str>)
        ensures
            r matches Some(s) ==> self@ == Datum::String(s@),
            r is None ==> self@ !is String,
    {
        match self {
            MetadataValue::String(v) => Some(v.as_str()),
            _ => None,
        }
    }

    pub fn as_array(&self) -> (r: Option<&[MetadataValue]>)
        ensures
            r matches Some(items) ==> self@ is Array && items@.len() == self@->Array_0.len()
                && forall|i: int|
                0 <= i < items@.len() ==> (#[trigger] items@[i])@ == self@->Array_0[i],
            r is None ==> self@ !is Array,
    {
        match self {
            MetadataValue::Array(v) => Some(v.as_slice()),
            _ => None,
        }
    }
}

// ---------------------------------------------------------------------------------------------
// Tensor types
// ---------------------------------------------------------------------------------------------

/// GGML storage types this runtime can decode.
#[derive(Clone, Copy, Debug, PartialEq, Eq, Structural, Hash)]
pub enum TensorType {
    F32,
    F16,
    Q4K,
    Q5_0,
    Q6K,
    Q8_0,
    /// Any other GGML type id; rejected before decoding.
    Other(u32),
}

impl TensorType {
    /// The storage type of a GGML type id.
    pub open spec fn of_id(id: u32) -> TensorType {
        match id {
            0 => TensorType::F32,
            1 => TensorType::F16,
            6 => TensorType::Q5_0,
            8 => TensorType::Q8_0,
            12 => TensorType::Q4K,
            14 => TensorType::Q6K,
            other => TensorType::Other(other),
        }
    }

    /// (elements per block, bytes per block).
    pub open spec fn layout(self) -> Option<(u64, u64)> {
        match self {
            TensorType::F32 => Some((1, 4)),
            TensorType::F16 => Some((1, 2)),
            TensorType::Q4K => Some((256, 144)),
            TensorType::Q5_0 => Some((32, 22)),
            TensorType::Q6K => Some((256, 210)),
            TensorType::Q8_0 => Some((32, 34)),
            TensorType::Other(_) => None,
        }
    }

    pub fn from_id(id: u32) -> (r: Self)
        ensures
            r == TensorType::of_id(id),
    {
        match id {
            0 => TensorType::F32,
            1 => TensorType::F16,
            6 => TensorType::Q5_0,
            8 => TensorType::Q8_0,
            12 => TensorType::Q4K,
            14 => TensorType::Q6K,
            other => TensorType::Other(other),
        }
    }

    /// (elements per block, bytes per block).
    pub fn block(self) -> (r: Option<(u64, u64)>)
        ensures
            r == self.layout(),
    {
        match self {
            TensorType::F32 => Some((1, 4)),
            TensorType::F16 => Some((1, 2)),
            TensorType::Q4K => Some((256, 144)),
            TensorType::Q5_0 => Some((32, 22)),
            TensorType::Q6K => Some((256, 210)),
            TensorType::Q8_0 => Some((32, 34)),
            TensorType::Other(_) => None,
        }
    }
}

} // verus!
