//! The twenty wire types, their one-byte codes and their length classes.

use vstd::prelude::*;

verus! {

/// A wire type. Its code is the byte that announces a value of the type.
#[derive(Debug, Clone, Copy, PartialEq, Eq, Structural, Hash)]
pub enum TypeId {
    Null,
    Bool,
    U8,
    U16,
    U32,
    U64,
    U128,
    I8,
    I16,
    I32,
    I64,
    I128,
    F32,
    F64,
    String,
    Array,
    Dict,
    Struct,
    Enum,
    Timestamp,
}

/// How many bytes the content of a type takes on the wire.
#[derive(Debug, Clone, Copy, PartialEq, Eq, Structural)]
pub enum TypeLength {
    /// Exactly this many bytes, with no length prefix.
    Fixed(usize),
    /// As many bytes as the length prefix in front of the content says.
    Varsize,
}

/// One more than the highest byte that is the code of a wire type.
pub const TYPE_ID_LIMIT: u8 = 0x14;

impl TypeId {
    /// The byte that stands for this type on the wire.
    pub open spec fn code(self) -> u8 {
        match self {
            TypeId::Null => 0x00,
            TypeId::Bool => 0x01,
            TypeId::U8 => 0x02,
            TypeId::U16 => 0x03,
            TypeId::U32 => 0x04,
            TypeId::U64 => 0x05,
            TypeId::U128 => 0x06,
            TypeId::I8 => 0x07,
            TypeId::I16 => 0x08,
            TypeId::I32 => 0x09,
            TypeId::I64 => 0x0A,
            TypeId::I128 => 0x0B,
            TypeId::F32 => 0x0C,
            TypeId::F64 => 0x0D,
            TypeId::String => 0x0E,
            TypeId::Array => 0x0F,
            TypeId::Dict => 0x10,
            TypeId::Struct => 0x11,
            TypeId::Enum => 0x12,
            TypeId::Timestamp => 0x13,
        }
    }

    /// The type that a byte stands for, if it stands for one.
    pub open spec fn of_byte(byte: u8) -> Option<TypeId> {
        if byte == 0x00 {
            Some(TypeId::Null)
        } else if byte == 0x01 {
            Some(TypeId::Bool)
        } else if byte == 0x02 {
            Some(TypeId::U8)
        } else if byte == 0x03 {
            Some(TypeId::U16)
        } else if byte == 0x04 {
            Some(TypeId::U32)
        } else if byte == 0x05 {
            Some(TypeId::U64)
        } else if byte == 0x06 {
            Some(TypeId::U128)
        } else if byte == 0x07 {
            Some(TypeId::I8)
        } else if byte == 0x08 {
            Some(TypeId::I16)
        } else if byte == 0x09 {
            Some(TypeId::I32)
        } else if byte == 0x0A {
            Some(TypeId::I64)
        } else if byte == 0x0B {
            Some(TypeId::I128)
        } else if byte == 0x0C {
            Some(TypeId::F32)
        } else if byte == 0x0D {
            Some(TypeId::F64)
        } else if byte == 0x0E {
            Some(TypeId::String)
        } else if byte == 0x0F {
            Some(TypeId::Array)
        } else if byte == 0x10 {
            Some(TypeId::Dict)
        } else if byte == 0x11 {
            Some(TypeId::Struct)
        } else if byte == 0x12 {
            Some(TypeId::Enum)
        } else if byte == 0x13 {
            Some(TypeId::Timestamp)
        } else {
            None
        }
    }

    /// The length class of this type.
    pub open spec fn spec_length(self) -> TypeLength {
        match self {
            TypeId::Null => TypeLength::Fixed(0),
            TypeId::Bool | TypeId::U8 | TypeId::I8 => TypeLength::Fixed(1),
            TypeId::U16 | TypeId::I16 => TypeLength::Fixed(2),
            TypeId::U32 | TypeId::I32 | TypeId::F32 => TypeLength::Fixed(4),
            TypeId::U64 | TypeId::I64 | TypeId::F64 | TypeId::Timestamp => TypeLength::Fixed(8),
            TypeId::U128 | TypeId::I128 => TypeLength::Fixed(16),
            TypeId::String | TypeId::Array | TypeId::Dict | TypeId::Struct | TypeId::Enum =>
                TypeLength::Varsize,
        }
    }

    /// The type that `byte` is the code of; `None` for the unassigned bytes
    /// `0x14..=0x7F` and for every byte with the top bit set.
    pub fn from_byte(byte: u8) -> (t: Option<Self>)
        ensures
            t == Self::of_byte(byte),
            t is Some <==> byte < TYPE_ID_LIMIT,
            t matches Some(id) ==> id.code() == byte,
    {
        if byte & 0x80 != 0 {
            assert(byte & 0x80 != 0 ==> byte >= 0x80) by (bit_vector);
            return None;
        }
        match byte {
            0x00 => Some(TypeId::Null),
            0x01 => Some(TypeId::Bool),
            0x02 => Some(TypeId::U8),
            0x03 => Some(TypeId::U16),
            0x04 => Some(TypeId::U32),
            0x05 => Some(TypeId::U64),
            0x06 => Some(TypeId::U128),
            0x07 => Some(TypeId::I8),
            0x08 => Some(TypeId::I16),
            0x09 => Some(TypeId::I32),
            0x0A => Some(TypeId::I64),
            0x0B => Some(TypeId::I128),
            0x0C => Some(TypeId::F32),
            0x0D => Some(TypeId::F64),
            0x0E => Some(TypeId::String),
            0x0F => Some(TypeId::Array),
            0x10 => Some(TypeId::Dict),
            0x11 => Some(TypeId::Struct),
            0x12 => Some(TypeId::Enum),
            0x13 => Some(TypeId::Timestamp),
            _ => None,
        }
    }

    /// The code of this type.
    pub fn to_byte(self) -> (byte: u8)
        ensures
            byte == self.code(),
            byte < TYPE_ID_LIMIT,
            Self::of_byte(byte) == Some(self),
    {
        match self {
            TypeId::Null => 0x00,
            TypeId::Bool => 0x01,
            TypeId::U8 => 0x02,
            TypeId::U16 => 0x03,
            TypeId::U32 => 0x04,
            TypeId::U64 => 0x05,
            TypeId::U128 => 0x06,
            TypeId::I8 => 0x07,
            TypeId::I16 => 0x08,
            TypeId::I32 => 0x09,
            TypeId::I64 => 0x0A,
            TypeId::I128 => 0x0B,
            TypeId::F32 => 0x0C,
            TypeId::F64 => 0x0D,
            TypeId::String => 0x0E,
            TypeId::Array => 0x0F,
            TypeId::Dict => 0x10,
            TypeId::Struct => 0x11,
            TypeId::Enum => 0x12,
            TypeId::Timestamp => 0x13,
        }
    }

    /// The length class of this type.
    #[verifier::when_used_as_spec(spec_length)]
    pub fn length(self) -> (l: TypeLength)
        ensures
            l == self.spec_length(),
    {
        match self {
            TypeId::Null => TypeLength::Fixed(0),
            TypeId::Bool => TypeLength::Fixed(1),
            TypeId::U8 => TypeLength::Fixed(1),
            TypeId::U16 => TypeLength::Fixed(2),
            TypeId::U32 => TypeLength::Fixed(4),
            TypeId::U64 => TypeLength::Fixed(8),
            TypeId::U128 => TypeLength::Fixed(16),
            TypeId::I8 => TypeLength::Fixed(1),
            TypeId::I16 => TypeLength::Fixed(2),
            TypeId::I32 => TypeLength::Fixed(4),
            TypeId::I64 => TypeLength::Fixed(8),
            TypeId::I128 => TypeLength::Fixed(16),
            TypeId::F32 => TypeLength::Fixed(4),
            TypeId::F64 => TypeLength::Fixed(8),
            TypeId::String => TypeLength::Varsize,
            TypeId::Array => TypeLength::Varsize,
            TypeId::Dict => TypeLength::Varsize,
            TypeId::Struct => TypeLength::Varsize,
            TypeId::Enum => TypeLength::Varsize,
            TypeId::Timestamp => TypeLength::Fixed(8),
        }
    }

    /// Each type is the type of its own code, and a byte is the code of at
    /// most one type.
    pub proof fn lemma_code_of_byte(self, byte: u8)
        ensures
            Self::of_byte(self.code()) == Some(self),
            self.code() < TYPE_ID_LIMIT,
            Self::of_byte(byte) == Some(self) <==> byte == self.code(),
            byte >= TYPE_ID_LIMIT ==> Self::of_byte(byte) is None,
    {
    }
}

impl From<TypeId> for u8 {
    fn from(type_id: TypeId) -> (byte: u8) {
        type_id.to_byte()
    }
}

impl vstd::std_specs::convert::FromSpecImpl<TypeId> for u8 {
    open spec fn obeys_from_spec() -> bool {
        true
    }

    open spec fn from_spec(type_id: TypeId) -> u8 {
        type_id.code()
    }
}

} // verus!
