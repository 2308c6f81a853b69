//! The closed set of one-byte type codes.

use vstd::prelude::*;
use vstd::std_specs::convert::FromSpecImpl;
use vstd::std_specs::convert::TryFromSpecImpl;

verus! {

/// The type code that precedes every payload. It carries neither the value
/// nor the name of the data.
#[derive(Debug, Clone, Copy, PartialEq, Eq, Structural)]
pub enum Tag {
    /// Terminates a compound. Never the tag of a value.
    End,
    /// An 8-bit signed integer.
    Byte,
    /// A 16-bit signed integer.
    Short,
    /// A 32-bit signed integer.
    Int,
    /// A 64-bit signed integer.
    Long,
    /// A 32-bit IEEE 754 number.
    Float,
    /// A 64-bit IEEE 754 number.
    Double,
    /// A counted run of 8-bit signed integers.
    ByteArray,
    /// A length-prefixed text.
    String,
    /// A counted run of unnamed payloads that share one tag.
    List,
    /// A run of named payloads closed by `End`.
    Compound,
    /// A counted run of 32-bit signed integers.
    IntArray,
    /// A counted run of 64-bit signed integers.
    LongArray,
}

impl Tag {
    /// The code of this tag on the wire.
    pub open spec fn code(self) -> u8 {
        match self {
            Tag::End => 0,
            Tag::Byte => 1,
            Tag::Short => 2,
            Tag::Int => 3,
            Tag::Long => 4,
            Tag::Float => 5,
            Tag::Double => 6,
            Tag::ByteArray => 7,
            Tag::String => 8,
            Tag::List => 9,
            Tag::Compound => 10,
            Tag::IntArray => 11,
            Tag::LongArray => 12,
        }
    }

    /// The tag with the given code, if there is one.
    pub open spec fn from_code(code: u8) -> Option<Tag> {
        if code == 0 {
            Some(Tag::End)
        } else if code == 1 {
            Some(Tag::Byte)
        } else if code == 2 {
            Some(Tag::Short)
        } else if code == 3 {
            Some(Tag::Int)
        } else if code == 4 {
            Some(Tag::Long)
        } else if code == 5 {
            Some(Tag::Float)
        } else if code == 6 {
            Some(Tag::Double)
        } else if code == 7 {
            Some(Tag::ByteArray)
        } else if code == 8 {
            Some(Tag::String)
        } else if code == 9 {
            Some(Tag::List)
        } else if code == 10 {
            Some(Tag::Compound)
        } else if code == 11 {
            Some(Tag::IntArray)
        } else if code == 12 {
            Some(Tag::LongArray)
        } else {
            None
        }
    }
}

impl Tag {
    /// The name of this tag in messages.
    pub open spec fn name(self) -> Seq<char> {
        match self {
            Tag::End => "end"@,
            Tag::Byte => "byte"@,
            Tag::Short => "short"@,
            Tag::Int => "int"@,
            Tag::Long => "long"@,
            Tag::Float => "float"@,
            Tag::Double => "double"@,
            Tag::ByteArray => "byte-array"@,
            Tag::String => "string"@,
            Tag::List => "list"@,
            Tag::Compound => "compound"@,
            Tag::IntArray => "int-array"@,
            Tag::LongArray => "long-array"@,
        }
    }

    /// The name of this tag, for showing to a user.
    pub fn to_string(&self) -> (s: std::string::String)
        ensures
            s@ == self.name(),
    {
        match self {
            Tag::End => "end".to_owned(),
            Tag::Byte => "byte".to_owned(),
            Tag::Short => "short".to_owned(),
            Tag::Int => "int".to_owned(),
            Tag::Long => "long".to_owned(),
            Tag::Float => "float".to_owned(),
            Tag::Double => "double".to_owned(),
            Tag::ByteArray => "byte-array".to_owned(),
            Tag::String => "string".to_owned(),
            Tag::List => "list".to_owned(),
            Tag::Compound => "compound".to_owned(),
            Tag::IntArray => "int-array".to_owned(),
            Tag::LongArray => "long-array".to_owned(),
        }
    }
}

impl TryFrom<u8> for Tag {
    type Error = ();

    fn try_from(value: u8) -> (r: Result<Tag, ()>) {
        match value {
            0 => Ok(Tag::End),
            1 => Ok(Tag::Byte),
            2 => Ok(Tag::Short),
            3 => Ok(Tag::Int),
            4 => Ok(Tag::Long),
            5 => Ok(Tag::Float),
            6 => Ok(Tag::Double),
            7 => Ok(Tag::ByteArray),
            8 => Ok(Tag::String),
            9 => Ok(Tag::List),
            10 => Ok(Tag::Compound),
            11 => Ok(Tag::IntArray),
            12 => Ok(Tag::LongArray),
            _ => Err(()),
        }
    }
}

impl TryFromSpecImpl<u8> for Tag {
    open spec fn obeys_try_from_spec() -> bool {
        true
    }

    open spec fn try_from_spec(value: u8) -> Result<Tag, ()> {
        match Tag::from_code(value) {
            Some(tag) => Ok(tag),
            None => Err(()),
        }
    }
}

impl From<Tag> for u8 {
    fn from(tag: Tag) -> (r: u8) {
        match tag {
            Tag::End => 0,
            Tag::Byte => 1,
            Tag::Short => 2,
            Tag::Int => 3,
            Tag::Long => 4,
            Tag::Float => 5,
            Tag::Double => 6,
            Tag::ByteArray => 7,
            Tag::String => 8,
            Tag::List => 9,
            Tag::Compound => 10,
            Tag::IntArray => 11,
            Tag::LongArray => 12,
        }
    }
}

impl FromSpecImpl<Tag> for u8 {
    open spec fn obeys_from_spec() -> bool {
        true
    }

    open spec fn from_spec(tag: Tag) -> u8 {
        tag.code()
    }
}

/// Every tag is the tag of its code.
pub proof fn lemma_tag_round_trip(tag: Tag)
    ensures
        Tag::from_code(tag.code()) == Some(tag),
{
}

/// The codes 0 to 12 are the codes of their tags, and no other byte is the
/// code of a tag.
pub proof fn lemma_code_round_trip(code: u8)
    ensures
        code <= 12 ==> Tag::from_code(code) is Some && Tag::from_code(code)->Some_0.code() == code,
        code > 12 ==> Tag::from_code(code) is None,
{
}

} // verus!
