//! Typed values disclosed as contract state.

use vstd::prelude::*;

verus! {

/// Identifier of a metadata field, scoped to a schema.
pub type FieldType = u16;

/// One disclosed piece of contract state. Floating-point values are held by
/// their IEEE-754 bit patterns.
#[derive(Clone, PartialEq, Eq, PartialOrd, Ord, Hash, Debug)]
pub enum Revealed {
    U8(u8),
    U16(u16),
    U32(u32),
    U64(u64),
    I8(i8),
    I16(i16),
    I32(i32),
    I64(i64),
    F32(u32),
    F64(u64),
    Bytes(Vec<u8>),
    UnicodeString(String),
}

/// The primitive kind of a typed value.
#[derive(Clone, Copy, PartialEq, Eq, Structural, Debug)]
pub enum Kind {
    U8,
    U16,
    U32,
    U64,
    I8,
    I16,
    I32,
    I64,
    F32,
    F64,
    Bytes,
    UnicodeString,
}

/// Mathematical model of a typed value.
pub enum Value {
    U8(u8),
    U16(u16),
    U32(u32),
    U64(u64),
    I8(i8),
    I16(i16),
    I32(i32),
    I64(i64),
    F32(u32),
    F64(u64),
    Bytes(Seq<u8>),
    Text(Seq<char>),
}

impl Value {
    pub open spec fn kind(self) -> Kind {
        match self {
            Value::U8(_) => Kind::U8,
            Value::U16(_) => Kind::U16,
            Value::U32(_) => Kind::U32,
            Value::U64(_) => Kind::U64,
            Value::I8(_) => Kind::I8,
            Value::I16(_) => Kind::I16,
            Value::I32(_) => Kind::I32,
            Value::I64(_) => Kind::I64,
            Value::F32(_) => Kind::F32,
            Value::F64(_) => Kind::F64,
            Value::Bytes(_) => Kind::Bytes,
            Value::Text(_) => Kind::UnicodeString,
        }
    }
}

impl View for Revealed {
    type V = Value;

    open spec fn view(&self) -> Value {
        match self {
            Revealed::U8(v) => Value::U8(*v),
            Revealed::U16(v) => Value::U16(*v),
            Revealed::U32(v) => Value::U32(*v),
            Revealed::U64(v) => Value::U64(*v),
            Revealed::I8(v) => Value::I8(*v),
            Revealed::I16(v) => Value::I16(*v),
            Revealed::I32(v) => Value::I32(*v),
            Revealed::I64(v) => Value::I64(*v),
            Revealed::F32(v) => Value::F32(*v),
            Revealed::F64(v) => Value::F64(*v),
            Revealed::Bytes(v) => Value::Bytes(v@),
            Revealed::UnicodeString(s) => Value::Text(s@),
        }
    }
}

impl Revealed {
    /// The primitive kind of this value.
    pub fn kind(&self) -> (r: Kind)
        ensures
            r == self@.kind(),
    {
        match self {
            Revealed::U8(_) => Kind::U8,
            Revealed::U16(_) => Kind::U16,
            Revealed::U32(_) => Kind::U32,
            Revealed::U64(_) => Kind::U64,
            Revealed::I8(_) => Kind::I8,
            Revealed::I16(_) => Kind::I16,
            Revealed::I32(_) => Kind::I32,
            Revealed::I64(_) => Kind::I64,
            Revealed::F32(_) => Kind::F32,
            Revealed::F64(_) => Kind::F64,
            Revealed::Bytes(_) => Kind::Bytes,
            Revealed::UnicodeString(_) => Kind::UnicodeString,
        }
    }

    /// A copy of this value with the same model.
    pub fn duplicate(&self) -> (r: Revealed)
        ensures
            r@ == self@,
    {
        match self {
            Revealed::U8(v) => Revealed::U8(*v),
            Revealed::U16(v) => Revealed::U16(*v),
            Revealed::U32(v) => Revealed::U32(*v),
            Revealed::U64(v) => Revealed::U64(*v),
            Revealed::I8(v) => Revealed::I8(*v),
            Revealed::I16(v) => Revealed::I16(*v),
            Revealed::I32(v) => Revealed::I32(*v),
            Revealed::I64(v) => Revealed::I64(*v),
            Revealed::F32(v) => Revealed::F32(*v),
            Revealed::F64(v) => Revealed::F64(*v),
            Revealed::Bytes(v) => Revealed::Bytes(copy_bytes(v)),
            Revealed::UnicodeString(s) => Revealed::UnicodeString(s.clone()),
        }
    }
}

/// A fresh vector holding the same bytes.
pub fn copy_bytes(v: &Vec<u8>) -> (r: Vec<u8>)
    ensures
        r@ == v@,
{
    let mut r: Vec<u8> = Vec::new();
    let mut i: usize = 0;
    while i < v.len()
        invariant
            i <= v@.len(),
            r@ == v@.subrange(0, i as int),
        decreases v@.len() - i,
    {
        r.push(v[i]);
        i = i + 1;
    }
    assert(r@ == v@.subrange(0, v@.len() as int));
    r
}

} // verus!
