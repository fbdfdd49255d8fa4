//! Canonical byte encoding of typed values and metadata leaves.

use vstd::prelude::*;
use vstd::utf8::encode_utf8;
use vstd::string::StringSliceAdditionalSpecFns;

use crate::data::{FieldType, Revealed, Value};
use crate::metadata::MetadataLeaf;

verus! {

/// Byte `k` (least significant first) of `x`.
pub open spec fn byte_at(x: u64, k: nat) -> u8 {
    ((x >> (8 * k) as u64) & 0xff) as u8
}

/// The `n` least significant bytes of `x`, least significant first.
pub open spec fn le_bytes(x: u64, n: nat) -> Seq<u8>
    decreases n,
{
    if n == 0 {
        Seq::empty()
    } else {
        le_bytes(x, (n - 1) as nat).push(byte_at(x, (n - 1) as nat))
    }
}

/// Largest length a byte string or text may have: its length is written in
/// two bytes.
pub const MAX_LEN: usize = 0xffff;

/// The bytes a text value is written as.
pub open spec fn text_bytes(s: Seq<char>) -> Seq<u8> {
    encode_utf8(s)
}

/// A value that has an encoding: byte strings and texts fit the length prefix.
pub open spec fn encodable(v: Value) -> bool {
    match v {
        Value::Bytes(b) => b.len() <= MAX_LEN,
        Value::Text(s) => text_bytes(s).len() <= MAX_LEN,
        _ => true,
    }
}

/// The canonical encoding of a value: a kind tag, then the value.
pub open spec fn encode_value(v: Value) -> Seq<u8> {
    match v {
        Value::U8(x) => seq![0x00u8] + le_bytes(x as u64, 1),
        Value::U16(x) => seq![0x01u8] + le_bytes(x as u64, 2),
        Value::U32(x) => seq![0x02u8] + le_bytes(x as u64, 4),
        Value::U64(x) => seq![0x03u8] + le_bytes(x, 8),
        Value::I8(x) => seq![0x08u8] + le_bytes(x as u8 as u64, 1),
        Value::I16(x) => seq![0x09u8] + le_bytes(x as u16 as u64, 2),
        Value::I32(x) => seq![0x0au8] + le_bytes(x as u32 as u64, 4),
        Value::I64(x) => seq![0x0bu8] + le_bytes(x as u64, 8),
        Value::F32(x) => seq![0x12u8] + le_bytes(x as u64, 4),
        Value::F64(x) => seq![0x13u8] + le_bytes(x, 8),
        Value::Bytes(b) => seq![0x20u8] + le_bytes(b.len() as u64, 2) + b,
        Value::Text(s) => seq![0x21u8] + le_bytes(text_bytes(s).len() as u64, 2) + text_bytes(s),
    }
}

/// The canonical encoding of a leaf: the field type, then the value.
pub open spec fn encode_leaf(leaf: (FieldType, Value)) -> Seq<u8> {
    le_bytes(leaf.0 as u64, 2) + encode_value(leaf.1)
}

/// Appends the `n` least significant bytes of `x`, least significant first.
pub fn push_le(out: &mut Vec<u8>, x: u64, n: usize)
    requires
        n <= 8,
    ensures
        final(out)@ == old(out)@ + le_bytes(x, n as nat),
{
    let mut i: usize = 0;
    assert(old(out)@ =~= old(out)@ + le_bytes(x, 0));
    while i < n
        invariant
            i <= n <= 8,
            out@ == old(out)@ + le_bytes(x, i as nat),
        decreases n - i,
    {
        let b = ((x >> (8 * i as u64)) & 0xff) as u8;
        out.push(b);
        assert(out@ =~= old(out)@ + le_bytes(x, (i + 1) as nat));
        i = i + 1;
    }
}

/// Appends a slice of bytes.
pub fn push_bytes(out: &mut Vec<u8>, b: &[u8])
    ensures
        final(out)@ == old(out)@ + b@,
{
    let mut i: usize = 0;
    while i < b.len()
        invariant
            i <= b@.len(),
            out@ == old(out)@ + b@.subrange(0, i as int),
        decreases b@.len() - i,
    {
        out.push(b[i]);
        assert(out@ =~= old(out)@ + b@.subrange(0, i + 1));
        i = i + 1;
    }
    assert(b@.subrange(0, b@.len() as int) =~= b@);
}

/// Appends the canonical encoding of a value.
pub fn push_value(out: &mut Vec<u8>, v: &Revealed)
    requires
        encodable(v@),
    ensures
        final(out)@ == old(out)@ + encode_value(v@),
{
    let ghost start = out@;
    match v {
        Revealed::U8(x) => {
            out.push(0x00);
            push_le(out, *x as u64, 1);
        },
        Revealed::U16(x) => {
            out.push(0x01);
            push_le(out, *x as u64, 2);
        },
        Revealed::U32(x) => {
            out.push(0x02);
            push_le(out, *x as u64, 4);
        },
        Revealed::U64(x) => {
            out.push(0x03);
            push_le(out, *x, 8);
        },
        Revealed::I8(x) => {
            out.push(0x08);
            push_le(out, *x as u8 as u64, 1);
        },
        Revealed::I16(x) => {
            out.push(0x09);
            push_le(out, *x as u16 as u64, 2);
        },
        Revealed::I32(x) => {
            out.push(0x0a);
            push_le(out, *x as u32 as u64, 4);
        },
        Revealed::I64(x) => {
            out.push(0x0b);
            push_le(out, *x as u64, 8);
        },
        Revealed::F32(x) => {
            out.push(0x12);
            push_le(out, *x as u64, 4);
        },
        Revealed::F64(x) => {
            out.push(0x13);
            push_le(out, *x, 8);
        },
        Revealed::Bytes(b) => {
            out.push(0x20);
            push_le(out, b.len() as u64, 2);
            push_bytes(out, b.as_slice());
        },
        Revealed::UnicodeString(s) => {
            let bytes = s.as_str().as_bytes();
            out.push(0x21);
            push_le(out, bytes.len() as u64, 2);
            push_bytes(out, bytes);
        },
    }
    assert(out@ =~= start + encode_value(v@));
}

/// The canonical encoding of a leaf.
pub fn encode_leaf_bytes(leaf: &MetadataLeaf) -> (r: Vec<u8>)
    requires
        encodable(leaf.1@),
    ensures
        r@ == encode_leaf(leaf@),
{
    let mut out: Vec<u8> = Vec::new();
    push_le(&mut out, leaf.0 as u64, 2);
    push_value(&mut out, &leaf.1);
    assert(out@ =~= encode_leaf(leaf@));
    out
}

} // verus!
