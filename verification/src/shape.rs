//! Schema shapes and decoded values, together with the wire format stated as
//! a specification: `wire_of` is the length-prefixed little-endian encoding
//! of a value, and `conforms` says which values a shape describes.

use vstd::prelude::*;
use vstd::utf8::{decode_utf8, encode_utf8, encode_utf8_decode_utf8};
use crate::wire::{le_enc, pow256};
use crate::wire::{lemma_le_enc_injective, lemma_le_enc_len};

verus! {

/// One named field of a record shape; field order equals wire order.
#[derive(Debug, PartialEq)]
pub struct Field {
    pub name: String,
    pub shape: Shape,
}

/// The declared layout of a record type: what the decoder is told in advance
/// about the bytes it is to read. Wire order is declaration order.
#[derive(Debug, PartialEq)]
pub enum Shape {
    U8,
    I8,
    U16,
    I16,
    U32,
    I32,
    U64,
    I64,
    /// A 4-byte field carried through as its raw bit pattern.
    F32Bits,
    /// An 8-byte field carried through as its raw bit pattern.
    F64Bits,
    /// A 4-byte byte count followed by that many bytes of UTF-8 text.
    Text,
    /// A single character: a declared capability gap, decoding refuses it.
    Character,
    /// A 4-byte element count followed by that many elements of one shape.
    Sequence(Box<Shape>),
    /// The flat concatenation of the named fields, with no own length prefix.
    Record(Vec<Field>),
}

/// A decoded record: a tree of plain values mirroring its shape.
#[derive(Debug, PartialEq)]
pub enum Value {
    U8(u8),
    I8(i8),
    U16(u16),
    I16(i16),
    U32(u32),
    I32(i32),
    U64(u64),
    I64(i64),
    F32Bits(u32),
    F64Bits(u64),
    Text(String),
    Sequence(Vec<Value>),
    Record(Vec<Value>),
}

/// Whether every field kind in the shape is one the decoder implements.
pub open spec fn supported(s: Shape) -> bool
    decreases s,
{
    match s {
        Shape::Character => false,
        Shape::Sequence(e) => supported(*e),
        Shape::Record(fields) => forall|i: int|
            0 <= i < fields@.len() ==> supported(#[trigger] fields@[i].shape),
        _ => true,
    }
}

/// Whether the value has the layout the shape declares, with every length
/// prefix representable in its 4 bytes.
pub open spec fn conforms(v: Value, s: Shape) -> bool
    decreases v,
{
    match v {
        Value::U8(_) => s == Shape::U8,
        Value::I8(_) => s == Shape::I8,
        Value::U16(_) => s == Shape::U16,
        Value::I16(_) => s == Shape::I16,
        Value::U32(_) => s == Shape::U32,
        Value::I32(_) => s == Shape::I32,
        Value::U64(_) => s == Shape::U64,
        Value::I64(_) => s == Shape::I64,
        Value::F32Bits(_) => s == Shape::F32Bits,
        Value::F64Bits(_) => s == Shape::F64Bits,
        Value::Text(t) => s == Shape::Text && encode_utf8(t@).len() < pow256(4),
        Value::Sequence(items) => match s {
            Shape::Sequence(e) => items@.len() < pow256(4) && forall|i: int|
                0 <= i < items@.len() ==> conforms(#[trigger] items@[i], *e),
            _ => false,
        },
        Value::Record(vals) => match s {
            Shape::Record(fields) => vals@.len() == fields@.len() && forall|i: int|
                0 <= i < vals@.len() ==> conforms(#[trigger] vals@[i], fields@[i].shape),
            _ => false,
        },
    }
}

/// The wire encoding of a value: little-endian primitives; strings and
/// sequences carry a 4-byte count; records are the flat concatenation of
/// their fields' encodings.
pub open spec fn wire_of(v: Value) -> Seq<u8>
    decreases v,
{
    match v {
        Value::U8(x) => le_enc(x as int, 1),
        Value::I8(x) => le_enc((x as u8) as int, 1),
        Value::U16(x) => le_enc(x as int, 2),
        Value::I16(x) => le_enc((x as u16) as int, 2),
        Value::U32(x) => le_enc(x as int, 4),
        Value::I32(x) => le_enc((x as u32) as int, 4),
        Value::U64(x) => le_enc(x as int, 8),
        Value::I64(x) => le_enc((x as u64) as int, 8),
        Value::F32Bits(x) => le_enc(x as int, 4),
        Value::F64Bits(x) => le_enc(x as int, 8),
        Value::Text(t) => le_enc(encode_utf8(t@).len() as int, 4) + encode_utf8(t@),
        Value::Sequence(items) => le_enc(items@.len() as int, 4) + wire_of_all(items@),
        Value::Record(vals) => wire_of_all(vals@),
    }
}

/// The concatenated wire encodings of a run of values, in order.
pub open spec fn wire_of_all(items: Seq<Value>) -> Seq<u8>
    decreases items,
{
    if items.len() == 0 {
        Seq::empty()
    } else {
        wire_of(items[0]) + wire_of_all(items.drop_first())
    }
}

/// Two decoded values carry the same information: equal except that text is
/// compared by its characters, not by string identity.
pub open spec fn value_eqv(a: Value, b: Value) -> bool
    decreases a,
{
    match (a, b) {
        (Value::U8(x), Value::U8(y)) => x == y,
        (Value::I8(x), Value::I8(y)) => x == y,
        (Value::U16(x), Value::U16(y)) => x == y,
        (Value::I16(x), Value::I16(y)) => x == y,
        (Value::U32(x), Value::U32(y)) => x == y,
        (Value::I32(x), Value::I32(y)) => x == y,
        (Value::U64(x), Value::U64(y)) => x == y,
        (Value::I64(x), Value::I64(y)) => x == y,
        (Value::F32Bits(x), Value::F32Bits(y)) => x == y,
        (Value::F64Bits(x), Value::F64Bits(y)) => x == y,
        (Value::Text(s), Value::Text(t)) => s@ == t@,
        (Value::Sequence(xs), Value::Sequence(ys)) => xs@.len() == ys@.len() && forall|i: int|
            0 <= i < xs@.len() ==> value_eqv(#[trigger] xs@[i], ys@[i]),
        (Value::Record(xs), Value::Record(ys)) => xs@.len() == ys@.len() && forall|i: int|
            0 <= i < xs@.len() ==> value_eqv(#[trigger] xs@[i], ys@[i]),
        _ => false,
    }
}

/// Equivalent values have the same wire encoding.
pub proof fn lemma_wire_of_eqv(a: Value, b: Value)
    requires
        value_eqv(a, b),
    ensures
        wire_of(a) == wire_of(b),
    decreases a,
{
    match (a, b) {
        (Value::Sequence(xs), Value::Sequence(ys)) => {
            lemma_wire_of_all_eqv(xs@, ys@);
        },
        (Value::Record(xs), Value::Record(ys)) => {
            lemma_wire_of_all_eqv(xs@, ys@);
        },
        _ => {},
    }
}

/// Pairwise equivalent runs of values have the same concatenated encoding.
pub proof fn lemma_wire_of_all_eqv(xs: Seq<Value>, ys: Seq<Value>)
    requires
        xs.len() == ys.len(),
        forall|i: int| 0 <= i < xs.len() ==> value_eqv(#[trigger] xs[i], ys[i]),
    ensures
        wire_of_all(xs) == wire_of_all(ys),
    decreases xs,
{
    if xs.len() > 0 {
        lemma_wire_of_eqv(xs[0], ys[0]);
        assert(forall|i: int|
            0 <= i < xs.drop_first().len() ==> value_eqv(
                #[trigger] xs.drop_first()[i],
                ys.drop_first()[i],
            ));
        lemma_wire_of_all_eqv(xs.drop_first(), ys.drop_first());
    }
}

/// Concatenation distributes over the wire encoding of runs of values.
pub proof fn lemma_wire_of_all_cat(s1: Seq<Value>, s2: Seq<Value>)
    ensures
        wire_of_all(s1 + s2) == wire_of_all(s1) + wire_of_all(s2),
    decreases s1,
{
    if s1.len() == 0 {
        assert(s1 + s2 =~= s2);
        assert(wire_of_all(s1) + wire_of_all(s2) =~= wire_of_all(s2));
    } else {
        assert((s1 + s2).drop_first() =~= s1.drop_first() + s2);
        lemma_wire_of_all_cat(s1.drop_first(), s2);
        assert(wire_of(s1[0]) + (wire_of_all(s1.drop_first()) + wire_of_all(s2)) =~= (wire_of(
            s1[0],
        ) + wire_of_all(s1.drop_first())) + wire_of_all(s2));
    }
}

/// Appending one value appends its encoding.
pub proof fn lemma_wire_of_all_snoc(s: Seq<Value>, v: Value)
    ensures
        wire_of_all(s.push(v)) == wire_of_all(s) + wire_of(v),
{
    assert(s.push(v) =~= s + seq![v]);
    lemma_wire_of_all_cat(s, seq![v]);
    assert(seq![v].drop_first() =~= Seq::<Value>::empty());
    assert(seq![v].len() == 1 && seq![v][0] == v);
    assert(wire_of_all(seq![v]) == wire_of(v) + wire_of_all(Seq::<Value>::empty()));
    assert(wire_of(v) + wire_of_all(Seq::<Value>::empty()) =~= wire_of(v));
}

/// The wire format is prefix-deterministic: two values of one shape whose
/// encodings are prefixes of the same byte stream carry the same information.
pub proof fn lemma_wire_deterministic(
    v1: Value,
    v2: Value,
    s: Shape,
    ext1: Seq<u8>,
    ext2: Seq<u8>,
)
    requires
        conforms(v1, s),
        conforms(v2, s),
        wire_of(v1) + ext1 == wire_of(v2) + ext2,
    ensures
        value_eqv(v1, v2),
    decreases v1,
{
    let t = wire_of(v1) + ext1;
    match v1 {
        Value::U8(x) => {
            let y = v2->U8_0;
            lemma_le_enc_len(x as int, 1);
            lemma_le_enc_len(y as int, 1);
            assert(t.take(1) =~= wire_of(v1));
            assert(t.take(1) =~= wire_of(v2));
            assert(pow256(1nat) == 0x100) by { reveal_with_fuel(pow256, 2); };
            lemma_le_enc_injective(x as int, y as int, 1);
        },
        Value::I8(x) => {
            let y = v2->I8_0;
            lemma_le_enc_len((x as u8) as int, 1);
            lemma_le_enc_len((y as u8) as int, 1);
            assert(t.take(1) =~= wire_of(v1));
            assert(t.take(1) =~= wire_of(v2));
            assert(pow256(1nat) == 0x100) by { reveal_with_fuel(pow256, 2); };
            lemma_le_enc_injective((x as u8) as int, (y as u8) as int, 1);
            assert((x as u8) == (y as u8) ==> x == y) by (bit_vector);
        },
        Value::U16(x) => {
            let y = v2->U16_0;
            lemma_le_enc_len(x as int, 2);
            lemma_le_enc_len(y as int, 2);
            assert(t.take(2) =~= wire_of(v1));
            assert(t.take(2) =~= wire_of(v2));
            assert(pow256(2nat) == 0x10000) by { reveal_with_fuel(pow256, 3); };
            lemma_le_enc_injective(x as int, y as int, 2);
        },
        Value::I16(x) => {
            let y = v2->I16_0;
            lemma_le_enc_len((x as u16) as int, 2);
            lemma_le_enc_len((y as u16) as int, 2);
            assert(t.take(2) =~= wire_of(v1));
            assert(t.take(2) =~= wire_of(v2));
            assert(pow256(2nat) == 0x10000) by { reveal_with_fuel(pow256, 3); };
            lemma_le_enc_injective((x as u16) as int, (y as u16) as int, 2);
            assert((x as u16) == (y as u16) ==> x == y) by (bit_vector);
        },
        Value::U32(x) => {
            let y = v2->U32_0;
            lemma_le_enc_len(x as int, 4);
            lemma_le_enc_len(y as int, 4);
            assert(t.take(4) =~= wire_of(v1));
            assert(t.take(4) =~= wire_of(v2));
            assert(pow256(4nat) == 0x100000000) by { reveal_with_fuel(pow256, 5); };
            lemma_le_enc_injective(x as int, y as int, 4);
        },
        Value::I32(x) => {
            let y = v2->I32_0;
            lemma_le_enc_len((x as u32) as int, 4);
            lemma_le_enc_len((y as u32) as int, 4);
            assert(t.take(4) =~= wire_of(v1));
            assert(t.take(4) =~= wire_of(v2));
            assert(pow256(4nat) == 0x100000000) by { reveal_with_fuel(pow256, 5); };
            lemma_le_enc_injective((x as u32) as int, (y as u32) as int, 4);
            assert((x as u32) == (y as u32) ==> x == y) by (bit_vector);
        },
        Value::U64(x) => {
            let y = v2->U64_0;
            lemma_le_enc_len(x as int, 8);
            lemma_le_enc_len(y as int, 8);
            assert(t.take(8) =~= wire_of(v1));
            assert(t.take(8) =~= wire_of(v2));
            assert(pow256(8nat) == 0x10000000000000000) by { reveal_with_fuel(pow256, 9); };
            lemma_le_enc_injective(x as int, y as int, 8);
        },
        Value::I64(x) => {
            let y = v2->I64_0;
            lemma_le_enc_len((x as u64) as int, 8);
            lemma_le_enc_len((y as u64) as int, 8);
            assert(t.take(8) =~= wire_of(v1));
            assert(t.take(8) =~= wire_of(v2));
            assert(pow256(8nat) == 0x10000000000000000) by { reveal_with_fuel(pow256, 9); };
            lemma_le_enc_injective((x as u64) as int, (y as u64) as int, 8);
            assert((x as u64) == (y as u64) ==> x == y) by (bit_vector);
        },
        Value::F32Bits(x) => {
            let y = v2->F32Bits_0;
            lemma_le_enc_len(x as int, 4);
            lemma_le_enc_len(y as int, 4);
            assert(t.take(4) =~= wire_of(v1));
            assert(t.take(4) =~= wire_of(v2));
            assert(pow256(4nat) == 0x100000000) by { reveal_with_fuel(pow256, 5); };
            lemma_le_enc_injective(x as int, y as int, 4);
        },
        Value::F64Bits(x) => {
            let y = v2->F64Bits_0;
            lemma_le_enc_len(x as int, 8);
            lemma_le_enc_len(y as int, 8);
            assert(t.take(8) =~= wire_of(v1));
            assert(t.take(8) =~= wire_of(v2));
            assert(pow256(8nat) == 0x10000000000000000) by { reveal_with_fuel(pow256, 9); };
            lemma_le_enc_injective(x as int, y as int, 8);
        },
        Value::Text(s1) => {
            let s2 = v2->Text_0;
            let b1 = encode_utf8(s1@);
            let b2 = encode_utf8(s2@);
            lemma_le_enc_len(b1.len() as int, 4);
            lemma_le_enc_len(b2.len() as int, 4);
            assert(t.take(4) =~= le_enc(b1.len() as int, 4));
            assert(t.take(4) =~= le_enc(b2.len() as int, 4));
            lemma_le_enc_injective(b1.len() as int, b2.len() as int, 4);
            assert(b1 =~= t.subrange(4, 4 + b1.len() as int));
            assert(b2 =~= t.subrange(4, 4 + b1.len() as int));
            encode_utf8_decode_utf8(s1@);
            encode_utf8_decode_utf8(s2@);
            assert(s1@ == decode_utf8(b1) && s2@ == decode_utf8(b2));
        },
        Value::Sequence(xs) => {
            let ys = v2->Sequence_0;
            let e = s->Sequence_0;
            lemma_le_enc_len(xs@.len() as int, 4);
            lemma_le_enc_len(ys@.len() as int, 4);
            assert(t.take(4) =~= le_enc(xs@.len() as int, 4));
            assert(t.take(4) =~= le_enc(ys@.len() as int, 4));
            lemma_le_enc_injective(xs@.len() as int, ys@.len() as int, 4);
            let ss = Seq::new(xs@.len(), |i: int| *e);
            assert(wire_of_all(xs@) + ext1 =~= wire_of_all(ys@) + ext2) by {
                assert(wire_of_all(xs@) + ext1 =~= t.skip(4));
                assert(wire_of_all(ys@) + ext2 =~= t.skip(4));
            };
            lemma_wire_all_deterministic(xs@, ys@, ss, ext1, ext2);
        },
        Value::Record(xs) => {
            let ys = v2->Record_0;
            let fields = s->Record_0;
            let ss = Seq::new(fields@.len(), |i: int| fields@[i].shape);
            lemma_wire_all_deterministic(xs@, ys@, ss, ext1, ext2);
        },
    }
}

/// Prefix determinism for a run of values decoded against a run of shapes.
pub proof fn lemma_wire_all_deterministic(
    xs: Seq<Value>,
    ys: Seq<Value>,
    ss: Seq<Shape>,
    ext1: Seq<u8>,
    ext2: Seq<u8>,
)
    requires
        xs.len() == ys.len(),
        xs.len() == ss.len(),
        forall|i: int| 0 <= i < xs.len() ==> conforms(#[trigger] xs[i], ss[i]),
        forall|i: int| 0 <= i < ys.len() ==> conforms(#[trigger] ys[i], ss[i]),
        wire_of_all(xs) + ext1 == wire_of_all(ys) + ext2,
    ensures
        forall|i: int| 0 <= i < xs.len() ==> value_eqv(#[trigger] xs[i], ys[i]),
    decreases xs,
{
    if xs.len() > 0 {
        let r1 = wire_of_all(xs.drop_first()) + ext1;
        let r2 = wire_of_all(ys.drop_first()) + ext2;
        assert(wire_of(xs[0]) + r1 =~= wire_of_all(xs) + ext1);
        assert(wire_of(ys[0]) + r2 =~= wire_of_all(ys) + ext2);
        lemma_wire_deterministic(xs[0], ys[0], ss[0], r1, r2);
        lemma_wire_of_eqv(xs[0], ys[0]);
        let w0 = wire_of(xs[0]);
        assert(r1 =~= (wire_of(xs[0]) + r1).skip(w0.len() as int));
        assert(r2 =~= (wire_of(ys[0]) + r2).skip(w0.len() as int));
        lemma_wire_all_deterministic(
            xs.drop_first(),
            ys.drop_first(),
            ss.drop_first(),
            ext1,
            ext2,
        );
        assert forall|i: int| 0 <= i < xs.len() implies value_eqv(#[trigger] xs[i], ys[i]) by {
            if i > 0 {
                assert(value_eqv(xs.drop_first()[i - 1], ys.drop_first()[i - 1]));
            }
        };
    }
}

} // verus!
