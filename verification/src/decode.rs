//! The schema-driven decoder: a single recursive routine that pulls
//! primitives, strings, sequences and nested records from the budgeted
//! cursor in field-declaration order.

use vstd::prelude::*;
use vstd::utf8::{encode_utf8, encode_utf8_valid_utf8};
use crate::deserializer::{Deserializer, Error};
use crate::shape::{conforms, supported, value_eqv, wire_of, wire_of_all, Field, Shape, Value};
use crate::shape::{
    lemma_wire_deterministic, lemma_wire_of_all_cat, lemma_wire_of_all_eqv, lemma_wire_of_all_snoc,
};
use crate::wire::{le_enc, pow256};
use crate::wire::{lemma_le_dec_enc, lemma_le_enc_dec, lemma_le_enc_len};

verus! {

broadcast use vstd::seq::group_seq_axioms, vstd::std_specs::vec::group_vec_axioms;

/// The cursor's pending bytes begin with the encoding of `v`, and the budget
/// admits all of it: decoding at this point must produce `v`.
pub open spec fn wire_match(d0: Deserializer, s: Shape, v: Value) -> bool {
    &&& conforms(v, s)
    &&& wire_of(v).len() <= d0.budget()
    &&& wire_of(v).len() <= d0.rest().len()
    &&& d0.rest().take(wire_of(v).len() as int) == wire_of(v)
}

/// A successful decode consumed exactly the encoding of the value it returned.
pub open spec fn decoded_exactly(d0: Deserializer, d1: Deserializer, s: Shape, v: Value) -> bool {
    &&& conforms(v, s)
    &&& wire_of(v).len() <= d0.budget()
    &&& wire_of(v).len() <= d0.rest().len()
    &&& d0.rest().take(wire_of(v).len() as int) == wire_of(v)
    &&& d1.position() == d0.position() + wire_of(v).len()
    &&& d1.budget() == d0.budget() - wire_of(v).len()
}

/// Any value the pending bytes match is equivalent to the one decoded from
/// them (prefix determinism, applied at the cursor).
proof fn lemma_decode_complete(d0: Deserializer, s: Shape, v0: Value)
    requires
        d0.wf(),
        conforms(v0, s),
        wire_of(v0).len() <= d0.rest().len(),
        d0.rest().take(wire_of(v0).len() as int) == wire_of(v0),
    ensures
        forall|w: Value| #[trigger] wire_match(d0, s, w) ==> value_eqv(v0, w),
{
    assert forall|w: Value| wire_match(d0, s, w) implies value_eqv(v0, w) by {
        assert(wire_of(v0) + d0.rest().skip(wire_of(v0).len() as int) =~= d0.rest());
        assert(wire_of(w) + d0.rest().skip(wire_of(w).len() as int) =~= d0.rest());
        lemma_wire_deterministic(
            v0,
            w,
            s,
            d0.rest().skip(wire_of(v0).len() as int),
            d0.rest().skip(wire_of(w).len() as int),
        );
    };
}

/// Decodes one value of the given shape from the cursor.
///
/// On success the value conforms to the shape and exactly its wire encoding
/// was consumed, from both the budget and the source. Whenever the pending
/// bytes and budget match some value of the shape, the decode succeeds and
/// returns it; so in particular it never fails on well-formed input.
#[verifier::rlimit(100)]
pub fn decode_value(d: &mut Deserializer, shape: &Shape) -> (r: Result<Value, Error>)
    requires
        old(d).wf(),
    ensures
        final(d).wf(),
        final(d).source() == old(d).source(),
        r is Ok ==> decoded_exactly(*old(d), *final(d), *shape, r->Ok_0),
        forall|v: Value| #[trigger]
            wire_match(*old(d), *shape, v) ==> r is Ok && value_eqv(r->Ok_0, v),
        old(d).budget() <= old(d).rest().len() ==> final(d).budget() <= final(d).rest().len()
            && r != Err::<Value, Error>(Error::IoError),
        r != Err::<Value, Error>(Error::SchemaMismatch),
        r != Err::<Value, Error>(Error::ContainerOpenError),
        supported(*shape) ==> r != Err::<Value, Error>(Error::UnsupportedShape),
        *shape == Shape::Character ==> r == Err::<Value, Error>(Error::UnsupportedShape) && *final(d) == *old(d),
    decreases *shape, 0nat,
{
    match shape {
        Shape::Sequence(elem) => {
            let r = decode_sequence(d, &**elem, Ghost(*shape));
            r
        },
        Shape::Record(fields) => {
            let r = decode_record(d, fields, Ghost(*shape));
            r
        },
        _ => decode_atom(d, shape),
    }
}

/// Decodes one primitive, string or unsupported field: every shape kind that
/// holds no nested values.
#[verifier::rlimit(100)]
fn decode_atom(d: &mut Deserializer, shape: &Shape) -> (r: Result<Value, Error>)
    requires
        old(d).wf(),
        !(shape matches Shape::Sequence(_)),
        !(shape matches Shape::Record(_)),
    ensures
        final(d).wf(),
        final(d).source() == old(d).source(),
        r is Ok ==> decoded_exactly(*old(d), *final(d), *shape, r->Ok_0),
        forall|v: Value| #[trigger]
            wire_match(*old(d), *shape, v) ==> r is Ok && value_eqv(r->Ok_0, v),
        old(d).budget() <= old(d).rest().len() ==> final(d).budget() <= final(d).rest().len()
            && r != Err::<Value, Error>(Error::IoError),
        r != Err::<Value, Error>(Error::SchemaMismatch),
        r != Err::<Value, Error>(Error::ContainerOpenError),
        supported(*shape) ==> r != Err::<Value, Error>(Error::UnsupportedShape),
        *shape == Shape::Character ==> r == Err::<Value, Error>(Error::UnsupportedShape) && *final(d) == *old(d),
{
    match shape {
        Shape::U8 => match d.read_u8() {
            Ok(x) => {
                let v = Value::U8(x);
                proof {
                    lemma_le_enc_dec(old(d).rest().take(1));
                    lemma_decode_complete(*old(d), *shape, v);
                }
                Ok(v)
            },
            Err(e) => {
                proof {
                    assert forall|w: Value| #[trigger] wire_match(*old(d), *shape, w) implies false by {
                        lemma_le_enc_len((w->U8_0) as int, 1);
                    };
                }
                Err(e)
            },
        },
        Shape::I8 => match d.read_i8() {
            Ok(x) => {
                let v = Value::I8(x);
                proof {
                    lemma_le_enc_dec(old(d).rest().take(1));
                    lemma_decode_complete(*old(d), *shape, v);
                }
                Ok(v)
            },
            Err(e) => {
                proof {
                    assert forall|w: Value| #[trigger] wire_match(*old(d), *shape, w) implies false by {
                        lemma_le_enc_len(((w->I8_0) as u8) as int, 1);
                    };
                }
                Err(e)
            },
        },
        Shape::U16 => match d.read_u16() {
            Ok(x) => {
                let v = Value::U16(x);
                proof {
                    lemma_le_enc_dec(old(d).rest().take(2));
                    lemma_decode_complete(*old(d), *shape, v);
                }
                Ok(v)
            },
            Err(e) => {
                proof {
                    assert forall|w: Value| #[trigger] wire_match(*old(d), *shape, w) implies false by {
                        lemma_le_enc_len(((w->U16_0) as u16) as int, 2);
                    };
                }
                Err(e)
            },
        },
        Shape::I16 => match d.read_i16() {
            Ok(x) => {
                let v = Value::I16(x);
                proof {
                    lemma_le_enc_dec(old(d).rest().take(2));
                    lemma_decode_complete(*old(d), *shape, v);
                }
                Ok(v)
            },
            Err(e) => {
                proof {
                    assert forall|w: Value| #[trigger] wire_match(*old(d), *shape, w) implies false by {
                        lemma_le_enc_len(((w->I16_0) as u16) as int, 2);
                    };
                }
                Err(e)
            },
        },
        Shape::U32 => match d.read_u32() {
            Ok(x) => {
                let v = Value::U32(x);
                proof {
                    lemma_le_enc_dec(old(d).rest().take(4));
                    lemma_decode_complete(*old(d), *shape, v);
                }
                Ok(v)
            },
            Err(e) => {
                proof {
                    assert forall|w: Value| #[trigger] wire_match(*old(d), *shape, w) implies false by {
                        lemma_le_enc_len(((w->U32_0) as u32) as int, 4);
                    };
                }
                Err(e)
            },
        },
        Shape::I32 => match d.read_i32() {
            Ok(x) => {
                let v = Value::I32(x);
                proof {
                    lemma_le_enc_dec(old(d).rest().take(4));
                    lemma_decode_complete(*old(d), *shape, v);
                }
                Ok(v)
            },
            Err(e) => {
                proof {
                    assert forall|w: Value| #[trigger] wire_match(*old(d), *shape, w) implies false by {
                        lemma_le_enc_len(((w->I32_0) as u32) as int, 4);
                    };
                }
                Err(e)
            },
        },
        Shape::U64 => match d.read_u64() {
            Ok(x) => {
                let v = Value::U64(x);
                proof {
                    lemma_le_enc_dec(old(d).rest().take(8));
                    lemma_decode_complete(*old(d), *shape, v);
                }
                Ok(v)
            },
            Err(e) => {
                proof {
                    assert forall|w: Value| #[trigger] wire_match(*old(d), *shape, w) implies false by {
                        lemma_le_enc_len(((w->U64_0) as u64) as int, 8);
                    };
                }
                Err(e)
            },
        },
        Shape::I64 => match d.read_i64() {
            Ok(x) => {
                let v = Value::I64(x);
                proof {
                    lemma_le_enc_dec(old(d).rest().take(8));
                    lemma_decode_complete(*old(d), *shape, v);
                }
                Ok(v)
            },
            Err(e) => {
                proof {
                    assert forall|w: Value| #[trigger] wire_match(*old(d), *shape, w) implies false by {
                        lemma_le_enc_len(((w->I64_0) as u64) as int, 8);
                    };
                }
                Err(e)
            },
        },
        Shape::F32Bits => match d.read_u32() {
            Ok(x) => {
                let v = Value::F32Bits(x);
                proof {
                    lemma_le_enc_dec(old(d).rest().take(4));
                    lemma_decode_complete(*old(d), *shape, v);
                }
                Ok(v)
            },
            Err(e) => {
                proof {
                    assert forall|w: Value| #[trigger] wire_match(*old(d), *shape, w) implies false by {
                        lemma_le_enc_len((w->F32Bits_0) as int, 4);
                    };
                }
                Err(e)
            },
        },
        Shape::F64Bits => match d.read_u64() {
            Ok(x) => {
                let v = Value::F64Bits(x);
                proof {
                    lemma_le_enc_dec(old(d).rest().take(8));
                    lemma_decode_complete(*old(d), *shape, v);
                }
                Ok(v)
            },
            Err(e) => {
                proof {
                    assert forall|w: Value| #[trigger] wire_match(*old(d), *shape, w) implies false by {
                        lemma_le_enc_len((w->F64Bits_0) as int, 8);
                    };
                }
                Err(e)
            },
        },
        Shape::Text => match d.get_string() {
            Ok(s) => {
                let v = Value::Text(s);
                proof {
                    let k = crate::wire::le_dec(old(d).rest().take(4));
                    crate::wire::lemma_le_dec_bound(old(d).rest().take(4));
                    let body = old(d).rest().subrange(4, 4 + k);
                    assert(body.len() == k);
                    vstd::utf8::decode_utf8_encode_utf8(body);
                    assert(encode_utf8(s@) == body);
                    lemma_le_enc_dec(old(d).rest().take(4));
                    lemma_le_enc_len(k, 4);
                    assert(wire_of(v) == le_enc(k, 4) + body);
                    assert(wire_of(v) =~= old(d).rest().take(4 + k));
                    lemma_decode_complete(*old(d), *shape, v);
                }
                Ok(v)
            },
            Err(e) => {
                proof {
                    assert forall|w: Value| #[trigger] wire_match(*old(d), *shape, w) implies false by {
                        let t = w->Text_0;
                        let b = encode_utf8(t@);
                        lemma_le_enc_len(b.len() as int, 4);
                        assert(old(d).rest().take(4) =~= le_enc(b.len() as int, 4));
                        lemma_le_dec_enc(b.len() as int, 4);
                        assert(b =~= old(d).rest().subrange(4, 4 + b.len() as int)) by {
                            assert forall|x: int|
                                0 <= x < b.len() implies old(d).rest().subrange(
                                4,
                                4 + b.len() as int,
                            )[x] == b[x] by {
                                assert(old(d).rest()[4 + x] == (le_enc(b.len() as int, 4) + b)[
                                    4 + x
                                ]);
                            };
                        };
                        encode_utf8_valid_utf8(t@);
                    };
                }
                Err(e)
            },
        },
        _ => {
            proof {
                assert forall|w: Value| #[trigger] wire_match(*old(d), *shape, w) implies false by {};
            }
            Err(Error::UnsupportedShape)
        },
    }
}

/// Decodes a length-prefixed sequence: the element count, then that many
/// values of the element shape. `s` is the sequence shape itself.
#[verifier::rlimit(100)]
fn decode_sequence(d: &mut Deserializer, elem: &Shape, Ghost(s): Ghost<Shape>) -> (r: Result<
    Value,
    Error,
>)
    requires
        old(d).wf(),
        s matches Shape::Sequence(eb) && *eb == *elem,
    ensures
        final(d).wf(),
        final(d).source() == old(d).source(),
        r is Ok ==> decoded_exactly(*old(d), *final(d), s, r->Ok_0),
        forall|v: Value| #[trigger] wire_match(*old(d), s, v) ==> r is Ok && value_eqv(r->Ok_0, v),
        old(d).budget() <= old(d).rest().len() ==> final(d).budget() <= final(d).rest().len()
            && r != Err::<Value, Error>(Error::IoError),
        r != Err::<Value, Error>(Error::SchemaMismatch),
        r != Err::<Value, Error>(Error::ContainerOpenError),
        supported(s) ==> r != Err::<Value, Error>(Error::UnsupportedShape),
    decreases *elem, 1nat,
{

            let count = match d.pop_length() {
                Ok(c) => c,
                Err(e) => {
                    proof {
                        assert forall|w: Value| wire_match(*old(d), s, w) implies false by {
                            lemma_le_enc_len((w->Sequence_0)@.len() as int, 4);
                        };
                    }
                    return Err(e);
                },
            };
            let ghost d0 = *old(d);
            let ghost has_t = exists|w: Value| wire_match(d0, s, w);
            let ghost tgt = choose|w: Value| wire_match(d0, s, w);
            let ghost tvs: Seq<Value> = if has_t {
                tgt->Sequence_0@
            } else {
                Seq::empty()
            };
            proof {
                if has_t {
                    lemma_le_enc_len(tvs.len() as int, 4);
                    assert(d0.rest().take(4) =~= le_enc(tvs.len() as int, 4));
                    assert(pow256(4nat) == 0x100000000) by {
                        reveal_with_fuel(pow256, 5);
                    };
                    lemma_le_dec_enc(tvs.len() as int, 4);
                    assert(count as int == tvs.len());
                }
                lemma_le_enc_dec(d0.rest().take(4));
                assert(wire_of_all(items_empty()) =~= Seq::<u8>::empty());
                assert(d0.rest().take(4 + wire_of_all(items_empty()).len() as int) =~= le_enc(
                    count as int,
                    4,
                ) + wire_of_all(items_empty()));
            }
            let mut items: Vec<Value> = Vec::new();
            let mut i: u32 = 0;
            while i < count
                invariant
                    s matches Shape::Sequence(eb) && *eb == *elem,
                    d0 == *old(d),
                    d.wf(),
                    d0.wf(),
                    d.source() == d0.source(),
                    i as int == items@.len(),
                    i <= count,
                    4 <= d0.budget(),
                    d.position() == d0.position() + 4 + wire_of_all(items@).len(),
                    d.budget() == d0.budget() - 4 - wire_of_all(items@).len(),
                    d0.rest().take(4 + wire_of_all(items@).len() as int) == le_enc(count as int, 4)
                        + wire_of_all(items@),
                    forall|j: int| 0 <= j < items@.len() ==> conforms(#[trigger] items@[j], *elem),
                    has_t == exists|w: Value| wire_match(d0, s, w),
                    has_t ==> wire_match(d0, s, tgt) && (tgt matches
                        Value::Sequence(_)) && tgt->Sequence_0@ == tvs && tvs.len() == count as int,
                    has_t ==> forall|j: int|
                        0 <= j < items@.len() ==> value_eqv(#[trigger] items@[j], tvs[j]),
                    d0.budget() <= d0.rest().len() ==> d.budget() <= d.rest().len(),
                decreases count as int - i as int,
            {
                proof {
                    if has_t {
                        lemma_le_enc_len(count as int, 4);
                        assert(tvs.take(i as int).len() == i as int);
                        assert forall|j: int| 0 <= j < i as int implies value_eqv(
                            #[trigger] items@[j],
                            tvs.take(i as int)[j],
                        ) by {
                            assert(tvs.take(i as int)[j] == tvs[j]);
                        };
                        lemma_wire_of_all_eqv(items@, tvs.take(i as int));
                        lemma_wire_of_all_cat(tvs.take(i as int), tvs.skip(i as int));
                        assert(tvs.take(i as int) + tvs.skip(i as int) =~= tvs);
                        assert(tvs.skip(i as int).drop_first() =~= tvs.skip(i as int + 1));
                        assert(tvs.skip(i as int)[0] == tvs[i as int]);
                        assert(wire_of_all(tvs) == wire_of_all(tvs.take(i as int)) + (wire_of(
                            tvs[i as int],
                        ) + wire_of_all(tvs.skip(i as int + 1))));
                        assert(wire_of(tgt) == le_enc(count as int, 4) + wire_of_all(tvs));
                        let wlen = wire_of(tvs[i as int]).len() as int;
                        let done = wire_of_all(items@).len() as int;
                        assert(wire_of(tgt).len() == 4 + wire_of_all(tvs).len());
                        assert(wire_of_all(tvs).len() >= done + wlen);
                        assert(d.rest() =~= d0.rest().skip(4 + done));
                        assert(d0.rest().take(wire_of(tgt).len() as int) == wire_of(tgt));
                        assert(wire_of_all(tvs.take(i as int)).len() == done);
                        assert(d.rest().take(wlen) =~= wire_of(tvs[i as int])) by {
                            assert forall|x: int| 0 <= x < wlen implies d.rest().take(wlen)[x]
                                == wire_of(tvs[i as int])[x] by {
                                assert(d.rest()[x] == d0.rest()[4 + done + x]);
                                assert(d0.rest()[4 + done + x] == wire_of(tgt)[4 + done + x]);
                                assert(wire_of(tgt)[4 + done + x] == wire_of_all(tvs)[done + x]);
                                assert(wire_of_all(tvs)[done + x] == (wire_of(tvs[i as int])
                                    + wire_of_all(tvs.skip(i as int + 1)))[x]);
                            };
                        };
                        assert(wire_match(*d, *elem, tvs[i as int]));
                    }
                }
                let ghost dpre = *d;
                let item = match decode_value(d, elem) {
                    Ok(v) => v,
                    Err(e) => {
                        proof {
                            if has_t {
                                assert(wire_match(dpre, *elem, tvs[i as int]));
                                assert(false);
                            }
                        }
                        return Err(e);
                    },
                };
                proof {
                    lemma_wire_of_all_snoc(items@, item);
                    lemma_le_enc_len(count as int, 4);
                    let done = wire_of_all(items@).len() as int;
                    let wlen = wire_of(item).len() as int;
                    let full = le_enc(count as int, 4) + wire_of_all(items@.push(item));
                    assert(d0.rest().skip(4 + done).take(wlen) =~= wire_of(item));
                    assert(4 + done + wlen <= d0.rest().len());
                    assert(d0.rest().take(4 + done + wlen) =~= full) by {
                        assert forall|x: int| 0 <= x < 4 + done + wlen implies d0.rest().take(
                            4 + done + wlen,
                        )[x] == full[x] by {
                            if x < 4 + done {
                                assert(d0.rest()[x] == (le_enc(count as int, 4) + wire_of_all(
                                    items@,
                                ))[x]);
                            } else {
                                assert(d0.rest()[x] == d0.rest().skip(4 + done)[x - 4 - done]);
                                assert(d0.rest().skip(4 + done)[x - 4 - done] == wire_of(item)[
                                    x - 4 - done
                                ]);
                            }
                        };
                    };
                }
                items.push(item);
                i = i + 1;
            }
            let v = Value::Sequence(items);
            proof {
                assert(pow256(4nat) == 0x100000000) by {
                    reveal_with_fuel(pow256, 5);
                };
                lemma_le_enc_len(count as int, 4);
                assert(conforms(v, s));
                assert(wire_of(v) == le_enc(count as int, 4) + wire_of_all(items@));
                assert(wire_of(v) == d0.rest().take(wire_of(v).len() as int));
                lemma_decode_complete(d0, s, v);
            }
            Ok(v)
}

/// Decodes a record: its fields in declared order, with no own length
/// prefix. `s` is the record shape itself.
#[verifier::rlimit(100)]
fn decode_record(d: &mut Deserializer, fields: &Vec<Field>, Ghost(s): Ghost<Shape>) -> (r: Result<
    Value,
    Error,
>)
    requires
        old(d).wf(),
        s == Shape::Record(*fields),
    ensures
        final(d).wf(),
        final(d).source() == old(d).source(),
        r is Ok ==> decoded_exactly(*old(d), *final(d), s, r->Ok_0),
        forall|v: Value| #[trigger] wire_match(*old(d), s, v) ==> r is Ok && value_eqv(r->Ok_0, v),
        old(d).budget() <= old(d).rest().len() ==> final(d).budget() <= final(d).rest().len()
            && r != Err::<Value, Error>(Error::IoError),
        r != Err::<Value, Error>(Error::SchemaMismatch),
        r != Err::<Value, Error>(Error::ContainerOpenError),
        supported(s) ==> r != Err::<Value, Error>(Error::UnsupportedShape),
    decreases *fields, 1nat,
{

            let ghost d0 = *old(d);
            let ghost has_t = exists|w: Value| wire_match(d0, s, w);
            let ghost tgt = choose|w: Value| wire_match(d0, s, w);
            let ghost tvs: Seq<Value> = if has_t {
                tgt->Record_0@
            } else {
                Seq::empty()
            };
            proof {
                assert(wire_of_all(items_empty()) =~= Seq::<u8>::empty());
                assert(d0.rest().take(wire_of_all(items_empty()).len() as int)
                    =~= wire_of_all(items_empty()));
            }
            let n = fields.len();
            let mut items: Vec<Value> = Vec::new();
            let mut i: usize = 0;
            while i < n
                invariant
                    s == Shape::Record(*fields),
                    d0 == *old(d),
                    d.wf(),
                    d0.wf(),
                    d.source() == d0.source(),
                    n == fields@.len(),
                    i as int == items@.len(),
                    i <= n,
                    d.position() == d0.position() + wire_of_all(items@).len(),
                    d.budget() == d0.budget() - wire_of_all(items@).len(),
                    wire_of_all(items@).len() <= d0.budget(),
                    d0.rest().take(wire_of_all(items@).len() as int) == wire_of_all(items@),
                    forall|j: int|
                        0 <= j < items@.len() ==> conforms(#[trigger] items@[j], fields@[j].shape),
                    has_t == exists|w: Value| wire_match(d0, s, w),
                    has_t ==> wire_match(d0, s, tgt) && (tgt matches
                        Value::Record(_)) && tgt->Record_0@ == tvs && tvs.len() == n as int,
                    has_t ==> forall|j: int|
                        0 <= j < items@.len() ==> value_eqv(#[trigger] items@[j], tvs[j]),
                    d0.budget() <= d0.rest().len() ==> d.budget() <= d.rest().len(),
                decreases n as int - i as int,
            {
                proof {
                    if has_t {
                        assert(tvs.take(i as int).len() == i as int);
                        assert forall|j: int| 0 <= j < i as int implies value_eqv(
                            #[trigger] items@[j],
                            tvs.take(i as int)[j],
                        ) by {
                            assert(tvs.take(i as int)[j] == tvs[j]);
                        };
                        lemma_wire_of_all_eqv(items@, tvs.take(i as int));
                        lemma_wire_of_all_cat(tvs.take(i as int), tvs.skip(i as int));
                        assert(tvs.take(i as int) + tvs.skip(i as int) =~= tvs);
                        assert(tvs.skip(i as int).drop_first() =~= tvs.skip(i as int + 1));
                        assert(tvs.skip(i as int)[0] == tvs[i as int]);
                        assert(wire_of_all(tvs) == wire_of_all(tvs.take(i as int)) + (wire_of(
                            tvs[i as int],
                        ) + wire_of_all(tvs.skip(i as int + 1))));
                        assert(wire_of(tgt) == wire_of_all(tvs));
                        let wlen = wire_of(tvs[i as int]).len() as int;
                        let done = wire_of_all(items@).len() as int;
                        assert(wire_of_all(tvs).len() >= done + wlen);
                        assert(d.rest() =~= d0.rest().skip(done));
                        assert(d0.rest().take(wire_of(tgt).len() as int) == wire_of(tgt));
                        assert(wire_of_all(tvs.take(i as int)).len() == done);
                        assert(d.rest().take(wlen) =~= wire_of(tvs[i as int])) by {
                            assert forall|x: int| 0 <= x < wlen implies d.rest().take(wlen)[x]
                                == wire_of(tvs[i as int])[x] by {
                                assert(d.rest()[x] == d0.rest()[done + x]);
                                assert(d0.rest()[done + x] == wire_of(tgt)[done + x]);
                                assert(wire_of(tgt)[done + x] == wire_of_all(tvs)[done + x]);
                                assert(wire_of_all(tvs)[done + x] == (wire_of(tvs[i as int])
                                    + wire_of_all(tvs.skip(i as int + 1)))[x]);
                            };
                        };
                        assert(wire_match(*d, fields@[i as int].shape, tvs[i as int]));
                    }
                }
                let ghost dpre = *d;
                let item = match decode_value(d, &fields[i].shape) {
                    Ok(v) => v,
                    Err(e) => {
                        proof {
                            if has_t {
                                assert(wire_match(dpre, fields@[i as int].shape, tvs[i as int]));
                                assert(false);
                            }
                        }
                        return Err(e);
                    },
                };
                proof {
                    lemma_wire_of_all_snoc(items@, item);
                    let done = wire_of_all(items@).len() as int;
                    let wlen = wire_of(item).len() as int;
                    let full = wire_of_all(items@.push(item));
                    assert(d0.rest().skip(done).take(wlen) =~= wire_of(item));
                    assert(done + wlen <= d0.rest().len());
                    assert(d0.rest().take(done + wlen) =~= full) by {
                        assert forall|x: int| 0 <= x < done + wlen implies d0.rest().take(
                            done + wlen,
                        )[x] == full[x] by {
                            if x < done {
                                assert(d0.rest()[x] == wire_of_all(items@)[x]);
                            } else {
                                assert(d0.rest()[x] == d0.rest().skip(done)[x - done]);
                                assert(d0.rest().skip(done)[x - done] == wire_of(item)[x - done]);
                            }
                        };
                    };
                }
                items.push(item);
                i = i + 1;
            }
            let v = Value::Record(items);
            proof {
                assert(conforms(v, s));
                assert(wire_of(v) == wire_of_all(items@));
                assert(wire_of(v) == d0.rest().take(wire_of(v).len() as int));
                lemma_decode_complete(d0, s, v);
            }
            Ok(v)
}

/// Decodes one record: builds a cursor whose budget is the payload length,
/// decodes the shape, and requires the budget to come out exactly exhausted.
///
/// It returns `Ok` exactly on payloads that are the complete encoding of a
/// value of the shape; a payload with trailing undecoded bytes is refused as
/// `SchemaMismatch`, and a truncated or malformed one with the decoder's own
/// error, never `SchemaMismatch` and never `IoError`.
pub fn from_slice(bytes: &[u8], shape: &Shape) -> (r: Result<Value, Error>)
    requires
        bytes@.len() <= u32::MAX,
    ensures
        r is Ok ==> conforms(r->Ok_0, *shape) && wire_of(r->Ok_0) == bytes@,
        forall|v: Value|
            conforms(v, *shape) && wire_of(v) == bytes@ ==> r is Ok && value_eqv(r->Ok_0, v),
        r == Err::<Value, Error>(Error::SchemaMismatch) <==> (exists|v: Value|
            conforms(v, *shape) && wire_of(v).len() < bytes@.len() && bytes@.take(
                wire_of(v).len() as int,
            ) == wire_of(v)),
        r != Err::<Value, Error>(Error::IoError),
        r != Err::<Value, Error>(Error::ContainerOpenError),
        supported(*shape) ==> r != Err::<Value, Error>(Error::UnsupportedShape),
        supported(*shape) && (exists|v: Value|
            conforms(v, *shape) && wire_of(v).len() > bytes@.len() && bytes@ == wire_of(v).take(
                bytes@.len() as int,
            )) ==> r == Err::<Value, Error>(Error::BudgetExceeded) || r == Err::<Value, Error>(
            Error::EncodingError,
        ),
{
    let buf = vstd::slice::slice_to_vec(bytes);
    let n = buf.len();
    let mut d = Deserializer::new(buf, n as u32);
    let ghost d0 = d;
    let rr = decode_value(&mut d, shape);
    match rr {
        Err(e) => {
            proof {
                assert forall|v: Value|
                    conforms(v, *shape) && wire_of(v) == bytes@ implies false by {
                    assert(d0.rest() =~= bytes@);
                    assert(d0.rest().take(wire_of(v).len() as int) =~= wire_of(v));
                    assert(wire_match(d0, *shape, v));
                };
                assert forall|v: Value|
                    conforms(v, *shape) && wire_of(v).len() < bytes@.len() && bytes@.take(
                        wire_of(v).len() as int,
                    ) == wire_of(v) implies false by {
                    assert(d0.rest() =~= bytes@);
                    assert(d0.rest().take(wire_of(v).len() as int) =~= bytes@.take(
                        wire_of(v).len() as int,
                    ));
                    assert(wire_match(d0, *shape, v));
                };
                assert(!(exists|v: Value|
                    conforms(v, *shape) && wire_of(v).len() < bytes@.len() && bytes@.take(
                        wire_of(v).len() as int,
                    ) == wire_of(v)));
                assert(e != Error::SchemaMismatch);
            }
            Err(e)
        },
        Ok(v) => {
            if d.is_fully_read() {
                proof {
                    assert(d0.rest() =~= bytes@);
                    assert(wire_of(v).len() == bytes@.len());
                    assert(wire_of(v) =~= bytes@);
                    assert forall|w: Value|
                        conforms(w, *shape) && wire_of(w) == bytes@ implies value_eqv(v, w) by {
                        assert(d0.rest().take(wire_of(w).len() as int) =~= wire_of(w));
                        assert(wire_match(d0, *shape, w));
                    };
                    assert forall|w: Value|
                        conforms(w, *shape) && wire_of(w).len() < bytes@.len() && bytes@.take(
                            wire_of(w).len() as int,
                        ) == wire_of(w) implies false by {
                        assert(d0.rest().take(wire_of(w).len() as int) =~= bytes@.take(
                            wire_of(w).len() as int,
                        ));
                        assert(wire_match(d0, *shape, w));
                        assert(value_eqv(v, w));
                        crate::shape::lemma_wire_of_eqv(v, w);
                    };
                    assert forall|w: Value|
                        conforms(w, *shape) && wire_of(w).len() > bytes@.len() && bytes@
                            == wire_of(w).take(bytes@.len() as int) implies false by {
                        assert(wire_of(v) + wire_of(w).skip(bytes@.len() as int) =~= wire_of(w));
                        assert(wire_of(w) + Seq::<u8>::empty() =~= wire_of(w));
                        lemma_wire_deterministic(
                            v,
                            w,
                            *shape,
                            wire_of(w).skip(bytes@.len() as int),
                            Seq::<u8>::empty(),
                        );
                        crate::shape::lemma_wire_of_eqv(v, w);
                    };
                }
                Ok(v)
            } else {
                proof {
                    assert(d0.rest() =~= bytes@);
                    assert(conforms(v, *shape) && wire_of(v).len() < bytes@.len() && bytes@.take(
                        wire_of(v).len() as int,
                    ) == wire_of(v)) by {
                        assert(d0.rest().take(wire_of(v).len() as int) =~= bytes@.take(
                            wire_of(v).len() as int,
                        ));
                    };
                    assert forall|w: Value|
                        conforms(w, *shape) && wire_of(w) == bytes@ implies false by {
                        assert(d0.rest().take(wire_of(w).len() as int) =~= wire_of(w));
                        assert(wire_match(d0, *shape, w));
                        assert(value_eqv(v, w));
                        crate::shape::lemma_wire_of_eqv(v, w);
                    };
                    assert forall|w: Value|
                        conforms(w, *shape) && wire_of(w).len() > bytes@.len() && bytes@
                            == wire_of(w).take(bytes@.len() as int) implies false by {
                        assert(wire_of(v) + wire_of(w).skip(wire_of(v).len() as int) =~= wire_of(
                            w,
                        )) by {
                            assert(wire_of(v) =~= bytes@.take(wire_of(v).len() as int));
                            assert(forall|x: int|
                                0 <= x < bytes@.len() ==> bytes@[x] == #[trigger] wire_of(w)[x]);
                        };
                        assert(wire_of(w) + Seq::<u8>::empty() =~= wire_of(w));
                        lemma_wire_deterministic(
                            v,
                            w,
                            *shape,
                            wire_of(w).skip(wire_of(v).len() as int),
                            Seq::<u8>::empty(),
                        );
                        crate::shape::lemma_wire_of_eqv(v, w);
                    };
                }
                Err(Error::SchemaMismatch)
            }
        },
    }
}

/// The empty run of values; names the base case the loops start from.
pub open spec fn items_empty() -> Seq<Value> {
    Seq::empty()
}

} // verus!
