use unbag_rs::deserializer::{Deserializer, Error};
use unbag_rs::msg::{decode_pointcloud2, pc2_shape};
use unbag_rs::shape::{Shape, Value};
use unbag_rs::decode::from_slice;

fn le32(x: u32) -> Vec<u8> {
    vec![
        (x & 0xff) as u8,
        ((x >> 8) & 0xff) as u8,
        ((x >> 16) & 0xff) as u8,
        ((x >> 24) & 0xff) as u8,
    ]
}

#[test]
fn budget_reservation_never_exceeds_initial() {
    let mut d = Deserializer::new(vec![0u8; 16], 10);
    assert_eq!(d.reserve_bytes(4), Ok(()));
    assert_eq!(d.reserve_bytes(6), Ok(()));
    // budget exhausted: further reservation fails and deducts nothing
    assert_eq!(d.reserve_bytes(1), Err(Error::BudgetExceeded));
    assert!(d.is_fully_read());
    // the failed call left the budget unchanged: zero, still exhausted
    assert_eq!(d.reserve_bytes(0), Ok(()));
    assert!(d.is_fully_read());
}

#[test]
fn failed_reservation_leaves_budget_unchanged() {
    let mut d = Deserializer::new(vec![0u8; 16], 5);
    assert_eq!(d.reserve_bytes(6), Err(Error::BudgetExceeded));
    // 5 bytes must still be available after the refused call
    assert_eq!(d.reserve_bytes(5), Ok(()));
}

#[test]
fn primitive_reads_are_little_endian() {
    let mut d = Deserializer::new(vec![0x01, 0x02, 0x03, 0x04, 0xff, 0x7f], 6);
    assert_eq!(d.read_u32(), Ok(0x04030201));
    assert_eq!(d.read_i16(), Ok(0x7fff));
    assert!(d.is_fully_read());
}

#[test]
fn signed_reads_wrap_bit_patterns() {
    let mut d = Deserializer::new(vec![0xff, 0xff, 0xfe], 3);
    assert_eq!(d.read_i16(), Ok(-1));
    assert_eq!(d.read_i8(), Ok(-2));
}

#[test]
fn read_io_error_when_budget_outruns_source() {
    // budget says 8 bytes may be read, but the source only has 2
    let mut d = Deserializer::new(vec![0x01, 0x02], 8);
    assert_eq!(d.read_u64(), Err(Error::IoError));
}

#[test]
fn get_string_reads_length_prefixed_utf8() {
    let mut bytes = le32(5);
    bytes.extend_from_slice(b"hello");
    let mut d = Deserializer::new(bytes, 9);
    assert_eq!(d.get_string(), Ok(String::from("hello")));
    assert!(d.is_fully_read());
}

#[test]
fn get_string_refuses_invalid_utf8() {
    let mut bytes = le32(2);
    bytes.extend_from_slice(&[0xff, 0xfe]);
    let mut d = Deserializer::new(bytes, 6);
    assert_eq!(d.get_string(), Err(Error::EncodingError));
}

#[test]
fn get_string_refuses_length_past_budget() {
    let mut bytes = le32(100);
    bytes.extend_from_slice(b"short");
    let mut d = Deserializer::new(bytes, 9);
    assert_eq!(d.get_string(), Err(Error::BudgetExceeded));
}

#[test]
fn into_inner_returns_source() {
    let d = Deserializer::new(vec![1, 2, 3], 3);
    assert_eq!(d.into_inner(), vec![1, 2, 3]);
}

#[test]
fn round_trip_scalar_record() {
    // a record of one u16 and one i32, encoded by hand
    let mut fields = Vec::new();
    fields.push(unbag_rs::shape::Field { name: String::from("a"), shape: Shape::U16 });
    fields.push(unbag_rs::shape::Field { name: String::from("b"), shape: Shape::I32 });
    let shape = Shape::Record(fields);
    let mut bytes = vec![0x34, 0x12];
    bytes.extend_from_slice(&le32(0xfffffffe)); // -2 as two's complement
    let v = from_slice(&bytes, &shape).unwrap();
    match v {
        Value::Record(vals) => {
            assert!(matches!(vals[0], Value::U16(0x1234)));
            assert!(matches!(vals[1], Value::I32(-2)));
        }
        _ => panic!("expected a record"),
    }
}

#[test]
fn trailing_byte_is_schema_mismatch() {
    // one u8 field, but two bytes of payload: one byte is left undecoded
    let shape = Shape::U8;
    let bytes = vec![7, 8];
    assert_eq!(from_slice(&bytes, &shape), Err(Error::SchemaMismatch));
}

#[test]
fn truncated_payload_is_budget_exceeded() {
    // a u32 needs four bytes; three are provided
    let shape = Shape::U32;
    let bytes = vec![1, 2, 3];
    assert_eq!(from_slice(&bytes, &shape), Err(Error::BudgetExceeded));
}

#[test]
fn truncated_string_is_budget_exceeded() {
    // string claims 10 bytes but the payload ends after 2
    let mut bytes = le32(10);
    bytes.extend_from_slice(b"ab");
    assert_eq!(from_slice(&bytes, &Shape::Text), Err(Error::BudgetExceeded));
}

#[test]
fn empty_sequence_decodes_to_empty() {
    let shape = Shape::Sequence(Box::new(Shape::U16));
    let bytes = le32(0);
    let v = from_slice(&bytes, &shape).unwrap();
    match v {
        Value::Sequence(items) => assert_eq!(items.len(), 0),
        _ => panic!("expected a sequence"),
    }
}

#[test]
fn sequence_round_trip_preserves_order() {
    let shape = Shape::Sequence(Box::new(Shape::U8));
    let mut bytes = le32(3);
    bytes.extend_from_slice(&[9, 8, 7]);
    let v = from_slice(&bytes, &shape).unwrap();
    match v {
        Value::Sequence(items) => {
            assert_eq!(items.len(), 3);
            assert!(matches!(items[0], Value::U8(9)));
            assert!(matches!(items[1], Value::U8(8)));
            assert!(matches!(items[2], Value::U8(7)));
        }
        _ => panic!("expected a sequence"),
    }
}

#[test]
fn character_shape_is_unsupported() {
    let bytes = vec![0x41];
    assert_eq!(from_slice(&bytes, &Shape::Character), Err(Error::UnsupportedShape));
}

#[test]
fn text_round_trips_through_decode() {
    let mut bytes = le32(6);
    bytes.extend_from_slice("caf\u{e9}!".as_bytes()); // 6 UTF-8 bytes
    let v = from_slice(&bytes, &Shape::Text).unwrap();
    match v {
        Value::Text(s) => assert_eq!(s, "caf\u{e9}!"),
        _ => panic!("expected text"),
    }
}

fn sample_pc2_payload() -> Vec<u8> {
    let mut bytes = Vec::new();
    // header: sequence_id, sec, nsec, frame_id
    bytes.extend_from_slice(&le32(42));
    bytes.extend_from_slice(&le32(100));
    bytes.extend_from_slice(&le32(200));
    bytes.extend_from_slice(&le32(4));
    bytes.extend_from_slice(b"base");
    // height, width
    bytes.extend_from_slice(&le32(1));
    bytes.extend_from_slice(&le32(2));
    // fields: one PointField { name: "x", offset: 0, datatype: 7, count: 1 }
    bytes.extend_from_slice(&le32(1));
    bytes.extend_from_slice(&le32(1));
    bytes.extend_from_slice(b"x");
    bytes.extend_from_slice(&le32(0));
    bytes.push(7);
    bytes.extend_from_slice(&le32(1));
    // is_bigendian, point_step, row_step
    bytes.push(0);
    bytes.extend_from_slice(&le32(16));
    bytes.extend_from_slice(&le32(32));
    // data: 4 bytes
    bytes.extend_from_slice(&le32(4));
    bytes.extend_from_slice(&[10, 20, 30, 40]);
    // is_dense
    bytes.push(1);
    bytes
}

#[test]
fn decode_pointcloud2_reads_every_field() {
    let bytes = sample_pc2_payload();
    let p = decode_pointcloud2(&bytes).unwrap();
    assert_eq!(p.header.sequence_id, 42);
    assert_eq!(p.header.sec, 100);
    assert_eq!(p.header.nsec, 200);
    assert_eq!(p.header.frame_id, "base");
    assert_eq!(p.height, 1);
    assert_eq!(p.width, 2);
    assert_eq!(p.fields.len(), 1);
    assert_eq!(p.fields[0].name, "x");
    assert_eq!(p.fields[0].offset, 0);
    assert_eq!(p.fields[0].datatype, 7);
    assert_eq!(p.fields[0].count, 1);
    assert_eq!(p.is_bigendian, 0);
    assert_eq!(p.point_step, 16);
    assert_eq!(p.row_step, 32);
    assert_eq!(p.data, vec![10, 20, 30, 40]);
    assert_eq!(p.is_dense, 1);
}

#[test]
fn decode_pointcloud2_flags_trailing_bytes() {
    let mut bytes = sample_pc2_payload();
    bytes.push(0);
    assert_eq!(decode_pointcloud2(&bytes), Err(Error::SchemaMismatch));
}

#[test]
fn decode_pointcloud2_flags_truncation() {
    let bytes = sample_pc2_payload();
    let cut = &bytes[..bytes.len() - 3];
    assert_eq!(decode_pointcloud2(cut), Err(Error::BudgetExceeded));
}

#[test]
fn pc2_shape_is_a_nine_field_record() {
    match pc2_shape() {
        Shape::Record(fs) => assert_eq!(fs.len(), 9),
        _ => panic!("expected a record shape"),
    }
}
