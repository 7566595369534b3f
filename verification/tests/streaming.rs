use unbag_rs::msg::Msg;
use unbag_rs::stream::{MessageDataOwned, MessageIterator, RoutingTable};

fn le32(x: u32) -> Vec<u8> {
    vec![
        (x & 0xff) as u8,
        ((x >> 8) & 0xff) as u8,
        ((x >> 16) & 0xff) as u8,
        ((x >> 24) & 0xff) as u8,
    ]
}

fn table_ab() -> RoutingTable {
    let mut t = RoutingTable::new();
    t.add(1, String::from("/a"), String::from("other_msgs/Other"));
    t.add(2, String::from("/b"), String::from("other_msgs/Other"));
    t
}

fn rec(conn_id: u32, time: u64) -> MessageDataOwned {
    MessageDataOwned { conn_id, time, data: vec![] }
}

fn drain(it: &mut MessageIterator) -> Vec<Result<Msg, unbag_rs::deserializer::Error>> {
    let mut out = Vec::new();
    while let Some(m) = it.next_message() {
        out.push(m);
    }
    out
}

#[test]
fn filter_keeps_only_allowed_topics_in_order() {
    let mut it = MessageIterator::new(table_ab(), vec![String::from("/a")]);
    it.load_chunk(vec![rec(1, 0), rec(2, 1), rec(1, 2), rec(2, 3), rec(1, 4)]);
    let out = drain(&mut it);
    // three /a records in the source, three yields, in original order
    assert_eq!(out.len(), 3);
    for m in out {
        assert!(matches!(m, Ok(Msg::Unknown)));
    }
}

#[test]
fn empty_filter_accepts_all() {
    let mut it = MessageIterator::new(table_ab(), vec![]);
    it.load_chunk(vec![rec(1, 0), rec(2, 1)]);
    assert_eq!(drain(&mut it).len(), 2);
}

#[test]
fn unknown_channel_yields_unknown_message() {
    let mut it = MessageIterator::new(table_ab(), vec![String::from("/a")]);
    // channel 9 is absent from the table: surfaced as Unknown, not dropped
    it.load_chunk(vec![rec(9, 0)]);
    let out = drain(&mut it);
    assert_eq!(out.len(), 1);
    assert!(matches!(out[0], Ok(Msg::Unknown)));
}

#[test]
fn unknown_schema_yields_unknown_message() {
    let mut t = RoutingTable::new();
    t.add(1, String::from("/a"), String::from("other_msgs/NotInCatalog"));
    let mut it = MessageIterator::new(t, vec![]);
    it.load_chunk(vec![rec(1, 0)]);
    let out = drain(&mut it);
    assert_eq!(out.len(), 1);
    assert!(matches!(out[0], Ok(Msg::Unknown)));
}

#[test]
fn chunks_drain_in_container_order() {
    let mut it = MessageIterator::new(table_ab(), vec![]);
    it.load_chunk(vec![rec(1, 10), rec(1, 11)]);
    let mut seen = 0;
    while let Some(m) = it.next_message() {
        assert!(matches!(m, Ok(Msg::Unknown)));
        seen += 1;
    }
    assert_eq!(seen, 2);
    it.load_chunk(vec![rec(2, 12), rec(2, 13)]);
    while let Some(m) = it.next_message() {
        assert!(matches!(m, Ok(Msg::Unknown)));
        seen += 1;
    }
    assert_eq!(seen, 4);
}

fn pc2_payload() -> Vec<u8> {
    let mut bytes = Vec::new();
    bytes.extend_from_slice(&le32(1));
    bytes.extend_from_slice(&le32(2));
    bytes.extend_from_slice(&le32(3));
    bytes.extend_from_slice(&le32(3));
    bytes.extend_from_slice(b"map");
    bytes.extend_from_slice(&le32(1));
    bytes.extend_from_slice(&le32(1));
    bytes.extend_from_slice(&le32(0)); // no point fields
    bytes.push(0);
    bytes.extend_from_slice(&le32(0));
    bytes.extend_from_slice(&le32(0));
    bytes.extend_from_slice(&le32(2));
    bytes.extend_from_slice(&[5, 6]);
    bytes.push(1);
    bytes
}

#[test]
fn recognized_schema_decodes_to_pointcloud() {
    let mut t = RoutingTable::new();
    t.add(1, String::from("/points"), String::from("sensor_msgs/PointCloud2"));
    let mut it = MessageIterator::new(t, vec![]);
    it.load_chunk(vec![MessageDataOwned { conn_id: 1, time: 0, data: pc2_payload() }]);
    let out = drain(&mut it);
    assert_eq!(out.len(), 1);
    match &out[0] {
        Ok(Msg::PointCloud2(p)) => {
            assert_eq!(p.header.frame_id, "map");
            assert_eq!(p.data, vec![5, 6]);
        }
        _ => panic!("expected a decoded point cloud"),
    }
}

#[test]
fn malformed_recognized_record_is_an_error_not_unknown() {
    let mut t = RoutingTable::new();
    t.add(1, String::from("/points"), String::from("sensor_msgs/PointCloud2"));
    let mut it = MessageIterator::new(t, vec![]);
    // a recognized schema with a truncated payload: a hard error is surfaced
    it.load_chunk(vec![MessageDataOwned { conn_id: 1, time: 0, data: vec![1, 2] }]);
    let out = drain(&mut it);
    assert_eq!(out.len(), 1);
    assert!(out[0].is_err());
}

#[test]
fn routing_table_returns_first_match() {
    let mut t = RoutingTable::new();
    t.add(7, String::from("/x"), String::from("a"));
    t.add(7, String::from("/y"), String::from("b"));
    assert_eq!(t.find(7), Some(0));
    assert_eq!(t.find(8), None);
}
