use bitemporal_db::codec::{decode_tuple_at, encode_tuple, CodecError, OwnTuple};
use bitemporal_db::value::Value;

fn enc(vals: &Vec<Value>) -> Vec<u8> {
    let mut out = Vec::new();
    encode_tuple(vals, &mut out);
    out
}

fn round_trips(vals: Vec<Value>) {
    let bytes = enc(&vals);
    let back = decode_tuple_at(&bytes, 0).expect("decoding an encoding must succeed");
    assert_eq!(vals, back);
}

#[test]
fn round_trip_scalars() {
    round_trips(vec![Value::Bool(false), Value::Bool(true)]);
    round_trips(vec![Value::Int(0), Value::Int(1), Value::Int(-1)]);
    round_trips(vec![Value::Int(i64::MIN), Value::Int(i64::MAX)]);
    round_trips(vec![Value::Text(b"hello".to_vec())]);
    round_trips(vec![Value::Text(vec![])]);
    round_trips(vec![Value::Blob(vec![0, 255, 0, 1])]);
}

#[test]
fn round_trip_zero_bytes_in_text() {
    round_trips(vec![Value::Text(vec![0]), Value::Text(vec![0, 0, 7])]);
    round_trips(vec![Value::Blob(vec![0, 255]), Value::Text(b"a\0b".to_vec())]);
}

#[test]
fn round_trip_nested_lists() {
    round_trips(vec![Value::List(vec![])]);
    round_trips(vec![Value::List(vec![
        Value::Int(3),
        Value::List(vec![Value::Text(b"x".to_vec()), Value::Bool(true)]),
    ])]);
}

#[test]
fn round_trip_empty_tuple() {
    round_trips(vec![]);
}

fn assert_order(a: Vec<Value>, b: Vec<Value>) {
    // a < b in value order must give encodings in the same strict byte order
    let ea = enc(&a);
    let eb = enc(&b);
    assert!(ea < eb, "encodings out of order: {:?} vs {:?}", ea, eb);
}

#[test]
fn order_preserved_ints() {
    assert_order(vec![Value::Int(-5)], vec![Value::Int(-4)]);
    assert_order(vec![Value::Int(-1)], vec![Value::Int(0)]);
    assert_order(vec![Value::Int(0)], vec![Value::Int(1)]);
    assert_order(vec![Value::Int(i64::MIN)], vec![Value::Int(i64::MAX)]);
    assert_order(vec![Value::Int(255)], vec![Value::Int(256)]);
}

#[test]
fn order_preserved_text() {
    assert_order(
        vec![Value::Text(b"a".to_vec())],
        vec![Value::Text(b"b".to_vec())],
    );
    assert_order(
        vec![Value::Text(b"a".to_vec())],
        vec![Value::Text(b"aa".to_vec())],
    );
    // the empty text sorts before text holding a zero byte, whatever follows
    assert_order(
        vec![Value::Text(vec![]), Value::Int(9)],
        vec![Value::Text(vec![0]), Value::Int(0)],
    );
}

#[test]
fn order_preserved_across_variants() {
    // booleans, then integers, then text, then blobs, then lists
    assert_order(vec![Value::Bool(true)], vec![Value::Int(i64::MIN)]);
    assert_order(vec![Value::Int(i64::MAX)], vec![Value::Text(vec![])]);
    assert_order(vec![Value::Text(vec![255])], vec![Value::Blob(vec![])]);
    assert_order(vec![Value::Blob(vec![255])], vec![Value::List(vec![])]);
}

#[test]
fn order_preserved_prefix_tuple() {
    assert_order(
        vec![Value::Int(1)],
        vec![Value::Int(1), Value::Int(0)],
    );
    assert_order(
        vec![Value::List(vec![Value::Int(1)])],
        vec![Value::List(vec![Value::Int(1), Value::Int(0)])],
    );
}

#[test]
fn corrupt_data_is_reported() {
    // a truncated integer field
    let full = enc(&vec![Value::Int(77)]);
    let truncated = full[..5].to_vec();
    assert_eq!(
        decode_tuple_at(&truncated, 0),
        Err(CodecError::CorruptData)
    );
    // an unknown tag
    assert_eq!(decode_tuple_at(&vec![9u8], 0), Err(CodecError::CorruptData));
    // an unterminated text payload
    assert_eq!(
        decode_tuple_at(&vec![3u8, 104, 105], 0),
        Err(CodecError::CorruptData)
    );
}

#[test]
fn prefix_reads_table_id() {
    let t = OwnTuple { data: vec![0, 0, 1, 2, 1, 1] };
    assert_eq!(t.get_prefix(), Some(258));
    let vals = t.decode_values().unwrap();
    assert_eq!(vals, vec![Value::Bool(true)]);
    let short = OwnTuple { data: vec![0, 0] };
    assert_eq!(short.get_prefix(), None);
}
