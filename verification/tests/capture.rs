use serde_bucket::Bucket;
use serde_bucket::BucketError;
use serde_bucket::BucketNode;
use serde_bucket::BucketVisitor;
use serde_bucket::Value;

fn record_bucket<'a>() -> Bucket<'a> {
    let mut visitor = BucketVisitor::new(false);
    assert_eq!(visitor.visit_map(), Ok(()));
    assert_eq!(visitor.visit_borrowed_str("a"), Ok(()));
    assert_eq!(visitor.visit_u8(10), Ok(()));
    assert_eq!(visitor.visit_borrowed_str("b"), Ok(()));
    assert_eq!(visitor.visit_bool(false), Ok(()));
    assert_eq!(visitor.end_map(), Ok(()));
    visitor.finish().unwrap()
}

#[test]
fn record_is_captured_as_map_header_and_pairs() {
    let bucket = record_bucket();
    assert_eq!(
        bucket.nodes(),
        &[
            BucketNode::MapHeader(2),
            BucketNode::StringRef("a"),
            BucketNode::U8(10),
            BucketNode::StringRef("b"),
            BucketNode::Bool(false),
        ][..]
    );
    assert_eq!(bucket.len(), 5);
}

#[test]
fn sequence_is_captured_as_header_and_elements() {
    let mut visitor = BucketVisitor::new(false);
    assert_eq!(visitor.visit_seq(), Ok(()));
    assert_eq!(visitor.visit_i32(1), Ok(()));
    assert_eq!(visitor.visit_i32(2), Ok(()));
    assert_eq!(visitor.visit_i32(3), Ok(()));
    assert_eq!(visitor.end_seq(), Ok(()));
    let bucket = visitor.finish().unwrap();
    assert_eq!(
        bucket.nodes(),
        &[
            BucketNode::SeqHeader(3),
            BucketNode::I32(1),
            BucketNode::I32(2),
            BucketNode::I32(3),
        ][..]
    );
}

#[test]
fn header_counts_subtrees_not_nodes() {
    let mut visitor = BucketVisitor::new(false);
    visitor.visit_seq().unwrap();
    visitor.visit_some().unwrap();
    visitor.visit_newtype_struct().unwrap();
    visitor.visit_u16(7).unwrap();
    visitor.visit_seq().unwrap();
    visitor.visit_none().unwrap();
    visitor.visit_unit().unwrap();
    visitor.end_seq().unwrap();
    visitor.end_seq().unwrap();
    let bucket = visitor.finish().unwrap();
    assert_eq!(
        bucket.nodes(),
        &[
            BucketNode::SeqHeader(2),
            BucketNode::SomeMarker,
            BucketNode::NewType,
            BucketNode::U16(7),
            BucketNode::SeqHeader(2),
            BucketNode::NoneMarker,
            BucketNode::Unit,
        ][..]
    );
}

#[test]
fn empty_composites_get_a_zero_header() {
    let mut visitor = BucketVisitor::new(false);
    visitor.visit_map().unwrap();
    visitor.visit_str("k").unwrap();
    visitor.visit_seq().unwrap();
    visitor.end_seq().unwrap();
    visitor.end_map().unwrap();
    let bucket = visitor.finish().unwrap();
    assert_eq!(
        bucket.nodes(),
        &[
            BucketNode::MapHeader(1),
            BucketNode::String("k".to_string()),
            BucketNode::SeqHeader(0),
        ][..]
    );
}

#[test]
fn every_scalar_event_appends_its_node() {
    let mut visitor = BucketVisitor::new(false);
    visitor.visit_seq().unwrap();
    visitor.visit_bool(true).unwrap();
    visitor.visit_i8(-8).unwrap();
    visitor.visit_i16(-16).unwrap();
    visitor.visit_i32(-32).unwrap();
    visitor.visit_i64(-64).unwrap();
    visitor.visit_i128(-128).unwrap();
    visitor.visit_u8(8).unwrap();
    visitor.visit_u16(16).unwrap();
    visitor.visit_u32(32).unwrap();
    visitor.visit_u64(64).unwrap();
    visitor.visit_u128(128).unwrap();
    visitor.visit_f32(1.5f32.to_bits()).unwrap();
    visitor.visit_f64(2.5f64.to_bits()).unwrap();
    visitor.visit_char('c').unwrap();
    visitor.visit_str("s").unwrap();
    visitor.visit_string("t".to_string()).unwrap();
    visitor.visit_bytes(&[1, 2]).unwrap();
    visitor.visit_byte_buf(vec![3]).unwrap();
    visitor.visit_none().unwrap();
    visitor.visit_unit().unwrap();
    visitor.end_seq().unwrap();
    let bucket = visitor.finish().unwrap();
    assert_eq!(
        bucket.nodes(),
        &[
            BucketNode::SeqHeader(20),
            BucketNode::Bool(true),
            BucketNode::I8(-8),
            BucketNode::I16(-16),
            BucketNode::I32(-32),
            BucketNode::I64(-64),
            BucketNode::I128(-128),
            BucketNode::U8(8),
            BucketNode::U16(16),
            BucketNode::U32(32),
            BucketNode::U64(64),
            BucketNode::U128(128),
            BucketNode::F32(0x3fc0_0000),
            BucketNode::F64(0x4004_0000_0000_0000),
            BucketNode::Char('c'),
            BucketNode::String("s".to_string()),
            BucketNode::String("t".to_string()),
            BucketNode::Bytes(vec![1, 2]),
            BucketNode::Bytes(vec![3]),
            BucketNode::NoneMarker,
            BucketNode::Unit,
        ][..]
    );
}

#[test]
fn borrowed_values_are_referred_to_unless_owned() {
    let text = String::from("source");
    let bytes = vec![9u8, 8];

    let mut referring = BucketVisitor::new(false);
    referring.visit_seq().unwrap();
    referring.visit_borrowed_str(&text).unwrap();
    referring.visit_borrowed_bytes(&bytes).unwrap();
    referring.end_seq().unwrap();
    let referring = referring.finish().unwrap();
    assert_eq!(
        referring.nodes(),
        &[
            BucketNode::SeqHeader(2),
            BucketNode::StringRef("source"),
            BucketNode::BytesRef(&[9, 8]),
        ][..]
    );

    let mut copying = BucketVisitor::new(true);
    copying.visit_seq().unwrap();
    copying.visit_borrowed_str(&text).unwrap();
    copying.visit_borrowed_bytes(&bytes).unwrap();
    copying.end_seq().unwrap();
    let copying = copying.finish().unwrap();
    assert_eq!(
        copying.nodes(),
        &[
            BucketNode::SeqHeader(2),
            BucketNode::String("source".to_string()),
            BucketNode::Bytes(vec![9, 8]),
        ][..]
    );
}

#[test]
fn second_tree_is_refused() {
    let mut visitor = BucketVisitor::new(false);
    assert_eq!(visitor.visit_u8(1), Ok(()));
    assert_eq!(visitor.visit_u8(2), Err(BucketError::CorruptBuffer));
    assert_eq!(visitor.visit_some(), Err(BucketError::CorruptBuffer));
    assert_eq!(visitor.visit_seq(), Err(BucketError::CorruptBuffer));
    let bucket = visitor.finish().unwrap();
    assert_eq!(bucket.nodes(), &[BucketNode::U8(1)][..]);
}

#[test]
fn unfinished_capture_is_no_bucket() {
    let empty = BucketVisitor::new(false);
    assert_eq!(empty.finish(), Err(BucketError::CorruptBuffer));

    let mut open = BucketVisitor::new(false);
    open.visit_seq().unwrap();
    open.visit_u8(1).unwrap();
    assert_eq!(open.finish(), Err(BucketError::CorruptBuffer));

    let mut owing = BucketVisitor::new(false);
    owing.visit_some().unwrap();
    assert_eq!(owing.finish(), Err(BucketError::CorruptBuffer));
}

#[test]
fn end_without_matching_start_is_refused() {
    let mut none_open = BucketVisitor::new(false);
    assert_eq!(none_open.end_seq(), Err(BucketError::CorruptBuffer));
    assert_eq!(none_open.end_map(), Err(BucketError::CorruptBuffer));

    let mut wrong_kind = BucketVisitor::new(false);
    wrong_kind.visit_seq().unwrap();
    assert_eq!(wrong_kind.end_map(), Err(BucketError::CorruptBuffer));
    assert_eq!(wrong_kind.end_seq(), Ok(()));

    let mut owing = BucketVisitor::new(false);
    owing.visit_seq().unwrap();
    owing.visit_some().unwrap();
    assert_eq!(owing.end_seq(), Err(BucketError::CorruptBuffer));
    owing.visit_u8(1).unwrap();
    assert_eq!(owing.end_seq(), Ok(()));
    assert_eq!(
        owing.finish().unwrap().nodes(),
        &[BucketNode::SeqHeader(1), BucketNode::SomeMarker, BucketNode::U8(1)][..]
    );
}

#[test]
fn map_with_a_key_without_value_is_an_order_violation() {
    let mut visitor = BucketVisitor::new(false);
    visitor.visit_map().unwrap();
    visitor.visit_str("k").unwrap();
    assert_eq!(visitor.end_map(), Err(BucketError::MapOrderViolation));
    visitor.visit_u8(1).unwrap();
    assert_eq!(visitor.end_map(), Ok(()));
    assert_eq!(
        visitor.finish().unwrap().nodes(),
        &[
            BucketNode::MapHeader(1),
            BucketNode::String("k".to_string()),
            BucketNode::U8(1),
        ][..]
    );
}

#[test]
fn value_is_captured_as_its_flattening() {
    let value = Value::Mapping(vec![
        (
            Value::Leaf(BucketNode::StringRef("a")),
            Value::Leaf(BucketNode::U8(10)),
        ),
        (
            Value::Leaf(BucketNode::StringRef("b")),
            Value::Leaf(BucketNode::Bool(false)),
        ),
    ]);
    let bucket = value.capture(false).unwrap();
    assert_eq!(bucket, record_bucket());
}

#[test]
fn owned_capture_of_a_value_copies_borrowed_leaves() {
    let value = Value::Sequence(vec![
        Value::Leaf(BucketNode::StringRef("a")),
        Value::Leaf(BucketNode::BytesRef(&[1])),
        Value::Leaf(BucketNode::String("b".to_string())),
    ]);
    let bucket = value.capture(true).unwrap();
    assert_eq!(
        bucket.nodes(),
        &[
            BucketNode::SeqHeader(3),
            BucketNode::String("a".to_string()),
            BucketNode::Bytes(vec![1]),
            BucketNode::String("b".to_string()),
        ][..]
    );
}

#[test]
fn value_with_a_header_as_leaf_is_refused() {
    let headers = Value::Sequence(vec![Value::Leaf(BucketNode::SeqHeader(1))]);
    assert_eq!(headers.capture(false), Err(BucketError::CorruptBuffer));
    let sentinel = Value::Optional(Box::new(Value::Leaf(BucketNode::Consumed)));
    assert_eq!(sentinel.capture(false), Err(BucketError::CorruptBuffer));
    let marker = Value::Leaf(BucketNode::SomeMarker);
    assert_eq!(marker.capture(false), Err(BucketError::CorruptBuffer));
}

#[test]
fn value_can_be_captured_inside_an_open_composite() {
    let mut visitor = BucketVisitor::new(false);
    visitor.visit_seq().unwrap();
    let item = Value::Optional(Box::new(Value::Leaf(BucketNode::I64(-1))));
    assert_eq!(item.capture_into(&mut visitor), Ok(()));
    assert_eq!(item.capture_into(&mut visitor), Ok(()));
    visitor.end_seq().unwrap();
    assert_eq!(item.capture_into(&mut visitor), Err(BucketError::CorruptBuffer));
    assert_eq!(
        visitor.finish().unwrap().nodes(),
        &[
            BucketNode::SeqHeader(2),
            BucketNode::SomeMarker,
            BucketNode::I64(-1),
            BucketNode::SomeMarker,
            BucketNode::I64(-1),
        ][..]
    );
}
