use serde_bucket::Bucket;
use serde_bucket::BucketDeserializer;
use serde_bucket::BucketError;
use serde_bucket::BucketMapDeserializer;
use serde_bucket::BucketNode;
use serde_bucket::BucketSeqDeserializer;
use serde_bucket::BucketVisitor;
use serde_bucket::Value;

fn record<'a>() -> Value<'a> {
    Value::Mapping(vec![
        (
            Value::Leaf(BucketNode::String("a".to_string())),
            Value::Leaf(BucketNode::U8(10)),
        ),
        (
            Value::Leaf(BucketNode::String("b".to_string())),
            Value::Leaf(BucketNode::Bool(false)),
        ),
    ])
}

fn nested<'a>() -> Value<'a> {
    Value::Optional(Box::new(Value::Sequence(vec![
        Value::Mapping(vec![
            (
                Value::Leaf(BucketNode::StringRef("k1")),
                Value::Leaf(BucketNode::I32(1)),
            ),
            (
                Value::Leaf(BucketNode::StringRef("k2")),
                Value::Leaf(BucketNode::I32(2)),
            ),
        ]),
        Value::Mapping(vec![]),
        Value::Mapping(vec![(
            Value::Leaf(BucketNode::Bytes(vec![7, 7])),
            Value::NewType(Box::new(Value::Leaf(BucketNode::NoneMarker))),
        )]),
    ])))
}

#[test]
fn record_replays_into_its_fields() {
    let mut bucket = record().capture(false).unwrap();
    let mut de = bucket.deserializer();
    let size = match de.deserialize_any() {
        Ok(BucketNode::MapHeader(size)) => size,
        other => panic!("expected a map, found {:?}", other),
    };
    assert_eq!(size, 2);
    let mut entries = BucketMapDeserializer::new(size);
    let mut a: Option<u8> = None;
    let mut b: Option<bool> = None;
    while entries.next_key().unwrap() {
        let key = match de.deserialize_any() {
            Ok(BucketNode::String(key)) => key,
            other => panic!("expected a key, found {:?}", other),
        };
        entries.next_value().unwrap();
        match (key.as_str(), de.deserialize_any()) {
            ("a", Ok(BucketNode::U8(value))) => a = Some(value),
            ("b", Ok(BucketNode::Bool(value))) => b = Some(value),
            other => panic!("unexpected entry {:?}", other),
        }
    }
    assert_eq!(a, Some(10));
    assert_eq!(b, Some(false));
    assert_eq!(de.cursor, 5);
}

#[test]
fn sequence_replays_into_three_slots() {
    let value = Value::Sequence(vec![
        Value::Leaf(BucketNode::I32(1)),
        Value::Leaf(BucketNode::I32(2)),
        Value::Leaf(BucketNode::I32(3)),
    ]);
    let mut bucket = value.capture(false).unwrap();
    let mut de = BucketDeserializer::new(&mut bucket, true);
    let size = match de.deserialize_any() {
        Ok(BucketNode::SeqHeader(size)) => size,
        other => panic!("expected a sequence, found {:?}", other),
    };
    let mut elements = BucketSeqDeserializer::new(size);
    let mut slots = Vec::new();
    while elements.next_element() {
        match de.deserialize_any() {
            Ok(BucketNode::I32(value)) => slots.push(value),
            other => panic!("expected an element, found {:?}", other),
        }
    }
    assert_eq!(slots, vec![1, 2, 3]);
    assert!(!elements.next_element());
}

#[test]
fn sequence_has_an_element_left_for_a_target_of_two_slots() {
    let value = Value::Sequence(vec![
        Value::Leaf(BucketNode::I32(1)),
        Value::Leaf(BucketNode::I32(2)),
        Value::Leaf(BucketNode::I32(3)),
    ]);
    let mut bucket = value.capture(false).unwrap();
    let mut de = bucket.deserializer();
    assert_eq!(de.deserialize_any(), Ok(BucketNode::SeqHeader(3)));
    let mut elements = BucketSeqDeserializer::new(3);
    assert!(elements.next_element());
    assert_eq!(de.deserialize_any(), Ok(BucketNode::I32(1)));
    assert!(elements.next_element());
    assert_eq!(de.deserialize_any(), Ok(BucketNode::I32(2)));
    assert!(elements.next_element());
}

#[test]
fn optional_of_sequence_of_map_round_trips() {
    let mut bucket = nested().capture(false).unwrap();
    assert_eq!(bucket.len(), 12);
    assert_eq!(bucket.nodes()[0], BucketNode::SomeMarker);
    assert_eq!(bucket.nodes()[1], BucketNode::SeqHeader(3));
    assert_eq!(bucket.nodes()[2], BucketNode::MapHeader(2));
    assert_eq!(bucket.nodes()[7], BucketNode::MapHeader(0));
    assert_eq!(bucket.nodes()[8], BucketNode::MapHeader(1));
    assert_eq!(bucket.deserialize_into_clone(), Ok(nested()));
    assert_eq!(bucket.deserialize_into(), Ok(nested()));
}

#[test]
fn round_trip_in_clone_mode_leaves_the_bucket() {
    let mut bucket = record().capture(false).unwrap();
    let before = record().capture(false).unwrap();
    assert_eq!(bucket.deserialize_into_clone(), Ok(record()));
    assert_eq!(bucket, before);
}

#[test]
fn round_trip_in_take_mode_consumes_owned_nodes() {
    let mut bucket = record().capture(false).unwrap();
    assert_eq!(bucket.deserialize_into(), Ok(record()));
    assert_eq!(
        bucket.nodes(),
        &[
            BucketNode::MapHeader(2),
            BucketNode::Consumed,
            BucketNode::U8(10),
            BucketNode::Consumed,
            BucketNode::Bool(false),
        ][..]
    );
}

#[test]
fn clone_mode_replays_twice_with_equal_results() {
    let mut bucket = nested().capture(true).unwrap();
    let first = bucket.deserialize_into_clone().unwrap();
    let second = bucket.deserialize_into_clone().unwrap();
    assert_eq!(first, second);
    let third = bucket.deserialize_into_clone().unwrap();
    assert_eq!(first, third);
}

#[test]
fn take_mode_fails_the_second_time_on_an_owned_field() {
    let mut bucket = record().capture(false).unwrap();
    assert!(bucket.deserialize_into().is_ok());
    assert_eq!(bucket.deserialize_into(), Err(BucketError::ConsumedTwice));
    assert_eq!(bucket.deserialize_into_clone(), Err(BucketError::ConsumedTwice));
}

#[test]
fn take_mode_repeats_where_nothing_is_owned() {
    let value = Value::Sequence(vec![
        Value::Leaf(BucketNode::StringRef("borrowed")),
        Value::Leaf(BucketNode::U64(1)),
    ]);
    let mut bucket = value.capture(false).unwrap();
    assert_eq!(bucket.deserialize_into(), Ok(value));
    assert!(bucket.deserialize_into().is_ok());
}

#[test]
fn failed_take_keeps_the_later_owned_nodes() {
    let value = Value::Sequence(vec![
        Value::Leaf(BucketNode::String("x".to_string())),
        Value::Leaf(BucketNode::String("y".to_string())),
        Value::Leaf(BucketNode::String("z".to_string())),
    ]);
    let mut bucket = value.capture(false).unwrap();
    {
        let mut de = bucket.deserializer();
        de.cursor = 2;
        assert_eq!(de.deserialize_any(), Ok(BucketNode::String("y".to_string())));
    }
    assert_eq!(bucket.deserialize_into(), Err(BucketError::ConsumedTwice));
    assert_eq!(
        bucket.nodes(),
        &[
            BucketNode::SeqHeader(3),
            BucketNode::Consumed,
            BucketNode::Consumed,
            BucketNode::String("z".to_string()),
        ][..]
    );
}

#[test]
fn deserialize_any_moves_or_copies_owned_nodes() {
    let value = Value::Leaf(BucketNode::Bytes(vec![1, 2, 3]));

    let mut copied = value.capture(false).unwrap();
    {
        let mut de = BucketDeserializer::new(&mut copied, true);
        assert_eq!(de.deserialize_any(), Ok(BucketNode::Bytes(vec![1, 2, 3])));
        assert_eq!(de.cursor, 1);
    }
    assert_eq!(copied.nodes(), &[BucketNode::Bytes(vec![1, 2, 3])][..]);

    let mut taken = value.capture(false).unwrap();
    {
        let mut de = BucketDeserializer::new(&mut taken, false);
        assert_eq!(de.deserialize_any(), Ok(BucketNode::Bytes(vec![1, 2, 3])));
        de.cursor = 0;
        assert_eq!(de.deserialize_any(), Err(BucketError::ConsumedTwice));
        assert_eq!(de.cursor, 1);
    }
    assert_eq!(taken.nodes(), &[BucketNode::Consumed][..]);
}

#[test]
fn cursor_behind_the_end_is_a_corrupt_buffer() {
    let mut bucket = Value::Leaf(BucketNode::Unit).capture(false).unwrap();
    let mut de = bucket.deserializer();
    assert_eq!(de.deserialize_any(), Ok(BucketNode::Unit));
    assert_eq!(de.deserialize_any(), Err(BucketError::CorruptBuffer));
    assert_eq!(de.cursor, 1);
    assert_eq!(de.deserialize_value(), Err(BucketError::CorruptBuffer));
}

#[test]
fn deserialize_value_reads_one_subtree_from_the_cursor() {
    let mut bucket = nested().capture(false).unwrap();
    let mut de = BucketDeserializer::new(&mut bucket, true);
    de.cursor = 2;
    let first_map = de.deserialize_value().unwrap();
    assert_eq!(
        first_map,
        Value::Mapping(vec![
            (
                Value::Leaf(BucketNode::StringRef("k1")),
                Value::Leaf(BucketNode::I32(1)),
            ),
            (
                Value::Leaf(BucketNode::StringRef("k2")),
                Value::Leaf(BucketNode::I32(2)),
            ),
        ])
    );
    assert_eq!(de.cursor, 7);
    assert_eq!(de.deserialize_value(), Ok(Value::Mapping(vec![])));
    assert_eq!(de.cursor, 8);
}

#[test]
fn capture_from_events_replays_into_the_same_value() {
    let mut visitor = BucketVisitor::new(true);
    visitor.visit_some().unwrap();
    visitor.visit_seq().unwrap();
    visitor.visit_map().unwrap();
    visitor.visit_borrowed_str("id").unwrap();
    visitor.visit_u32(7).unwrap();
    visitor.end_map().unwrap();
    visitor.end_seq().unwrap();
    let mut bucket: Bucket = visitor.finish().unwrap();
    let expected = Value::Optional(Box::new(Value::Sequence(vec![Value::Mapping(vec![(
        Value::Leaf(BucketNode::String("id".to_string())),
        Value::Leaf(BucketNode::U32(7)),
    )])])));
    assert_eq!(bucket.deserialize_into_clone(), Ok(expected));
}

#[test]
fn segment_gives_one_element_of_a_sequence() {
    let value = Value::Sequence(vec![
        Value::Sequence(vec![
            Value::Leaf(BucketNode::U8(1)),
            Value::Leaf(BucketNode::U8(2)),
        ]),
        Value::Optional(Box::new(Value::Leaf(BucketNode::String("s".to_string())))),
        Value::Leaf(BucketNode::Bool(true)),
    ]);
    let mut bucket = value.capture(false).unwrap();

    let mut second = bucket.segment().try_seq_index(1).unwrap();
    assert_eq!(second.start, 4);
    assert_eq!(
        second.deserialize_into_clone(),
        Ok(Value::Optional(Box::new(Value::Leaf(BucketNode::String(
            "s".to_string()
        )))))
    );

    let inner = bucket
        .segment()
        .try_seq_index(0)
        .unwrap()
        .try_seq_index(1)
        .unwrap();
    assert_eq!(inner.start, 3);
    let mut de = inner.deserializer();
    assert_eq!(de.deserialize_any(), Ok(BucketNode::U8(2)));

    let mut third = bucket.segment().try_seq_index(2).unwrap();
    assert_eq!(third.start, 6);
    assert_eq!(
        third.deserialize_into(),
        Ok(Value::Leaf(BucketNode::Bool(true)))
    );
}

#[test]
fn segment_has_no_element_behind_the_last_or_outside_a_sequence() {
    let value = Value::Sequence(vec![
        Value::Leaf(BucketNode::U8(1)),
        Value::Mapping(vec![]),
    ]);
    let mut bucket = value.capture(false).unwrap();
    assert!(bucket.segment().try_seq_index(2).is_none());
    assert!(bucket.segment().try_seq_index(usize::MAX).is_none());
    assert!(bucket
        .segment()
        .try_seq_index(0)
        .unwrap()
        .try_seq_index(0)
        .is_none());
    assert!(bucket
        .segment()
        .try_seq_index(1)
        .unwrap()
        .try_seq_index(0)
        .is_none());
}

#[test]
fn segment_replay_takes_only_what_it_reads() {
    let value = Value::Sequence(vec![
        Value::Leaf(BucketNode::String("x".to_string())),
        Value::Leaf(BucketNode::String("y".to_string())),
    ]);
    let mut bucket = value.capture(false).unwrap();
    let mut second = bucket.segment().try_seq_index(1).unwrap();
    assert_eq!(
        second.deserialize_into(),
        Ok(Value::Leaf(BucketNode::String("y".to_string())))
    );
    assert_eq!(second.deserialize_into(), Err(BucketError::ConsumedTwice));
    assert_eq!(
        bucket.nodes(),
        &[
            BucketNode::SeqHeader(2),
            BucketNode::String("x".to_string()),
            BucketNode::Consumed,
        ][..]
    );
}

#[test]
fn owned_bucket_copies_what_it_borrowed() {
    let source = String::from("from the source");
    let bytes = vec![1u8, 2];
    let owned = {
        let value = Value::Sequence(vec![
            Value::Leaf(BucketNode::StringRef(&source)),
            Value::Leaf(BucketNode::BytesRef(&bytes)),
            Value::Leaf(BucketNode::String("own".to_string())),
            Value::Optional(Box::new(Value::Leaf(BucketNode::I16(-3)))),
        ]);
        value.capture(false).unwrap().into_owned()
    };
    drop(source);
    drop(bytes);
    assert_eq!(
        owned.nodes(),
        &[
            BucketNode::SeqHeader(4),
            BucketNode::String("from the source".to_string()),
            BucketNode::Bytes(vec![1, 2]),
            BucketNode::String("own".to_string()),
            BucketNode::SomeMarker,
            BucketNode::I16(-3),
        ][..]
    );
    assert_eq!(
        owned.deserialize_into(),
        Ok(Value::Sequence(vec![
            Value::Leaf(BucketNode::String("from the source".to_string())),
            Value::Leaf(BucketNode::Bytes(vec![1, 2])),
            Value::Leaf(BucketNode::String("own".to_string())),
            Value::Optional(Box::new(Value::Leaf(BucketNode::I16(-3)))),
        ]))
    );
}

#[test]
fn owned_bucket_keeps_consumed_nodes() {
    let mut bucket = record().capture(false).unwrap();
    bucket.deserialize_into().unwrap();
    let owned = bucket.into_owned();
    assert_eq!(owned.nodes()[1], BucketNode::Consumed);
    assert_eq!(owned.deserialize_into(), Err(BucketError::ConsumedTwice));
}

#[test]
fn node_into_owned_copies_borrowed_text_and_bytes() {
    assert_eq!(
        BucketNode::StringRef("a").into_owned(),
        BucketNode::String("a".to_string())
    );
    assert_eq!(
        BucketNode::BytesRef(&[4, 5]).into_owned(),
        BucketNode::Bytes(vec![4, 5])
    );
    assert_eq!(BucketNode::U8(1).into_owned(), BucketNode::U8(1));
    assert_eq!(BucketNode::MapHeader(2).into_owned(), BucketNode::MapHeader(2));
    assert_eq!(
        BucketNode::String("s".to_string()).duplicate(),
        BucketNode::String("s".to_string())
    );
    assert!(BucketNode::Bytes(vec![]).is_owned());
    assert!(!BucketNode::BytesRef(&[]).is_owned());
}
