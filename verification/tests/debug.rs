use serde_bucket::debug::debug_node;
use serde_bucket::debug::debug_nodes;
use serde_bucket::debug::DebugPiece;
use serde_bucket::segment::skip_item;
use serde_bucket::text::push_byte_list;
use serde_bucket::text::push_decimal;
use serde_bucket::text::push_signed_decimal;
use serde_bucket::text::with_borrow_mark;
use serde_bucket::BucketNode;
use serde_bucket::Value;

fn join(pieces: &[DebugPiece]) -> String {
    let mut text = String::new();
    for piece in pieces {
        match piece {
            DebugPiece::Text(literal) => text.push_str(literal),
            DebugPiece::F32(bits) => text.push_str(&format!("{:?}", f32::from_bits(*bits))),
            DebugPiece::F64(bits) => text.push_str(&format!("{:?}", f64::from_bits(*bits))),
        }
    }
    text
}

fn rendered(nodes: &[BucketNode]) -> String {
    join(&debug_nodes(nodes).unwrap())
}

#[test]
fn record_renders_as_braced_pairs() {
    let nodes = [
        BucketNode::MapHeader(2),
        BucketNode::StringRef("a"),
        BucketNode::U8(10),
        BucketNode::StringRef("b"),
        BucketNode::Bool(false),
    ];
    assert_eq!(rendered(&nodes), "{&\"a\": 10u8, &\"b\": false}");
}

#[test]
fn rendering_twice_gives_the_same_pieces() {
    let value = Value::Optional(Box::new(Value::Sequence(vec![
        Value::Leaf(BucketNode::String("x".to_string())),
        Value::Leaf(BucketNode::F64(0.25f64.to_bits())),
    ])));
    let bucket = value.capture(false).unwrap();
    let first = debug_nodes(bucket.nodes()).unwrap();
    let second = debug_nodes(bucket.nodes()).unwrap();
    assert_eq!(first, second);
    assert_eq!(join(&first), "Some([\"x\", 0.25f64])");
    assert_eq!(bucket, value.capture(false).unwrap());
}

#[test]
fn numbers_carry_the_tag_of_their_type() {
    let nodes = [
        BucketNode::SeqHeader(10),
        BucketNode::U8(10),
        BucketNode::I8(-128),
        BucketNode::U16(65535),
        BucketNode::I16(-1),
        BucketNode::U32(0),
        BucketNode::I32(-2147483648),
        BucketNode::U64(18446744073709551615),
        BucketNode::I64(-9223372036854775808),
        BucketNode::U128(340282366920938463463374607431768211455),
        BucketNode::I128(-170141183460469231731687303715884105728),
    ];
    assert_eq!(
        rendered(&nodes),
        "[10u8, -128i8, 65535u16, -1i16, 0u32, -2147483648i32, 18446744073709551615u64, \
         -9223372036854775808i64, 340282366920938463463374607431768211455u128, \
         -170141183460469231731687303715884105728i128]"
    );
}

#[test]
fn floats_are_pieces_of_their_own() {
    let nodes = [
        BucketNode::SeqHeader(2),
        BucketNode::F32(1.5f32.to_bits()),
        BucketNode::F64((-2.0f64).to_bits()),
    ];
    let pieces = debug_nodes(&nodes).unwrap();
    assert_eq!(
        pieces,
        vec![
            DebugPiece::Text("[".to_string()),
            DebugPiece::F32(0x3fc0_0000),
            DebugPiece::Text("f32".to_string()),
            DebugPiece::Text(", ".to_string()),
            DebugPiece::F64(0xc000_0000_0000_0000),
            DebugPiece::Text("f64".to_string()),
            DebugPiece::Text("]".to_string()),
        ]
    );
    assert_eq!(join(&pieces), "[1.5f32, -2.0f64]");
}

#[test]
fn text_and_characters_are_quoted_and_escaped() {
    let nodes = [
        BucketNode::SeqHeader(4),
        BucketNode::String("say \"hi\"\n".to_string()),
        BucketNode::StringRef("plain"),
        BucketNode::Char('x'),
        BucketNode::Char('\''),
    ];
    assert_eq!(
        rendered(&nodes),
        "[\"say \\\"hi\\\"\\n\", &\"plain\", 'x', '\\'']"
    );
}

#[test]
fn bytes_render_as_a_list_of_numbers() {
    let nodes = [
        BucketNode::SeqHeader(3),
        BucketNode::Bytes(vec![1, 20, 255]),
        BucketNode::BytesRef(&[0]),
        BucketNode::Bytes(vec![]),
    ];
    assert_eq!(rendered(&nodes), "[[1, 20, 255], &[0], []]");
}

#[test]
fn markers_wrap_their_payload() {
    let nodes = [
        BucketNode::SeqHeader(4),
        BucketNode::SomeMarker,
        BucketNode::NewType,
        BucketNode::Unit,
        BucketNode::NoneMarker,
        BucketNode::SeqHeader(0),
        BucketNode::MapHeader(0),
    ];
    assert_eq!(rendered(&nodes), "[Some((())), None, [], {}]");
}

#[test]
fn sentinels_render_as_a_placeholder() {
    let nodes = [
        BucketNode::MapHeader(1),
        BucketNode::Consumed,
        BucketNode::Unsized,
    ];
    assert_eq!(rendered(&nodes), "{_: _}");
    let mut bucket = Value::Leaf(BucketNode::String("gone".to_string()))
        .capture(false)
        .unwrap();
    assert_eq!(rendered(bucket.nodes()), "\"gone\"");
    bucket.deserialize_into().unwrap();
    assert_eq!(rendered(bucket.nodes()), "_");
}

#[test]
fn several_trees_render_one_behind_the_other() {
    let nodes = [BucketNode::Bool(true), BucketNode::Unit, BucketNode::U8(1)];
    assert_eq!(rendered(&nodes), "true()1u8");
    assert_eq!(rendered(&[]), "");
}

#[test]
fn truncated_buffer_fails_to_render() {
    assert!(debug_nodes(&[BucketNode::SeqHeader(2), BucketNode::Unit]).is_err());
    assert!(debug_nodes(&[BucketNode::SomeMarker]).is_err());
    assert!(debug_nodes(&[BucketNode::MapHeader(1), BucketNode::Unit]).is_err());
    assert!(debug_nodes(&[BucketNode::Unit, BucketNode::NewType]).is_err());
}

#[test]
fn debug_node_renders_one_subtree_and_moves_the_cursor() {
    let nodes = [
        BucketNode::SeqHeader(1),
        BucketNode::I8(5),
        BucketNode::Bool(true),
    ];
    let mut out = vec![DebugPiece::Text(">".to_string())];
    let mut cursor = 0usize;
    assert!(debug_node(&nodes, &mut out, &mut cursor).is_ok());
    assert_eq!(cursor, 2);
    assert_eq!(join(&out), ">[5i8]");
    assert!(debug_node(&nodes, &mut out, &mut cursor).is_ok());
    assert_eq!(cursor, 3);
    assert_eq!(join(&out), ">[5i8]true");
    assert!(debug_node(&nodes, &mut out, &mut cursor).is_err());
    assert_eq!(cursor, 3);
    assert_eq!(join(&out), ">[5i8]true");
}

#[test]
fn failed_rendering_leaves_output_and_cursor() {
    let nodes = [
        BucketNode::MapHeader(2),
        BucketNode::U8(1),
        BucketNode::SeqHeader(1),
        BucketNode::SomeMarker,
        BucketNode::Unit,
        BucketNode::U8(2),
    ];
    let mut out = vec![DebugPiece::Text("kept".to_string())];
    let mut cursor = 0usize;
    assert!(debug_node(&nodes, &mut out, &mut cursor).is_err());
    assert_eq!(cursor, 0);
    assert_eq!(out, vec![DebugPiece::Text("kept".to_string())]);
    let mut cursor = 2usize;
    assert!(debug_node(&nodes, &mut out, &mut cursor).is_ok());
    assert_eq!(cursor, 5);
    assert_eq!(join(&out), "kept[Some(())]");
}

#[test]
fn decimal_digits_are_exact() {
    let mut text = String::from("n=");
    push_decimal(&mut text, 0);
    assert_eq!(text, "n=0");
    let mut text = String::new();
    push_decimal(&mut text, 9);
    push_decimal(&mut text, 10);
    push_decimal(&mut text, 1234567890);
    assert_eq!(text, "9101234567890");
    let mut text = String::new();
    push_decimal(&mut text, u128::MAX);
    assert_eq!(text, "340282366920938463463374607431768211455");
}

#[test]
fn signed_decimal_has_a_minus_sign() {
    let mut text = String::new();
    push_signed_decimal(&mut text, -1);
    push_signed_decimal(&mut text, 0);
    push_signed_decimal(&mut text, 17);
    assert_eq!(text, "-1017");
    let mut text = String::new();
    push_signed_decimal(&mut text, i128::MIN);
    assert_eq!(text, "-170141183460469231731687303715884105728");
    let mut text = String::new();
    push_signed_decimal(&mut text, i128::MAX);
    assert_eq!(text, "170141183460469231731687303715884105727");
}

#[test]
fn byte_list_is_bracketed_and_comma_separated() {
    let mut text = String::new();
    push_byte_list(&mut text, &[]);
    assert_eq!(text, "[]");
    let mut text = String::from("x");
    push_byte_list(&mut text, &[7]);
    assert_eq!(text, "x[7]");
    let mut text = String::new();
    push_byte_list(&mut text, &[0, 10, 200]);
    assert_eq!(text, "[0, 10, 200]");
}

#[test]
fn borrow_mark_goes_in_front() {
    assert_eq!(with_borrow_mark("\"a\"".to_string(), true), "&\"a\"");
    assert_eq!(with_borrow_mark("\"a\"".to_string(), false), "\"a\"");
    assert_eq!(with_borrow_mark(String::new(), true), "&");
}

#[test]
fn skip_item_moves_behind_one_subtree() {
    let nodes = [
        BucketNode::MapHeader(1),
        BucketNode::SomeMarker,
        BucketNode::U8(1),
        BucketNode::SeqHeader(2),
        BucketNode::Unit,
        BucketNode::Unit,
        BucketNode::Bool(true),
        BucketNode::SeqHeader(usize::MAX),
        BucketNode::MapHeader(usize::MAX),
    ];
    let mut offset = 0usize;
    assert!(skip_item(&mut offset, &nodes));
    assert_eq!(offset, 6);
    assert!(skip_item(&mut offset, &nodes));
    assert_eq!(offset, 7);
    assert!(!skip_item(&mut offset, &nodes));
    assert_eq!(offset, 7);
    let mut offset = 8usize;
    assert!(!skip_item(&mut offset, &nodes));
    assert_eq!(offset, 8);
    let mut offset = 1usize;
    assert!(skip_item(&mut offset, &nodes));
    assert_eq!(offset, 3);
    let mut offset = 9usize;
    assert!(!skip_item(&mut offset, &nodes));
    assert_eq!(offset, 9);
}
