use vstd::prelude::*;
use vstd::string::StringExecFns;
use crate::bucket::views;
use crate::bucket::Bucket;
use crate::node::BucketNode;
use crate::laws::law_bucket_renders;
use crate::node::NodeView;
use crate::shape::lemma_skip_bounds;
use crate::shape::lemma_skip_split;
use crate::shape::skip;
use crate::shape::well_formed;
use crate::tree::flatten_entries;
use crate::tree::flatten_items;
use crate::tree::lemma_entry_stands;
use crate::tree::lemma_flatten_ends_complete;
use crate::tree::lemma_inner_stands;
use crate::tree::lemma_item_stands;
use crate::tree::stands_at;
use crate::tree::Tree;
use crate::text::byte_list;
use crate::text::char_debug_text;
use crate::text::decimal;
use crate::text::marked;
use crate::text::push_byte_list;
use crate::text::push_decimal;
use crate::text::push_signed_decimal;
use crate::text::quote_char;
use crate::text::quote_str;
use crate::text::signed_decimal;
use crate::text::str_debug_text;
use crate::text::with_borrow_mark;

verus! {

/// Makes `std::fmt::Error`, the error of a failed rendering, known as an
/// opaque type.
#[verifier::external_type_specification]
#[verifier::external_body]
pub struct ExFormatError(std::fmt::Error);

/// Makes the error of a failed rendering with serde's `ser::Error::custom`,
/// as serde implements it for `std::fmt::Error`. That error is a unit value:
/// it keeps nothing of the message, so nothing is stated of it.
#[verifier::external_body]
fn format_failure(msg: &str) -> (error: std::fmt::Error) {
    <std::fmt::Error as serde::ser::Error>::custom(msg)
}

/// One piece of a rendering: text, or a float that is left to be printed.
///
/// A float stands in a buffer as its bits. Its digits are for the caller to
/// print, in the place where the piece stands.
#[derive(Debug, PartialEq, Eq)]
pub enum DebugPiece {
    Text(String),
    /// The bits of a 32-bit float.
    F32(u32),
    /// The bits of a 64-bit float.
    F64(u64),
}

/// What a [`DebugPiece`] holds, as a mathematical value.
pub enum PieceView {
    Text(Seq<char>),
    F32(u32),
    F64(u64),
}

impl View for DebugPiece {
    type V = PieceView;

    open spec fn view(&self) -> PieceView {
        match self {
            DebugPiece::Text(text) => PieceView::Text(text@),
            DebugPiece::F32(bits) => PieceView::F32(*bits),
            DebugPiece::F64(bits) => PieceView::F64(*bits),
        }
    }
}

/// The mathematical values of a run of pieces.
pub open spec fn piece_views(pieces: Seq<DebugPiece>) -> Seq<PieceView> {
    Seq::new(pieces.len(), |i: int| pieces[i]@)
}

/// A piece of literal text.
pub open spec fn text(s: Seq<char>) -> Seq<PieceView> {
    seq![PieceView::Text(s)]
}

/// The pieces of a node that is rendered by itself: a value without subtrees,
/// or one of the two sentinels.
pub open spec fn leaf_pieces(node: NodeView) -> Seq<PieceView> {
    match node {
        NodeView::Consumed => text("_"@),
        NodeView::Unsized => text("_"@),
        NodeView::Unit => text("()"@),
        NodeView::Bool(v) => text(
            if v {
                "true"@
            } else {
                "false"@
            },
        ),
        NodeView::Char(v) => text(char_debug_text(v)),
        NodeView::U8(v) => text(decimal(v as nat) + "u8"@),
        NodeView::I8(v) => text(signed_decimal(v as int) + "i8"@),
        NodeView::U16(v) => text(decimal(v as nat) + "u16"@),
        NodeView::I16(v) => text(signed_decimal(v as int) + "i16"@),
        NodeView::U32(v) => text(decimal(v as nat) + "u32"@),
        NodeView::I32(v) => text(signed_decimal(v as int) + "i32"@),
        NodeView::U64(v) => text(decimal(v as nat) + "u64"@),
        NodeView::I64(v) => text(signed_decimal(v as int) + "i64"@),
        NodeView::U128(v) => text(decimal(v as nat) + "u128"@),
        NodeView::I128(v) => text(signed_decimal(v as int) + "i128"@),
        NodeView::F32(bits) => seq![PieceView::F32(bits), PieceView::Text("f32"@)],
        NodeView::F64(bits) => seq![PieceView::F64(bits), PieceView::Text("f64"@)],
        NodeView::String(v) => text(marked(str_debug_text(v), false)),
        NodeView::StringRef(v) => text(marked(str_debug_text(v), true)),
        NodeView::Bytes(v) => text(marked(byte_list(v), false)),
        NodeView::BytesRef(v) => text(marked(byte_list(v), true)),
        NodeView::NoneMarker => text("None"@),
        _ => Seq::empty(),
    }
}

/// A rendering: its pieces, and the position behind the nodes it covers.
pub struct Rendering {
    pub pieces: Seq<PieceView>,
    pub end: int,
}

/// A rendering between an opening and a closing text.
pub open spec fn enclosed(open: Seq<char>, inner: Option<Rendering>, close: Seq<char>) -> Option<
    Rendering,
> {
    match inner {
        Some(r) => Some(Rendering { pieces: text(open) + r.pieces + text(close), end: r.end }),
        None => None,
    }
}

/// The separator in front of an item of a list: none in front of the first.
pub open spec fn separator(first: bool) -> Seq<PieceView> {
    if first {
        Seq::empty()
    } else {
        text(", "@)
    }
}

/// The rendering of the subtree that starts at `pos`; `None` where the buffer
/// ends before the subtree is complete.
pub open spec fn render(nodes: Seq<NodeView>, pos: int) -> Option<Rendering>
    decreases nodes.len() - pos, 0nat,
{
    if !(0 <= pos < nodes.len()) {
        None
    } else {
        match nodes[pos] {
            NodeView::SomeMarker => enclosed("Some("@, render(nodes, pos + 1), ")"@),
            NodeView::NewType => enclosed("("@, render(nodes, pos + 1), ")"@),
            NodeView::SeqHeader(n) => enclosed("["@, render_items(nodes, pos + 1, n as nat, true), "]"@),
            NodeView::MapHeader(n) => enclosed(
                "{"@,
                render_entries(nodes, pos + 1, n as nat, true),
                "}"@,
            ),
            node => Some(Rendering { pieces: leaf_pieces(node), end: pos + 1 }),
        }
    }
}

/// The rendering of `count` subtrees in a row, with separators between them.
///
/// A subtree that renders ends behind its start and inside the buffer
/// ([`lemma_render_advances`]); the guard says so to bound the recursion.
pub open spec fn render_items(nodes: Seq<NodeView>, pos: int, count: nat, first: bool) -> Option<
    Rendering,
>
    decreases nodes.len() - pos, count,
{
    if count == 0 {
        Some(Rendering { pieces: Seq::empty(), end: pos })
    } else {
        match render(nodes, pos) {
            Some(item) if pos < item.end <= nodes.len() => match render_items(
                nodes,
                item.end,
                (count - 1) as nat,
                false,
            ) {
                Some(rest) => Some(
                    Rendering {
                        pieces: separator(first) + item.pieces + rest.pieces,
                        end: rest.end,
                    },
                ),
                None => None,
            },
            _ => None,
        }
    }
}

/// The rendering of `count` pairs of subtrees in a row: each key, a colon and
/// its value, with separators between the pairs.
pub open spec fn render_entries(nodes: Seq<NodeView>, pos: int, count: nat, first: bool) -> Option<
    Rendering,
>
    decreases nodes.len() - pos, count,
{
    if count == 0 {
        Some(Rendering { pieces: Seq::empty(), end: pos })
    } else {
        match render(nodes, pos) {
            Some(key) if pos < key.end <= nodes.len() => match render(nodes, key.end) {
                Some(value) if key.end < value.end <= nodes.len() => match render_entries(
                    nodes,
                    value.end,
                    (count - 1) as nat,
                    false,
                ) {
                    Some(rest) => Some(
                        Rendering {
                            pieces: separator(first) + key.pieces + text(": "@) + value.pieces
                                + rest.pieces,
                            end: rest.end,
                        },
                    ),
                    None => None,
                },
                _ => None,
            },
            _ => None,
        }
    }
}

/// The rendering of all the subtrees from `pos` to the end of the buffer, one
/// behind the other.
pub open spec fn render_all(nodes: Seq<NodeView>, pos: int) -> Option<Seq<PieceView>>
    decreases nodes.len() - pos,
{
    if pos >= nodes.len() || pos < 0 {
        Some(Seq::empty())
    } else {
        match render(nodes, pos) {
            Some(tree) if pos < tree.end <= nodes.len() => match render_all(nodes, tree.end) {
                Some(rest) => Some(tree.pieces + rest),
                None => None,
            },
            _ => None,
        }
    }
}

/// A rendering covers at least one node and ends inside the buffer.
pub proof fn lemma_render_advances(nodes: Seq<NodeView>, pos: int)
    requires
        render(nodes, pos) is Some,
    ensures
        pos < render(nodes, pos).unwrap().end <= nodes.len(),
    decreases nodes.len() - pos, 0nat,
{
    match nodes[pos] {
        NodeView::SomeMarker => lemma_render_advances(nodes, pos + 1),
        NodeView::NewType => lemma_render_advances(nodes, pos + 1),
        NodeView::SeqHeader(n) => lemma_items_advance(nodes, pos + 1, n as nat, true),
        NodeView::MapHeader(n) => lemma_entries_advance(nodes, pos + 1, n as nat, true),
        _ => {},
    }
}

/// A rendering of items ends behind its start and inside the buffer.
pub proof fn lemma_items_advance(nodes: Seq<NodeView>, pos: int, count: nat, first: bool)
    requires
        render_items(nodes, pos, count, first) is Some,
        0 <= pos <= nodes.len(),
    ensures
        pos <= render_items(nodes, pos, count, first).unwrap().end <= nodes.len(),
    decreases nodes.len() - pos, count,
{
    if count > 0 {
        let item = render(nodes, pos).unwrap();
        lemma_render_advances(nodes, pos);
        lemma_items_advance(nodes, item.end, (count - 1) as nat, false);
    }
}

/// A rendering of entries ends behind its start and inside the buffer.
pub proof fn lemma_entries_advance(nodes: Seq<NodeView>, pos: int, count: nat, first: bool)
    requires
        render_entries(nodes, pos, count, first) is Some,
        0 <= pos <= nodes.len(),
    ensures
        pos <= render_entries(nodes, pos, count, first).unwrap().end <= nodes.len(),
    decreases nodes.len() - pos, count,
{
    if count > 0 {
        let key = render(nodes, pos).unwrap();
        lemma_render_advances(nodes, pos);
        let value = render(nodes, key.end).unwrap();
        lemma_render_advances(nodes, key.end);
        lemma_entries_advance(nodes, value.end, (count - 1) as nat, false);
    }
}

/// A subtree that is complete renders, up to where it ends.
pub proof fn lemma_render_complete(nodes: Seq<NodeView>, pos: int)
    requires
        skip(nodes, pos, 1) is Some,
    ensures
        render(nodes, pos) is Some,
        render(nodes, pos).unwrap().end == skip(nodes, pos, 1).unwrap(),
    decreases nodes.len() - pos, 0nat,
{
    lemma_skip_bounds(nodes, pos, 1);
    match nodes[pos] {
        NodeView::SomeMarker => lemma_render_complete(nodes, pos + 1),
        NodeView::NewType => lemma_render_complete(nodes, pos + 1),
        NodeView::SeqHeader(n) => lemma_items_complete(nodes, pos + 1, n as nat, true),
        NodeView::MapHeader(n) => lemma_entries_complete(nodes, pos + 1, n as nat, true),
        _ => {
            assert(skip(nodes, pos + 1, 0) == Some(pos + 1));
        },
    }
}

/// Subtrees that are complete render as items, up to where they end.
pub proof fn lemma_items_complete(nodes: Seq<NodeView>, pos: int, count: nat, first: bool)
    requires
        0 <= pos <= nodes.len(),
        skip(nodes, pos, count) is Some,
    ensures
        render_items(nodes, pos, count, first) is Some,
        render_items(nodes, pos, count, first).unwrap().end == skip(nodes, pos, count).unwrap(),
    decreases nodes.len() - pos, count,
{
    if count > 0 {
        lemma_skip_split(nodes, pos, 1, (count - 1) as nat);
        lemma_render_complete(nodes, pos);
        lemma_render_advances(nodes, pos);
        lemma_items_complete(nodes, render(nodes, pos).unwrap().end, (count - 1) as nat, false);
    }
}

/// Subtrees that are complete render as entries, up to where they end.
pub proof fn lemma_entries_complete(nodes: Seq<NodeView>, pos: int, count: nat, first: bool)
    requires
        0 <= pos <= nodes.len(),
        skip(nodes, pos, 2 * count) is Some,
    ensures
        render_entries(nodes, pos, count, first) is Some,
        render_entries(nodes, pos, count, first).unwrap().end == skip(
            nodes,
            pos,
            2 * count,
        ).unwrap(),
    decreases nodes.len() - pos, count,
{
    if count > 0 {
        lemma_skip_split(nodes, pos, 1, (2 * count - 1) as nat);
        lemma_render_complete(nodes, pos);
        lemma_render_advances(nodes, pos);
        let middle = render(nodes, pos).unwrap().end;
        lemma_skip_split(nodes, middle, 1, (2 * count - 2) as nat);
        lemma_render_complete(nodes, middle);
        lemma_render_advances(nodes, middle);
        lemma_entries_complete(
            nodes,
            render(nodes, middle).unwrap().end,
            (count - 1) as nat,
            false,
        );
    }
}

/// The rendering of a tree: each node with those of its subtrees inside.
pub open spec fn tree_pieces(tree: Tree) -> Seq<PieceView>
    decreases tree, 0nat,
{
    match tree {
        Tree::Leaf(node) => leaf_pieces(node),
        Tree::Optional(payload) => text("Some("@) + tree_pieces(*payload) + text(")"@),
        Tree::NewType(payload) => text("("@) + tree_pieces(*payload) + text(")"@),
        Tree::Sequence(items) => text("["@) + item_pieces(items, 0) + text("]"@),
        Tree::Mapping(entries) => text("{"@) + entry_pieces(entries, 0) + text("}"@),
    }
}

/// The renderings of the items from `index` on, with separators between them.
pub open spec fn item_pieces(items: Seq<Tree>, index: nat) -> Seq<PieceView>
    decreases items, items.len() - index,
{
    if index >= items.len() {
        Seq::empty()
    } else {
        separator(index == 0) + tree_pieces(items[index as int]) + item_pieces(items, index + 1)
    }
}

/// The renderings of the entries from `index` on: each key, a colon and its
/// value, with separators between the entries.
pub open spec fn entry_pieces(entries: Seq<(Tree, Tree)>, index: nat) -> Seq<PieceView>
    decreases entries, entries.len() - index,
{
    if index >= entries.len() {
        Seq::empty()
    } else {
        separator(index == 0) + tree_pieces(entries[index as int].0) + text(": "@) + tree_pieces(
            entries[index as int].1,
        ) + entry_pieces(entries, index + 1)
    }
}

/// The flattening of a valid tree that stands in a buffer renders as the tree.
pub proof fn lemma_render_tree(nodes: Seq<NodeView>, pos: int, tree: Tree)
    requires
        tree.wf(),
        stands_at(nodes, pos, tree),
    ensures
        render(nodes, pos) == Some(
            Rendering { pieces: tree_pieces(tree), end: pos + tree.flatten().len() },
        ),
    decreases tree, 0nat,
{
    let flat = tree.flatten();
    assert(nodes[pos] == flat[0]) by {
        assert(nodes.subrange(pos, pos + flat.len())[0] == flat[0]);
    }
    match tree {
        Tree::Leaf(node) => {},
        Tree::Optional(payload) => {
            lemma_inner_stands(nodes, pos, flat, payload.flatten());
            lemma_render_tree(nodes, pos + 1, *payload);
        },
        Tree::NewType(payload) => {
            lemma_inner_stands(nodes, pos, flat, payload.flatten());
            lemma_render_tree(nodes, pos + 1, *payload);
        },
        Tree::Sequence(items) => {
            lemma_inner_stands(nodes, pos, flat, flatten_items(items, items.len()));
            lemma_render_items_tree(nodes, pos + 1, items, 0);
        },
        Tree::Mapping(entries) => {
            lemma_inner_stands(nodes, pos, flat, flatten_entries(entries, entries.len()));
            lemma_render_entries_tree(nodes, pos + 1, entries, 0);
        },
    }
}

/// The items of a sequence that stands in a buffer render, from `index` on,
/// as the items of the tree.
pub proof fn lemma_render_items_tree(nodes: Seq<NodeView>, first: int, items: Seq<Tree>, index: nat)
    requires
        0 <= first,
        index <= items.len(),
        forall|i: int| 0 <= i < items.len() ==> (#[trigger] items[i]).wf(),
        first + flatten_items(items, items.len()).len() <= nodes.len(),
        nodes.subrange(first, first + flatten_items(items, items.len()).len()) == flatten_items(
            items,
            items.len(),
        ),
    ensures
        render_items(
            nodes,
            first + flatten_items(items, index).len(),
            (items.len() - index) as nat,
            index == 0,
        ) == Some(
            Rendering {
                pieces: item_pieces(items, index),
                end: first + flatten_items(items, items.len()).len(),
            },
        ),
    decreases items, items.len() - index,
{
    if index < items.len() {
        let at = first + flatten_items(items, index).len();
        lemma_item_stands(nodes, first, items, index as int);
        lemma_render_tree(nodes, at, items[index as int]);
        lemma_flatten_ends_complete(items[index as int]);
        lemma_render_items_tree(nodes, first, items, index + 1);
    }
}

/// The entries of a map that stands in a buffer render, from `index` on, as
/// the entries of the tree.
pub proof fn lemma_render_entries_tree(
    nodes: Seq<NodeView>,
    first: int,
    entries: Seq<(Tree, Tree)>,
    index: nat,
)
    requires
        0 <= first,
        index <= entries.len(),
        forall|i: int| 0 <= i < entries.len() ==> (#[trigger] entries[i]).0.wf() && entries[i].1.wf(),
        first + flatten_entries(entries, entries.len()).len() <= nodes.len(),
        nodes.subrange(first, first + flatten_entries(entries, entries.len()).len())
            == flatten_entries(entries, entries.len()),
    ensures
        render_entries(
            nodes,
            first + flatten_entries(entries, index).len(),
            (entries.len() - index) as nat,
            index == 0,
        ) == Some(
            Rendering {
                pieces: entry_pieces(entries, index),
                end: first + flatten_entries(entries, entries.len()).len(),
            },
        ),
    decreases entries, entries.len() - index,
{
    if index < entries.len() {
        let at = first + flatten_entries(entries, index).len();
        lemma_entry_stands(nodes, first, entries, index as int);
        lemma_render_tree(nodes, at, entries[index as int].0);
        lemma_flatten_ends_complete(entries[index as int].0);
        let middle = at + entries[index as int].0.flatten().len();
        lemma_render_tree(nodes, middle, entries[index as int].1);
        lemma_flatten_ends_complete(entries[index as int].1);
        lemma_render_entries_tree(nodes, first, entries, index + 1);
    }
}

/// Takes back what a failed rendering has appended.
fn undo(out: &mut Vec<DebugPiece>, len: usize)
    requires
        len <= old(out)@.len(),
    ensures
        final(out)@ == old(out)@.subrange(0, len as int),
        piece_views(final(out)@) == piece_views(old(out)@).subrange(0, len as int),
{
    out.truncate(len);
    assert(piece_views(out@) =~= piece_views(old(out)@).subrange(0, len as int));
}

/// Appends a piece of literal text.
fn push_text(out: &mut Vec<DebugPiece>, literal: &str)
    ensures
        piece_views(final(out)@) == piece_views(old(out)@) + text(literal@),
        old(out)@.is_prefix_of(final(out)@),
{
    out.push(DebugPiece::Text(literal.to_owned()));
    assert(piece_views(final(out)@) =~= piece_views(old(out)@) + text(literal@));
}

/// Appends a number and the tag of its type as one piece of text.
fn push_unsigned(out: &mut Vec<DebugPiece>, v: u128, tag: &str)
    ensures
        old(out)@.is_prefix_of(final(out)@),
        piece_views(final(out)@) == piece_views(old(out)@) + text(decimal(v as nat) + tag@),
{
    let mut rendered = String::new();
    push_decimal(&mut rendered, v);
    rendered.append(tag);
    assert(rendered@ =~= decimal(v as nat) + tag@);
    out.push(DebugPiece::Text(rendered));
    assert(piece_views(final(out)@) =~= piece_views(old(out)@) + text(decimal(v as nat) + tag@));
}

/// Appends a signed number and the tag of its type as one piece of text.
fn push_signed(out: &mut Vec<DebugPiece>, v: i128, tag: &str)
    ensures
        old(out)@.is_prefix_of(final(out)@),
        piece_views(final(out)@) == piece_views(old(out)@) + text(
            signed_decimal(v as int) + tag@,
        ),
{
    let mut rendered = String::new();
    push_signed_decimal(&mut rendered, v);
    rendered.append(tag);
    assert(rendered@ =~= signed_decimal(v as int) + tag@);
    out.push(DebugPiece::Text(rendered));
    assert(piece_views(final(out)@) =~= piece_views(old(out)@) + text(
        signed_decimal(v as int) + tag@,
    ));
}

/// Appends a finished rendering as one piece of text.
fn push_owned_text(out: &mut Vec<DebugPiece>, rendered: String)
    ensures
        old(out)@.is_prefix_of(final(out)@),
        piece_views(final(out)@) == piece_views(old(out)@) + text(rendered@),
{
    out.push(DebugPiece::Text(rendered));
    assert(piece_views(final(out)@) =~= piece_views(old(out)@) + text(rendered@));
}

/// Appends the pieces of a node that is rendered by itself.
fn push_leaf(out: &mut Vec<DebugPiece>, node: &BucketNode)
    requires
        node@.arity() == 0,
        !(node@ is SeqHeader),
        !(node@ is MapHeader),
    ensures
        old(out)@.is_prefix_of(final(out)@),
        piece_views(final(out)@) == piece_views(old(out)@) + leaf_pieces(node@),
{
    match node {
        BucketNode::Consumed => push_text(out, "_"),
        BucketNode::Unsized => push_text(out, "_"),
        BucketNode::Unit => push_text(out, "()"),
        BucketNode::Bool(v) => {
            if *v {
                push_text(out, "true")
            } else {
                push_text(out, "false")
            }
        },
        BucketNode::Char(v) => push_owned_text(out, quote_char(*v)),
        BucketNode::U8(v) => push_unsigned(out, *v as u128, "u8"),
        BucketNode::I8(v) => push_signed(out, *v as i128, "i8"),
        BucketNode::U16(v) => push_unsigned(out, *v as u128, "u16"),
        BucketNode::I16(v) => push_signed(out, *v as i128, "i16"),
        BucketNode::U32(v) => push_unsigned(out, *v as u128, "u32"),
        BucketNode::I32(v) => push_signed(out, *v as i128, "i32"),
        BucketNode::U64(v) => push_unsigned(out, *v as u128, "u64"),
        BucketNode::I64(v) => push_signed(out, *v as i128, "i64"),
        BucketNode::U128(v) => push_unsigned(out, *v, "u128"),
        BucketNode::I128(v) => push_signed(out, *v, "i128"),
        BucketNode::F32(bits) => {
            out.push(DebugPiece::F32(*bits));
            out.push(DebugPiece::Text("f32".to_owned()));
            assert(piece_views(final(out)@) =~= piece_views(old(out)@) + leaf_pieces(node@));
        },
        BucketNode::F64(bits) => {
            out.push(DebugPiece::F64(*bits));
            out.push(DebugPiece::Text("f64".to_owned()));
            assert(piece_views(final(out)@) =~= piece_views(old(out)@) + leaf_pieces(node@));
        },
        BucketNode::String(v) => push_owned_text(out, with_borrow_mark(quote_str(v.as_str()), false)),
        BucketNode::StringRef(v) => push_owned_text(out, with_borrow_mark(quote_str(v), true)),
        BucketNode::Bytes(v) => {
            let mut list = String::new();
            push_byte_list(&mut list, v.as_slice());
            assert(list@ =~= byte_list(v@));
            push_owned_text(out, with_borrow_mark(list, false))
        },
        BucketNode::BytesRef(v) => {
            let mut list = String::new();
            push_byte_list(&mut list, v);
            assert(list@ =~= byte_list(v@));
            push_owned_text(out, with_borrow_mark(list, true))
        },
        BucketNode::NoneMarker => push_text(out, "None"),
        _ => {},
    }
}

/// Renders the subtree at the cursor into `out`, and moves the cursor behind it.
///
/// Scalars are rendered by their value, the numbers with the tag of their
/// type; text and bytes as the standard library formats them for debugging,
/// with `&` in front where they are borrowed; an optional as `None` or as
/// `Some(..)`, a wrapper as `(..)`, a sequence as `[.., ..]`, a map as
/// `{..: .., ..: ..}`; the two sentinels as `_`. Where the buffer ends before
/// the subtree is complete, the rendering fails, and `out` and the cursor are
/// as they were.
pub fn debug_node(nodes: &[BucketNode], out: &mut Vec<DebugPiece>, cursor: &mut usize) -> (done:
    Result<(), std::fmt::Error>)
    ensures
        old(out)@.is_prefix_of(final(out)@),
        match render(views(nodes@), *old(cursor) as int) {
            Some(rendering) => done is Ok && piece_views(final(out)@) == piece_views(old(out)@)
                + rendering.pieces && *final(cursor) == rendering.end,
            None => done is Err && final(out)@ == old(out)@ && *final(cursor) == *old(cursor),
        },
    decreases nodes@.len() - *old(cursor), 0nat,
{
    let ghost buffer = views(nodes@);
    let ghost base = piece_views(out@);
    let at = *cursor;
    let len = out.len();
    if at >= nodes.len() {
        return Err(format_failure("out-of-bounds"));
    }
    let node = &nodes[at];
    assert(buffer[at as int] == node@);
    match node {
        BucketNode::SomeMarker => {
            *cursor = at + 1;
            push_text(out, "Some(");
            let inner = debug_node(nodes, out, cursor);
            if inner.is_err() {
                undo(out, len);
                *cursor = at;
                assert(out@ =~= old(out)@);
                return inner;
            }
            push_text(out, ")");
            proof {
                let payload = render(buffer, at + 1).unwrap();
                assert(piece_views(out@) =~= base + (text("Some("@) + payload.pieces + text(")"@)));
            }
            Ok(())
        },
        BucketNode::NewType => {
            *cursor = at + 1;
            push_text(out, "(");
            let inner = debug_node(nodes, out, cursor);
            if inner.is_err() {
                undo(out, len);
                *cursor = at;
                assert(out@ =~= old(out)@);
                return inner;
            }
            push_text(out, ")");
            proof {
                let payload = render(buffer, at + 1).unwrap();
                assert(piece_views(out@) =~= base + (text("("@) + payload.pieces + text(")"@)));
            }
            Ok(())
        },
        BucketNode::SeqHeader(count) => {
            *cursor = at + 1;
            push_text(out, "[");
            let inner = debug_items(nodes, out, cursor, *count);
            if inner.is_err() {
                undo(out, len);
                *cursor = at;
                assert(out@ =~= old(out)@);
                return inner;
            }
            push_text(out, "]");
            proof {
                let items = render_items(buffer, at + 1, *count as nat, true).unwrap();
                assert(piece_views(out@) =~= base + (text("["@) + items.pieces + text("]"@)));
            }
            Ok(())
        },
        BucketNode::MapHeader(count) => {
            *cursor = at + 1;
            push_text(out, "{");
            let inner = debug_entries(nodes, out, cursor, *count);
            if inner.is_err() {
                undo(out, len);
                *cursor = at;
                assert(out@ =~= old(out)@);
                return inner;
            }
            push_text(out, "}");
            proof {
                let entries = render_entries(buffer, at + 1, *count as nat, true).unwrap();
                assert(piece_views(out@) =~= base + (text("{"@) + entries.pieces + text("}"@)));
            }
            Ok(())
        },
        _ => {
            push_leaf(out, node);
            *cursor = at + 1;
            Ok(())
        },
    }
}

/// Renders the `count` elements of a sequence, which start at the cursor,
/// with a comma and a space between them.
fn debug_items(nodes: &[BucketNode], out: &mut Vec<DebugPiece>, cursor: &mut usize, count: usize) -> (done:
    Result<(), std::fmt::Error>)
    requires
        *old(cursor) <= nodes@.len(),
    ensures
        old(out)@.is_prefix_of(final(out)@),
        match render_items(views(nodes@), *old(cursor) as int, count as nat, true) {
            Some(rendering) => done is Ok && piece_views(final(out)@) == piece_views(old(out)@)
                + rendering.pieces && *final(cursor) == rendering.end,
            None => done is Err && final(out)@ == old(out)@ && *final(cursor) == *old(cursor),
        },
    decreases nodes@.len() - *old(cursor), count,
{
    let ghost buffer = views(nodes@);
    let ghost base = piece_views(out@);
    let ghost total = render_items(buffer, *cursor as int, count as nat, true);
    let ghost mut items: Seq<PieceView> = Seq::empty();
    let start = *cursor;
    let len = out.len();
    let mut i: usize = 0;
    assert(piece_views(out@) =~= base + items);
    while i < count
        invariant
            i <= count,
            start == *old(cursor),
            len == old(out)@.len(),
            start <= *cursor <= nodes@.len(),
            buffer == views(nodes@),
            base == piece_views(old(out)@),
            old(out)@.is_prefix_of(out@),
            total == render_items(buffer, *old(cursor) as int, count as nat, true),
            piece_views(out@) == base + items,
            match render_items(buffer, *cursor as int, (count - i) as nat, i == 0) {
                Some(rest) => total == Some(
                    Rendering { pieces: items + rest.pieces, end: rest.end },
                ),
                None => total is None,
            },
        decreases count - i,
    {
        let ghost from = *cursor as int;
        let ghost before = items;
        if i != 0 {
            push_text(out, ", ");
        }
        assert(piece_views(out@) =~= base + (before + separator(i == 0)));
        let item = debug_node(nodes, out, cursor);
        if item.is_err() {
            undo(out, len);
            *cursor = start;
            assert(out@ =~= old(out)@);
            return item;
        }
        proof {
            lemma_render_advances(buffer, from);
            let rendered = render(buffer, from).unwrap();
            items = before + separator(i == 0) + rendered.pieces;
            assert(piece_views(out@) =~= base + items);
            match render_items(buffer, rendered.end, (count - i - 1) as nat, false) {
                Some(rest) => {
                    assert(before + (separator(i == 0) + rendered.pieces + rest.pieces) =~= items
                        + rest.pieces);
                },
                None => {},
            }
        }
        i += 1;
    }
    assert(items + Seq::<PieceView>::empty() =~= items);
    Ok(())
}

/// Renders the `count` entries of a map, which start at the cursor: each key,
/// a colon and its value, with a comma and a space between the entries.
fn debug_entries(nodes: &[BucketNode], out: &mut Vec<DebugPiece>, cursor: &mut usize, count: usize) -> (done:
    Result<(), std::fmt::Error>)
    requires
        *old(cursor) <= nodes@.len(),
    ensures
        old(out)@.is_prefix_of(final(out)@),
        match render_entries(views(nodes@), *old(cursor) as int, count as nat, true) {
            Some(rendering) => done is Ok && piece_views(final(out)@) == piece_views(old(out)@)
                + rendering.pieces && *final(cursor) == rendering.end,
            None => done is Err && final(out)@ == old(out)@ && *final(cursor) == *old(cursor),
        },
    decreases nodes@.len() - *old(cursor), count,
{
    let ghost buffer = views(nodes@);
    let ghost base = piece_views(out@);
    let ghost total = render_entries(buffer, *cursor as int, count as nat, true);
    let ghost mut entries: Seq<PieceView> = Seq::empty();
    let start = *cursor;
    let len = out.len();
    let mut i: usize = 0;
    assert(piece_views(out@) =~= base + entries);
    while i < count
        invariant
            i <= count,
            start == *old(cursor),
            len == old(out)@.len(),
            start <= *cursor <= nodes@.len(),
            buffer == views(nodes@),
            base == piece_views(old(out)@),
            old(out)@.is_prefix_of(out@),
            total == render_entries(buffer, *old(cursor) as int, count as nat, true),
            piece_views(out@) == base + entries,
            match render_entries(buffer, *cursor as int, (count - i) as nat, i == 0) {
                Some(rest) => total == Some(
                    Rendering { pieces: entries + rest.pieces, end: rest.end },
                ),
                None => total is None,
            },
        decreases count - i,
    {
        let ghost from = *cursor as int;
        let ghost before = entries;
        if i != 0 {
            push_text(out, ", ");
        }
        assert(piece_views(out@) =~= base + (before + separator(i == 0)));
        let key = debug_node(nodes, out, cursor);
        if key.is_err() {
            undo(out, len);
            *cursor = start;
            assert(out@ =~= old(out)@);
            return key;
        }
        proof {
            lemma_render_advances(buffer, from);
        }
        let ghost middle = *cursor as int;
        push_text(out, ": ");
        let value = debug_node(nodes, out, cursor);
        if value.is_err() {
            undo(out, len);
            *cursor = start;
            assert(out@ =~= old(out)@);
            return value;
        }
        proof {
            lemma_render_advances(buffer, middle);
            let rendered_key = render(buffer, from).unwrap();
            let rendered_value = render(buffer, middle).unwrap();
            let entry = separator(i == 0) + rendered_key.pieces + text(": "@)
                + rendered_value.pieces;
            entries = before + entry;
            assert(piece_views(out@) =~= base + entries);
            match render_entries(buffer, rendered_value.end, (count - i - 1) as nat, false) {
                Some(rest) => {
                    assert(before + (entry + rest.pieces) =~= entries + rest.pieces);
                },
                None => {},
            }
        }
        i += 1;
    }
    assert(entries + Seq::<PieceView>::empty() =~= entries);
    Ok(())
}

/// Renders a buffer: the subtrees that it holds, one behind the other.
///
/// The rendering only reads the buffer, so that it can be repeated with the
/// same result. It fails where the buffer ends inside a subtree.
#[verifier::loop_isolation(false)]
pub fn debug_nodes(nodes: &[BucketNode]) -> (rendered: Result<Vec<DebugPiece>, std::fmt::Error>)
    ensures
        match render_all(views(nodes@), 0) {
            Some(pieces) => rendered is Ok && piece_views(rendered.unwrap()@) == pieces,
            None => rendered is Err,
        },
{
    let ghost buffer = views(nodes@);
    let ghost total = render_all(buffer, 0);
    let mut out: Vec<DebugPiece> = Vec::new();
    let mut cursor: usize = 0;
    assert(piece_views(out@) =~= Seq::empty());
    while nodes.len() > cursor
        invariant
            cursor <= nodes@.len(),
            buffer == views(nodes@),
            match render_all(buffer, cursor as int) {
                Some(rest) => total == Some(piece_views(out@) + rest),
                None => total is None,
            },
        decreases nodes@.len() - cursor,
    {
        let ghost start = cursor as int;
        match debug_node(nodes, &mut out, &mut cursor) {
            Err(error) => {
                assert(render_all(buffer, start) is None);
                return Err(error);
            },
            Ok(()) => {},
        }
        proof {
            lemma_render_advances(buffer, start);
        }
    }
    assert(piece_views(out@) + Seq::<PieceView>::empty() =~= piece_views(out@));
    Ok(out)
}

impl<'a> Bucket<'a> {
    /// Renders this bucket. A bucket holds one complete tree, and its
    /// rendering is that of the tree: it does not fail.
    pub fn debug(&self) -> (rendered: Result<Vec<DebugPiece>, std::fmt::Error>)
        ensures
            well_formed(self@),
            render(self@, 0) is Some,
            rendered is Ok,
            piece_views(rendered.unwrap()@) == render(self@, 0).unwrap().pieces,
    {
        let nodes = self.nodes();
        proof {
            law_bucket_renders(self@);
        }
        debug_nodes(nodes)
    }
}

} // verus!
