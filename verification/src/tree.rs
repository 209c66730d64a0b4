use vstd::prelude::*;
use crate::node::NodeView;
use crate::shape::all_readable;
use crate::shape::lemma_skip_split;
use crate::shape::skip;

verus! {

/// A value as a tree: what a buffer is the flattening of.
pub enum Tree {
    /// A value without subtrees.
    Leaf(NodeView),
    /// A filled optional and its payload.
    Optional(Box<Tree>),
    /// A transparent wrapper and its payload.
    NewType(Box<Tree>),
    /// A sequence and its elements.
    Sequence(Seq<Tree>),
    /// A map and its entries, each a key and a value.
    Mapping(Seq<(Tree, Tree)>),
}

impl Tree {
    /// True where every leaf is a value without subtrees and every count fits
    /// the header that holds it.
    pub open spec fn wf(self) -> bool
        decreases self,
    {
        match self {
            Tree::Leaf(node) => node.is_leaf(),
            Tree::Optional(payload) => payload.wf(),
            Tree::NewType(payload) => payload.wf(),
            Tree::Sequence(items) => items.len() <= usize::MAX && forall|i: int|
                0 <= i < items.len() ==> (#[trigger] items[i]).wf(),
            Tree::Mapping(entries) => entries.len() <= usize::MAX && forall|i: int|
                0 <= i < entries.len() ==> (#[trigger] entries[i]).0.wf() && entries[i].1.wf(),
        }
    }

    /// The tree that a capture stores for this one: with the owned kind in
    /// place of each borrowed leaf where the capture copies borrowed values.
    pub open spec fn captured(self, owned: bool) -> Tree
        decreases self,
    {
        match self {
            Tree::Leaf(node) => Tree::Leaf(node.captured(owned)),
            Tree::Optional(payload) => Tree::Optional(Box::new(payload.captured(owned))),
            Tree::NewType(payload) => Tree::NewType(Box::new(payload.captured(owned))),
            Tree::Sequence(items) => Tree::Sequence(
                Seq::new(
                    items.len(),
                    |i: int|
                        if 0 <= i < items.len() {
                            items[i].captured(owned)
                        } else {
                            Tree::Leaf(NodeView::Unit)
                        },
                ),
            ),
            Tree::Mapping(entries) => Tree::Mapping(
                Seq::new(
                    entries.len(),
                    |i: int|
                        if 0 <= i < entries.len() {
                            (entries[i].0.captured(owned), entries[i].1.captured(owned))
                        } else {
                            (Tree::Leaf(NodeView::Unit), Tree::Leaf(NodeView::Unit))
                        },
                ),
            ),
        }
    }

    /// The pre-order flattening: each node, then its subtrees in order.
    pub open spec fn flatten(self) -> Seq<NodeView>
        decreases self,
    {
        match self {
            Tree::Leaf(node) => seq![node],
            Tree::Optional(payload) => seq![NodeView::SomeMarker] + payload.flatten(),
            Tree::NewType(payload) => seq![NodeView::NewType] + payload.flatten(),
            Tree::Sequence(items) => seq![NodeView::SeqHeader(items.len() as usize)]
                + flatten_items(items, items.len()),
            Tree::Mapping(entries) => seq![NodeView::MapHeader(entries.len() as usize)]
                + flatten_entries(entries, entries.len()),
        }
    }
}

/// The flattenings of the first `count` of `items`, one behind the other.
pub open spec fn flatten_items(items: Seq<Tree>, count: nat) -> Seq<NodeView>
    decreases items, count,
{
    if count == 0 || count > items.len() {
        Seq::empty()
    } else {
        flatten_items(items, (count - 1) as nat) + items[count - 1].flatten()
    }
}

/// The flattenings of the first `count` of `entries`, one behind the other:
/// each key, then its value.
pub open spec fn flatten_entries(entries: Seq<(Tree, Tree)>, count: nat) -> Seq<NodeView>
    decreases entries, count,
{
    if count == 0 || count > entries.len() {
        Seq::empty()
    } else {
        flatten_entries(entries, (count - 1) as nat) + entries[count - 1].0.flatten() + entries[count
            - 1].1.flatten()
    }
}

/// The flattening of the first items does not depend on the items behind them.
pub proof fn lemma_flatten_items_prefix(a: Seq<Tree>, b: Seq<Tree>, count: nat)
    requires
        count <= a.len(),
        count <= b.len(),
        forall|i: int| 0 <= i < count ==> a[i] == b[i],
    ensures
        flatten_items(a, count) == flatten_items(b, count),
    decreases count,
{
    if count > 0 {
        lemma_flatten_items_prefix(a, b, (count - 1) as nat);
    }
}

/// The flattening of the first entries does not depend on the entries behind them.
pub proof fn lemma_flatten_entries_prefix(a: Seq<(Tree, Tree)>, b: Seq<(Tree, Tree)>, count: nat)
    requires
        count <= a.len(),
        count <= b.len(),
        forall|i: int| 0 <= i < count ==> a[i] == b[i],
    ensures
        flatten_entries(a, count) == flatten_entries(b, count),
    decreases count,
{
    if count > 0 {
        lemma_flatten_entries_prefix(a, b, (count - 1) as nat);
    }
}

/// A capture that refers to borrowed values stores the tree as it is.
pub proof fn lemma_captured_as_is(tree: Tree)
    ensures
        tree.captured(false) == tree,
    decreases tree,
{
    match tree {
        Tree::Leaf(node) => {},
        Tree::Optional(payload) => {
            lemma_captured_as_is(*payload);
        },
        Tree::NewType(payload) => {
            lemma_captured_as_is(*payload);
        },
        Tree::Sequence(items) => {
            assert forall|i: int| 0 <= i < items.len() implies (#[trigger] items[i]).captured(false)
                == items[i] by {
                lemma_captured_as_is(items[i]);
            }
            assert(tree.captured(false)->Sequence_0 =~= items);
        },
        Tree::Mapping(entries) => {
            assert forall|i: int| 0 <= i < entries.len() implies (#[trigger] entries[i]).0.captured(
                false,
            ) == entries[i].0 && entries[i].1.captured(false) == entries[i].1 by {
                lemma_captured_as_is(entries[i].0);
                lemma_captured_as_is(entries[i].1);
            }
            assert(tree.captured(false)->Mapping_0 =~= entries);
        },
    }
}

/// What a capture stores for a valid tree is a valid tree.
pub proof fn lemma_captured_wf(tree: Tree, owned: bool)
    requires
        tree.wf(),
    ensures
        tree.captured(owned).wf(),
    decreases tree,
{
    match tree {
        Tree::Leaf(node) => {},
        Tree::Optional(payload) => {
            lemma_captured_wf(*payload, owned);
        },
        Tree::NewType(payload) => {
            lemma_captured_wf(*payload, owned);
        },
        Tree::Sequence(items) => {
            let stored = tree.captured(owned)->Sequence_0;
            assert forall|i: int| 0 <= i < stored.len() implies (#[trigger] stored[i]).wf() by {
                lemma_captured_wf(items[i], owned);
            }
        },
        Tree::Mapping(entries) => {
            let stored = tree.captured(owned)->Mapping_0;
            assert forall|i: int| 0 <= i < stored.len() implies (#[trigger] stored[i]).0.wf()
                && stored[i].1.wf() by {
                lemma_captured_wf(entries[i].0, owned);
                lemma_captured_wf(entries[i].1, owned);
            }
        },
    }
}

/// The flattening of a valid tree is not empty, and its last node is no
/// marker that waits for a payload.
pub proof fn lemma_flatten_ends_complete(tree: Tree)
    requires
        tree.wf(),
    ensures
        tree.flatten().len() > 0,
        !tree.flatten().last().is_wrapper(),
    decreases tree,
{
    match tree {
        Tree::Leaf(node) => {
            assert(tree.flatten().last() == node);
        },
        Tree::Optional(payload) => {
            lemma_flatten_ends_complete(*payload);
            assert(tree.flatten().last() == payload.flatten().last());
        },
        Tree::NewType(payload) => {
            lemma_flatten_ends_complete(*payload);
            assert(tree.flatten().last() == payload.flatten().last());
        },
        Tree::Sequence(items) => {
            if items.len() > 0 {
                lemma_flatten_ends_complete(items.last());
                let rest = flatten_items(items, (items.len() - 1) as nat);
                assert(flatten_items(items, items.len()) == rest + items.last().flatten());
                assert(tree.flatten().last() == items.last().flatten().last());
            } else {
                assert(flatten_items(items, items.len()) =~= Seq::empty());
                assert(tree.flatten() =~= seq![NodeView::SeqHeader(items.len() as usize)]);
            }
        },
        Tree::Mapping(entries) => {
            if entries.len() > 0 {
                lemma_flatten_ends_complete(entries.last().1);
                let rest = flatten_entries(entries, (entries.len() - 1) as nat);
                assert(flatten_entries(entries, entries.len()) == rest + entries.last().0.flatten()
                    + entries.last().1.flatten());
                assert(tree.flatten().last() == entries.last().1.flatten().last());
            } else {
                assert(flatten_entries(entries, entries.len()) =~= Seq::empty());
                assert(tree.flatten() =~= seq![NodeView::MapHeader(entries.len() as usize)]);
            }
        },
    }
}

/// True where the flattening of `tree` stands in `nodes` at `pos`.
pub open spec fn stands_at(nodes: Seq<NodeView>, pos: int, tree: Tree) -> bool {
    &&& 0 <= pos
    &&& pos + tree.flatten().len() <= nodes.len()
    &&& nodes.subrange(pos, pos + tree.flatten().len()) == tree.flatten()
}

/// The flattening of the first items is the start of the flattening of more.
pub proof fn lemma_flatten_items_grows(items: Seq<Tree>, fewer: nat, more: nat)
    requires
        fewer <= more <= items.len(),
    ensures
        flatten_items(items, fewer).is_prefix_of(flatten_items(items, more)),
        fewer < more ==> (flatten_items(items, fewer) + items[fewer as int].flatten()).is_prefix_of(
            flatten_items(items, more),
        ),
    decreases more,
{
    if fewer < more {
        lemma_flatten_items_grows(items, fewer, (more - 1) as nat);
        let shorter = flatten_items(items, (more - 1) as nat);
        let longer = flatten_items(items, more);
        assert(longer == shorter + items[more - 1].flatten());
        assert(flatten_items(items, fewer) =~= longer.subrange(
            0,
            flatten_items(items, fewer).len() as int,
        ));
        if fewer < more - 1 {
            let step = flatten_items(items, fewer) + items[fewer as int].flatten();
            assert(step =~= longer.subrange(0, step.len() as int));
        }
    } else {
        assert(flatten_items(items, fewer) =~= flatten_items(items, more).subrange(
            0,
            flatten_items(items, fewer).len() as int,
        ));
    }
}

/// The flattening of the first entries is the start of the flattening of more.
pub proof fn lemma_flatten_entries_grows(entries: Seq<(Tree, Tree)>, fewer: nat, more: nat)
    requires
        fewer <= more <= entries.len(),
    ensures
        flatten_entries(entries, fewer).is_prefix_of(flatten_entries(entries, more)),
        fewer < more ==> (flatten_entries(entries, fewer) + entries[fewer as int].0.flatten()
            + entries[fewer as int].1.flatten()).is_prefix_of(flatten_entries(entries, more)),
    decreases more,
{
    if fewer < more {
        lemma_flatten_entries_grows(entries, fewer, (more - 1) as nat);
        let shorter = flatten_entries(entries, (more - 1) as nat);
        let longer = flatten_entries(entries, more);
        assert(longer == shorter + entries[more - 1].0.flatten() + entries[more - 1].1.flatten());
        assert(flatten_entries(entries, fewer) =~= longer.subrange(
            0,
            flatten_entries(entries, fewer).len() as int,
        ));
        if fewer < more - 1 {
            let step = flatten_entries(entries, fewer) + entries[fewer as int].0.flatten()
                + entries[fewer as int].1.flatten();
            assert(step =~= longer.subrange(0, step.len() as int));
        }
    } else {
        assert(flatten_entries(entries, fewer) =~= flatten_entries(entries, more).subrange(
            0,
            flatten_entries(entries, fewer).len() as int,
        ));
    }
}

/// In the flattening of a sequence that stands in a buffer, each item stands
/// behind the items before it.
pub proof fn lemma_item_stands(nodes: Seq<NodeView>, pos: int, items: Seq<Tree>, index: int)
    requires
        0 <= pos,
        0 <= index < items.len(),
        pos + flatten_items(items, items.len()).len() <= nodes.len(),
        nodes.subrange(pos, pos + flatten_items(items, items.len()).len()) == flatten_items(
            items,
            items.len(),
        ),
    ensures
        stands_at(nodes, pos + flatten_items(items, index as nat).len(), items[index]),
{
    lemma_flatten_items_grows(items, index as nat, items.len());
    let all = flatten_items(items, items.len());
    let before = flatten_items(items, index as nat);
    let item = items[index].flatten();
    assert((before + item) =~= all.subrange(0, (before + item).len() as int));
    assert(nodes.subrange(pos + before.len(), pos + before.len() + item.len()) =~= item) by {
        assert forall|i: int| 0 <= i < item.len() implies nodes[pos + before.len() + i]
            == item[i] by {
            assert(all[before.len() + i] == (before + item)[before.len() + i]);
            assert(nodes.subrange(pos, pos + all.len())[before.len() + i] == all[before.len() + i]);
        }
    }
}

/// In the flattening of a map that stands in a buffer, each key stands
/// behind the entries before it, and its value behind the key.
pub proof fn lemma_entry_stands(
    nodes: Seq<NodeView>,
    pos: int,
    entries: Seq<(Tree, Tree)>,
    index: int,
)
    requires
        0 <= pos,
        0 <= index < entries.len(),
        pos + flatten_entries(entries, entries.len()).len() <= nodes.len(),
        nodes.subrange(pos, pos + flatten_entries(entries, entries.len()).len())
            == flatten_entries(entries, entries.len()),
    ensures
        stands_at(nodes, pos + flatten_entries(entries, index as nat).len(), entries[index].0),
        stands_at(
            nodes,
            pos + flatten_entries(entries, index as nat).len() + entries[index].0.flatten().len(),
            entries[index].1,
        ),
{
    lemma_flatten_entries_grows(entries, index as nat, entries.len());
    let all = flatten_entries(entries, entries.len());
    let before = flatten_entries(entries, index as nat);
    let key = entries[index].0.flatten();
    let value = entries[index].1.flatten();
    let upto = before + key + value;
    assert(upto =~= all.subrange(0, upto.len() as int));
    assert(nodes.subrange(pos + before.len(), pos + before.len() + key.len()) =~= key) by {
        assert forall|i: int| 0 <= i < key.len() implies nodes[pos + before.len() + i]
            == key[i] by {
            assert(all[before.len() + i] == upto[before.len() + i]);
            assert(nodes.subrange(pos, pos + all.len())[before.len() + i] == all[before.len() + i]);
        }
    }
    assert(nodes.subrange(
        pos + before.len() + key.len(),
        pos + before.len() + key.len() + value.len(),
    ) =~= value) by {
        assert forall|i: int| 0 <= i < value.len() implies nodes[pos + before.len() + key.len()
            + i] == value[i] by {
            let at = before.len() + key.len() + i;
            assert(all[at] == upto[at]);
            assert(nodes.subrange(pos, pos + all.len())[at] == all[at]);
        }
    }
}

/// The subtree of a valid tree that stands in a buffer ends where the
/// flattening of the tree ends.
pub proof fn lemma_skip_tree(nodes: Seq<NodeView>, pos: int, tree: Tree)
    requires
        tree.wf(),
        stands_at(nodes, pos, tree),
    ensures
        skip(nodes, pos, 1) == Some(pos + tree.flatten().len()),
    decreases tree, 0nat,
{
    let flat = tree.flatten();
    assert(nodes[pos] == flat[0]) by {
        assert(nodes.subrange(pos, pos + flat.len())[0] == flat[0]);
    }
    match tree {
        Tree::Leaf(node) => {
            assert(skip(nodes, pos + 1, 0) == Some(pos + 1));
        },
        Tree::Optional(payload) => {
            lemma_inner_stands(nodes, pos, flat, payload.flatten());
            lemma_skip_tree(nodes, pos + 1, *payload);
        },
        Tree::NewType(payload) => {
            lemma_inner_stands(nodes, pos, flat, payload.flatten());
            lemma_skip_tree(nodes, pos + 1, *payload);
        },
        Tree::Sequence(items) => {
            lemma_inner_stands(nodes, pos, flat, flatten_items(items, items.len()));
            lemma_skip_items(nodes, pos + 1, items, items.len());
        },
        Tree::Mapping(entries) => {
            lemma_inner_stands(nodes, pos, flat, flatten_entries(entries, entries.len()));
            lemma_skip_entries(nodes, pos + 1, entries, entries.len());
        },
    }
}

/// The first `count` items of a sequence that stands in a buffer are as many
/// subtrees, which end where their flattenings end.
pub proof fn lemma_skip_items(nodes: Seq<NodeView>, pos: int, items: Seq<Tree>, count: nat)
    requires
        0 <= pos,
        count <= items.len(),
        forall|i: int| 0 <= i < items.len() ==> (#[trigger] items[i]).wf(),
        pos + flatten_items(items, items.len()).len() <= nodes.len(),
        nodes.subrange(pos, pos + flatten_items(items, items.len()).len()) == flatten_items(
            items,
            items.len(),
        ),
    ensures
        skip(nodes, pos, count) == Some(pos + flatten_items(items, count).len()),
    decreases items, count,
{
    if count > 0 {
        lemma_skip_items(nodes, pos, items, (count - 1) as nat);
        lemma_item_stands(nodes, pos, items, count - 1);
        let mid = pos + flatten_items(items, (count - 1) as nat).len();
        lemma_skip_tree(nodes, mid, items[count - 1]);
        lemma_skip_split(nodes, pos, (count - 1) as nat, 1);
    }
}

/// The first `count` entries of a map that stands in a buffer are twice as
/// many subtrees, which end where their flattenings end.
pub proof fn lemma_skip_entries(
    nodes: Seq<NodeView>,
    pos: int,
    entries: Seq<(Tree, Tree)>,
    count: nat,
)
    requires
        0 <= pos,
        count <= entries.len(),
        forall|i: int| 0 <= i < entries.len() ==> (#[trigger] entries[i]).0.wf() && entries[i].1.wf(),
        pos + flatten_entries(entries, entries.len()).len() <= nodes.len(),
        nodes.subrange(pos, pos + flatten_entries(entries, entries.len()).len())
            == flatten_entries(entries, entries.len()),
    ensures
        skip(nodes, pos, 2 * count) == Some(pos + flatten_entries(entries, count).len()),
    decreases entries, count,
{
    if count > 0 {
        lemma_skip_entries(nodes, pos, entries, (count - 1) as nat);
        lemma_entry_stands(nodes, pos, entries, count - 1);
        let start = pos + flatten_entries(entries, (count - 1) as nat).len();
        let middle = start + entries[count - 1].0.flatten().len();
        lemma_skip_tree(nodes, start, entries[count - 1].0);
        lemma_skip_tree(nodes, middle, entries[count - 1].1);
        lemma_skip_split(nodes, pos, (2 * (count - 1)) as nat, 1);
        lemma_skip_split(nodes, pos, (2 * (count - 1) + 1) as nat, 1);
    }
}

/// True where every one of `nodes` can be read by a replay.
pub open spec fn whole_readable(nodes: Seq<NodeView>) -> bool {
    all_readable(nodes, 0, nodes.len() as int)
}

/// Runs of nodes that can be read make up a run that can be read.
proof fn lemma_readable_joined(a: Seq<NodeView>, b: Seq<NodeView>)
    requires
        whole_readable(a),
        whole_readable(b),
    ensures
        whole_readable(a + b),
{
    assert forall|i: int| 0 <= i < (a + b).len() implies (#[trigger] (a + b)[i]).is_readable() by {
        if i < a.len() {
            assert((a + b)[i] == a[i]);
        } else {
            assert((a + b)[i] == b[i - a.len()]);
        }
    }
}

/// Every node in the flattening of a valid tree can be read.
pub proof fn lemma_flatten_readable(tree: Tree)
    requires
        tree.wf(),
    ensures
        whole_readable(tree.flatten()),
    decreases tree, 0nat,
{
    match tree {
        Tree::Leaf(node) => {},
        Tree::Optional(payload) => {
            lemma_flatten_readable(*payload);
            lemma_readable_joined(seq![NodeView::SomeMarker], payload.flatten());
        },
        Tree::NewType(payload) => {
            lemma_flatten_readable(*payload);
            lemma_readable_joined(seq![NodeView::NewType], payload.flatten());
        },
        Tree::Sequence(items) => {
            lemma_items_readable(items, items.len());
            lemma_readable_joined(
                seq![NodeView::SeqHeader(items.len() as usize)],
                flatten_items(items, items.len()),
            );
        },
        Tree::Mapping(entries) => {
            lemma_entries_readable(entries, entries.len());
            lemma_readable_joined(
                seq![NodeView::MapHeader(entries.len() as usize)],
                flatten_entries(entries, entries.len()),
            );
        },
    }
}

/// Every node in the flattening of valid items can be read.
pub proof fn lemma_items_readable(items: Seq<Tree>, count: nat)
    requires
        count <= items.len(),
        forall|i: int| 0 <= i < items.len() ==> (#[trigger] items[i]).wf(),
    ensures
        whole_readable(flatten_items(items, count)),
    decreases items, count,
{
    if count > 0 {
        lemma_items_readable(items, (count - 1) as nat);
        lemma_flatten_readable(items[count - 1]);
        lemma_readable_joined(
            flatten_items(items, (count - 1) as nat),
            items[count - 1].flatten(),
        );
    }
}

/// Every node in the flattening of valid entries can be read.
pub proof fn lemma_entries_readable(entries: Seq<(Tree, Tree)>, count: nat)
    requires
        count <= entries.len(),
        forall|i: int| 0 <= i < entries.len() ==> (#[trigger] entries[i]).0.wf() && entries[i].1.wf(),
    ensures
        whole_readable(flatten_entries(entries, count)),
    decreases entries, count,
{
    if count > 0 {
        lemma_entries_readable(entries, (count - 1) as nat);
        lemma_flatten_readable(entries[count - 1].0);
        lemma_flatten_readable(entries[count - 1].1);
        lemma_readable_joined(
            flatten_entries(entries, (count - 1) as nat),
            entries[count - 1].0.flatten(),
        );
        lemma_readable_joined(
            flatten_entries(entries, (count - 1) as nat) + entries[count - 1].0.flatten(),
            entries[count - 1].1.flatten(),
        );
    }
}

/// Two valid trees whose flattenings stand at the same place are one tree.
pub proof fn lemma_tree_unique(nodes: Seq<NodeView>, pos: int, one: Tree, other: Tree)
    requires
        one.wf(),
        other.wf(),
        stands_at(nodes, pos, one),
        stands_at(nodes, pos, other),
    ensures
        one == other,
    decreases one, 0nat,
{
    let flat = one.flatten();
    let other_flat = other.flatten();
    assert(nodes[pos] == flat[0]) by {
        assert(nodes.subrange(pos, pos + flat.len())[0] == flat[0]);
    }
    assert(nodes[pos] == other_flat[0]) by {
        assert(nodes.subrange(pos, pos + other_flat.len())[0] == other_flat[0]);
    }
    lemma_skip_tree(nodes, pos, one);
    lemma_skip_tree(nodes, pos, other);
    assert(flat =~= other_flat);
    match one {
        Tree::Leaf(node) => {},
        Tree::Optional(payload) => {
            let twin = other->Optional_0;
            lemma_inner_stands(nodes, pos, flat, payload.flatten());
            lemma_inner_stands(nodes, pos, other_flat, twin.flatten());
            lemma_tree_unique(nodes, pos + 1, *payload, *twin);
        },
        Tree::NewType(payload) => {
            let twin = other->NewType_0;
            lemma_inner_stands(nodes, pos, flat, payload.flatten());
            lemma_inner_stands(nodes, pos, other_flat, twin.flatten());
            lemma_tree_unique(nodes, pos + 1, *payload, *twin);
        },
        Tree::Sequence(items) => {
            let twins = other->Sequence_0;
            assert(items.len() == twins.len());
            lemma_inner_stands(nodes, pos, flat, flatten_items(items, items.len()));
            lemma_inner_stands(nodes, pos, other_flat, flatten_items(twins, twins.len()));
            lemma_items_unique(nodes, pos + 1, items, twins, items.len());
            assert(items =~= twins);
        },
        Tree::Mapping(entries) => {
            let twins = other->Mapping_0;
            assert(entries.len() == twins.len());
            lemma_inner_stands(nodes, pos, flat, flatten_entries(entries, entries.len()));
            lemma_inner_stands(nodes, pos, other_flat, flatten_entries(twins, twins.len()));
            lemma_entries_unique(nodes, pos + 1, entries, twins, entries.len());
            assert(entries =~= twins);
        },
    }
}

/// What follows the first node of a flattening that stands in a buffer
/// stands behind that node.
pub proof fn lemma_inner_stands(
    nodes: Seq<NodeView>,
    pos: int,
    flat: Seq<NodeView>,
    inner: Seq<NodeView>,
)
    requires
        0 <= pos,
        pos + flat.len() <= nodes.len(),
        nodes.subrange(pos, pos + flat.len()) == flat,
        flat.len() == 1 + inner.len(),
        flat.subrange(1, flat.len() as int) =~= inner,
    ensures
        pos + 1 + inner.len() <= nodes.len(),
        nodes.subrange(pos + 1, pos + 1 + inner.len()) == inner,
{
    assert(nodes.subrange(pos + 1, pos + 1 + inner.len()) =~= inner) by {
        assert forall|i: int| 0 <= i < inner.len() implies nodes[pos + 1 + i] == inner[i] by {
            assert(nodes.subrange(pos, pos + flat.len())[1 + i] == flat[1 + i]);
            assert(flat.subrange(1, flat.len() as int)[i] == flat[1 + i]);
        }
    }
}

/// Two runs of valid items whose flattenings stand at the same place agree
/// in their first `count` items.
pub proof fn lemma_items_unique(
    nodes: Seq<NodeView>,
    pos: int,
    items: Seq<Tree>,
    twins: Seq<Tree>,
    count: nat,
)
    requires
        0 <= pos,
        count <= items.len(),
        items.len() == twins.len(),
        forall|i: int| 0 <= i < items.len() ==> (#[trigger] items[i]).wf(),
        forall|i: int| 0 <= i < twins.len() ==> (#[trigger] twins[i]).wf(),
        pos + flatten_items(items, items.len()).len() <= nodes.len(),
        nodes.subrange(pos, pos + flatten_items(items, items.len()).len()) == flatten_items(
            items,
            items.len(),
        ),
        pos + flatten_items(twins, twins.len()).len() <= nodes.len(),
        nodes.subrange(pos, pos + flatten_items(twins, twins.len()).len()) == flatten_items(
            twins,
            twins.len(),
        ),
    ensures
        forall|i: int| 0 <= i < count ==> items[i] == twins[i],
        flatten_items(items, count) == flatten_items(twins, count),
    decreases items, count,
{
    if count > 0 {
        lemma_items_unique(nodes, pos, items, twins, (count - 1) as nat);
        lemma_item_stands(nodes, pos, items, count - 1);
        lemma_item_stands(nodes, pos, twins, count - 1);
        let mid = pos + flatten_items(items, (count - 1) as nat).len();
        lemma_tree_unique(nodes, mid, items[count - 1], twins[count - 1]);
    }
}

/// Two runs of valid entries whose flattenings stand at the same place agree
/// in their first `count` entries.
pub proof fn lemma_entries_unique(
    nodes: Seq<NodeView>,
    pos: int,
    entries: Seq<(Tree, Tree)>,
    twins: Seq<(Tree, Tree)>,
    count: nat,
)
    requires
        0 <= pos,
        count <= entries.len(),
        entries.len() == twins.len(),
        forall|i: int| 0 <= i < entries.len() ==> (#[trigger] entries[i]).0.wf() && entries[i].1.wf(),
        forall|i: int| 0 <= i < twins.len() ==> (#[trigger] twins[i]).0.wf() && twins[i].1.wf(),
        pos + flatten_entries(entries, entries.len()).len() <= nodes.len(),
        nodes.subrange(pos, pos + flatten_entries(entries, entries.len()).len())
            == flatten_entries(entries, entries.len()),
        pos + flatten_entries(twins, twins.len()).len() <= nodes.len(),
        nodes.subrange(pos, pos + flatten_entries(twins, twins.len()).len()) == flatten_entries(
            twins,
            twins.len(),
        ),
    ensures
        forall|i: int| 0 <= i < count ==> entries[i] == twins[i],
        flatten_entries(entries, count) == flatten_entries(twins, count),
    decreases entries, count,
{
    if count > 0 {
        lemma_entries_unique(nodes, pos, entries, twins, (count - 1) as nat);
        lemma_entry_stands(nodes, pos, entries, count - 1);
        lemma_entry_stands(nodes, pos, twins, count - 1);
        let start = pos + flatten_entries(entries, (count - 1) as nat).len();
        lemma_tree_unique(nodes, start, entries[count - 1].0, twins[count - 1].0);
        let middle = start + entries[count - 1].0.flatten().len();
        lemma_tree_unique(nodes, middle, entries[count - 1].1, twins[count - 1].1);
    }
}

} // verus!
