use vstd::prelude::*;
use crate::node::BucketNode;
use crate::node::NodeView;
use crate::tree::Tree;

verus! {

/// A value in the shape that it has: what a bucket is replayed into, and
/// what a bucket can be captured from.
#[derive(Debug, PartialEq, Eq)]
pub enum Value<'a> {
    /// A value without subtrees: a scalar, text, bytes, or an empty optional.
    Leaf(BucketNode<'a>),
    /// A filled optional.
    Optional(Box<Value<'a>>),
    /// A transparent wrapper.
    NewType(Box<Value<'a>>),
    /// A sequence.
    Sequence(Vec<Value<'a>>),
    /// A map, as its entries in order.
    Mapping(Vec<(Value<'a>, Value<'a>)>),
}

impl<'a> Value<'a> {
    /// This value as a tree of mathematical values.
    pub open spec fn tree(self) -> Tree
        decreases self,
    {
        match self {
            Value::Leaf(node) => Tree::Leaf(node@),
            Value::Optional(payload) => Tree::Optional(Box::new((*payload).tree())),
            Value::NewType(payload) => Tree::NewType(Box::new((*payload).tree())),
            Value::Sequence(items) => Tree::Sequence(
                Seq::new(
                    items.len() as nat,
                    |i: int|
                        if 0 <= i < items.len() {
                            items[i].tree()
                        } else {
                            Tree::Leaf(NodeView::Unit)
                        },
                ),
            ),
            Value::Mapping(entries) => Tree::Mapping(
                Seq::new(
                    entries.len() as nat,
                    |i: int|
                        if 0 <= i < entries.len() {
                            (entries[i].0.tree(), entries[i].1.tree())
                        } else {
                            (Tree::Leaf(NodeView::Unit), Tree::Leaf(NodeView::Unit))
                        },
                ),
            ),
        }
    }
}

impl<'a> View for Value<'a> {
    type V = Tree;

    open spec fn view(&self) -> Tree {
        self.tree()
    }
}

/// The trees of a run of values.
pub open spec fn trees<'a>(values: Seq<Value<'a>>) -> Seq<Tree> {
    Seq::new(values.len(), |i: int| values[i]@)
}

/// The trees of a run of entries.
pub open spec fn entry_trees<'a>(entries: Seq<(Value<'a>, Value<'a>)>) -> Seq<(Tree, Tree)> {
    Seq::new(entries.len(), |i: int| (entries[i].0@, entries[i].1@))
}

/// A sequence's tree holds the trees of its items.
pub proof fn lemma_sequence_view<'a>(items: Vec<Value<'a>>)
    ensures
        Value::Sequence(items)@ == Tree::Sequence(trees(items@)),
{
    assert(Value::Sequence(items)@->Sequence_0 =~= trees(items@));
}

/// A map's tree holds the trees of its entries.
pub proof fn lemma_mapping_view<'a>(entries: Vec<(Value<'a>, Value<'a>)>)
    ensures
        Value::Mapping(entries)@ == Tree::Mapping(entry_trees(entries@)),
{
    assert(Value::Mapping(entries)@->Mapping_0 =~= entry_trees(entries@));
}

} // verus!
