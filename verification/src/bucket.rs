use vstd::prelude::*;
use crate::de::BucketDeserializer;
use crate::node::BucketNode;
use crate::node::NodeView;
use crate::shape::lemma_skip_same_arity;
use crate::shape::well_formed;

verus! {

/// The mathematical values of a run of nodes.
pub open spec fn views<'a>(nodes: Seq<BucketNode<'a>>) -> Seq<NodeView> {
    Seq::new(nodes.len(), |i: int| nodes[i]@)
}

/// One captured value: the pre-order flattening of its tree, kept for replay.
///
/// A bucket always holds exactly one complete tree ([`well_formed`]). A
/// replay that clones leaves the bucket as it is and can be repeated; a
/// replay that takes moves the owned text and bytes out and leaves
/// [`BucketNode::Consumed`] in their places.
#[derive(Debug, PartialEq, Eq)]
pub struct Bucket<'a> {
    inner: Vec<BucketNode<'a>>,
}

impl<'a> View for Bucket<'a> {
    type V = Seq<NodeView>;

    closed spec fn view(&self) -> Seq<NodeView> {
        views(self.inner@)
    }
}

/// Moves the node at `at` out of a buffer and leaves `Consumed` in its place.
fn take_node<'a>(nodes: &mut Vec<BucketNode<'a>>, at: usize) -> (node: BucketNode<'a>)
    requires
        at < old(nodes)@.len(),
    ensures
        node == old(nodes)@[at as int],
        final(nodes)@ == old(nodes)@.update(at as int, BucketNode::Consumed),
    no_unwind
{
    let mut taken = BucketNode::Consumed;
    std::mem::swap(&mut nodes[at], &mut taken);
    taken
}

impl<'a> Bucket<'a> {
    /// A bucket holds the flattening of exactly one tree at all times.
    #[verifier::type_invariant]
    spec fn holds_one_tree(&self) -> bool {
        well_formed(views(self.inner@))
    }

    /// Wraps the nodes of a buffer that is the flattening of one tree.
    pub(crate) fn from_nodes(nodes: Vec<BucketNode<'a>>) -> (bucket: Self)
        requires
            well_formed(views(nodes@)),
        ensures
            bucket@ == views(nodes@),
    {
        Bucket { inner: nodes }
    }

    /// Unwraps the nodes of the buffer.
    pub(crate) fn into_nodes(self) -> (nodes: Vec<BucketNode<'a>>)
        ensures
            views(nodes@) == self@,
            well_formed(self@),
    {
        proof {
            use_type_invariant(&self);
        }
        self.inner
    }

    /// The nodes of this bucket, in buffer order: the flattening of one tree.
    pub fn nodes(&self) -> (nodes: &[BucketNode<'a>])
        ensures
            views(nodes@) == self@,
            well_formed(self@),
    {
        proof {
            use_type_invariant(self);
        }
        self.inner.as_slice()
    }

    /// The number of nodes in this bucket.
    pub fn len(&self) -> (len: usize)
        ensures
            len == self@.len(),
    {
        self.inner.len()
    }

    /// Reads the node at `at` as a replay does: a copy where `clone` is set or
    /// the node owns nothing, else the node itself, with `Consumed` left behind.
    pub(crate) fn read_at(&mut self, at: usize, clone: bool) -> (node: BucketNode<'a>)
        requires
            at < old(self)@.len(),
        ensures
            node@ == old(self)@[at as int],
            final(self)@ == old(self)@.update(at as int, old(self)@[at as int].after_read(clone)),
    {
        let ghost before = views(self.inner@);
        if clone || !self.inner[at].is_owned() {
            let node = self.inner[at].duplicate();
            assert(before =~= before.update(at as int, before[at as int].after_read(clone)));
            node
        } else {
            proof {
                use_type_invariant(&*self);
                let after = views(self.inner@.update(at as int, BucketNode::Consumed));
                assert(after =~= before.update(at as int, NodeView::Consumed));
                lemma_skip_same_arity(before, after, 0, 1);
            }
            let taken = take_node(&mut self.inner, at);
            proof {
                let after = views(self.inner@);
                assert(after =~= before.update(at as int, NodeView::Consumed));
            }
            taken
        }
    }

    /// A replay of this bucket from its first node that takes the owned values.
    pub fn deserializer<'x>(&'x mut self) -> (de: BucketDeserializer<'x, 'a>)
        ensures
            de.cursor == 0,
            !de.clone,
            de.bucket@ == old(self)@,
            final(self)@ == final(de.bucket)@,
    {
        BucketDeserializer { bucket: self, cursor: 0, clone: false }
    }
}

} // verus!
