use vstd::prelude::*;
use crate::bucket::views;
use crate::bucket::Bucket;
use crate::error::BucketError;
use crate::node::BucketNode;
use crate::node::NodeView;
use crate::shape::all_readable;
use crate::shape::lemma_skip_same_arity;
use crate::shape::replay_end;
use crate::shape::well_formed;
use crate::value::Value;

verus! {

/// The nodes of a buffer without a borrow: the owned kind in place of each
/// borrowed node.
pub open spec fn owned_nodes(nodes: Seq<NodeView>) -> Seq<NodeView> {
    Seq::new(nodes.len(), |i: int| nodes[i].captured(true))
}

/// A buffer without its borrows is still the flattening of one tree.
pub proof fn lemma_owned_nodes_well_formed(nodes: Seq<NodeView>)
    requires
        well_formed(nodes),
    ensures
        well_formed(owned_nodes(nodes)),
{
    lemma_skip_same_arity(nodes, owned_nodes(nodes), 0, 1);
}

/// A bucket that borrows nothing: it outlives the source that it was
/// captured from.
#[derive(Debug, PartialEq, Eq)]
pub struct OwnedBucket {
    inner: Bucket<'static>,
}

impl View for OwnedBucket {
    type V = Seq<NodeView>;

    closed spec fn view(&self) -> Seq<NodeView> {
        self.inner@
    }
}

impl<'a> Bucket<'a> {
    /// Cuts this bucket loose from its source: the borrowed text and bytes
    /// are copied, and every other node stays what it is.
    pub fn into_owned(self) -> (owned: OwnedBucket)
        ensures
            owned@ == owned_nodes(self@),
    {
        let ghost before = self@;
        let mut nodes = self.into_nodes();
        let mut kept: Vec<BucketNode<'static>> = Vec::new();
        let mut i: usize = 0;
        while i < nodes.len()
            invariant
                i <= nodes.len(),
                nodes.len() == before.len(),
                kept.len() == i,
                forall|j: int| i <= j < nodes.len() ==> (#[trigger] nodes[j])@ == before[j],
                forall|j: int| 0 <= j < i ==> (#[trigger] kept[j])@ == before[j].captured(true),
            decreases nodes.len() - i,
        {
            let mut node = BucketNode::Unit;
            std::mem::swap(&mut nodes[i], &mut node);
            kept.push(node.into_owned());
            i += 1;
        }
        proof {
            assert(views(kept@) =~= owned_nodes(before));
            lemma_owned_nodes_well_formed(before);
        }
        OwnedBucket { inner: Bucket::from_nodes(kept) }
    }
}

impl OwnedBucket {
    /// The bucket, to replay or to render.
    pub fn into_bucket(self) -> (bucket: Bucket<'static>)
        ensures
            bucket@ == self@,
    {
        self.inner
    }

    /// The nodes of this bucket, in buffer order: the flattening of one tree.
    pub fn nodes(&self) -> (nodes: &[BucketNode<'static>])
        ensures
            views(nodes@) == self@,
            well_formed(self@),
    {
        self.inner.nodes()
    }

    /// Replays this bucket into a value that borrows nothing, and takes the
    /// owned text and bytes in doing so: the bucket is used up.
    pub fn deserialize_into(self) -> (replayed: Result<Value<'static>, BucketError>)
        ensures
            match replayed {
                Ok(value) => {
                    &&& replay_end(self@, 0, 1).result is Ok
                    &&& value@.wf()
                    &&& value@.flatten() == self@.subrange(0, replay_end(self@, 0, 1).cursor)
                },
                Err(error) => replay_end(self@, 0, 1).result == Err::<(), BucketError>(error),
            },
            well_formed(self@),
            replayed is Ok <==> all_readable(self@, 0, self@.len() as int),
            replayed is Ok ==> replayed->Ok_0@.flatten() == self@,
            replayed is Err ==> replayed->Err_0 == BucketError::ConsumedTwice,
    {
        let mut bucket = self.inner;
        bucket.deserialize_into()
    }
}

} // verus!
