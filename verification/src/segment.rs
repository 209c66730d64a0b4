use vstd::prelude::*;
use crate::bucket::views;
use crate::bucket::Bucket;
use crate::de::BucketDeserializer;
use crate::error::BucketError;
use crate::node::BucketNode;
use crate::node::NodeView;
use crate::shape::after_replay;
use crate::shape::lemma_skip_bounds;
use crate::shape::lemma_skip_split;
use crate::shape::replay_end;
use crate::shape::skip;
use crate::value::Value;

verus! {

/// The number of subtrees that a node announces, as far as they could stand
/// in a buffer of `room` more nodes; `None` where they cannot.
fn arity_within(node: &BucketNode, room: usize) -> (arity: Option<usize>)
    ensures
        match arity {
            Some(count) => count == node@.arity() && count <= room,
            None => node@.arity() > room,
        },
{
    let count: usize = match node {
        BucketNode::SomeMarker => 1,
        BucketNode::NewType => 1,
        BucketNode::SeqHeader(count) => *count,
        BucketNode::MapHeader(count) => {
            if *count > room / 2 {
                return None;
            }
            2 * *count
        },
        _ => 0,
    };
    if count > room {
        None
    } else {
        Some(count)
    }
}

/// Moves `offset` behind the subtree that starts there. Where the buffer ends
/// before the subtree is complete, `offset` stays and the answer is `false`.
pub fn skip_item(offset: &mut usize, nodes: &[BucketNode]) -> (skipped: bool)
    ensures
        match skip(views(nodes@), *old(offset) as int, 1) {
            Some(end) => skipped && *final(offset) == end,
            None => !skipped && *final(offset) == *old(offset),
        },
{
    let ghost buffer = views(nodes@);
    let ghost from = *offset as int;
    let mut at: usize = *offset;
    let mut pending: usize = 1;
    while pending > 0
        invariant
            buffer == views(nodes@),
            from == *old(offset),
            *offset == *old(offset),
            from <= at,
            at + pending <= nodes@.len() || at >= nodes@.len(),
            skip(buffer, from, 1) == skip(buffer, at as int, pending as nat),
        decreases nodes@.len() - at,
    {
        if at >= nodes.len() {
            return false;
        }
        let room = nodes.len() - at - 1;
        let arity = match arity_within(&nodes[at], room - (pending - 1)) {
            Some(arity) => arity,
            None => {
                proof {
                    let more = (pending - 1 + buffer[at as int].arity()) as nat;
                    if skip(buffer, at + 1, more) is Some {
                        lemma_skip_bounds(buffer, at + 1, more);
                    }
                }
                return false;
            },
        };
        pending = pending - 1 + arity;
        at = at + 1;
    }
    *offset = at;
    true
}

/// A part of a bucket: the subtree that starts at `start`.
///
/// A segment gives access to one element of a captured sequence without a
/// replay of what stands before it.
pub struct BucketSegment<'x, 'a> {
    pub bucket: &'x mut Bucket<'a>,
    pub start: usize,
}

impl<'a> Bucket<'a> {
    /// The segment that is the whole tree of this bucket.
    pub fn segment<'x>(&'x mut self) -> (segment: BucketSegment<'x, 'a>)
        ensures
            segment.start == 0,
            segment.bucket@ == old(self)@,
            final(self)@ == final(segment.bucket)@,
    {
        BucketSegment { bucket: self, start: 0 }
    }
}

/// Where the element `index` of the sequence starts whose header stands at
/// `start`; `None` where no sequence stands there, where it has no such
/// element, or where the buffer ends before that element is complete.
pub open spec fn element_start(nodes: Seq<NodeView>, start: int, index: nat) -> Option<int> {
    if 0 <= start < nodes.len() && nodes[start] is SeqHeader && index < nodes[start].arity() && skip(
        nodes,
        start + 1,
        index + 1,
    ) is Some {
        skip(nodes, start + 1, index)
    } else {
        None
    }
}

impl<'x, 'a> BucketSegment<'x, 'a> {
    /// The segment of the element `index` of this sequence; `None` where this
    /// segment is no sequence or has no such element.
    pub fn try_seq_index(self, index: usize) -> (element: Option<BucketSegment<'x, 'a>>)
        ensures
            match element_start(old(self.bucket)@, self.start as int, index as nat) {
                Some(start) => {
                    &&& element is Some
                    &&& element->Some_0.start == start
                    &&& element->Some_0.bucket@ == old(self.bucket)@
                    &&& *final(element->Some_0.bucket) == *final(self.bucket)
                },
                None => element is None && *final(self.bucket) == *old(self.bucket),
            },
    {
        let ghost nodes = self.bucket@;
        let ghost first = self.start + 1;
        if self.start >= self.bucket.len() {
            return None;
        }
        let size = match &self.bucket.nodes()[self.start] {
            BucketNode::SeqHeader(size) => *size,
            _ => {
                return None;
            },
        };
        if index >= size {
            return None;
        }
        let mut at: usize = self.start + 1;
        let mut passed: usize = 0;
        while passed < index
            invariant
                passed <= index,
                nodes == self.bucket@,
                first == self.start + 1,
                skip(nodes, first, passed as nat) == Some(at as int),
            decreases index - passed,
        {
            proof {
                lemma_skip_split(nodes, first, passed as nat, 1);
                lemma_skip_split(nodes, first, (passed + 1) as nat, (index - passed) as nat);
            }
            if !skip_item(&mut at, self.bucket.nodes()) {
                return None;
            }
            passed += 1;
        }
        let mut end: usize = at;
        proof {
            lemma_skip_split(nodes, first, index as nat, 1);
        }
        if !skip_item(&mut end, self.bucket.nodes()) {
            return None;
        }
        Some(BucketSegment { bucket: self.bucket, start: at })
    }

    /// A replay of this segment from its first node that takes the owned values.
    pub fn deserializer(self) -> (de: BucketDeserializer<'x, 'a>)
        ensures
            de.cursor == self.start,
            !de.clone,
            de.bucket@ == old(self.bucket)@,
            *final(de.bucket) == *final(self.bucket),
    {
        BucketDeserializer { bucket: self.bucket, cursor: self.start, clone: false }
    }

    /// Replays this segment into a value of its shape, with a replay that
    /// takes if `clone` is not set.
    fn replay(&mut self, clone: bool) -> (replayed: Result<Value<'a>, BucketError>)
        ensures
            *final(final(self).bucket) == *final(old(self).bucket),
            final(self).start == old(self).start,
            final(self).bucket@ == after_replay(
                old(self).bucket@,
                old(self).start as int,
                replay_end(old(self).bucket@, old(self).start as int, 1).cursor,
                clone,
            ),
            match replayed {
                Ok(value) => {
                    &&& replay_end(old(self).bucket@, old(self).start as int, 1).result is Ok
                    &&& value@.wf()
                    &&& value@.flatten() == old(self).bucket@.subrange(
                        old(self).start as int,
                        replay_end(old(self).bucket@, old(self).start as int, 1).cursor,
                    )
                },
                Err(error) => replay_end(old(self).bucket@, old(self).start as int, 1).result
                    == Err::<(), BucketError>(error),
            },
    {
        let mut de = BucketDeserializer { bucket: &mut *self.bucket, cursor: self.start, clone };
        de.deserialize_value()
    }

    /// Replays this segment into a value of its shape and takes the owned
    /// text and bytes that it reads.
    pub fn deserialize_into(&mut self) -> (replayed: Result<Value<'a>, BucketError>)
        ensures
            *final(final(self).bucket) == *final(old(self).bucket),
            final(self).start == old(self).start,
            final(self).bucket@ == after_replay(
                old(self).bucket@,
                old(self).start as int,
                replay_end(old(self).bucket@, old(self).start as int, 1).cursor,
                false,
            ),
            match replayed {
                Ok(value) => {
                    &&& replay_end(old(self).bucket@, old(self).start as int, 1).result is Ok
                    &&& value@.wf()
                    &&& value@.flatten() == old(self).bucket@.subrange(
                        old(self).start as int,
                        replay_end(old(self).bucket@, old(self).start as int, 1).cursor,
                    )
                },
                Err(error) => replay_end(old(self).bucket@, old(self).start as int, 1).result
                    == Err::<(), BucketError>(error),
            },
    {
        self.replay(false)
    }

    /// Replays this segment into a value of its shape and copies the owned
    /// text and bytes: the bucket stays as it is.
    pub fn deserialize_into_clone(&mut self) -> (replayed: Result<Value<'a>, BucketError>)
        ensures
            *final(final(self).bucket) == *final(old(self).bucket),
            final(self).start == old(self).start,
            final(self).bucket@ == old(self).bucket@,
            match replayed {
                Ok(value) => {
                    &&& replay_end(old(self).bucket@, old(self).start as int, 1).result is Ok
                    &&& value@.wf()
                    &&& value@.flatten() == old(self).bucket@.subrange(
                        old(self).start as int,
                        replay_end(old(self).bucket@, old(self).start as int, 1).cursor,
                    )
                },
                Err(error) => replay_end(old(self).bucket@, old(self).start as int, 1).result
                    == Err::<(), BucketError>(error),
            },
    {
        let ghost nodes = self.bucket@;
        let replayed = self.replay(true);
        assert(self.bucket@ =~= nodes);
        replayed
    }
}

} // verus!
