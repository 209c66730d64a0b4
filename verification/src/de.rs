use vstd::prelude::*;
use crate::bucket::Bucket;
use crate::error::BucketError;
use crate::node::BucketNode;
use crate::node::NodeView;
use crate::shape::after_replay;

verus! {

/// What a replay finds at `cursor`: the node to hand on, or why it cannot.
pub open spec fn read_result(nodes: Seq<NodeView>, cursor: int) -> Result<NodeView, BucketError> {
    if !(0 <= cursor < nodes.len()) {
        Err(BucketError::CorruptBuffer)
    } else if nodes[cursor] is Consumed {
        Err(BucketError::ConsumedTwice)
    } else if nodes[cursor] is Unsized {
        Err(BucketError::CorruptBuffer)
    } else {
        Ok(nodes[cursor])
    }
}

/// The cursor after a replay has looked at `cursor`: one further, unless the
/// buffer had ended.
pub open spec fn read_cursor(nodes: Seq<NodeView>, cursor: int) -> int {
    if 0 <= cursor < nodes.len() {
        cursor + 1
    } else {
        cursor
    }
}

/// A replay in progress: the bucket, the position of the next node, and
/// whether owned values are copied (`clone`) or moved out.
///
/// The cursor only moves forward. What the nodes mean together (which node
/// ends an optional, how many follow a header) is for the caller to act on:
/// [`BucketSeqDeserializer`] and [`BucketMapDeserializer`] count for it.
///
/// The fields are public so that the contracts can say what the bucket holds
/// once the replay has let go of it.
pub struct BucketDeserializer<'x, 'de> {
    pub bucket: &'x mut Bucket<'de>,
    pub cursor: usize,
    pub clone: bool,
}

impl<'x, 'de> BucketDeserializer<'x, 'de> {
    /// A replay of `bucket` from its first node.
    pub fn new(bucket: &'x mut Bucket<'de>, clone: bool) -> (de: Self)
        ensures
            de.cursor == 0,
            de.clone == clone,
            de.bucket@ == old(bucket)@,
            final(bucket)@ == final(de.bucket)@,
    {
        BucketDeserializer { bucket, cursor: 0, clone }
    }

    /// Reads the node at the cursor and moves the cursor behind it.
    ///
    /// A readable node is handed on: the node itself where it owns text or
    /// bytes and the replay takes, with `Consumed` left in its place, and a
    /// copy otherwise. A `Consumed` node, a placeholder, or a cursor behind
    /// the last node is an error.
    pub fn deserialize_any(&mut self) -> (read: Result<BucketNode<'de>, BucketError>)
        ensures
            *final(final(self).bucket) == *final(old(self).bucket),
            final(self).clone == old(self).clone,
            final(self).cursor == read_cursor(old(self).bucket@, old(self).cursor as int),
            final(self).bucket@ == after_replay(
                old(self).bucket@,
                old(self).cursor as int,
                final(self).cursor as int,
                old(self).clone,
            ),
            match read {
                Ok(node) => read_result(old(self).bucket@, old(self).cursor as int) == Ok::<
                    NodeView,
                    BucketError,
                >(node@),
                Err(error) => read_result(old(self).bucket@, old(self).cursor as int) == Err::<
                    NodeView,
                    BucketError,
                >(error),
            },
    {
        let ghost before = self.bucket@;
        let at = self.cursor;
        if at >= self.bucket.len() {
            assert(before =~= after_replay(before, at as int, at as int, self.clone));
            return Err(BucketError::CorruptBuffer);
        }
        self.cursor = at + 1;
        match &self.bucket.nodes()[at] {
            BucketNode::Consumed => {
                assert(before =~= after_replay(before, at as int, at + 1, self.clone));
                return Err(BucketError::ConsumedTwice);
            },
            BucketNode::Unsized => {
                assert(before =~= after_replay(before, at as int, at + 1, self.clone));
                return Err(BucketError::CorruptBuffer);
            },
            _ => {},
        }
        let node = self.bucket.read_at(at, self.clone);
        assert(self.bucket@ =~= after_replay(before, at as int, at + 1, self.clone));
        Ok(node)
    }
}

/// Whether a request for the next element of a sequence finds one, with
/// `remaining` elements left.
pub open spec fn element_found(remaining: nat) -> bool {
    remaining > 0
}

/// The number of elements that are left after a request for the next one.
pub open spec fn after_element(remaining: nat) -> nat {
    if remaining > 0 {
        (remaining - 1) as nat
    } else {
        0
    }
}

/// The count of a sequence's elements that a replay has yet to read.
pub struct BucketSeqDeserializer {
    size: usize,
}

impl BucketSeqDeserializer {
    /// The number of elements that are left.
    pub closed spec fn remaining(&self) -> nat {
        self.size as nat
    }

    /// A cursor over the `size` elements that follow a sequence's header.
    pub fn new(size: usize) -> (seq: Self)
        ensures
            seq.remaining() == size,
    {
        BucketSeqDeserializer { size }
    }

    /// Asks for the next element: `true` where one is left, which the caller
    /// then reads from the replay; `false`, any number of times, at the end.
    /// The request itself never fails.
    pub fn next_element(&mut self) -> (more: bool)
        ensures
            more == element_found(old(self).remaining()),
            final(self).remaining() == after_element(old(self).remaining()),
    {
        if self.size == 0 {
            false
        } else {
            self.size -= 1;
            true
        }
    }
}

/// Where the reading of a map's entries stands.
pub struct MapProgress {
    /// The number of entries whose value has not been read.
    pub remaining: nat,
    /// True where a key was read and its value was not.
    pub value_due: bool,
}

impl MapProgress {
    /// What a request for the next key finds: an ordering error while a value
    /// is due, else whether an entry is left.
    pub open spec fn key_found(self) -> Result<bool, BucketError> {
        if self.value_due {
            Err(BucketError::MapOrderViolation)
        } else {
            Ok(self.remaining > 0)
        }
    }

    /// The progress after a request for the next key: a value is due where
    /// the request found a key.
    pub open spec fn after_key(self) -> MapProgress {
        if !self.value_due && self.remaining > 0 {
            MapProgress { remaining: self.remaining, value_due: true }
        } else {
            self
        }
    }

    /// What a request for a value finds: an ordering error unless a value is due.
    pub open spec fn value_found(self) -> Result<(), BucketError> {
        if self.value_due {
            Ok(())
        } else {
            Err(BucketError::MapOrderViolation)
        }
    }

    /// The progress after a request for a value: where one was due, its
    /// entry is done.
    pub open spec fn after_value(self) -> MapProgress {
        if self.value_due {
            MapProgress { remaining: (self.remaining - 1) as nat, value_due: false }
        } else {
            self
        }
    }
}

/// The count of a map's entries that a replay has yet to read, and whether a
/// key was read whose value is still due.
pub struct BucketMapDeserializer {
    size: usize,
    pending: bool,
}

impl View for BucketMapDeserializer {
    type V = MapProgress;

    closed spec fn view(&self) -> MapProgress {
        MapProgress { remaining: self.size as nat, value_due: self.pending }
    }
}

impl BucketMapDeserializer {
    /// A value can only be due for an entry that is still counted.
    #[verifier::type_invariant]
    spec fn pending_entry_is_counted(&self) -> bool {
        self.pending ==> self.size > 0
    }

    /// A cursor over the `size` entries that follow a map's header.
    pub fn new(size: usize) -> (map: Self)
        ensures
            map@ == (MapProgress { remaining: size as nat, value_due: false }),
    {
        BucketMapDeserializer { size, pending: false }
    }

    /// Asks for the next key: `true` where an entry is left, whose key the
    /// caller then reads from the replay; `false` at the end. While a value is
    /// due this is an ordering error.
    pub fn next_key(&mut self) -> (more: Result<bool, BucketError>)
        ensures
            more == old(self)@.key_found(),
            final(self)@ == old(self)@.after_key(),
    {
        if self.pending {
            return Err(BucketError::MapOrderViolation);
        }
        if self.size == 0 {
            return Ok(false);
        }
        self.pending = true;
        Ok(true)
    }

    /// Asks for the value of the key that was read last, which the caller then
    /// reads from the replay. Without such a key this is an ordering error.
    pub fn next_value(&mut self) -> (due: Result<(), BucketError>)
        ensures
            due == old(self)@.value_found(),
            final(self)@ == old(self)@.after_value(),
    {
        proof {
            use_type_invariant(&*self);
        }
        if !self.pending {
            return Err(BucketError::MapOrderViolation);
        }
        self.pending = false;
        self.size -= 1;
        Ok(())
    }
}

} // verus!
