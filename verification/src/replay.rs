use vstd::prelude::*;
use crate::bucket::Bucket;
use crate::de::BucketDeserializer;
use crate::de::BucketMapDeserializer;
use crate::de::BucketSeqDeserializer;
use crate::error::BucketError;
use crate::node::BucketNode;
use crate::shape::after_replay;
use crate::shape::all_readable;
use crate::shape::lemma_after_replay_joins;
use crate::shape::lemma_first_unreadable;
use crate::shape::lemma_replay_end_continues;
use crate::shape::lemma_replay_end_done;
use crate::shape::lemma_replay_end_bounds;
use crate::shape::lemma_replay_end_header;
use crate::shape::lemma_replay_end_step;
use crate::shape::lemma_replay_of_bucket;
use crate::shape::lemma_after_replay_well_formed;
use crate::shape::well_formed;
use crate::shape::lemma_skip_bounds;
use crate::shape::replay_end;
use crate::shape::skip;
use crate::tree::flatten_entries;
use crate::tree::flatten_items;
use crate::tree::lemma_flatten_entries_prefix;
use crate::tree::lemma_flatten_items_prefix;
use crate::tree::Tree;
use crate::value::entry_trees;
use crate::value::lemma_mapping_view;
use crate::value::lemma_sequence_view;
use crate::value::trees;
use crate::value::Value;

verus! {

/// True where every one of `items` is a valid tree.
pub open spec fn all_wf(items: Seq<Tree>) -> bool {
    forall|i: int| 0 <= i < items.len() ==> (#[trigger] items[i]).wf()
}

/// True where both sides of every one of `entries` are valid trees.
pub open spec fn all_entries_wf(entries: Seq<(Tree, Tree)>) -> bool {
    forall|i: int| 0 <= i < entries.len() ==> (#[trigger] entries[i]).0.wf() && entries[i].1.wf()
}

impl<'x, 'de> BucketDeserializer<'x, 'de> {
    /// Replays the subtree at the cursor into a value of its shape.
    ///
    /// The nodes are read in order, as [`Self::deserialize_any`] reads them,
    /// and the cursor ends behind the subtree. The first node that cannot be
    /// read ends the replay with its error, and nothing of the value is kept.
    pub fn deserialize_value(&mut self) -> (replayed: Result<Value<'de>, BucketError>)
        ensures
            *final(final(self).bucket) == *final(old(self).bucket),
            final(self).clone == old(self).clone,
            final(self).cursor == replay_end(old(self).bucket@, old(self).cursor as int, 1).cursor,
            final(self).bucket@ == after_replay(
                old(self).bucket@,
                old(self).cursor as int,
                final(self).cursor as int,
                old(self).clone,
            ),
            match replayed {
                Ok(value) => {
                    &&& replay_end(old(self).bucket@, old(self).cursor as int, 1).result is Ok
                    &&& value@.wf()
                    &&& value@.flatten() == old(self).bucket@.subrange(
                        old(self).cursor as int,
                        final(self).cursor as int,
                    )
                },
                Err(error) => replay_end(old(self).bucket@, old(self).cursor as int, 1).result
                    == Err::<(), BucketError>(error),
            },
        decreases old(self).bucket@.len() - old(self).cursor, 0nat,
    {
        let ghost nodes = self.bucket@;
        let ghost from = self.cursor as int;
        let read = self.deserialize_any();
        proof {
            lemma_replay_end_bounds(nodes, from, 1);
            lemma_first_unreadable(nodes, from + 1);
            if skip(nodes, from, 1) is Some {
                lemma_skip_bounds(nodes, from, 1);
            }
            if 0 <= from < nodes.len() && nodes[from].is_readable() {
                lemma_replay_end_bounds(nodes, from + 1, nodes[from].arity());
                lemma_replay_end_header(nodes, from);
                lemma_replay_end_continues(nodes, from, from + 1, self.clone, nodes[from].arity());
            }
        }
        match read {
            Err(error) => Err(error),
            Ok(BucketNode::SomeMarker) => {
                let payload = self.deserialize_value();
                proof {
                    lemma_after_replay_joins(nodes, from, from + 1, self.cursor as int, self.clone);
                }
                match payload {
                    Err(error) => Err(error),
                    Ok(value) => {
                        let wrapped = Value::Optional(Box::new(value));
                        proof {
                            assert(wrapped@.flatten() =~= nodes.subrange(from, self.cursor as int));
                        }
                        Ok(wrapped)
                    },
                }
            },
            Ok(BucketNode::NewType) => {
                let payload = self.deserialize_value();
                proof {
                    lemma_after_replay_joins(nodes, from, from + 1, self.cursor as int, self.clone);
                }
                match payload {
                    Err(error) => Err(error),
                    Ok(value) => {
                        let wrapped = Value::NewType(Box::new(value));
                        proof {
                            assert(wrapped@.flatten() =~= nodes.subrange(from, self.cursor as int));
                        }
                        Ok(wrapped)
                    },
                }
            },
            Ok(BucketNode::SeqHeader(count)) => {
                let items = replay_items(self, count);
                proof {
                    lemma_after_replay_joins(nodes, from, from + 1, self.cursor as int, self.clone);
                }
                match items {
                    Err(error) => Err(error),
                    Ok(items) => {
                        proof {
                            lemma_sequence_view(items);
                            assert(Value::Sequence(items)@.flatten() =~= nodes.subrange(
                                from,
                                self.cursor as int,
                            ));
                        }
                        Ok(Value::Sequence(items))
                    },
                }
            },
            Ok(BucketNode::MapHeader(count)) => {
                let entries = replay_entries(self, count);
                proof {
                    lemma_after_replay_joins(nodes, from, from + 1, self.cursor as int, self.clone);
                }
                match entries {
                    Err(error) => Err(error),
                    Ok(entries) => {
                        proof {
                            lemma_mapping_view(entries);
                            assert(Value::Mapping(entries)@.flatten() =~= nodes.subrange(
                                from,
                                self.cursor as int,
                            ));
                        }
                        Ok(Value::Mapping(entries))
                    },
                }
            },
            Ok(node) => {
                proof {
                    assert(Value::Leaf(node)@.flatten() =~= nodes.subrange(from, from + 1));
                }
                Ok(Value::Leaf(node))
            },
        }
    }
}

/// Replays the `count` elements of a sequence, which start at the cursor.
fn replay_items<'x, 'de>(de: &mut BucketDeserializer<'x, 'de>, count: usize) -> (replayed: Result<
    Vec<Value<'de>>,
    BucketError,
>)
    requires
        old(de).cursor <= old(de).bucket@.len(),
    ensures
        *final(final(de).bucket) == *final(old(de).bucket),
        final(de).clone == old(de).clone,
        final(de).cursor == replay_end(old(de).bucket@, old(de).cursor as int, count as nat).cursor,
        final(de).bucket@ == after_replay(
            old(de).bucket@,
            old(de).cursor as int,
            final(de).cursor as int,
            old(de).clone,
        ),
        match replayed {
            Ok(items) => {
                &&& replay_end(old(de).bucket@, old(de).cursor as int, count as nat).result is Ok
                &&& items@.len() == count
                &&& all_wf(trees(items@))
                &&& flatten_items(trees(items@), count as nat) == old(de).bucket@.subrange(
                    old(de).cursor as int,
                    final(de).cursor as int,
                )
            },
            Err(error) => replay_end(old(de).bucket@, old(de).cursor as int, count as nat).result
                == Err::<(), BucketError>(error),
        },
    decreases old(de).bucket@.len() - old(de).cursor, 1nat,
{
    let ghost nodes = de.bucket@;
    let ghost from = de.cursor as int;
    let ghost clone = de.clone;
    let mut items: Vec<Value<'de>> = Vec::new();
    let mut elements = BucketSeqDeserializer::new(count);
    let mut more = elements.next_element();
    assert(nodes.subrange(from, from) =~= Seq::empty());
    assert(nodes =~= after_replay(nodes, from, from, clone));
    while more
        invariant
            *final(de.bucket) == *final(old(de).bucket),
            de.clone == clone,
            nodes == old(de).bucket@,
            from == old(de).cursor,
            clone == old(de).clone,
            0 <= from <= de.cursor <= nodes.len(),
            de.bucket@ == after_replay(nodes, from, de.cursor as int, clone),
            all_readable(nodes, from, de.cursor as int),
            items@.len() <= count,
            skip(nodes, from, items@.len()) == Some(de.cursor as int),
            more == (items@.len() < count),
            elements.remaining() == if more {
                count - items@.len() - 1
            } else {
                0
            },
            all_wf(trees(items@)),
            flatten_items(trees(items@), items@.len()) == nodes.subrange(from, de.cursor as int),
        decreases count - items@.len(),
    {
        let ghost mid = de.cursor as int;
        let ghost before = trees(items@);
        proof {
            lemma_replay_end_bounds(nodes, mid, 1);
            lemma_replay_end_continues(nodes, from, mid, clone, 1);
            lemma_replay_end_step(nodes, from, items@.len(), count as nat, mid);
        }
        let item = de.deserialize_value();
        proof {
            lemma_after_replay_joins(nodes, from, mid, de.cursor as int, clone);
        }
        match item {
            Err(error) => {
                return Err(error);
            },
            Ok(value) => {
                items.push(value);
                proof {
                    let after = trees(items@);
                    let done = items@.len();
                    assert(after[done - 1] == value@);
                    lemma_flatten_items_prefix(before, after, (done - 1) as nat);
                    assert(nodes.subrange(from, mid) + nodes.subrange(mid, de.cursor as int)
                        =~= nodes.subrange(from, de.cursor as int));
                    assert forall|i: int| 0 <= i < after.len() implies (#[trigger] after[i]).wf() by {
                        if i < done - 1 {
                            assert(before[i].wf());
                        }
                    }
                }
            },
        }
        more = elements.next_element();
    }
    proof {
        lemma_replay_end_done(nodes, from, count as nat, de.cursor as int);
    }
    Ok(items)
}

/// Replays the `count` entries of a map, which start at the cursor: each key,
/// then its value.
fn replay_entries<'x, 'de>(de: &mut BucketDeserializer<'x, 'de>, count: usize) -> (replayed: Result<
    Vec<(Value<'de>, Value<'de>)>,
    BucketError,
>)
    requires
        old(de).cursor <= old(de).bucket@.len(),
    ensures
        *final(final(de).bucket) == *final(old(de).bucket),
        final(de).clone == old(de).clone,
        final(de).cursor == replay_end(
            old(de).bucket@,
            old(de).cursor as int,
            2 * (count as nat),
        ).cursor,
        final(de).bucket@ == after_replay(
            old(de).bucket@,
            old(de).cursor as int,
            final(de).cursor as int,
            old(de).clone,
        ),
        match replayed {
            Ok(entries) => {
                &&& replay_end(
                    old(de).bucket@,
                    old(de).cursor as int,
                    2 * (count as nat),
                ).result is Ok
                &&& entries@.len() == count
                &&& all_entries_wf(entry_trees(entries@))
                &&& flatten_entries(entry_trees(entries@), count as nat) == old(
                    de,
                ).bucket@.subrange(old(de).cursor as int, final(de).cursor as int)
            },
            Err(error) => replay_end(
                old(de).bucket@,
                old(de).cursor as int,
                2 * (count as nat),
            ).result == Err::<(), BucketError>(error),
        },
    decreases old(de).bucket@.len() - old(de).cursor, 1nat,
{
    let ghost nodes = de.bucket@;
    let ghost from = de.cursor as int;
    let ghost clone = de.clone;
    let ghost total = 2 * (count as nat);
    let mut entries: Vec<(Value<'de>, Value<'de>)> = Vec::new();
    let mut pairs = BucketMapDeserializer::new(count);
    assert(nodes.subrange(from, from) =~= Seq::empty());
    assert(nodes =~= after_replay(nodes, from, from, clone));
    loop
        invariant
            *final(de.bucket) == *final(old(de).bucket),
            de.clone == clone,
            nodes == old(de).bucket@,
            from == old(de).cursor,
            clone == old(de).clone,
            total == 2 * (count as nat),
            0 <= from <= de.cursor <= nodes.len(),
            de.bucket@ == after_replay(nodes, from, de.cursor as int, clone),
            all_readable(nodes, from, de.cursor as int),
            entries@.len() <= count,
            skip(nodes, from, 2 * entries@.len()) == Some(de.cursor as int),
            !pairs@.value_due,
            pairs@.remaining == count - entries@.len(),
            all_entries_wf(entry_trees(entries@)),
            flatten_entries(entry_trees(entries@), entries@.len()) == nodes.subrange(
                from,
                de.cursor as int,
            ),
        ensures
            entries@.len() == count,
        decreases count - entries@.len(),
    {
        let more = pairs.next_key();
        match more {
            Err(error) => {
                return Err(error);
            },
            Ok(false) => {
                break ;
            },
            Ok(true) => {},
        }
        let ghost start = de.cursor as int;
        let ghost before = entry_trees(entries@);
        let ghost done = entries@.len();
        proof {
            lemma_replay_end_bounds(nodes, start, 1);
            lemma_replay_end_continues(nodes, from, start, clone, 1);
            lemma_replay_end_step(nodes, from, 2 * done, total, start);
        }
        let key = de.deserialize_value();
        proof {
            lemma_after_replay_joins(nodes, from, start, de.cursor as int, clone);
        }
        let key = match key {
            Err(error) => {
                return Err(error);
            },
            Ok(key) => key,
        };
        let due = pairs.next_value();
        match due {
            Err(error) => {
                return Err(error);
            },
            Ok(()) => {},
        }
        let ghost middle = de.cursor as int;
        proof {
            lemma_replay_end_bounds(nodes, middle, 1);
            lemma_replay_end_continues(nodes, from, middle, clone, 1);
            lemma_replay_end_step(nodes, from, 2 * done + 1, total, middle);
        }
        let value = de.deserialize_value();
        proof {
            lemma_after_replay_joins(nodes, from, middle, de.cursor as int, clone);
        }
        let value = match value {
            Err(error) => {
                return Err(error);
            },
            Ok(value) => value,
        };
        let ghost key_tree = key@;
        let ghost value_tree = value@;
        entries.push((key, value));
        proof {
            let after = entry_trees(entries@);
            assert(after[done as int] == (key_tree, value_tree));
            lemma_flatten_entries_prefix(before, after, done);
            assert(nodes.subrange(from, start) + nodes.subrange(start, middle) + nodes.subrange(
                middle,
                de.cursor as int,
            ) =~= nodes.subrange(from, de.cursor as int));
            assert forall|i: int| 0 <= i < after.len() implies (#[trigger] after[i]).0.wf()
                && after[i].1.wf() by {
                if i < done {
                    assert(before[i].0.wf());
                }
            }
        }
    }
    proof {
        lemma_replay_end_done(nodes, from, total, de.cursor as int);
    }
    Ok(entries)
}

impl<'a> Bucket<'a> {
    /// Replays this bucket into a value of its shape, with a replay that
    /// takes if `clone` is not set.
    fn replay(&mut self, clone: bool) -> (replayed: Result<Value<'a>, BucketError>)
        ensures
            final(self)@ == after_replay(
                old(self)@,
                0,
                replay_end(old(self)@, 0, 1).cursor,
                clone,
            ),
            match replayed {
                Ok(value) => {
                    &&& replay_end(old(self)@, 0, 1).result is Ok
                    &&& value@.wf()
                    &&& value@.flatten() == old(self)@.subrange(
                        0,
                        replay_end(old(self)@, 0, 1).cursor,
                    )
                },
                Err(error) => replay_end(old(self)@, 0, 1).result == Err::<(), BucketError>(error),
            },
    {
        let mut de = BucketDeserializer::new(self, clone);
        de.deserialize_value()
    }

    /// Replays this bucket into a value of its shape and takes the owned text
    /// and bytes: they move into the value, and `Consumed` stands in their
    /// places afterwards.
    ///
    /// A bucket holds one complete tree. Its replay succeeds where no value
    /// was taken before, and the value then flattens to the bucket as it was.
    /// Else it fails at the first node whose value was taken. Either way the
    /// owned values that it has read until then are taken.
    pub fn deserialize_into(&mut self) -> (replayed: Result<Value<'a>, BucketError>)
        ensures
            final(self)@ == after_replay(
                old(self)@,
                0,
                replay_end(old(self)@, 0, 1).cursor,
                false,
            ),
            match replayed {
                Ok(value) => {
                    &&& replay_end(old(self)@, 0, 1).result is Ok
                    &&& value@.wf()
                    &&& value@.flatten() == old(self)@.subrange(
                        0,
                        replay_end(old(self)@, 0, 1).cursor,
                    )
                },
                Err(error) => replay_end(old(self)@, 0, 1).result == Err::<(), BucketError>(error),
            },
            well_formed(old(self)@),
            well_formed(final(self)@),
            replayed is Ok <==> all_readable(old(self)@, 0, old(self)@.len() as int),
            replayed is Ok ==> replayed->Ok_0@.flatten() == old(self)@,
            replayed is Err ==> replayed->Err_0 == BucketError::ConsumedTwice,
    {
        let _ = self.nodes();
        proof {
            lemma_replay_of_bucket(self@);
            lemma_after_replay_well_formed(self@, 0, replay_end(self@, 0, 1).cursor, false);
            assert(self@.subrange(0, self@.len() as int) =~= self@);
        }
        self.replay(false)
    }

    /// Replays this bucket into a value of its shape and copies the owned text
    /// and bytes: the bucket stays as it is, and can be replayed again, with
    /// the same result.
    pub fn deserialize_into_clone(&mut self) -> (replayed: Result<Value<'a>, BucketError>)
        ensures
            final(self)@ == old(self)@,
            match replayed {
                Ok(value) => {
                    &&& replay_end(old(self)@, 0, 1).result is Ok
                    &&& value@.wf()
                    &&& value@.flatten() == old(self)@.subrange(
                        0,
                        replay_end(old(self)@, 0, 1).cursor,
                    )
                },
                Err(error) => replay_end(old(self)@, 0, 1).result == Err::<(), BucketError>(error),
            },
            well_formed(old(self)@),
            replayed is Ok <==> all_readable(old(self)@, 0, old(self)@.len() as int),
            replayed is Ok ==> replayed->Ok_0@.flatten() == old(self)@,
            replayed is Err ==> replayed->Err_0 == BucketError::ConsumedTwice,
    {
        let ghost nodes = self@;
        let _ = self.nodes();
        proof {
            lemma_replay_of_bucket(nodes);
            assert(nodes.subrange(0, nodes.len() as int) =~= nodes);
        }
        let replayed = self.replay(true);
        assert(self@ =~= nodes);
        replayed
    }
}

} // verus!
