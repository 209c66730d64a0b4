use vstd::prelude::*;
use crate::bucket::Bucket;
use crate::error::BucketError;
use crate::node::BucketNode;
use crate::node::NodeView;
use crate::shape::well_formed;
use crate::tree::flatten_entries;
use crate::tree::flatten_items;
use crate::tree::lemma_captured_as_is;
use crate::tree::lemma_captured_wf;
use crate::tree::lemma_flatten_ends_complete;
use crate::value::Value;
use crate::visitor::BucketVisitor;
use crate::visitor::CaptureState;
use crate::visitor::OpenComposite;

verus! {

/// Hands a value without subtrees to a capture, as the event of its kind.
fn capture_leaf<'a>(node: &BucketNode<'a>, visitor: &mut BucketVisitor<'a>) -> (captured: Result<
    (),
    BucketError,
>)
    ensures
        final(visitor).copies_borrowed() == old(visitor).copies_borrowed(),
        captured is Ok <==> node@.is_leaf() && !old(visitor)@.complete,
        captured is Err ==> captured == Err::<(), BucketError>(BucketError::CorruptBuffer),
        captured is Ok ==> final(visitor)@ == old(visitor)@.with_nodes(
            seq![node@.captured(old(visitor).copies_borrowed())],
        ).value_done(),
{
    match node {
        BucketNode::Unit => visitor.visit_unit(),
        BucketNode::Bool(v) => visitor.visit_bool(*v),
        BucketNode::Char(v) => visitor.visit_char(*v),
        BucketNode::U8(v) => visitor.visit_u8(*v),
        BucketNode::I8(v) => visitor.visit_i8(*v),
        BucketNode::U16(v) => visitor.visit_u16(*v),
        BucketNode::I16(v) => visitor.visit_i16(*v),
        BucketNode::U32(v) => visitor.visit_u32(*v),
        BucketNode::I32(v) => visitor.visit_i32(*v),
        BucketNode::U64(v) => visitor.visit_u64(*v),
        BucketNode::I64(v) => visitor.visit_i64(*v),
        BucketNode::U128(v) => visitor.visit_u128(*v),
        BucketNode::I128(v) => visitor.visit_i128(*v),
        BucketNode::F32(v) => visitor.visit_f32(*v),
        BucketNode::F64(v) => visitor.visit_f64(*v),
        BucketNode::String(v) => visitor.visit_str(v.as_str()),
        BucketNode::StringRef(v) => visitor.visit_borrowed_str(v),
        BucketNode::Bytes(v) => visitor.visit_bytes(v.as_slice()),
        BucketNode::BytesRef(v) => visitor.visit_borrowed_bytes(v),
        BucketNode::NoneMarker => visitor.visit_none(),
        _ => Err(BucketError::CorruptBuffer),
    }
}

impl<'a> Value<'a> {
    /// Hands this value to a capture, event by event, as a decoder would
    /// that met it: each node, then its subtrees in order.
    ///
    /// A value that is no valid tree, or one more value than the one tree of
    /// a bucket, is refused. What was captured until then stays in the
    /// capture, which is of no more use.
    pub fn capture_into(&self, visitor: &mut BucketVisitor<'a>) -> (captured: Result<
        (),
        BucketError,
    >)
        ensures
                final(visitor).copies_borrowed() == old(visitor).copies_borrowed(),
            captured is Ok <==> self@.wf() && !old(visitor)@.complete,
            captured is Err ==> captured == Err::<(), BucketError>(BucketError::CorruptBuffer),
            captured is Ok ==> final(visitor)@ == old(visitor)@.with_nodes(
                self@.captured(old(visitor).copies_borrowed()).flatten(),
            ).value_done(),
        decreases self,
    {
        let ghost start = visitor@;
        let ghost owned = visitor.copies_borrowed();
        let ghost stored = self@.captured(owned);
        match self {
            Value::Leaf(node) => capture_leaf(node, visitor),
            Value::Optional(payload) => {
                if visitor.visit_some().is_err() {
                    return Err(BucketError::CorruptBuffer);
                }
                let inner = payload.capture_into(visitor);
                proof {
                    if inner is Ok {
                        assert(visitor@.nodes =~= start.nodes + stored.flatten());
                    }
                }
                inner
            },
            Value::NewType(payload) => {
                if visitor.visit_newtype_struct().is_err() {
                    return Err(BucketError::CorruptBuffer);
                }
                let inner = payload.capture_into(visitor);
                proof {
                    if inner is Ok {
                        assert(visitor@.nodes =~= start.nodes + stored.flatten());
                    }
                }
                inner
            },
            Value::Sequence(items) => {
                if visitor.visit_seq().is_err() {
                    return Err(BucketError::CorruptBuffer);
                }
                let ghost kept = stored->Sequence_0;
                let ghost frame = OpenComposite {
                    position: start.nodes.len() as int,
                    children: 0,
                    is_map: false,
                };
                let mut i: usize = 0;
                assert(visitor@.nodes =~= start.nodes + seq![NodeView::Unsized] + flatten_items(
                    kept,
                    0,
                ));
                while i < items.len()
                    invariant
                        i <= items.len(),
                        visitor.copies_borrowed() == owned,
                        owned == old(visitor).copies_borrowed(),
                        self == Value::Sequence(*items),
                        stored == self@.captured(owned),
                        kept == stored->Sequence_0,
                        !start.complete,
                        forall|j: int| 0 <= j < i ==> (#[trigger] items[j])@.wf(),
                        visitor@ == (CaptureState {
                            nodes: start.nodes + seq![NodeView::Unsized] + flatten_items(
                                kept,
                                i as nat,
                            ),
                            open: start.open.push(
                                OpenComposite {
                                    position: start.nodes.len() as int,
                                    children: i as nat,
                                    is_map: false,
                                },
                            ),
                            complete: false,
                        }),
                    decreases items.len() - i,
                {
                    let ghost before = visitor@;
                    let item = items[i].capture_into(visitor);
                    if item.is_err() {
                        assert(!items[i as int]@.wf());
                        assert(self@->Sequence_0[i as int] == items[i as int]@);
                        assert(!self@.wf());
                        return item;
                    }
                    proof {
                        assert(kept[i as int] == items[i as int]@.captured(owned));
                        assert(visitor@.nodes =~= start.nodes + seq![NodeView::Unsized]
                            + flatten_items(kept, (i + 1) as nat));
                        assert(visitor@.open =~= start.open.push(
                            OpenComposite {
                                position: start.nodes.len() as int,
                                children: (i + 1) as nat,
                                is_map: false,
                            },
                        ));
                    }
                    i += 1;
                }
                proof {
                    assert(self@.wf());
                    lemma_captured_wf(self@, owned);
                    if kept.len() > 0 {
                        lemma_flatten_ends_complete(kept.last());
                        assert(flatten_items(kept, kept.len()) == flatten_items(
                            kept,
                            (kept.len() - 1) as nat,
                        ) + kept.last().flatten());
                        assert(visitor@.nodes.last() == kept.last().flatten().last());
                    } else {
                        assert(visitor@.nodes.last() == NodeView::Unsized);
                    }
                }
                let ghost filled = visitor@;
                let closed = visitor.end_seq();
                proof {
                    assert(filled.close_result(false) is Ok);
                    assert(visitor@.nodes =~= start.nodes + stored.flatten());
                    assert(filled.open.drop_last() =~= start.open);
                }
                closed
            },
            Value::Mapping(entries) => {
                if visitor.visit_map().is_err() {
                    return Err(BucketError::CorruptBuffer);
                }
                let ghost kept = stored->Mapping_0;
                let mut i: usize = 0;
                assert(visitor@.nodes =~= start.nodes + seq![NodeView::Unsized] + flatten_entries(
                    kept,
                    0,
                ));
                while i < entries.len()
                    invariant
                        i <= entries.len(),
                        visitor.copies_borrowed() == owned,
                        owned == old(visitor).copies_borrowed(),
                        self == Value::Mapping(*entries),
                        stored == self@.captured(owned),
                        kept == stored->Mapping_0,
                        !start.complete,
                        forall|j: int|
                            0 <= j < i ==> (#[trigger] entries[j]).0@.wf() && entries[j].1@.wf(),
                        visitor@ == (CaptureState {
                            nodes: start.nodes + seq![NodeView::Unsized] + flatten_entries(
                                kept,
                                i as nat,
                            ),
                            open: start.open.push(
                                OpenComposite {
                                    position: start.nodes.len() as int,
                                    children: 2 * (i as nat),
                                    is_map: true,
                                },
                            ),
                            complete: false,
                        }),
                    decreases entries.len() - i,
                {
                    let key = entries[i].0.capture_into(visitor);
                    if key.is_err() {
                        assert(!entries[i as int].0@.wf());
                        assert(self@->Mapping_0[i as int].0 == entries[i as int].0@);
                        assert(!self@.wf());
                        return key;
                    }
                    let ghost keyed = visitor@;
                    proof {
                        assert(keyed.open =~= start.open.push(
                            OpenComposite {
                                position: start.nodes.len() as int,
                                children: 2 * (i as nat) + 1,
                                is_map: true,
                            },
                        ));
                    }
                    let value = entries[i].1.capture_into(visitor);
                    if value.is_err() {
                        assert(!entries[i as int].1@.wf());
                        assert(self@->Mapping_0[i as int].1 == entries[i as int].1@);
                        assert(!self@.wf());
                        return value;
                    }
                    proof {
                        assert(kept[i as int] == (
                            entries[i as int].0@.captured(owned),
                            entries[i as int].1@.captured(owned),
                        ));
                        assert(visitor@.nodes =~= start.nodes + seq![NodeView::Unsized]
                            + flatten_entries(kept, (i + 1) as nat));
                        assert(visitor@.open =~= start.open.push(
                            OpenComposite {
                                position: start.nodes.len() as int,
                                children: 2 * ((i + 1) as nat),
                                is_map: true,
                            },
                        ));
                    }
                    i += 1;
                }
                proof {
                    assert(self@.wf());
                    lemma_captured_wf(self@, owned);
                    if kept.len() > 0 {
                        lemma_flatten_ends_complete(kept.last().1);
                        assert(flatten_entries(kept, kept.len()) == flatten_entries(
                            kept,
                            (kept.len() - 1) as nat,
                        ) + kept.last().0.flatten() + kept.last().1.flatten());
                        assert(visitor@.nodes.last() == kept.last().1.flatten().last());
                    } else {
                        assert(visitor@.nodes.last() == NodeView::Unsized);
                    }
                }
                let ghost filled = visitor@;
                let closed = visitor.end_map();
                proof {
                    assert(filled.close_result(true) is Ok);
                    assert(visitor@.nodes =~= start.nodes + stored.flatten());
                    assert(filled.open.drop_last() =~= start.open);
                }
                closed
            },
        }
    }

    /// Captures this value into a bucket: the flattening of its tree. With
    /// `owned` set, borrowed text and bytes are copied into the bucket, and
    /// stand there as owned ones.
    ///
    /// A value that is no valid tree is refused.
    pub fn capture(&self, owned: bool) -> (bucket: Result<Bucket<'a>, BucketError>)
        ensures
            bucket is Ok <==> self@.wf(),
            bucket is Err ==> bucket->Err_0 == BucketError::CorruptBuffer,
            bucket is Ok ==> bucket->Ok_0@ == self@.captured(owned).flatten() && well_formed(
                bucket->Ok_0@,
            ),
            bucket is Ok && !owned ==> bucket->Ok_0@ == self@.flatten(),
    {
        proof {
            lemma_captured_as_is(self@);
        }
        let mut visitor = BucketVisitor::new(owned);
        match self.capture_into(&mut visitor) {
            Err(error) => Err(error),
            Ok(()) => {
                assert(visitor@.nodes =~= self@.captured(owned).flatten());
                visitor.finish()
            },
        }
    }
}

} // verus!
