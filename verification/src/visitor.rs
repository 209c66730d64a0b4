use vstd::prelude::*;
use vstd::slice::slice_to_vec;
use crate::bucket::views;
use crate::bucket::Bucket;
use crate::error::BucketError;
use crate::node::BucketNode;
use crate::node::NodeView;
use crate::shape::all_sized;
use crate::shape::all_wrappers;
use crate::shape::lemma_skip_bounds;
use crate::shape::lemma_skip_local;
use crate::shape::lemma_skip_split;
use crate::shape::lemma_skip_wrappers;
use crate::shape::skip;
use crate::shape::well_formed;

verus! {

/// A composite whose start was captured and whose end was not.
pub struct OpenComposite {
    /// Where its header stands in the buffer.
    pub position: int,
    /// How many complete subtrees follow the header so far.
    pub children: nat,
    /// True for a map, whose subtrees are keys and values in turn.
    pub is_map: bool,
}

/// What a capture has built so far.
pub struct CaptureState {
    /// The buffer. The header of each open composite is a placeholder.
    pub nodes: Seq<NodeView>,
    /// The open composites, the outermost first.
    pub open: Seq<OpenComposite>,
    /// True once the one tree of the buffer is complete.
    pub complete: bool,
}

impl CaptureState {
    /// The state of a capture that has received nothing.
    pub open spec fn start() -> CaptureState {
        CaptureState { nodes: Seq::empty(), open: Seq::empty(), complete: false }
    }

    /// True where the last node is a marker whose payload has not come.
    pub open spec fn owes_payload(self) -> bool {
        self.nodes.len() > 0 && self.nodes.last().is_wrapper()
    }

    /// The state once one more value is complete: it counts as a child of the
    /// innermost open composite, or, where none is open, it is the tree.
    pub open spec fn value_done(self) -> CaptureState {
        if self.open.len() == 0 {
            CaptureState { nodes: self.nodes, open: self.open, complete: true }
        } else {
            let top = self.open.last();
            CaptureState {
                nodes: self.nodes,
                open: self.open.drop_last().push(
                    OpenComposite {
                        position: top.position,
                        children: top.children + 1,
                        is_map: top.is_map,
                    },
                ),
                complete: false,
            }
        }
    }

    /// The state with `nodes` appended.
    pub open spec fn with_nodes(self, nodes: Seq<NodeView>) -> CaptureState {
        CaptureState { nodes: self.nodes + nodes, open: self.open, complete: self.complete }
    }

    /// Whether a capture in this state takes another value: it does until
    /// its one tree is complete.
    pub open spec fn admits_value(self) -> Result<(), BucketError> {
        if self.complete {
            Err(BucketError::CorruptBuffer)
        } else {
            Ok(())
        }
    }

    /// The state after a value without subtrees.
    pub open spec fn leaf(self, node: NodeView) -> CaptureState {
        if self.complete {
            self
        } else {
            self.with_nodes(seq![node]).value_done()
        }
    }

    /// The state after a marker, whose payload is the value that comes next.
    pub open spec fn wrapper(self, node: NodeView) -> CaptureState {
        if self.complete {
            self
        } else {
            self.with_nodes(seq![node])
        }
    }

    /// The state after the start of a sequence or of a map.
    pub open spec fn opened(self, is_map: bool) -> CaptureState {
        if self.complete {
            self
        } else {
            CaptureState {
                nodes: self.nodes.push(NodeView::Unsized),
                open: self.open.push(
                    OpenComposite { position: self.nodes.len() as int, children: 0, is_map },
                ),
                complete: false,
            }
        }
    }

    /// Whether the innermost open composite can end as a sequence or as a map:
    /// it is of that kind, no marker waits for its payload, and a map has a
    /// value for each key.
    pub open spec fn close_result(self, is_map: bool) -> Result<(), BucketError> {
        if self.open.len() == 0 || self.open.last().is_map != is_map || self.owes_payload() {
            Err(BucketError::CorruptBuffer)
        } else if is_map && self.open.last().children % 2 != 0 {
            Err(BucketError::MapOrderViolation)
        } else {
            Ok(())
        }
    }

    /// The header that the innermost open composite gets when it ends: the
    /// number of its elements, or of its pairs.
    pub open spec fn header(self) -> NodeView {
        let top = self.open.last();
        if top.is_map {
            NodeView::MapHeader((top.children / 2) as usize)
        } else {
            NodeView::SeqHeader(top.children as usize)
        }
    }

    /// The state after the end of a sequence or of a map: the placeholder
    /// becomes the header, and the composite counts as one complete value.
    pub open spec fn closed(self, is_map: bool) -> CaptureState {
        if self.close_result(is_map) is Err {
            self
        } else {
            CaptureState {
                nodes: self.nodes.update(self.open.last().position, self.header()),
                open: self.open.drop_last(),
                complete: false,
            }.value_done()
        }
    }
}

/// An open composite: where its placeholder stands, and how many complete
/// subtrees follow it so far.
struct Frame {
    position: usize,
    count: usize,
    is_map: bool,
}

/// True where `count` complete subtrees start at `start`, only markers follow
/// them up to `limit`, and nothing from `start` up to `limit` is a placeholder.
spec fn region_ok(nodes: Seq<NodeView>, start: int, count: nat, limit: int) -> bool {
    &&& 0 <= start <= limit <= nodes.len()
    &&& skip(nodes, start, count) is Some
    &&& skip(nodes, start, count).unwrap() <= limit
    &&& all_wrappers(nodes, skip(nodes, start, count).unwrap(), limit)
    &&& all_sized(nodes, start, limit)
}

/// Where the part of the buffer ends that belongs to frame `j` itself: at the
/// next frame's placeholder, or at the end.
spec fn limit_of(nodes: Seq<NodeView>, frames: Seq<Frame>, j: int) -> int {
    if j + 1 < frames.len() {
        frames[j + 1].position as int
    } else {
        nodes.len() as int
    }
}

spec fn frame_ok(nodes: Seq<NodeView>, frames: Seq<Frame>, j: int) -> bool {
    let position = frames[j].position as int;
    &&& position < nodes.len()
    &&& nodes[position] is Unsized
    &&& region_ok(nodes, position + 1, frames[j].count as nat, limit_of(nodes, frames, j))
}

spec fn state_ok(nodes: Seq<NodeView>, frames: Seq<Frame>, done: bool) -> bool {
    &&& done ==> frames.len() == 0 && skip(nodes, 0, 1) == Some(nodes.len() as int)
    &&& region_ok(nodes, 0, if done { 1nat } else { 0nat }, limit_of(nodes, frames, -1))
    &&& forall|j: int| 0 <= j < frames.len() ==> #[trigger] frame_ok(nodes, frames, j)
    &&& ordered(frames)
}

/// True where each frame stands behind the frames that were opened before it.
spec fn ordered(frames: Seq<Frame>) -> bool {
    forall|i: int, j: int|
        0 <= i < j < frames.len() ==> (#[trigger] frames[i]).position < (
        #[trigger] frames[j]).position
}

/// A region stays as it is while the buffer changes outside it.
proof fn lemma_region_kept(a: Seq<NodeView>, b: Seq<NodeView>, start: int, count: nat, limit: int)
    requires
        region_ok(a, start, count, limit),
        limit <= b.len(),
        forall|i: int| start <= i < limit ==> a[i] == b[i],
    ensures
        region_ok(b, start, count, limit),
        skip(b, start, count) == skip(a, start, count),
{
    lemma_skip_bounds(a, start, count);
    lemma_skip_local(a, b, start, count);
}

/// A region gains a subtree once the value that follows its markers is complete.
proof fn lemma_region_completed(
    a: Seq<NodeView>,
    b: Seq<NodeView>,
    start: int,
    count: nat,
    limit: int,
)
    requires
        region_ok(a, start, count, limit),
        limit <= b.len(),
        forall|i: int| start <= i < limit ==> a[i] == b[i],
        skip(b, limit, 1) == Some(b.len() as int),
        all_sized(b, limit, b.len() as int),
    ensures
        region_ok(b, start, count + 1, b.len() as int),
        skip(b, start, count + 1) == Some(b.len() as int),
{
    lemma_region_kept(a, b, start, count, limit);
    let mid = skip(b, start, count).unwrap();
    lemma_skip_bounds(b, start, count);
    lemma_skip_wrappers(b, mid, limit);
    lemma_skip_split(b, start, count, 1);
}

/// The buffers of a capture: the nodes so far, the open composites, and
/// whether the tree is complete.
struct CaptureBuffers<'de> {
    target: Vec<BucketNode<'de>>,
    frames: Vec<Frame>,
    done: bool,
}

impl<'de> View for CaptureBuffers<'de> {
    type V = CaptureState;

    closed spec fn view(&self) -> CaptureState {
        CaptureState {
            nodes: views(self.target@),
            open: Seq::new(
                self.frames@.len(),
                |j: int|
                    OpenComposite {
                        position: self.frames@[j].position as int,
                        children: self.frames@[j].count as nat,
                        is_map: self.frames@[j].is_map,
                    },
            ),
            complete: self.done,
        }
    }
}

/// The write phase: turns the events of a decoder into a bucket.
///
/// Values without subtrees, markers, and the starts and ends of sequences and
/// maps arrive in the order in which the decoder meets them. A composite gets
/// a placeholder when it starts and its header, with the number of subtrees
/// that were counted, when it ends. Nothing is ever removed or reordered.
/// Events that no tree has are refused, and leave the capture as it was.
pub struct BucketVisitor<'de> {
    buffers: CaptureBuffers<'de>,
    owned: bool,
}

impl<'de> View for BucketVisitor<'de> {
    type V = CaptureState;

    closed spec fn view(&self) -> CaptureState {
        self.buffers@
    }
}

impl<'de> CaptureBuffers<'de> {
    /// The validity of a capture: the buffer is a tree in the making, whose
    /// unfinished parts are the open composites.
    closed spec fn ok(&self) -> bool {
        state_ok(views(self.target@), self.frames@, self.done)
    }

    /// The buffers of a capture that has received nothing.
    fn empty() -> (buffers: Self)
        ensures
            buffers.ok(),
            buffers@ == CaptureState::start(),
            buffers.target@.len() == 0,
            buffers.frames@.len() == 0,
            !buffers.done,
    {
        let buffers = CaptureBuffers { target: Vec::new(), frames: Vec::new(), done: false };
        assert(buffers@.nodes =~= Seq::empty());
        assert(buffers@.open =~= Seq::empty());
        buffers
    }

    /// Counts one more complete value, which ends at the end of the buffer.
    fn value_done(&mut self, Ghost(before): Ghost<Seq<NodeView>>, Ghost(from): Ghost<int>)
        requires
            !old(self).done,
            ({
                let nodes = views(old(self).target@);
                let frames = old(self).frames@;
                let top = frames.len() - 1;
                let start = if top >= 0 { frames[top].position + 1 } else { 0 };
                let count = if top >= 0 { frames[top].count as nat } else { 0 };
                &&& region_ok(before, start, count, from)
                &&& from <= nodes.len()
                &&& forall|i: int| start <= i < from ==> before[i] == nodes[i]
                &&& skip(nodes, from, 1) == Some(nodes.len() as int)
                &&& all_sized(nodes, from, nodes.len() as int)
                &&& top >= 0 ==> frames[top].position < nodes.len() && nodes[frames[top].position as int] is Unsized
                &&& forall|j: int| 0 <= j < top ==> #[trigger] frame_ok(nodes, frames, j)
                &&& top >= 0 ==> region_ok(nodes, 0, 0, limit_of(nodes, frames, -1))
                &&& ordered(frames)
            }),
        ensures
            final(self).ok(),
            final(self)@ == old(self)@.value_done(),
    {
        let ghost nodes = views(self.target@);
        let ghost frames = self.frames@;
        let depth = self.frames.len();
        if depth == 0 {
            proof {
                lemma_region_completed(before, nodes, 0, 0, from);
            }
            self.done = true;
        } else {
            let top = depth - 1;
            let frame = &self.frames[top];
            let position = frame.position;
            let count = frame.count;
            let is_map = frame.is_map;
            proof {
                lemma_region_completed(before, nodes, position + 1, count as nat, from);
                lemma_skip_bounds(nodes, position + 1, (count + 1) as nat);
                assert(nodes.len() == self.target.len());
            }
            self.frames.set(top, Frame { position, count: count + 1, is_map });
            proof {
                let after = self.frames@;
                assert forall|j: int| 0 <= j < after.len() implies #[trigger] frame_ok(
                    nodes,
                    after,
                    j,
                ) by {
                    if j < top {
                        assert(frame_ok(nodes, frames, j));
                        assert(limit_of(nodes, after, j) == limit_of(nodes, frames, j));
                    }
                }
                assert(limit_of(nodes, after, -1) == limit_of(nodes, frames, -1));
                assert(self@.open =~= old(self)@.value_done().open);
            }
        }
    }

    /// Appends a value without subtrees.
    fn push_leaf(&mut self, node: BucketNode<'de>) -> (pushed: Result<(), BucketError>)
        requires
            old(self).ok(),
            node@.is_leaf(),
        ensures
            final(self).ok(),
            pushed == old(self)@.admits_value(),
            final(self)@ == old(self)@.leaf(node@),
    {
        if self.done {
            return Err(BucketError::CorruptBuffer);
        }
        let ghost before = views(self.target@);
        let ghost frames = self.frames@;
        let ghost open = self@.open;
        self.target.push(node);
        proof {
            let nodes = views(self.target@);
            assert(nodes =~= before.push(node@));
            assert(nodes =~= before + seq![node@]);
            assert(self@.open =~= open);
            let from = before.len() as int;
            assert(skip(nodes, from + 1, 0) == Some(from + 1));
            assert(skip(nodes, from, 1) == Some(from + 1));
            assert forall|j: int| 0 <= j < frames.len() - 1 implies #[trigger] frame_ok(
                nodes,
                frames,
                j,
            ) by {
                assert(frame_ok(before, frames, j));
                lemma_region_kept(
                    before,
                    nodes,
                    frames[j].position + 1,
                    frames[j].count as nat,
                    limit_of(before, frames, j),
                );
            }
            if frames.len() > 0 {
                assert(frame_ok(before, frames, frames.len() - 1));
                lemma_region_kept(before, nodes, 0, 0, limit_of(before, frames, -1));
            }
        }
        self.value_done(Ghost(before), Ghost(before.len() as int));
        Ok(())
    }

    /// Appends a marker whose payload is the value that comes next.
    fn push_wrapper(&mut self, node: BucketNode<'de>) -> (pushed: Result<(), BucketError>)
        requires
            old(self).ok(),
            node@.is_wrapper(),
        ensures
            final(self).ok(),
            pushed == old(self)@.admits_value(),
            final(self)@ == old(self)@.wrapper(node@),
    {
        if self.done {
            return Err(BucketError::CorruptBuffer);
        }
        let ghost before = views(self.target@);
        let ghost frames = self.frames@;
        let ghost open = self@.open;
        self.target.push(node);
        proof {
            let nodes = views(self.target@);
            assert(nodes =~= before + seq![node@]);
            assert(self@.open =~= open);
            assert forall|j: int| 0 <= j < frames.len() implies #[trigger] frame_ok(
                nodes,
                frames,
                j,
            ) by {
                assert(frame_ok(before, frames, j));
                lemma_region_kept(
                    before,
                    nodes,
                    frames[j].position + 1,
                    frames[j].count as nat,
                    limit_of(before, frames, j),
                );
            }
            lemma_region_kept(before, nodes, 0, 0, limit_of(before, frames, -1));
        }
        Ok(())
    }

    /// Appends the placeholder of a composite and opens it.
    fn open_composite(&mut self, is_map: bool) -> (opened: Result<(), BucketError>)
        requires
            old(self).ok(),
        ensures
            final(self).ok(),
            opened == old(self)@.admits_value(),
            final(self)@ == old(self)@.opened(is_map),
    {
        if self.done {
            return Err(BucketError::CorruptBuffer);
        }
        let ghost before = views(self.target@);
        let ghost frames = self.frames@;
        let ghost open = self@.open;
        let position = self.target.len();
        self.target.push(BucketNode::Unsized);
        self.frames.push(Frame { position, count: 0, is_map });
        proof {
            let nodes = views(self.target@);
            let after = self.frames@;
            assert(nodes =~= before.push(NodeView::Unsized));
            assert(self@.open =~= open.push(
                OpenComposite { position: position as int, children: 0, is_map },
            ));
            assert forall|i: int, j: int| 0 <= i < j < after.len() implies (
            #[trigger] after[i]).position < (#[trigger] after[j]).position by {
                assert(frame_ok(before, frames, i));
            }
            assert forall|j: int| 0 <= j < after.len() implies #[trigger] frame_ok(
                nodes,
                after,
                j,
            ) by {
                if j < frames.len() {
                    assert(frame_ok(before, frames, j));
                    lemma_region_kept(
                        before,
                        nodes,
                        frames[j].position + 1,
                        frames[j].count as nat,
                        limit_of(before, frames, j),
                    );
                }
            }
            lemma_region_kept(before, nodes, 0, 0, limit_of(before, frames, -1));
        }
        Ok(())
    }

    /// Gives the innermost open composite its header and counts it as a value.
    fn close_composite(&mut self, is_map: bool) -> (closed: Result<(), BucketError>)
        requires
            old(self).ok(),
        ensures
            final(self).ok(),
            closed == old(self)@.close_result(is_map),
            final(self)@ == old(self)@.closed(is_map),
    {
        let ghost before = views(self.target@);
        let ghost frames = self.frames@;
        let ghost open = self@.open;
        let depth = self.frames.len();
        if depth == 0 {
            return Err(BucketError::CorruptBuffer);
        }
        let top = depth - 1;
        let frame = &self.frames[top];
        let position = frame.position;
        let count = frame.count;
        if frame.is_map != is_map {
            return Err(BucketError::CorruptBuffer);
        }
        assert(frame_ok(before, frames, top as int));
        let len = self.target.len();
        match &self.target[len - 1] {
            BucketNode::SomeMarker => {
                return Err(BucketError::CorruptBuffer);
            },
            BucketNode::NewType => {
                return Err(BucketError::CorruptBuffer);
            },
            _ => {},
        }
        if is_map && count % 2 != 0 {
            return Err(BucketError::MapOrderViolation);
        }
        let header = if is_map {
            BucketNode::MapHeader(count / 2)
        } else {
            BucketNode::SeqHeader(count)
        };
        self.target.set(position, header);
        self.frames.pop();
        proof {
            let nodes = views(self.target@);
            let after = self.frames@;
            assert(nodes =~= before.update(position as int, header@));
            assert(self@.open =~= open.drop_last());
            assert(header@ == old(self)@.header());
            let end = skip(before, position + 1, count as nat).unwrap();
            if end < len {
                assert(before[len - 1].is_wrapper());
            }
            lemma_skip_local(before, nodes, position + 1, count as nat);
            assert(header@.arity() == count);
            assert(skip(nodes, position as int, 1) == skip(nodes, position + 1, count as nat));
            assert forall|j: int| 0 <= j < after.len() - 1 implies #[trigger] frame_ok(
                nodes,
                after,
                j,
            ) by {
                assert(frame_ok(before, frames, j));
                lemma_region_kept(
                    before,
                    nodes,
                    frames[j].position + 1,
                    frames[j].count as nat,
                    limit_of(before, frames, j),
                );
            }
            if after.len() > 0 {
                assert(frame_ok(before, frames, top - 1));
            }
            lemma_region_kept(before, nodes, 0, 0, limit_of(before, frames, -1));
        }
        self.value_done(Ghost(before), Ghost(position as int));
        Ok(())
    }
}

impl<'de> BucketVisitor<'de> {
    /// A capture holds a tree in the making at all times. Its buffers are
    /// taken out of it while they change, and put back when they are one again.
    #[verifier::type_invariant]
    spec fn is_a_tree_in_the_making(&self) -> bool {
        self.buffers.ok()
    }

    /// True where borrowed text and bytes are copied into the buffer.
    pub closed spec fn copies_borrowed(&self) -> bool {
        self.owned
    }

    /// A capture that has received nothing. With `owned` set, borrowed text
    /// and bytes are copied, so that the bucket outlives their source.
    pub fn new(owned: bool) -> (visitor: Self)
        ensures
            visitor@ == CaptureState::start(),
            visitor.copies_borrowed() == owned,
    {
        BucketVisitor { buffers: CaptureBuffers::empty(), owned }
    }

    /// Appends a value without subtrees.
    fn push_leaf(&mut self, node: BucketNode<'de>) -> (pushed: Result<(), BucketError>)
        requires
            node@.is_leaf(),
        ensures
            final(self).copies_borrowed() == old(self).copies_borrowed(),
            pushed == old(self)@.admits_value(),
            final(self)@ == old(self)@.leaf(node@),
    {
        proof {
            use_type_invariant(&*self);
        }
        let mut buffers = CaptureBuffers::empty();
        std::mem::swap(&mut self.buffers, &mut buffers);
        let pushed = buffers.push_leaf(node);
        self.buffers = buffers;
        pushed
    }

    /// Appends a marker whose payload is the value that comes next.
    fn push_wrapper(&mut self, node: BucketNode<'de>) -> (pushed: Result<(), BucketError>)
        requires
            node@.is_wrapper(),
        ensures
            final(self).copies_borrowed() == old(self).copies_borrowed(),
            pushed == old(self)@.admits_value(),
            final(self)@ == old(self)@.wrapper(node@),
    {
        proof {
            use_type_invariant(&*self);
        }
        let mut buffers = CaptureBuffers::empty();
        std::mem::swap(&mut self.buffers, &mut buffers);
        let pushed = buffers.push_wrapper(node);
        self.buffers = buffers;
        pushed
    }

    /// Appends the placeholder of a composite and opens it.
    fn open_composite(&mut self, is_map: bool) -> (opened: Result<(), BucketError>)
        ensures
            final(self).copies_borrowed() == old(self).copies_borrowed(),
            opened == old(self)@.admits_value(),
            final(self)@ == old(self)@.opened(is_map),
    {
        proof {
            use_type_invariant(&*self);
        }
        let mut buffers = CaptureBuffers::empty();
        std::mem::swap(&mut self.buffers, &mut buffers);
        let opened = buffers.open_composite(is_map);
        self.buffers = buffers;
        opened
    }

    /// Gives the innermost open composite its header and counts it as a value.
    fn close_composite(&mut self, is_map: bool) -> (closed: Result<(), BucketError>)
        ensures
            final(self).copies_borrowed() == old(self).copies_borrowed(),
            closed == old(self)@.close_result(is_map),
            final(self)@ == old(self)@.closed(is_map),
    {
        proof {
            use_type_invariant(&*self);
        }
        let mut buffers = CaptureBuffers::empty();
        std::mem::swap(&mut self.buffers, &mut buffers);
        let closed = buffers.close_composite(is_map);
        self.buffers = buffers;
        closed
    }

    /// Captures a boolean.
    pub fn visit_bool(&mut self, v: bool) -> (captured: Result<(), BucketError>)
        ensures
            final(self).copies_borrowed() == old(self).copies_borrowed(),
            captured == old(self)@.admits_value(),
            final(self)@ == old(self)@.leaf(NodeView::Bool(v)),
    {
        self.push_leaf(BucketNode::Bool(v))
    }

    /// Captures an `i8`.
    pub fn visit_i8(&mut self, v: i8) -> (captured: Result<(), BucketError>)
        ensures
            final(self).copies_borrowed() == old(self).copies_borrowed(),
            captured == old(self)@.admits_value(),
            final(self)@ == old(self)@.leaf(NodeView::I8(v)),
    {
        self.push_leaf(BucketNode::I8(v))
    }

    /// Captures an `i16`.
    pub fn visit_i16(&mut self, v: i16) -> (captured: Result<(), BucketError>)
        ensures
            final(self).copies_borrowed() == old(self).copies_borrowed(),
            captured == old(self)@.admits_value(),
            final(self)@ == old(self)@.leaf(NodeView::I16(v)),
    {
        self.push_leaf(BucketNode::I16(v))
    }

    /// Captures an `i32`.
    pub fn visit_i32(&mut self, v: i32) -> (captured: Result<(), BucketError>)
        ensures
            final(self).copies_borrowed() == old(self).copies_borrowed(),
            captured == old(self)@.admits_value(),
            final(self)@ == old(self)@.leaf(NodeView::I32(v)),
    {
        self.push_leaf(BucketNode::I32(v))
    }

    /// Captures an `i64`.
    pub fn visit_i64(&mut self, v: i64) -> (captured: Result<(), BucketError>)
        ensures
            final(self).copies_borrowed() == old(self).copies_borrowed(),
            captured == old(self)@.admits_value(),
            final(self)@ == old(self)@.leaf(NodeView::I64(v)),
    {
        self.push_leaf(BucketNode::I64(v))
    }

    /// Captures an `i128`.
    pub fn visit_i128(&mut self, v: i128) -> (captured: Result<(), BucketError>)
        ensures
            final(self).copies_borrowed() == old(self).copies_borrowed(),
            captured == old(self)@.admits_value(),
            final(self)@ == old(self)@.leaf(NodeView::I128(v)),
    {
        self.push_leaf(BucketNode::I128(v))
    }

    /// Captures a `u8`.
    pub fn visit_u8(&mut self, v: u8) -> (captured: Result<(), BucketError>)
        ensures
            final(self).copies_borrowed() == old(self).copies_borrowed(),
            captured == old(self)@.admits_value(),
            final(self)@ == old(self)@.leaf(NodeView::U8(v)),
    {
        self.push_leaf(BucketNode::U8(v))
    }

    /// Captures a `u16`.
    pub fn visit_u16(&mut self, v: u16) -> (captured: Result<(), BucketError>)
        ensures
            final(self).copies_borrowed() == old(self).copies_borrowed(),
            captured == old(self)@.admits_value(),
            final(self)@ == old(self)@.leaf(NodeView::U16(v)),
    {
        self.push_leaf(BucketNode::U16(v))
    }

    /// Captures a `u32`.
    pub fn visit_u32(&mut self, v: u32) -> (captured: Result<(), BucketError>)
        ensures
            final(self).copies_borrowed() == old(self).copies_borrowed(),
            captured == old(self)@.admits_value(),
            final(self)@ == old(self)@.leaf(NodeView::U32(v)),
    {
        self.push_leaf(BucketNode::U32(v))
    }

    /// Captures a `u64`.
    pub fn visit_u64(&mut self, v: u64) -> (captured: Result<(), BucketError>)
        ensures
            final(self).copies_borrowed() == old(self).copies_borrowed(),
            captured == old(self)@.admits_value(),
            final(self)@ == old(self)@.leaf(NodeView::U64(v)),
    {
        self.push_leaf(BucketNode::U64(v))
    }

    /// Captures a `u128`.
    pub fn visit_u128(&mut self, v: u128) -> (captured: Result<(), BucketError>)
        ensures
            final(self).copies_borrowed() == old(self).copies_borrowed(),
            captured == old(self)@.admits_value(),
            final(self)@ == old(self)@.leaf(NodeView::U128(v)),
    {
        self.push_leaf(BucketNode::U128(v))
    }

    /// Captures a 32-bit float, given by its bits.
    pub fn visit_f32(&mut self, v: u32) -> (captured: Result<(), BucketError>)
        ensures
            final(self).copies_borrowed() == old(self).copies_borrowed(),
            captured == old(self)@.admits_value(),
            final(self)@ == old(self)@.leaf(NodeView::F32(v)),
    {
        self.push_leaf(BucketNode::F32(v))
    }

    /// Captures a 64-bit float, given by its bits.
    pub fn visit_f64(&mut self, v: u64) -> (captured: Result<(), BucketError>)
        ensures
            final(self).copies_borrowed() == old(self).copies_borrowed(),
            captured == old(self)@.admits_value(),
            final(self)@ == old(self)@.leaf(NodeView::F64(v)),
    {
        self.push_leaf(BucketNode::F64(v))
    }

    /// Captures a character.
    pub fn visit_char(&mut self, v: char) -> (captured: Result<(), BucketError>)
        ensures
            final(self).copies_borrowed() == old(self).copies_borrowed(),
            captured == old(self)@.admits_value(),
            final(self)@ == old(self)@.leaf(NodeView::Char(v)),
    {
        self.push_leaf(BucketNode::Char(v))
    }

    /// Captures text that lives no longer than this call: it is copied.
    pub fn visit_str(&mut self, v: &str) -> (captured: Result<(), BucketError>)
        ensures
            final(self).copies_borrowed() == old(self).copies_borrowed(),
            captured == old(self)@.admits_value(),
            final(self)@ == old(self)@.leaf(NodeView::String(v@)),
    {
        self.push_leaf(BucketNode::String(v.to_owned()))
    }

    /// Captures text that lives as long as the source: it is copied where
    /// this capture copies borrowed values, and referred to otherwise.
    pub fn visit_borrowed_str(&mut self, v: &'de str) -> (captured: Result<(), BucketError>)
        ensures
            final(self).copies_borrowed() == old(self).copies_borrowed(),
            captured == old(self)@.admits_value(),
            final(self)@ == old(self)@.leaf(
                if old(self).copies_borrowed() {
                    NodeView::String(v@)
                } else {
                    NodeView::StringRef(v@)
                },
            ),
    {
        if self.owned {
            self.push_leaf(BucketNode::String(v.to_owned()))
        } else {
            self.push_leaf(BucketNode::StringRef(v))
        }
    }

    /// Captures text that the caller hands over.
    pub fn visit_string(&mut self, v: String) -> (captured: Result<(), BucketError>)
        ensures
            final(self).copies_borrowed() == old(self).copies_borrowed(),
            captured == old(self)@.admits_value(),
            final(self)@ == old(self)@.leaf(NodeView::String(v@)),
    {
        self.push_leaf(BucketNode::String(v))
    }

    /// Captures bytes that live no longer than this call: they are copied.
    pub fn visit_bytes(&mut self, v: &[u8]) -> (captured: Result<(), BucketError>)
        ensures
            final(self).copies_borrowed() == old(self).copies_borrowed(),
            captured == old(self)@.admits_value(),
            final(self)@ == old(self)@.leaf(NodeView::Bytes(v@)),
    {
        self.push_leaf(BucketNode::Bytes(slice_to_vec(v)))
    }

    /// Captures bytes that live as long as the source: they are copied where
    /// this capture copies borrowed values, and referred to otherwise.
    pub fn visit_borrowed_bytes(&mut self, v: &'de [u8]) -> (captured: Result<(), BucketError>)
        ensures
            final(self).copies_borrowed() == old(self).copies_borrowed(),
            captured == old(self)@.admits_value(),
            final(self)@ == old(self)@.leaf(
                if old(self).copies_borrowed() {
                    NodeView::Bytes(v@)
                } else {
                    NodeView::BytesRef(v@)
                },
            ),
    {
        if self.owned {
            self.push_leaf(BucketNode::Bytes(slice_to_vec(v)))
        } else {
            self.push_leaf(BucketNode::BytesRef(v))
        }
    }

    /// Captures bytes that the caller hands over.
    pub fn visit_byte_buf(&mut self, v: Vec<u8>) -> (captured: Result<(), BucketError>)
        ensures
            final(self).copies_borrowed() == old(self).copies_borrowed(),
            captured == old(self)@.admits_value(),
            final(self)@ == old(self)@.leaf(NodeView::Bytes(v@)),
    {
        self.push_leaf(BucketNode::Bytes(v))
    }

    /// Captures an empty optional.
    pub fn visit_none(&mut self) -> (captured: Result<(), BucketError>)
        ensures
            final(self).copies_borrowed() == old(self).copies_borrowed(),
            captured == old(self)@.admits_value(),
            final(self)@ == old(self)@.leaf(NodeView::NoneMarker),
    {
        self.push_leaf(BucketNode::NoneMarker)
    }

    /// Captures the marker of a filled optional. Its payload is the value that
    /// is captured next.
    pub fn visit_some(&mut self) -> (captured: Result<(), BucketError>)
        ensures
            final(self).copies_borrowed() == old(self).copies_borrowed(),
            captured == old(self)@.admits_value(),
            final(self)@ == old(self)@.wrapper(NodeView::SomeMarker),
    {
        self.push_wrapper(BucketNode::SomeMarker)
    }

    /// Captures the unit value.
    pub fn visit_unit(&mut self) -> (captured: Result<(), BucketError>)
        ensures
            final(self).copies_borrowed() == old(self).copies_borrowed(),
            captured == old(self)@.admits_value(),
            final(self)@ == old(self)@.leaf(NodeView::Unit),
    {
        self.push_leaf(BucketNode::Unit)
    }

    /// Captures the marker of a transparent wrapper. Its payload is the value
    /// that is captured next.
    pub fn visit_newtype_struct(&mut self) -> (captured: Result<(), BucketError>)
        ensures
            final(self).copies_borrowed() == old(self).copies_borrowed(),
            captured == old(self)@.admits_value(),
            final(self)@ == old(self)@.wrapper(NodeView::NewType),
    {
        self.push_wrapper(BucketNode::NewType)
    }

    /// Captures the start of a sequence: a placeholder, to be replaced by the
    /// header when the sequence ends. The values captured from here to
    /// [`Self::end_seq`] are its elements and are counted.
    pub fn visit_seq(&mut self) -> (captured: Result<(), BucketError>)
        ensures
            final(self).copies_borrowed() == old(self).copies_borrowed(),
            captured == old(self)@.admits_value(),
            final(self)@ == old(self)@.opened(false),
    {
        self.open_composite(false)
    }

    /// Captures the end of the innermost open sequence: its placeholder
    /// becomes the header with the count, and the sequence is one complete value.
    pub fn end_seq(&mut self) -> (captured: Result<(), BucketError>)
        ensures
            final(self).copies_borrowed() == old(self).copies_borrowed(),
            captured == old(self)@.close_result(false),
            final(self)@ == old(self)@.closed(false),
    {
        self.close_composite(false)
    }

    /// Captures the start of a map: a placeholder, to be replaced by the
    /// header when the map ends. The values captured from here to
    /// [`Self::end_map`] are its keys and values, in turn, and are counted.
    pub fn visit_map(&mut self) -> (captured: Result<(), BucketError>)
        ensures
            final(self).copies_borrowed() == old(self).copies_borrowed(),
            captured == old(self)@.admits_value(),
            final(self)@ == old(self)@.opened(true),
    {
        self.open_composite(true)
    }

    /// Captures the end of the innermost open map: its placeholder
    /// becomes the header with the count, and the map is one complete value.
    pub fn end_map(&mut self) -> (captured: Result<(), BucketError>)
        ensures
            final(self).copies_borrowed() == old(self).copies_borrowed(),
            captured == old(self)@.close_result(true),
            final(self)@ == old(self)@.closed(true),
    {
        self.close_composite(true)
    }

    /// Ends the capture. The bucket is there once the one tree is complete;
    /// before that, the buffer is no tree.
    pub fn finish(self) -> (bucket: Result<Bucket<'de>, BucketError>)
        ensures
            self@.complete ==> bucket is Ok && bucket.unwrap()@ == self@.nodes && well_formed(
                self@.nodes,
            ),
            !self@.complete ==> bucket == Err::<Bucket<'de>, BucketError>(
                BucketError::CorruptBuffer,
            ),
    {
        proof {
            use_type_invariant(&self);
        }
        if self.buffers.done {
            Ok(Bucket::from_nodes(self.buffers.target))
        } else {
            Err(BucketError::CorruptBuffer)
        }
    }
}

} // verus!
