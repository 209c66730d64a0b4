use vstd::prelude::*;
use vstd::slice::slice_to_vec;

verus! {

/// One element of a flattened value tree.
///
/// A buffer of nodes is the depth-first, pre-order flattening of a tree: a
/// marker or a header is followed directly by the subtrees that belong to it.
/// Floating-point payloads are kept as their IEEE 754 bit patterns.
#[derive(Debug, PartialEq, Eq)]
pub enum BucketNode<'a> {
    /// An owned value that a taking replay has already moved out.
    Consumed,
    /// Placeholder of a composite whose size is not known yet.
    Unsized,
    Unit,
    Bool(bool),
    Char(char),
    U8(u8),
    I8(i8),
    U16(u16),
    I16(i16),
    U32(u32),
    I32(i32),
    U64(u64),
    I64(i64),
    U128(u128),
    I128(i128),
    /// The bits of a 32-bit float.
    F32(u32),
    /// The bits of a 64-bit float.
    F64(u64),
    String(String),
    StringRef(&'a str),
    Bytes(Vec<u8>),
    BytesRef(&'a [u8]),
    /// An empty optional.
    NoneMarker,
    /// A filled optional; its payload is the one subtree that follows.
    SomeMarker,
    /// A sequence of that many subtrees, which follow.
    SeqHeader(usize),
    /// A map of that many key and value pairs, which follow in alternation.
    MapHeader(usize),
    /// A transparent wrapper; its payload is the one subtree that follows.
    NewType,
}

/// What a [`BucketNode`] holds, as a mathematical value.
pub enum NodeView {
    Consumed,
    Unsized,
    Unit,
    Bool(bool),
    Char(char),
    U8(u8),
    I8(i8),
    U16(u16),
    I16(i16),
    U32(u32),
    I32(i32),
    U64(u64),
    I64(i64),
    U128(u128),
    I128(i128),
    F32(u32),
    F64(u64),
    String(Seq<char>),
    StringRef(Seq<char>),
    Bytes(Seq<u8>),
    BytesRef(Seq<u8>),
    NoneMarker,
    SomeMarker,
    SeqHeader(usize),
    MapHeader(usize),
    NewType,
}

impl NodeView {
    /// The number of subtrees that follow this node and belong to it.
    pub open spec fn arity(self) -> nat {
        match self {
            NodeView::SomeMarker => 1,
            NodeView::NewType => 1,
            NodeView::SeqHeader(n) => n as nat,
            NodeView::MapHeader(n) => 2 * (n as nat),
            _ => 0,
        }
    }

    /// True for the two kinds that own heap data, which a taking replay moves out.
    pub open spec fn is_owned(self) -> bool {
        self is String || self is Bytes
    }

    /// True for the nodes that a replay hands on: all but the two sentinels.
    pub open spec fn is_readable(self) -> bool {
        !(self is Consumed) && !(self is Unsized)
    }

    /// True for the two markers whose payload is the one subtree that follows.
    pub open spec fn is_wrapper(self) -> bool {
        self is SomeMarker || self is NewType
    }

    /// True for a readable node without subtrees.
    pub open spec fn is_leaf(self) -> bool {
        self.is_readable() && self.arity() == 0 && !(self is SeqHeader) && !(self is MapHeader)
    }

    /// The node that a capture stores for this one: the owned kind in place
    /// of the borrowed one where the capture copies borrowed values.
    pub open spec fn captured(self, owned: bool) -> NodeView {
        match self {
            NodeView::StringRef(text) if owned => NodeView::String(text),
            NodeView::BytesRef(bytes) if owned => NodeView::Bytes(bytes),
            _ => self,
        }
    }

    /// The node that stands in the buffer after a replay has read this one.
    pub open spec fn after_read(self, clone: bool) -> NodeView {
        if !clone && self.is_owned() {
            NodeView::Consumed
        } else {
            self
        }
    }
}

impl<'a> View for BucketNode<'a> {
    type V = NodeView;

    open spec fn view(&self) -> NodeView {
        match self {
            BucketNode::Consumed => NodeView::Consumed,
            BucketNode::Unsized => NodeView::Unsized,
            BucketNode::Unit => NodeView::Unit,
            BucketNode::Bool(v) => NodeView::Bool(*v),
            BucketNode::Char(v) => NodeView::Char(*v),
            BucketNode::U8(v) => NodeView::U8(*v),
            BucketNode::I8(v) => NodeView::I8(*v),
            BucketNode::U16(v) => NodeView::U16(*v),
            BucketNode::I16(v) => NodeView::I16(*v),
            BucketNode::U32(v) => NodeView::U32(*v),
            BucketNode::I32(v) => NodeView::I32(*v),
            BucketNode::U64(v) => NodeView::U64(*v),
            BucketNode::I64(v) => NodeView::I64(*v),
            BucketNode::U128(v) => NodeView::U128(*v),
            BucketNode::I128(v) => NodeView::I128(*v),
            BucketNode::F32(v) => NodeView::F32(*v),
            BucketNode::F64(v) => NodeView::F64(*v),
            BucketNode::String(v) => NodeView::String(v@),
            BucketNode::StringRef(v) => NodeView::StringRef(v@),
            BucketNode::Bytes(v) => NodeView::Bytes(v@),
            BucketNode::BytesRef(v) => NodeView::BytesRef(v@),
            BucketNode::NoneMarker => NodeView::NoneMarker,
            BucketNode::SomeMarker => NodeView::SomeMarker,
            BucketNode::SeqHeader(n) => NodeView::SeqHeader(*n),
            BucketNode::MapHeader(n) => NodeView::MapHeader(*n),
            BucketNode::NewType => NodeView::NewType,
        }
    }
}

impl<'a> BucketNode<'a> {
    /// A copy of this node; owned text and bytes are copied, borrowed ones are shared.
    pub fn duplicate(&self) -> (copy: BucketNode<'a>)
        ensures
            copy@ == self@,
    {
        match self {
            BucketNode::Consumed => BucketNode::Consumed,
            BucketNode::Unsized => BucketNode::Unsized,
            BucketNode::Unit => BucketNode::Unit,
            BucketNode::Bool(v) => BucketNode::Bool(*v),
            BucketNode::Char(v) => BucketNode::Char(*v),
            BucketNode::U8(v) => BucketNode::U8(*v),
            BucketNode::I8(v) => BucketNode::I8(*v),
            BucketNode::U16(v) => BucketNode::U16(*v),
            BucketNode::I16(v) => BucketNode::I16(*v),
            BucketNode::U32(v) => BucketNode::U32(*v),
            BucketNode::I32(v) => BucketNode::I32(*v),
            BucketNode::U64(v) => BucketNode::U64(*v),
            BucketNode::I64(v) => BucketNode::I64(*v),
            BucketNode::U128(v) => BucketNode::U128(*v),
            BucketNode::I128(v) => BucketNode::I128(*v),
            BucketNode::F32(v) => BucketNode::F32(*v),
            BucketNode::F64(v) => BucketNode::F64(*v),
            BucketNode::String(v) => BucketNode::String(v.clone()),
            BucketNode::StringRef(v) => BucketNode::StringRef(*v),
            BucketNode::Bytes(v) => BucketNode::Bytes(slice_to_vec(v.as_slice())),
            BucketNode::BytesRef(v) => BucketNode::BytesRef(*v),
            BucketNode::NoneMarker => BucketNode::NoneMarker,
            BucketNode::SomeMarker => BucketNode::SomeMarker,
            BucketNode::SeqHeader(n) => BucketNode::SeqHeader(*n),
            BucketNode::MapHeader(n) => BucketNode::MapHeader(*n),
            BucketNode::NewType => BucketNode::NewType,
        }
    }

    /// This node without a borrow: borrowed text and bytes are copied, and
    /// every other node stays what it is.
    pub fn into_owned(self) -> (owned: BucketNode<'static>)
        ensures
            owned@ == self@.captured(true),
    {
        match self {
            BucketNode::Consumed => BucketNode::Consumed,
            BucketNode::Unsized => BucketNode::Unsized,
            BucketNode::Unit => BucketNode::Unit,
            BucketNode::Bool(v) => BucketNode::Bool(v),
            BucketNode::Char(v) => BucketNode::Char(v),
            BucketNode::U8(v) => BucketNode::U8(v),
            BucketNode::I8(v) => BucketNode::I8(v),
            BucketNode::U16(v) => BucketNode::U16(v),
            BucketNode::I16(v) => BucketNode::I16(v),
            BucketNode::U32(v) => BucketNode::U32(v),
            BucketNode::I32(v) => BucketNode::I32(v),
            BucketNode::U64(v) => BucketNode::U64(v),
            BucketNode::I64(v) => BucketNode::I64(v),
            BucketNode::U128(v) => BucketNode::U128(v),
            BucketNode::I128(v) => BucketNode::I128(v),
            BucketNode::F32(v) => BucketNode::F32(v),
            BucketNode::F64(v) => BucketNode::F64(v),
            BucketNode::String(v) => BucketNode::String(v),
            BucketNode::StringRef(v) => BucketNode::String(v.to_owned()),
            BucketNode::Bytes(v) => BucketNode::Bytes(v),
            BucketNode::BytesRef(v) => BucketNode::Bytes(slice_to_vec(v)),
            BucketNode::NoneMarker => BucketNode::NoneMarker,
            BucketNode::SomeMarker => BucketNode::SomeMarker,
            BucketNode::SeqHeader(n) => BucketNode::SeqHeader(n),
            BucketNode::MapHeader(n) => BucketNode::MapHeader(n),
            BucketNode::NewType => BucketNode::NewType,
        }
    }

    /// True for the two kinds that own heap data.
    pub fn is_owned(&self) -> (owned: bool)
        ensures
            owned == self@.is_owned(),
    {
        match self {
            BucketNode::String(_) => true,
            BucketNode::Bytes(_) => true,
            _ => false,
        }
    }
}

} // verus!
