//! A bucket holds any self-describing value as a flat buffer of nodes, so
//! that the value can be rebuilt later, more than once, into a shape that
//! need not be known when the bucket is filled.
//!
//! - [`BucketNode`] is one element of the buffer, and [`shape`] says which
//!   buffers are the flattening of one tree.
//! - [`BucketVisitor`] is the write phase: it turns the events of a decoder
//!   into a [`Bucket`].
//! - [`BucketDeserializer`] is the read phase: it hands the nodes back, one
//!   by one, and either copies the owned values or takes them.
//!   [`BucketSeqDeserializer`] and [`BucketMapDeserializer`] count the
//!   elements of a sequence and the entries of a map for it.
//! - [`Value`] is a value in the shape it has. A bucket is captured from one
//!   and replayed into one; [`laws`] states what holds of the two together.
//! - [`debug`] renders a buffer from its linear layout alone.
//!
//! Floating-point numbers are held as their bits throughout.

pub mod bucket;
pub mod capture;
pub mod de;
pub mod debug;
pub mod error;
pub mod laws;
pub mod node;
pub mod owned;
pub mod replay;
pub mod segment;
pub mod shape;
pub mod text;
pub mod tree;
pub mod value;
pub mod visitor;

pub use bucket::Bucket;
pub use de::BucketDeserializer;
pub use de::BucketMapDeserializer;
pub use de::BucketSeqDeserializer;
pub use debug::DebugPiece;
pub use error::BucketError;
pub use error::PseudoError;
pub use node::BucketNode;
pub use node::NodeView;
pub use owned::OwnedBucket;
pub use segment::BucketSegment;
pub use tree::Tree;
pub use value::Value;
pub use visitor::BucketVisitor;
pub use visitor::CaptureState;
pub use visitor::OpenComposite;
