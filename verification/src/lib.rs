//! A byte buffer with a small-buffer optimisation and shared ownership,
//! codecs that turn typed values into such buffers and back, and typed
//! views of an ordered key-value store built on both.

pub mod batch;
pub mod batch_typed;
pub mod big_endian;
pub mod compare;
pub mod convert;
pub mod encoding;
pub mod ivec;
pub mod optimistic;
pub mod order;
pub mod sorted;
pub mod tree;
pub mod tree_typed;

pub use batch::Batch;
pub use batch_typed::TypedBatch;
pub use encoding::{AsBytes, Decoder, Encoder, IntegerEncoding, StringEncoding};
pub use ivec::{IVec, CUTOFF, SZ};
pub use tree::{CompareAndSwapError, Tree};
pub use tree_typed::{TypedCompareAndSwapError, TypedTree, UpdateState};
