//! Verified core of a handwritten-digit classifier: a decoder for the
//! big-endian binary image/label dataset format, one-hot label encoding,
//! a self-describing checkpoint codec for model parameters, and batch
//! index sampling without replacement.

pub mod bytes;
pub mod dataset;
pub mod error;
pub mod model;
pub mod sampling;

pub use bytes::push_be_u32;
pub use bytes::read_be_u32;
pub use dataset::one_hot;
pub use dataset::Dataset;
pub use dataset::Sample;
pub use error::Error;
pub use model::argmax;
pub use model::Model;
pub use sampling::choose_batch_indices;
