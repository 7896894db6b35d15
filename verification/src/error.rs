//! The failures that the decoder, the dataset accessors, the batch sampler
//! and the checkpoint codec report.

use vstd::prelude::*;

verus! {

/// Every failure the library reports. All of them are unrecoverable at the
/// point of detection: the caller decides whether to abort or to retry with
/// corrected input.
#[derive(Clone, Copy, Debug, PartialEq, Eq, Structural)]
pub enum Error {
    /// A dataset buffer has a bad magic number, is too short for its declared
    /// count, declares mismatching image and label counts, or holds a label
    /// byte outside [0, 9].
    MalformedData,
    /// An input vector's length disagrees with the width the model expects.
    DimensionMismatch,
    /// A dataset index at or beyond the sample count.
    IndexOutOfRange,
    /// A batch request of zero samples, or of more samples than the dataset
    /// holds.
    InvalidBatchSize,
    /// A checkpoint byte stream that does not decode to a well-formed
    /// weight matrix and bias vector.
    CorruptCheckpoint,
}

} // verus!
