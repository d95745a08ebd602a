//! What can go wrong in the worker.

use vstd::prelude::*;

verus! {

/// The error type of `candle_core`, carried as it came.
#[verifier::external_type_specification]
#[verifier::external_body]
pub struct ExCandleError(candle_core::Error);

/// A failure of the worker.
pub enum WorkerError {
    /// A tensor operation failed.
    Candle(candle_core::Error),
    /// A tensor has another number of axes than the operation takes.
    Rank { expected: usize, shape: Vec<usize> },
    /// A result would have more elements than memory can number.
    TooLarge,
    /// A tensor or grid has an empty axis, or a tensor holds something else than
    /// 32-bit floats.
    NotAnImage,
    /// The spectral inverse was asked for a width that its bins already fill.
    DegenerateWidth,
    /// A packed spectrum has an odd number of channels.
    OddChannels,
    /// A margin reaches past the tensor that it reflects.
    PadTooLarge,
    /// A convolution kernel is larger than its input.
    KernelTooLarge,
    /// A residual block lost its local or its global branch.
    DroppedBranch,
    /// The first block produced no local branch.
    NoInitBranch,
    /// A downsampling block produced no local branch.
    DroppedLocal,
    /// No global branch reached the residual blocks.
    NoGlobalBranch,
    /// The mask selects no pixel.
    EmptyMask,
    /// A side of the image is zero.
    ZeroDimension,
    /// The mask has another size than the image.
    DimensionsDiffer { width: usize, height: usize, mask_width: usize, mask_height: usize },
    /// A buffer has another length than its image takes.
    BufferLength,
    /// The session takes another number of inputs than two.
    InputCount(usize),
    /// The session has no output.
    NoOutputs,
    /// The session gave an output of an unexpected shape.
    OutputShape(Vec<usize>),
    /// The generator gave a tensor of an unexpected shape.
    TensorShape(Vec<usize>),
    /// The session failed, with its own words.
    Session(String),
}

/// An outcome of a tensor operation with the library's error type.
pub fn lift<T>(r: Result<T, candle_core::Error>) -> (o: Result<T, WorkerError>)
    ensures
        match r {
            Ok(v) => o == Ok::<T, WorkerError>(v),
            Err(e) => o == Err::<T, WorkerError>(WorkerError::Candle(e)),
        },
{
    match r {
        Ok(v) => Ok(v),
        Err(e) => Err(WorkerError::Candle(e)),
    }
}

} // verus!
