//! Errors that the planning and validation functions report.
use vstd::prelude::*;

verus! {

/// Why a transform could not be planned or launched.
#[derive(Debug, Clone, Copy, PartialEq, Eq, Structural)]
pub enum FftError {
    /// The transform length is zero.
    ZeroLength,
    /// A power-of-two length above the packed four-step limit.
    Radix2LimitExceeded,
    /// A Bluestein convolution longer than the four-step limit.
    ConvolutionLimitExceeded,
    /// A workspace with more elements than 32-bit indexing reaches.
    WorkspaceIndexing,
    /// A workspace whose byte size overflows `usize`.
    WorkspaceByteOverflow,
    /// `forward` called on an inverse plan.
    ForwardOnInversePlan,
    /// `inverse` called on a forward plan.
    InverseOnForwardPlan,
    /// A tensor of rank zero, or whose strides and dimensions differ in number.
    MalformedTensor,
    /// A tensor whose span overflows F32/U32 addressing.
    SpanOverflow,
    /// Buffer offsets larger than the buffer.
    InvalidOffsets,
    /// Strides that reach past the end of the buffer.
    StridesExceedBuffer,
    /// A dimension out of range, ranks that differ, or real and imaginary
    /// shapes that differ.
    InvalidDimension,
    /// Input or output lengths along the transform axis that do not match.
    LengthMismatch,
    /// Batch axes whose sizes differ between signal and spectrum.
    BatchShapeMismatch,
    /// A batch size that overflows `usize`.
    BatchOverflow,
    /// An output larger than 32-bit indexing reaches.
    IndexingOverflow,
    /// An output layout whose elements overlap.
    OverlappingOutput,
    /// An output layout whose span overflows `usize`.
    LayoutOverflow,
}

} // verus!
