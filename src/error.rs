//! Construction-time errors: the only failures the core reports.

use vstd::prelude::*;

verus! {

/// Why a canvas, camera or clock could not be built.
#[derive(Debug, Clone, Copy, PartialEq, Eq, Structural)]
pub enum EngineError {
    /// A width or height of zero.
    EmptyDimensions,
    /// A canvas whose byte buffer would not fit in memory.
    CanvasTooLarge,
    /// A zoom factor that is not strictly positive.
    InvalidZoom,
    /// A fixed time step of zero.
    ZeroTimeStep,
}

} // verus!
