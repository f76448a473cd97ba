//! Sources of segments that are drawn as instances of the canonical unit
//! pipe.

use vstd::prelude::*;

verus! {

/// A source of segments (a line, a polyline, the boundary edges of a mesh)
/// that yields, for each segment, the transform `T` mapping the canonical
/// unit pipe (aligned with +Z, length 1, radius 0.5, centred at the origin)
/// onto that segment.
pub trait PipeFromSegments<T> {
    /// One transform per non-degenerate segment, in segment order.
    fn pipe_transforms(&self) -> Vec<T>;
}

} // verus!
