//! The parts of a loaded model that say how it is drawn.

use vstd::prelude::*;

verus! {

/// A run of consecutive vertices drawn with the same textures.
#[derive(Clone, Copy, Debug, PartialEq, Eq, Structural)]
pub struct DrawBatch {
    /// Index of the first vertex of the run.
    pub first_vertex: usize,
    /// Number of vertices in the run.
    pub vertex_count: usize,
    /// Index of the diffuse texture in the model's texture table, if any.
    pub texture: Option<usize>,
    /// Index of the normal map in the model's normal-map table, if any.
    pub normal_map: Option<usize>,
}

} // verus!
