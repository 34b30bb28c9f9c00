use vstd::prelude::*;

verus! {

/// A set of vertices (positions of any type `Position`) with edges, each connecting two
/// vertices.
pub struct WireframeMesh<Position> {
    pub vertices: Vec<Position>,
    /// an even number of vertex indices: each group of 2 is an edge
    pub edges: Vec<u32>,
}

impl<Position> WireframeMesh<Position> {
    pub fn new() -> (mesh: Self)
        ensures
            mesh.vertices@.len() == 0,
            mesh.edges@.len() == 0,
    {
        WireframeMesh { vertices: Vec::new(), edges: Vec::new() }
    }
}

} // verus!
