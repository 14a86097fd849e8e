//! Mesh buffers: the data handed to a rendering backend.

use vstd::prelude::*;

verus! {

/// Four parallel buffers describing a triangle mesh.
///
/// Geometry lives on the integer voxel-boundary lattice of the chunk, so the
/// coordinates are exact; a rendering backend converts them to its own
/// floating-point vertex format when it uploads the mesh.
///
/// - `positions`: three lattice coordinates per vertex;
/// - `normals`: three components per vertex, a unit axis direction, each
///   component in `{-1, 0, 1}`;
/// - `texcoords`: two components per vertex, each `0` or `1`, mapping the
///   quad's extent onto the unit square;
/// - `indices`: three vertex numbers per triangle.
pub struct MeshBuffers {
    /// Vertex positions, three values per vertex.
    pub positions: Vec<u32>,
    /// Vertex normals, three values per vertex.
    pub normals: Vec<i32>,
    /// Vertex texture coordinates, two values per vertex.
    pub texcoords: Vec<u32>,
    /// Triangle indices, three per triangle, referencing vertices.
    pub indices: Vec<usize>,
}

impl MeshBuffers {
    /// Number of vertices described by a position buffer.
    pub open spec fn spec_vertex_count(&self) -> int {
        self.positions@.len() as int / 3
    }

    /// The structural invariant of a mesh: the three vertex buffers are
    /// parallel, indices come in whole triangles, and every index refers to
    /// an existing vertex.
    pub open spec fn wf(&self) -> bool {
        &&& self.positions@.len() % 3 == 0
        &&& self.normals@.len() == self.positions@.len()
        &&& self.texcoords@.len() * 3 == self.positions@.len() * 2
        &&& self.indices@.len() % 3 == 0
        &&& forall|i: int|
            0 <= i < self.indices@.len() ==> (self.indices@[i] as int) < self.spec_vertex_count()
    }

    /// A mesh with no vertices and no triangles: the valid result of meshing
    /// an all-empty volume.
    pub fn empty() -> (m: Self)
        ensures
            m.wf(),
            m.positions@.len() == 0,
            m.normals@.len() == 0,
            m.texcoords@.len() == 0,
            m.indices@.len() == 0,
    {
        MeshBuffers {
            positions: Vec::new(),
            normals: Vec::new(),
            texcoords: Vec::new(),
            indices: Vec::new(),
        }
    }

    /// Number of vertices.
    pub fn vertex_count(&self) -> (n: usize)
        ensures
            n == self.spec_vertex_count(),
    {
        self.positions.len() / 3
    }

    /// Number of triangles.
    pub fn triangle_count(&self) -> (n: usize)
        ensures
            n == self.indices@.len() as int / 3,
    {
        self.indices.len() / 3
    }

    /// Runtime validation of the structural invariant, for values that cross
    /// the boundary from unverified code.
    pub fn is_well_formed(&self) -> (b: bool)
        ensures
            b == self.wf(),
    {
        if self.positions.len() % 3 != 0 {
            return false;
        }
        if self.normals.len() != self.positions.len() {
            return false;
        }
        if self.texcoords.len() % 2 != 0 || self.texcoords.len() / 2 != self.positions.len() / 3 {
            return false;
        }
        if self.indices.len() % 3 != 0 {
            return false;
        }
        let nv = self.positions.len() / 3;
        let mut i: usize = 0;
        while i < self.indices.len()
            invariant
                i <= self.indices@.len(),
                nv == self.spec_vertex_count(),
                forall|j: int| 0 <= j < i ==> (self.indices@[j] as int) < nv,
            decreases self.indices@.len() - i,
        {
            if self.indices[i] >= nv {
                return false;
            }
            i = i + 1;
        }
        true
    }
}

} // verus!
