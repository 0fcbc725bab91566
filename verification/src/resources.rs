//! Resource bookkeeping for meshes: loaders accumulate decoded vertex
//! and index data into shared buffers and hand out descriptors that say
//! where each mesh landed.
//!
//! Decoding itself (reading a model file from disk and parsing it) is
//! the host's job; this module owns the part with invariants: the
//! buffers only grow, and every descriptor's offsets name exactly the
//! range its mesh occupies.

use vstd::prelude::*;

verus! {

/// What a mesh is, for rendering and debugging purposes.
#[derive(Clone, PartialEq, Eq, Debug)]
pub enum MeshLabel {
    /// The built-in unit cube.
    Cube,
    /// The built-in icosahedron.
    Isocahedron,
    /// A mesh decoded from a model file.
    Object {
        /// The caller's name for the mesh.
        name: &'static str,
        /// Where the model file came from.
        path: String,
    },
}

/// Where a mesh sits inside the loader's shared buffers.
#[derive(Clone, PartialEq, Eq, Debug)]
pub struct MeshDesc {
    /// How many indices the mesh has.
    pub num_indices: usize,
    /// The mesh's first index inside the shared index buffer.
    pub start_idx: u32,
    /// The value added to each index to reach the mesh's vertices inside
    /// the shared vertex buffer.
    pub base_vertex_idx: i32,
    /// What the mesh is.
    pub ty: MeshLabel,
}

/// A resource loader: consumes one unit of decoded source data and
/// yields a descriptor for it, or an error when the data cannot be taken
/// in.  Each loader says, in its own spec functions, when it can take
/// data in, which descriptor a load yields, and how a load changes its
/// state; `load`'s contract ties the call to those three.
pub trait Loader: Sized {
    /// The descriptor a successful load yields.
    type DescType;
    /// The decoded source data one load consumes.
    type Data;

    /// Whether the loader can currently take one more unit of data in.
    spec fn can_load(&self) -> bool;

    /// The descriptor a successful load of `data` yields.
    spec fn desc_of(&self, data: Self::Data) -> Self::DescType;

    /// How a successful load of `data` changes the loader's state.
    spec fn load_post(&self, data: Self::Data, after: Self) -> bool;

    /// Take `data` in and describe where it landed; refused exactly when
    /// the loader cannot take more in, in which case nothing changes.
    fn load(&mut self, data: Self::Data) -> (r: Result<Self::DescType, ()>)
        ensures
            r is Ok <==> old(self).can_load(),
            r matches Ok(d) ==> d == old(self).desc_of(data),
            old(self).can_load() ==> old(self).load_post(data, *final(self)),
            !old(self).can_load() ==> *final(self) == *old(self),
    ;
}

/// Accumulates mesh geometry, generic over the vertex type `V` (the
/// host's vertex layout), which this module never inspects.
pub struct MeshLoader<V> {
    /// Every registered mesh's vertices, one mesh after another.
    pub vertices: Vec<V>,
    /// Every registered mesh's indices, one mesh after another.
    pub indices: Vec<u32>,
}

impl<V> MeshLoader<V> {
    /// A loader with empty buffers.
    pub fn new() -> (m: Self)
        ensures
            m.vertices@ == Seq::<V>::empty(),
            m.indices@ == Seq::<u32>::empty(),
    {
        MeshLoader { vertices: Vec::new(), indices: Vec::new() }
    }

    /// Append one mesh's decoded geometry to the shared buffers and
    /// describe where it landed: its indices start where the index
    /// buffer ended, and its base vertex is where the vertex buffer
    /// ended.
    pub fn register_mesh(&mut self, vertices: Vec<V>, indices: Vec<u32>, label: MeshLabel) -> (d:
        MeshDesc)
        requires
            old(self).indices@.len() <= u32::MAX,
            old(self).vertices@.len() <= i32::MAX,
        ensures
            d.start_idx == old(self).indices@.len(),
            d.base_vertex_idx == old(self).vertices@.len(),
            d.num_indices == indices@.len(),
            d.ty == label,
            final(self).vertices@ == old(self).vertices@ + vertices@,
            final(self).indices@ == old(self).indices@ + indices@,
    {
        let start_idx = self.indices.len() as u32;
        let base_vertex_idx = self.vertices.len() as i32;
        let num_indices = indices.len();
        let mut vertices = vertices;
        let mut indices = indices;
        self.vertices.append(&mut vertices);
        self.indices.append(&mut indices);
        MeshDesc { num_indices, start_idx, base_vertex_idx, ty: label }
    }
}

impl<V> Loader for MeshLoader<V> {
    type DescType = MeshDesc;

    type Data = (Vec<V>, Vec<u32>, MeshLabel);

    /// Data can be taken in while the shared buffers still fit the
    /// descriptor's offset types.
    open spec fn can_load(&self) -> bool {
        self.indices@.len() <= u32::MAX && self.vertices@.len() <= i32::MAX
    }

    /// The descriptor of a mesh loaded now: its indices start where the
    /// index buffer ends, its base vertex where the vertex buffer ends.
    open spec fn desc_of(&self, data: Self::Data) -> MeshDesc {
        MeshDesc {
            num_indices: data.1@.len() as usize,
            start_idx: self.indices@.len() as u32,
            base_vertex_idx: self.vertices@.len() as i32,
            ty: data.2,
        }
    }

    /// A load appends the mesh's geometry to both shared buffers.
    open spec fn load_post(&self, data: Self::Data, after: Self) -> bool {
        &&& after.vertices@ == self.vertices@ + data.0@
        &&& after.indices@ == self.indices@ + data.1@
    }

    /// Register decoded mesh geometry; refused when the shared buffers
    /// have already outgrown the descriptor's offset types.
    fn load(&mut self, data: Self::Data) -> (r: Result<MeshDesc, ()>) {
        let (vertices, indices, label) = data;
        if self.indices.len() > (u32::MAX as usize) || self.vertices.len() > (i32::MAX as usize) {
            return Err(());
        }
        Ok(self.register_mesh(vertices, indices, label))
    }
}

} // verus!
