//! Accumulates the vertex and triangle-index buffers of a chunk surface.
//!
//! Every quantity of a chunk surface is a whole number: vertex positions are
//! block corners, normals are unit axis vectors, and texture coordinates are
//! the quad's corners. The renderer boundary converts these integers to its
//! own vertex format.

use vstd::prelude::*;

verus! {

/// One vertex of a chunk surface: a corner position, a unit axis normal, a
/// texture corner, and the face's material index.
#[derive(Debug, Clone, Copy, PartialEq, Eq, Structural)]
pub struct Vertex {
    pub px: i32,
    pub py: i32,
    pub pz: i32,
    pub nx: i32,
    pub ny: i32,
    pub nz: i32,
    pub u: i32,
    pub v: i32,
    pub tex: u32,
}

/// A handle to one vertex previously added to a [`MeshBuilder`].
#[derive(Debug, Clone, Copy, PartialEq, Eq, Structural)]
pub struct Index {
    i: u32,
}

impl Index {
    /// Which slot of the vertex buffer this handle names.
    pub closed spec fn as_int(self) -> int {
        self.i as int
    }
}

/// A growing vertex buffer and triangle index list.
pub struct MeshBuilder {
    vertices: Vec<Vertex>,
    indices: Vec<u32>,
}

impl MeshBuilder {
    /// The vertices added so far.
    pub closed spec fn verts(&self) -> Seq<Vertex> {
        self.vertices@
    }

    /// The triangle index list added so far.
    pub closed spec fn inds(&self) -> Seq<u32> {
        self.indices@
    }

    /// Every triangle index names an existing vertex.
    pub open spec fn wf(&self) -> bool {
        forall|i: int| 0 <= i < self.inds().len() ==> self.inds()[i] < self.verts().len()
    }

    /// An empty mesh.
    pub fn new() -> (mesh: MeshBuilder)
        ensures
            mesh.verts() == Seq::<Vertex>::empty(),
            mesh.inds() == Seq::<u32>::empty(),
            mesh.wf(),
    {
        MeshBuilder { vertices: Vec::new(), indices: Vec::new() }
    }

    /// Appends one vertex and returns its handle.
    pub fn vertex(&mut self, v: Vertex) -> (idx: Index)
        requires
            old(self).verts().len() < u32::MAX,
        ensures
            final(self).verts() == old(self).verts().push(v),
            final(self).inds() == old(self).inds(),
            idx.as_int() == old(self).verts().len(),
            old(self).wf() ==> final(self).wf(),
    {
        let idx = Index { i: self.vertices.len() as u32 };
        self.vertices.push(v);
        idx
    }

    /// Appends the six indices of one quad (two triangles).
    pub fn indices(&mut self, quad: [Index; 6])
        requires
            forall|i: int| 0 <= i < 6 ==> 0 <= (#[trigger] quad@[i]).as_int() < old(
                self,
            ).verts().len(),
        ensures
            final(self).verts() == old(self).verts(),
            final(self).inds() == old(self).inds() + quad@.map_values(
                |q: Index| q.as_int() as u32,
            ),
            final(self).inds().len() == old(self).inds().len() + 6,
            old(self).wf() ==> final(self).wf(),
    {
        let ghost before = self.indices@;
        let mut k: usize = 0;
        while k < 6
            invariant
                k <= 6,
                self.vertices@ == old(self).vertices@,
                forall|i: int| 0 <= i < 6 ==> 0 <= (#[trigger] quad@[i]).as_int()
                    < self.verts().len(),
                self.indices@ =~= before + quad@.take(k as int).map_values(
                    |q: Index| q.as_int() as u32,
                ),
            decreases 6 - k,
        {
            let q = quad[k];
            self.indices.push(q.i);
            proof {
                assert(quad@.take(k + 1).map_values(|q: Index| q.as_int() as u32) =~= quad@.take(
                    k as int,
                ).map_values(|q: Index| q.as_int() as u32).push(quad@[k as int].as_int() as u32));
            }
            k = k + 1;
        }
        proof {
            assert(quad@.take(6) =~= quad@);
            assert(self.indices@ =~= before + quad@.map_values(|q: Index| q.as_int() as u32));
            assert forall|i: int|
                0 <= i < self.inds().len() && old(self).wf() implies self.inds()[i]
                < self.verts().len() by {
                let mapped = quad@.map_values(|q: Index| q.as_int() as u32);
                if i < before.len() {
                    assert(old(self).inds() == before);
                    assert(self.inds()[i] == before[i]);
                    assert(before[i] < old(self).verts().len());
                } else {
                    let j = i - before.len();
                    assert(self.inds()[i] == mapped[j]);
                    assert(mapped[j] == quad@[j].as_int() as u32);
                    assert(0 <= quad@[j].as_int() < self.verts().len());
                }
            }
        }
    }

    /// How many vertices the surface holds.
    pub fn count_vertices(&self) -> (n: usize)
        ensures
            n == self.verts().len(),
    {
        self.vertices.len()
    }

    /// The finished vertex buffer.
    pub fn vertex_data(&self) -> (v: &Vec<Vertex>)
        ensures
            v@ == self.verts(),
    {
        &self.vertices
    }

    /// The finished triangle index list.
    pub fn index_data(&self) -> (v: &Vec<u32>)
        ensures
            v@ == self.inds(),
    {
        &self.indices
    }
}

} // verus!
