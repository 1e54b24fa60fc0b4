//! The chunk edge length, the enumeration of every cell of a chunk, and the
//! visible-face mesh extraction over a chunk and its six neighbor edges.

use vstd::prelude::*;

use crate::block::{
    lemma_append_empty, render_cube, spec_cube_inds, spec_cube_verts, Block, BlockFace,
    BlockFaces,
};
use crate::chunk_data::ChunkData;
use crate::chunk_index::{spec_flat_index, ChunkIndex};
use crate::mesh_builder::{MeshBuilder, Vertex};

verus! {

/// Number of blocks along one edge of a cubic chunk.
pub const CHUNK_SIZE: usize = 32;

/// Number of blocks a chunk holds.
pub const CHUNK_VOLUME: usize = 32768;

/// Every `(x, y, z)` cell of a chunk, `x` slowest and `z` fastest.
pub open spec fn spec_iter_triple(i: int) -> (usize, usize, usize) {
    (
        (i / ((CHUNK_SIZE * CHUNK_SIZE) as int)) as usize,
        ((i / (CHUNK_SIZE as int)) % (CHUNK_SIZE as int)) as usize,
        (i % (CHUNK_SIZE as int)) as usize,
    )
}

/// Enumerates every block position of a chunk, in a fixed order: `x`
/// slowest, then `y`, then `z` fastest.
pub fn iter_blocks() -> (cells: Vec<(usize, usize, usize)>)
    ensures
        cells@.len() == CHUNK_VOLUME,
        forall|i: int| 0 <= i < cells@.len() ==> cells@[i] == spec_iter_triple(i),
{
    let mut cells: Vec<(usize, usize, usize)> = Vec::new();
    let mut x: usize = 0;
    while x < CHUNK_SIZE
        invariant
            x <= CHUNK_SIZE,
            cells@.len() == x * CHUNK_SIZE * CHUNK_SIZE,
            forall|i: int| 0 <= i < cells@.len() ==> cells@[i] == spec_iter_triple(i),
        decreases CHUNK_SIZE - x,
    {
        let mut y: usize = 0;
        while y < CHUNK_SIZE
            invariant
                x < CHUNK_SIZE,
                y <= CHUNK_SIZE,
                cells@.len() == x * CHUNK_SIZE * CHUNK_SIZE + y * CHUNK_SIZE,
                forall|i: int| 0 <= i < cells@.len() ==> cells@[i] == spec_iter_triple(i),
            decreases CHUNK_SIZE - y,
        {
            let mut z: usize = 0;
            while z < CHUNK_SIZE
                invariant
                    x < CHUNK_SIZE,
                    y < CHUNK_SIZE,
                    z <= CHUNK_SIZE,
                    cells@.len() == x * CHUNK_SIZE * CHUNK_SIZE + y * CHUNK_SIZE + z,
                    forall|i: int| 0 <= i < cells@.len() ==> cells@[i] == spec_iter_triple(i),
                decreases CHUNK_SIZE - z,
            {
                proof {
                    let i = cells@.len() as int;
                    assert(i == x * 1024 + y * 32 + z);
                    assert(i / 1024 == x && (i / 32) % 32 == y && i % 32 == z) by (nonlinear_arith)
                        requires
                            i == x * 1024 + y * 32 + z,
                            0 <= x < 32,
                            0 <= y < 32,
                            0 <= z < 32,
                    ;
                }
                cells.push((x, y, z));
                z = z + 1;
            }
            y = y + 1;
        }
        x = x + 1;
    }
    cells
}

/// True when the cell `(x, y, z)` of a chunk holds a block.
pub open spec fn spec_occupied(chunk: Seq<Option<Block>>, x: int, y: int, z: int) -> bool {
    chunk[spec_flat_index(x, y, z)] is Some
}

/// Occupancy a neighbor chunk reports at one of its cells; an absent
/// neighbor counts as occupied everywhere, so unseen boundaries never render
/// as open holes.
pub open spec fn spec_neighbor_occupied(n: Option<ChunkData>, x: int, y: int, z: int) -> bool {
    match n {
        None => true,
        Some(c) => spec_occupied(c@, x, y, z),
    }
}

/// Snapshots of up to six neighbor chunks, any of which may be absent.
pub struct AdjacentChunks {
    pub left: Option<ChunkData>,
    pub right: Option<ChunkData>,
    pub top: Option<ChunkData>,
    pub bottom: Option<ChunkData>,
    pub front: Option<ChunkData>,
    pub back: Option<ChunkData>,
}

impl AdjacentChunks {
    /// Every present neighbor holds a whole chunk volume.
    pub open spec fn wf(&self) -> bool {
        (self.left is Some ==> self.left->Some_0.wf()) && (self.right is Some
            ==> self.right->Some_0.wf()) && (self.top is Some ==> self.top->Some_0.wf())
            && (self.bottom is Some ==> self.bottom->Some_0.wf()) && (self.front is Some
            ==> self.front->Some_0.wf()) && (self.back is Some ==> self.back->Some_0.wf())
    }
}

/// The slot of boundary cell `(a, b)` in a 32x32 edge plane.
pub open spec fn spec_plane_index(a: int, b: int) -> int {
    a + b * (CHUNK_SIZE as int)
}

/// A plane slot splits back into its two coordinates.
proof fn lemma_plane_index_split(a: int, b: int)
    requires
        0 <= a < CHUNK_SIZE,
        0 <= b < CHUNK_SIZE,
    ensures
        0 <= spec_plane_index(a, b) < CHUNK_SIZE * CHUNK_SIZE,
        spec_plane_index(a, b) % (CHUNK_SIZE as int) == a,
        spec_plane_index(a, b) / (CHUNK_SIZE as int) == b,
{
    assert(0 <= a + b * 32 < 1024 && (a + b * 32) % 32 == a && (a + b * 32) / 32 == b)
        by (nonlinear_arith)
        requires
            0 <= a < 32,
            0 <= b < 32,
    ;
}

/// One boundary plane read at a fixed `x`: slot `(a, b)` holds the occupancy
/// of neighbor cell `(x0, a, b)`, or `true` when the neighbor is absent.
fn plane_x_fixed(n: &Option<ChunkData>, x0: usize) -> (plane: Vec<bool>)
    requires
        x0 < CHUNK_SIZE,
        n is Some ==> n->Some_0.wf(),
    ensures
        plane@.len() == CHUNK_SIZE * CHUNK_SIZE,
        forall|a: int, b: int|
            0 <= a < CHUNK_SIZE && 0 <= b < CHUNK_SIZE ==> plane@[#[trigger] spec_plane_index(
                a,
                b,
            )] == spec_neighbor_occupied(*n, x0 as int, a, b),
{
    let mut plane: Vec<bool> = Vec::new();
    let mut p: usize = 0;
    while p < CHUNK_SIZE * CHUNK_SIZE
        invariant
            x0 < CHUNK_SIZE,
            n is Some ==> n->Some_0.wf(),
            p <= CHUNK_SIZE * CHUNK_SIZE,
            plane@.len() == p,
            forall|q: int|
                0 <= q < p ==> plane@[q] == spec_neighbor_occupied(
                    *n,
                    x0 as int,
                    q % (CHUNK_SIZE as int),
                    q / (CHUNK_SIZE as int),
                ),
        decreases CHUNK_SIZE * CHUNK_SIZE - p,
    {
        let a = p % CHUNK_SIZE;
        let b = p / CHUNK_SIZE;
        let occ = match n {
            None => true,
            Some(c) => c.block(ChunkIndex::new(x0, a, b)).is_some(),
        };
        plane.push(occ);
        p = p + 1;
    }
    proof {
        assert forall|a: int, b: int|
            0 <= a < CHUNK_SIZE && 0 <= b < CHUNK_SIZE implies plane@[#[trigger] spec_plane_index(
            a,
            b,
        )] == spec_neighbor_occupied(*n, x0 as int, a, b) by {
            lemma_plane_index_split(a, b);
        }
    }
    plane
}

/// One boundary plane read at a fixed `y`: slot `(a, b)` holds the occupancy
/// of neighbor cell `(a, y0, b)`, or `true` when the neighbor is absent.
fn plane_y_fixed(n: &Option<ChunkData>, y0: usize) -> (plane: Vec<bool>)
    requires
        y0 < CHUNK_SIZE,
        n is Some ==> n->Some_0.wf(),
    ensures
        plane@.len() == CHUNK_SIZE * CHUNK_SIZE,
        forall|a: int, b: int|
            0 <= a < CHUNK_SIZE && 0 <= b < CHUNK_SIZE ==> plane@[#[trigger] spec_plane_index(
                a,
                b,
            )] == spec_neighbor_occupied(*n, a, y0 as int, b),
{
    let mut plane: Vec<bool> = Vec::new();
    let mut p: usize = 0;
    while p < CHUNK_SIZE * CHUNK_SIZE
        invariant
            y0 < CHUNK_SIZE,
            n is Some ==> n->Some_0.wf(),
            p <= CHUNK_SIZE * CHUNK_SIZE,
            plane@.len() == p,
            forall|q: int|
                0 <= q < p ==> plane@[q] == spec_neighbor_occupied(
                    *n,
                    q % (CHUNK_SIZE as int),
                    y0 as int,
                    q / (CHUNK_SIZE as int),
                ),
        decreases CHUNK_SIZE * CHUNK_SIZE - p,
    {
        let a = p % CHUNK_SIZE;
        let b = p / CHUNK_SIZE;
        let occ = match n {
            None => true,
            Some(c) => c.block(ChunkIndex::new(a, y0, b)).is_some(),
        };
        plane.push(occ);
        p = p + 1;
    }
    proof {
        assert forall|a: int, b: int|
            0 <= a < CHUNK_SIZE && 0 <= b < CHUNK_SIZE implies plane@[#[trigger] spec_plane_index(
            a,
            b,
        )] == spec_neighbor_occupied(*n, a, y0 as int, b) by {
            lemma_plane_index_split(a, b);
        }
    }
    plane
}

/// One boundary plane read at a fixed `z`: slot `(a, b)` holds the occupancy
/// of neighbor cell `(a, b, z0)`, or `true` when the neighbor is absent.
fn plane_z_fixed(n: &Option<ChunkData>, z0: usize) -> (plane: Vec<bool>)
    requires
        z0 < CHUNK_SIZE,
        n is Some ==> n->Some_0.wf(),
    ensures
        plane@.len() == CHUNK_SIZE * CHUNK_SIZE,
        forall|a: int, b: int|
            0 <= a < CHUNK_SIZE && 0 <= b < CHUNK_SIZE ==> plane@[#[trigger] spec_plane_index(
                a,
                b,
            )] == spec_neighbor_occupied(*n, a, b, z0 as int),
{
    let mut plane: Vec<bool> = Vec::new();
    let mut p: usize = 0;
    while p < CHUNK_SIZE * CHUNK_SIZE
        invariant
            z0 < CHUNK_SIZE,
            n is Some ==> n->Some_0.wf(),
            p <= CHUNK_SIZE * CHUNK_SIZE,
            plane@.len() == p,
            forall|q: int|
                0 <= q < p ==> plane@[q] == spec_neighbor_occupied(
                    *n,
                    q % (CHUNK_SIZE as int),
                    q / (CHUNK_SIZE as int),
                    z0 as int,
                ),
        decreases CHUNK_SIZE * CHUNK_SIZE - p,
    {
        let a = p % CHUNK_SIZE;
        let b = p / CHUNK_SIZE;
        let occ = match n {
            None => true,
            Some(c) => c.block(ChunkIndex::new(a, b, z0)).is_some(),
        };
        plane.push(occ);
        p = p + 1;
    }
    proof {
        assert forall|a: int, b: int|
            0 <= a < CHUNK_SIZE && 0 <= b < CHUNK_SIZE implies plane@[#[trigger] spec_plane_index(
            a,
            b,
        )] == spec_neighbor_occupied(*n, a, b, z0 as int) by {
            lemma_plane_index_split(a, b);
        }
    }
    plane
}

/// Six 32x32 boolean planes caching the boundary occupancy of the (possibly
/// absent) neighbor chunks.
pub struct AdjacentEdges {
    left: Vec<bool>,
    right: Vec<bool>,
    top: Vec<bool>,
    bottom: Vec<bool>,
    front: Vec<bool>,
    back: Vec<bool>,
}

impl AdjacentEdges {
    pub closed spec fn left_plane(&self) -> Seq<bool> {
        self.left@
    }

    pub closed spec fn right_plane(&self) -> Seq<bool> {
        self.right@
    }

    pub closed spec fn top_plane(&self) -> Seq<bool> {
        self.top@
    }

    pub closed spec fn bottom_plane(&self) -> Seq<bool> {
        self.bottom@
    }

    pub closed spec fn front_plane(&self) -> Seq<bool> {
        self.front@
    }

    pub closed spec fn back_plane(&self) -> Seq<bool> {
        self.back@
    }

    /// Every plane holds one boolean per boundary cell.
    pub open spec fn wf(&self) -> bool {
        self.left_plane().len() == CHUNK_SIZE * CHUNK_SIZE && self.right_plane().len()
            == CHUNK_SIZE * CHUNK_SIZE && self.top_plane().len() == CHUNK_SIZE * CHUNK_SIZE
            && self.bottom_plane().len() == CHUNK_SIZE * CHUNK_SIZE && self.front_plane().len()
            == CHUNK_SIZE * CHUNK_SIZE && self.back_plane().len() == CHUNK_SIZE * CHUNK_SIZE
    }
}

/// The edge planes hold exactly the boundary occupancy of the neighbors they
/// were computed from.
pub open spec fn spec_edges_match(adj: AdjacentChunks, edges: AdjacentEdges) -> bool {
    forall|a: int, b: int|
        #![trigger spec_plane_index(a, b)]
        0 <= a < CHUNK_SIZE && 0 <= b < CHUNK_SIZE ==> {
            &&& edges.left_plane()[spec_plane_index(a, b)] == spec_neighbor_occupied(
                adj.left,
                (CHUNK_SIZE - 1) as int,
                a,
                b,
            )
            &&& edges.right_plane()[spec_plane_index(a, b)] == spec_neighbor_occupied(
                adj.right,
                0,
                a,
                b,
            )
            &&& edges.top_plane()[spec_plane_index(a, b)] == spec_neighbor_occupied(
                adj.top,
                a,
                0,
                b,
            )
            &&& edges.bottom_plane()[spec_plane_index(a, b)] == spec_neighbor_occupied(
                adj.bottom,
                a,
                (CHUNK_SIZE - 1) as int,
                b,
            )
            &&& edges.front_plane()[spec_plane_index(a, b)] == spec_neighbor_occupied(
                adj.front,
                a,
                b,
                0,
            )
            &&& edges.back_plane()[spec_plane_index(a, b)] == spec_neighbor_occupied(
                adj.back,
                a,
                b,
                (CHUNK_SIZE - 1) as int,
            )
        }
}

impl AdjacentChunks {
    /// Builds the six boundary planes from the neighbor snapshots: each slot
    /// holds the occupancy of the facing boundary cell of that neighbor, and
    /// defaults to occupied where the neighbor is absent.
    pub fn compute_edges(self) -> (edges: AdjacentEdges)
        requires
            self.wf(),
        ensures
            edges.wf(),
            spec_edges_match(self, edges),
    {
        AdjacentEdges {
            left: plane_x_fixed(&self.left, CHUNK_SIZE - 1),
            right: plane_x_fixed(&self.right, 0),
            top: plane_y_fixed(&self.top, 0),
            bottom: plane_y_fixed(&self.bottom, CHUNK_SIZE - 1),
            front: plane_z_fixed(&self.front, 0),
            back: plane_z_fixed(&self.back, CHUNK_SIZE - 1),
        }
    }
}

/// Visibility of one face of the block at `(x, y, z)`, judged against the
/// cached edge planes: a face is visible when the adjacent cell (within the
/// chunk, or across the boundary through the plane) is empty.
pub open spec fn spec_face_visible(
    chunk: Seq<Option<Block>>,
    edges: AdjacentEdges,
    face: BlockFace,
    x: int,
    y: int,
    z: int,
) -> bool {
    match face {
        BlockFace::Left => if x == 0 {
            !edges.left_plane()[spec_plane_index(y, z)]
        } else {
            !spec_occupied(chunk, x - 1, y, z)
        },
        BlockFace::Right => if x == CHUNK_SIZE - 1 {
            !edges.right_plane()[spec_plane_index(y, z)]
        } else {
            !spec_occupied(chunk, x + 1, y, z)
        },
        BlockFace::Top => if y == CHUNK_SIZE - 1 {
            !edges.top_plane()[spec_plane_index(x, z)]
        } else {
            !spec_occupied(chunk, x, y + 1, z)
        },
        BlockFace::Bottom => if y == 0 {
            !edges.bottom_plane()[spec_plane_index(x, z)]
        } else {
            !spec_occupied(chunk, x, y - 1, z)
        },
        BlockFace::Front => if z == CHUNK_SIZE - 1 {
            !edges.front_plane()[spec_plane_index(x, y)]
        } else {
            !spec_occupied(chunk, x, y, z + 1)
        },
        BlockFace::Back => if z == 0 {
            !edges.back_plane()[spec_plane_index(x, y)]
        } else {
            !spec_occupied(chunk, x, y, z - 1)
        },
    }
}

/// Visibility of one face of the block at `(x, y, z)`, judged directly
/// against the neighbor snapshots.
pub open spec fn spec_world_face_visible(
    chunk: Seq<Option<Block>>,
    adj: AdjacentChunks,
    face: BlockFace,
    x: int,
    y: int,
    z: int,
) -> bool {
    match face {
        BlockFace::Left => if x == 0 {
            !spec_neighbor_occupied(adj.left, (CHUNK_SIZE - 1) as int, y, z)
        } else {
            !spec_occupied(chunk, x - 1, y, z)
        },
        BlockFace::Right => if x == CHUNK_SIZE - 1 {
            !spec_neighbor_occupied(adj.right, 0, y, z)
        } else {
            !spec_occupied(chunk, x + 1, y, z)
        },
        BlockFace::Top => if y == CHUNK_SIZE - 1 {
            !spec_neighbor_occupied(adj.top, x, 0, z)
        } else {
            !spec_occupied(chunk, x, y + 1, z)
        },
        BlockFace::Bottom => if y == 0 {
            !spec_neighbor_occupied(adj.bottom, x, (CHUNK_SIZE - 1) as int, z)
        } else {
            !spec_occupied(chunk, x, y - 1, z)
        },
        BlockFace::Front => if z == CHUNK_SIZE - 1 {
            !spec_neighbor_occupied(adj.front, x, y, 0)
        } else {
            !spec_occupied(chunk, x, y, z + 1)
        },
        BlockFace::Back => if z == 0 {
            !spec_neighbor_occupied(adj.back, x, y, (CHUNK_SIZE - 1) as int)
        } else {
            !spec_occupied(chunk, x, y, z - 1)
        },
    }
}

/// Edge planes that match their neighbors judge faces exactly as the
/// neighbors themselves do.
pub proof fn lemma_face_visible_world(
    chunk: Seq<Option<Block>>,
    adj: AdjacentChunks,
    edges: AdjacentEdges,
    face: BlockFace,
    x: int,
    y: int,
    z: int,
)
    requires
        spec_edges_match(adj, edges),
        0 <= x < CHUNK_SIZE,
        0 <= y < CHUNK_SIZE,
        0 <= z < CHUNK_SIZE,
    ensures
        spec_face_visible(chunk, edges, face, x, y, z) == spec_world_face_visible(
            chunk,
            adj,
            face,
            x,
            y,
            z,
        ),
{
    assert(spec_plane_index(y, z) == spec_plane_index(y, z));
    assert(spec_plane_index(x, z) == spec_plane_index(x, z));
    assert(spec_plane_index(x, y) == spec_plane_index(x, y));
}

impl AdjacentEdges {
    /// Which faces of the block at `(x, y, z)` are visible: those whose
    /// adjacent cell, within the chunk or across the cached boundary, is
    /// empty.
    pub fn compute_faces(&self, chunk: &ChunkData, x: usize, y: usize, z: usize) -> (faces:
        BlockFaces)
        requires
            self.wf(),
            chunk.wf(),
            x < CHUNK_SIZE,
            y < CHUNK_SIZE,
            z < CHUNK_SIZE,
        ensures
            faces.left == spec_face_visible(chunk@, *self, BlockFace::Left, x as int, y as int, z as int),
            faces.right == spec_face_visible(chunk@, *self, BlockFace::Right, x as int, y as int, z as int),
            faces.top == spec_face_visible(chunk@, *self, BlockFace::Top, x as int, y as int, z as int),
            faces.bottom == spec_face_visible(chunk@, *self, BlockFace::Bottom, x as int, y as int, z as int),
            faces.front == spec_face_visible(chunk@, *self, BlockFace::Front, x as int, y as int, z as int),
            faces.back == spec_face_visible(chunk@, *self, BlockFace::Back, x as int, y as int, z as int),
    {
        proof {
            lemma_plane_index_split(y as int, z as int);
            lemma_plane_index_split(x as int, z as int);
            lemma_plane_index_split(x as int, y as int);
        }
        BlockFaces {
            left: if x == 0 {
                !self.left[y + z * CHUNK_SIZE]
            } else {
                chunk.block(ChunkIndex::new(x - 1, y, z)).is_none()
            },
            right: if x == CHUNK_SIZE - 1 {
                !self.right[y + z * CHUNK_SIZE]
            } else {
                chunk.block(ChunkIndex::new(x + 1, y, z)).is_none()
            },
            top: if y == CHUNK_SIZE - 1 {
                !self.top[x + z * CHUNK_SIZE]
            } else {
                chunk.block(ChunkIndex::new(x, y + 1, z)).is_none()
            },
            bottom: if y == 0 {
                !self.bottom[x + z * CHUNK_SIZE]
            } else {
                chunk.block(ChunkIndex::new(x, y - 1, z)).is_none()
            },
            front: if z == CHUNK_SIZE - 1 {
                !self.front[x + y * CHUNK_SIZE]
            } else {
                chunk.block(ChunkIndex::new(x, y, z + 1)).is_none()
            },
            back: if z == 0 {
                !self.back[x + y * CHUNK_SIZE]
            } else {
                chunk.block(ChunkIndex::new(x, y, z - 1)).is_none()
            },
        }
    }
}

/// Which faces of the cell `(x, y, z)` are visible, judged against the
/// neighbor snapshots.
pub open spec fn spec_cell_faces_value(
    chunk: Seq<Option<Block>>,
    adj: AdjacentChunks,
    x: int,
    y: int,
    z: int,
) -> BlockFaces {
    BlockFaces {
        left: spec_world_face_visible(chunk, adj, BlockFace::Left, x, y, z),
        right: spec_world_face_visible(chunk, adj, BlockFace::Right, x, y, z),
        top: spec_world_face_visible(chunk, adj, BlockFace::Top, x, y, z),
        bottom: spec_world_face_visible(chunk, adj, BlockFace::Bottom, x, y, z),
        front: spec_world_face_visible(chunk, adj, BlockFace::Front, x, y, z),
        back: spec_world_face_visible(chunk, adj, BlockFace::Back, x, y, z),
    }
}

/// The vertices one cell contributes to the surface: nothing for an empty
/// cell, else the quads of its visible faces.
pub open spec fn spec_cell_verts(
    chunk: Seq<Option<Block>>,
    adj: AdjacentChunks,
    x: int,
    y: int,
    z: int,
) -> Seq<Vertex> {
    match chunk[spec_flat_index(x, y, z)] {
        None => Seq::empty(),
        Some(b) => spec_cube_verts(
            b,
            x as i32,
            y as i32,
            z as i32,
            spec_cell_faces_value(chunk, adj, x, y, z),
        ),
    }
}

/// The indices one cell contributes, its quads based at vertex slot `base`.
pub open spec fn spec_cell_inds(
    chunk: Seq<Option<Block>>,
    adj: AdjacentChunks,
    base: int,
    x: int,
    y: int,
    z: int,
) -> Seq<u32> {
    match chunk[spec_flat_index(x, y, z)] {
        None => Seq::empty(),
        Some(b) => spec_cube_inds(base, spec_cell_faces_value(chunk, adj, x, y, z)),
    }
}

/// The whole vertex buffer of the surface over the first `upto` cells in
/// iteration order.
pub open spec fn spec_mesh_verts(chunk: Seq<Option<Block>>, adj: AdjacentChunks, upto: int) -> Seq<
    Vertex,
>
    decreases upto,
{
    if upto <= 0 {
        Seq::empty()
    } else {
        let t = spec_iter_triple(upto - 1);
        spec_mesh_verts(chunk, adj, upto - 1) + spec_cell_verts(
            chunk,
            adj,
            t.0 as int,
            t.1 as int,
            t.2 as int,
        )
    }
}

/// The whole triangle index list of the surface over the first `upto` cells.
pub open spec fn spec_mesh_inds(chunk: Seq<Option<Block>>, adj: AdjacentChunks, upto: int) -> Seq<
    u32,
>
    decreases upto,
{
    if upto <= 0 {
        Seq::empty()
    } else {
        let t = spec_iter_triple(upto - 1);
        spec_mesh_inds(chunk, adj, upto - 1) + spec_cell_inds(
            chunk,
            adj,
            spec_mesh_verts(chunk, adj, upto - 1).len() as int,
            t.0 as int,
            t.1 as int,
            t.2 as int,
        )
    }
}

/// How many faces of the cell `(x, y, z)` the extractor emits: none for an
/// empty cell, else one per visible face.
pub open spec fn spec_cell_faces(
    chunk: Seq<Option<Block>>,
    adj: AdjacentChunks,
    x: int,
    y: int,
    z: int,
) -> int {
    if spec_occupied(chunk, x, y, z) {
        (if spec_world_face_visible(chunk, adj, BlockFace::Left, x, y, z) {
            1int
        } else {
            0
        }) + (if spec_world_face_visible(chunk, adj, BlockFace::Right, x, y, z) {
            1int
        } else {
            0
        }) + (if spec_world_face_visible(chunk, adj, BlockFace::Top, x, y, z) {
            1int
        } else {
            0
        }) + (if spec_world_face_visible(chunk, adj, BlockFace::Bottom, x, y, z) {
            1int
        } else {
            0
        }) + (if spec_world_face_visible(chunk, adj, BlockFace::Front, x, y, z) {
            1int
        } else {
            0
        }) + (if spec_world_face_visible(chunk, adj, BlockFace::Back, x, y, z) {
            1int
        } else {
            0
        })
    } else {
        0
    }
}

/// Total visible faces over the first `upto` cells in iteration order.
pub open spec fn spec_total_faces(chunk: Seq<Option<Block>>, adj: AdjacentChunks, upto: int) -> int
    decreases upto,
{
    if upto <= 0 {
        0
    } else {
        let t = spec_iter_triple(upto - 1);
        spec_total_faces(chunk, adj, upto - 1) + spec_cell_faces(
            chunk,
            adj,
            t.0 as int,
            t.1 as int,
            t.2 as int,
        )
    }
}

/// The running face total lies between zero and six faces per cell.
proof fn lemma_total_faces_bounds(chunk: Seq<Option<Block>>, adj: AdjacentChunks, upto: int)
    requires
        upto >= 0,
    ensures
        0 <= spec_total_faces(chunk, adj, upto) <= 6 * upto,
    decreases upto,
{
    if upto > 0 {
        lemma_total_faces_bounds(chunk, adj, upto - 1);
    }
}

/// Extracts the visible surface of one chunk: for every occupied cell, one
/// quad per face whose adjacent cell is empty, judged within the chunk or
/// across the cached neighbor boundary. The result holds four vertices and
/// six indices per visible face, and every index names a vertex; a chunk
/// with no visible face yields an empty surface.
#[verifier::rlimit(100)]
pub fn generate_mesh(chunk: &ChunkData, adjacent: AdjacentChunks) -> (mesh: MeshBuilder)
    requires
        chunk.wf(),
        adjacent.wf(),
    ensures
        mesh.wf(),
        mesh.verts() == spec_mesh_verts(chunk@, adjacent, CHUNK_VOLUME as int),
        mesh.inds() == spec_mesh_inds(chunk@, adjacent, CHUNK_VOLUME as int),
        mesh.verts().len() == 4 * spec_total_faces(chunk@, adjacent, CHUNK_VOLUME as int),
        mesh.inds().len() == 6 * spec_total_faces(chunk@, adjacent, CHUNK_VOLUME as int),
{
    let ghost adj = adjacent;
    let mut mesh = MeshBuilder::new();
    let edges = adjacent.compute_edges();
    let mut x: usize = 0;
    while x < CHUNK_SIZE
        invariant
            chunk.wf(),
            edges.wf(),
            spec_edges_match(adj, edges),
            x <= CHUNK_SIZE,
            mesh.wf(),
            mesh.verts() == spec_mesh_verts(chunk@, adj, (x * 1024) as int),
            mesh.inds() == spec_mesh_inds(chunk@, adj, (x * 1024) as int),
            mesh.verts().len() == 4 * spec_total_faces(chunk@, adj, (x * 1024) as int),
            mesh.inds().len() == 6 * spec_total_faces(chunk@, adj, (x * 1024) as int),
        decreases CHUNK_SIZE - x,
    {
        let mut y: usize = 0;
        while y < CHUNK_SIZE
            invariant
                chunk.wf(),
                edges.wf(),
                spec_edges_match(adj, edges),
                x < CHUNK_SIZE,
                y <= CHUNK_SIZE,
                mesh.wf(),
                mesh.verts() == spec_mesh_verts(chunk@, adj, (x * 1024 + y * 32) as int),
                mesh.inds() == spec_mesh_inds(chunk@, adj, (x * 1024 + y * 32) as int),
                mesh.verts().len() == 4 * spec_total_faces(
                    chunk@,
                    adj,
                    (x * 1024 + y * 32) as int,
                ),
                mesh.inds().len() == 6 * spec_total_faces(chunk@, adj, (x * 1024 + y * 32) as int),
            decreases CHUNK_SIZE - y,
        {
            let mut z: usize = 0;
            while z < CHUNK_SIZE
                invariant
                    chunk.wf(),
                    edges.wf(),
                    spec_edges_match(adj, edges),
                    x < CHUNK_SIZE,
                    y < CHUNK_SIZE,
                    z <= CHUNK_SIZE,
                    mesh.wf(),
                    mesh.verts() == spec_mesh_verts(chunk@, adj, (x * 1024 + y * 32 + z) as int),
                    mesh.inds() == spec_mesh_inds(chunk@, adj, (x * 1024 + y * 32 + z) as int),
                    mesh.verts().len() == 4 * spec_total_faces(
                        chunk@,
                        adj,
                        (x * 1024 + y * 32 + z) as int,
                    ),
                    mesh.inds().len() == 6 * spec_total_faces(
                        chunk@,
                        adj,
                        (x * 1024 + y * 32 + z) as int,
                    ),
                decreases CHUNK_SIZE - z,
            {
                let ghost j = (x * 1024 + y * 32 + z) as int;
                proof {
                    assert(spec_iter_triple(j) == (x, y, z) && 0 <= j < 32768) by {
                        assert(j / 1024 == x && (j / 32) % 32 == y && j % 32 == z && 0 <= j
                            < 32768) by (nonlinear_arith)
                            requires
                                j == x * 1024 + y * 32 + z,
                                0 <= x < 32,
                                0 <= y < 32,
                                0 <= z < 32,
                        ;
                    }
                    lemma_total_faces_bounds(chunk@, adj, j);
                }
                let idx = ChunkIndex::new(x, y, z);
                match chunk.block(idx) {
                    None => {
                        proof {
                            assert(spec_flat_index(x as int, y as int, z as int) == idx.as_int());
                            assert(spec_cell_faces(chunk@, adj, x as int, y as int, z as int)
                                == 0);
                            assert(spec_total_faces(chunk@, adj, j + 1) == spec_total_faces(
                                chunk@,
                                adj,
                                j,
                            ));
                            assert(spec_cell_verts(chunk@, adj, x as int, y as int, z as int)
                                == Seq::<Vertex>::empty());
                            lemma_append_empty::<Vertex>(mesh.verts());
                            lemma_append_empty::<u32>(mesh.inds());
                            assert(spec_mesh_verts(chunk@, adj, j + 1) == mesh.verts());
                            assert(spec_mesh_inds(chunk@, adj, j + 1) == mesh.inds());
                        }
                    },
                    Some(block) => {
                        let faces = edges.compute_faces(chunk, x, y, z);
                        proof {
                            lemma_face_visible_world(chunk@, adj, edges, BlockFace::Left, x as int, y as int, z as int);
                            lemma_face_visible_world(chunk@, adj, edges, BlockFace::Right, x as int, y as int, z as int);
                            lemma_face_visible_world(chunk@, adj, edges, BlockFace::Top, x as int, y as int, z as int);
                            lemma_face_visible_world(chunk@, adj, edges, BlockFace::Bottom, x as int, y as int, z as int);
                            lemma_face_visible_world(chunk@, adj, edges, BlockFace::Front, x as int, y as int, z as int);
                            lemma_face_visible_world(chunk@, adj, edges, BlockFace::Back, x as int, y as int, z as int);
                            assert(spec_flat_index(x as int, y as int, z as int) == idx.as_int());
                            assert(spec_occupied(chunk@, x as int, y as int, z as int));
                            assert(faces.count() == spec_cell_faces(
                                chunk@,
                                adj,
                                x as int,
                                y as int,
                                z as int,
                            ));
                        }
                        proof {
                            assert(faces == spec_cell_faces_value(
                                chunk@,
                                adj,
                                x as int,
                                y as int,
                                z as int,
                            ));
                        }
                        render_cube(block, &mut mesh, x as i32, y as i32, z as i32, faces);
                        proof {
                            assert(spec_total_faces(chunk@, adj, j + 1) == spec_total_faces(
                                chunk@,
                                adj,
                                j,
                            ) + spec_cell_faces(chunk@, adj, x as int, y as int, z as int));
                            assert(spec_cell_verts(chunk@, adj, x as int, y as int, z as int)
                                == spec_cube_verts(
                                block,
                                x as i32,
                                y as i32,
                                z as i32,
                                spec_cell_faces_value(chunk@, adj, x as int, y as int, z as int),
                            ));
                            assert(spec_mesh_verts(chunk@, adj, j + 1) == mesh.verts());
                            assert(spec_mesh_inds(chunk@, adj, j + 1) == mesh.inds());
                        }
                    },
                }
                z = z + 1;
            }
            y = y + 1;
        }
        x = x + 1;
    }
    mesh
}

/// Face symmetry across a shared chunk boundary: when both neighbor
/// snapshots are present, the face either side marks visible at the boundary
/// is exactly the other side's emptiness there. So no boundary cell pair
/// shows a face from both sides, and when exactly one side is occupied, that
/// side's face (and only it, since faces exist only on occupied cells) is
/// visible.
pub proof fn lemma_face_symmetry(
    a: ChunkData,
    b: ChunkData,
    adj_a: AdjacentChunks,
    adj_b: AdjacentChunks,
    y: int,
    z: int,
)
    requires
        0 <= y < CHUNK_SIZE,
        0 <= z < CHUNK_SIZE,
        adj_a.right is Some,
        adj_a.right->Some_0@ == b@,
        adj_b.left is Some,
        adj_b.left->Some_0@ == a@,
    ensures
        spec_world_face_visible(a@, adj_a, BlockFace::Right, (CHUNK_SIZE - 1) as int, y, z)
            == !spec_occupied(b@, 0, y, z),
        spec_world_face_visible(b@, adj_b, BlockFace::Left, 0, y, z) == !spec_occupied(
            a@,
            (CHUNK_SIZE - 1) as int,
            y,
            z,
        ),
        !(spec_world_face_visible(a@, adj_a, BlockFace::Right, (CHUNK_SIZE - 1) as int, y, z)
            && spec_world_face_visible(b@, adj_b, BlockFace::Left, 0, y, z) && spec_occupied(
            a@,
            (CHUNK_SIZE - 1) as int,
            y,
            z,
        ) && spec_occupied(b@, 0, y, z)),
        spec_occupied(a@, (CHUNK_SIZE - 1) as int, y, z) && !spec_occupied(b@, 0, y, z)
            ==> spec_world_face_visible(a@, adj_a, BlockFace::Right, (CHUNK_SIZE - 1) as int, y, z),
        !spec_occupied(a@, (CHUNK_SIZE - 1) as int, y, z) && spec_occupied(b@, 0, y, z)
            ==> spec_world_face_visible(b@, adj_b, BlockFace::Left, 0, y, z),
{
}

} // verus!
