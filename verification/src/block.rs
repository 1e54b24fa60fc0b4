//! Block kinds, their storage codes, and the per-face material lookup.

use vstd::prelude::*;

use crate::chunk::CHUNK_SIZE;
use crate::mesh_builder::{Index, MeshBuilder, Vertex};

verus! {

/// A kind of block that can occupy a cell of the voxel grid.
#[derive(Debug, Clone, Copy, PartialEq, Eq, Structural)]
pub enum Block {
    Dirt,
    Grass,
    Rock,
    Sand,
}

/// The storage code of a block kind, as persisted by the chunk codec.
pub open spec fn spec_code(b: Block) -> u8 {
    match b {
        Block::Dirt => 0,
        Block::Grass => 1,
        Block::Rock => 2,
        Block::Sand => 3,
    }
}

/// The block kind a storage code stands for, if any.
pub open spec fn spec_from_code(code: u8) -> Option<Block> {
    if code == 0 {
        Some(Block::Dirt)
    } else if code == 1 {
        Some(Block::Grass)
    } else if code == 2 {
        Some(Block::Rock)
    } else if code == 3 {
        Some(Block::Sand)
    } else {
        None
    }
}

impl Block {
    /// The storage code of this block kind.
    pub fn to_u8(self) -> (code: u8)
        ensures
            code == spec_code(self),
    {
        match self {
            Block::Dirt => 0,
            Block::Grass => 1,
            Block::Rock => 2,
            Block::Sand => 3,
        }
    }

    /// The block kind with the given storage code, or `None` for an unknown code.
    pub fn from_u8(code: u8) -> (block: Option<Block>)
        ensures
            block == spec_from_code(code),
    {
        if code == 0 {
            Some(Block::Dirt)
        } else if code == 1 {
            Some(Block::Grass)
        } else if code == 2 {
            Some(Block::Rock)
        } else if code == 3 {
            Some(Block::Sand)
        } else {
            None
        }
    }
}

/// The codes are exactly the inverses of each other: every block kind survives
/// a trip through its storage code, and every known code names one block kind.
pub proof fn lemma_code_round_trip()
    ensures
        forall|b: Block| spec_from_code(spec_code(b)) == Some(b),
        forall|c: u8| spec_from_code(c) is Some ==> spec_code(spec_from_code(c)->Some_0) == c,
{
}

/// One of the six axis-aligned faces of a cube.
#[derive(Debug, Clone, Copy, PartialEq, Eq, Structural)]
pub enum BlockFace {
    Left,
    Right,
    Top,
    Bottom,
    Front,
    Back,
}

/// The material (texture layer) a face of a block renders with. Grass uses a
/// different layer on its top and bottom than on its sides.
pub open spec fn spec_face_index(b: Block, face: BlockFace) -> u32 {
    match b {
        Block::Dirt => 0,
        Block::Grass => if face == BlockFace::Top {
            2
        } else if face == BlockFace::Bottom {
            0
        } else {
            1
        },
        Block::Rock => 3,
        Block::Sand => 4,
    }
}

impl Block {
    /// The material index of one face of this block kind.
    pub fn face_index(self, face: BlockFace) -> (idx: u32)
        ensures
            idx == spec_face_index(self, face),
    {
        match self {
            Block::Dirt => 0,
            Block::Grass => if face == BlockFace::Top {
                2
            } else if face == BlockFace::Bottom {
                0
            } else {
                1
            },
            Block::Rock => 3,
            Block::Sand => 4,
        }
    }
}

/// Which of the six faces of one block are visible.
pub struct BlockFaces {
    pub left: bool,
    pub right: bool,
    pub top: bool,
    pub bottom: bool,
    pub front: bool,
    pub back: bool,
}

impl BlockFaces {
    /// How many of the six faces are visible.
    pub open spec fn count(self) -> int {
        (if self.left { 1int } else { 0 }) + (if self.right { 1int } else { 0 })
            + (if self.top { 1int } else { 0 }) + (if self.bottom { 1int } else { 0 })
            + (if self.front { 1int } else { 0 }) + (if self.back { 1int } else { 0 })
    }
}

/// The four vertices of one face's quad, in emission order: corner
/// positions around the face, the face's unit normal, the texture corners,
/// and the block's material index for that face.
pub open spec fn spec_face_quad(block: Block, face: BlockFace, x: i32, y: i32, z: i32) -> Seq<
    Vertex,
> {
    let idx = spec_face_index(block, face);
    let x1 = (x + 1) as i32;
    let y1 = (y + 1) as i32;
    let z1 = (z + 1) as i32;
    match face {
        BlockFace::Left => seq![
            Vertex { px: x, py: y, pz: z, nx: -1i32, ny: 0i32, nz: 0i32, u: 0i32, v: 1i32, tex: idx },
            Vertex { px: x, py: y1, pz: z, nx: -1i32, ny: 0i32, nz: 0i32, u: 0i32, v: 0i32, tex: idx },
            Vertex { px: x, py: y1, pz: z1, nx: -1i32, ny: 0i32, nz: 0i32, u: 1i32, v: 0i32, tex: idx },
            Vertex { px: x, py: y, pz: z1, nx: -1i32, ny: 0i32, nz: 0i32, u: 1i32, v: 1i32, tex: idx },
        ],
        BlockFace::Right => seq![
            Vertex { px: x1, py: y, pz: z, nx: 1i32, ny: 0i32, nz: 0i32, u: 0i32, v: 1i32, tex: idx },
            Vertex { px: x1, py: y1, pz: z, nx: 1i32, ny: 0i32, nz: 0i32, u: 0i32, v: 0i32, tex: idx },
            Vertex { px: x1, py: y1, pz: z1, nx: 1i32, ny: 0i32, nz: 0i32, u: 1i32, v: 0i32, tex: idx },
            Vertex { px: x1, py: y, pz: z1, nx: 1i32, ny: 0i32, nz: 0i32, u: 1i32, v: 1i32, tex: idx },
        ],
        BlockFace::Top => seq![
            Vertex { px: x, py: y1, pz: z, nx: 0i32, ny: 1i32, nz: 0i32, u: 0i32, v: 0i32, tex: idx },
            Vertex { px: x1, py: y1, pz: z, nx: 0i32, ny: 1i32, nz: 0i32, u: 0i32, v: 1i32, tex: idx },
            Vertex { px: x1, py: y1, pz: z1, nx: 0i32, ny: 1i32, nz: 0i32, u: 1i32, v: 1i32, tex: idx },
            Vertex { px: x, py: y1, pz: z1, nx: 0i32, ny: 1i32, nz: 0i32, u: 1i32, v: 0i32, tex: idx },
        ],
        BlockFace::Bottom => seq![
            Vertex { px: x, py: y, pz: z, nx: 0i32, ny: -1i32, nz: 0i32, u: 0i32, v: 0i32, tex: idx },
            Vertex { px: x1, py: y, pz: z, nx: 0i32, ny: -1i32, nz: 0i32, u: 0i32, v: 1i32, tex: idx },
            Vertex { px: x1, py: y, pz: z1, nx: 0i32, ny: -1i32, nz: 0i32, u: 1i32, v: 1i32, tex: idx },
            Vertex { px: x, py: y, pz: z1, nx: 0i32, ny: -1i32, nz: 0i32, u: 1i32, v: 0i32, tex: idx },
        ],
        BlockFace::Front => seq![
            Vertex { px: x, py: y, pz: z1, nx: 0i32, ny: 0i32, nz: 1i32, u: 0i32, v: 1i32, tex: idx },
            Vertex { px: x1, py: y, pz: z1, nx: 0i32, ny: 0i32, nz: 1i32, u: 1i32, v: 1i32, tex: idx },
            Vertex { px: x1, py: y1, pz: z1, nx: 0i32, ny: 0i32, nz: 1i32, u: 1i32, v: 0i32, tex: idx },
            Vertex { px: x, py: y1, pz: z1, nx: 0i32, ny: 0i32, nz: 1i32, u: 0i32, v: 0i32, tex: idx },
        ],
        BlockFace::Back => seq![
            Vertex { px: x, py: y, pz: z, nx: 0i32, ny: 0i32, nz: -1i32, u: 0i32, v: 1i32, tex: idx },
            Vertex { px: x1, py: y, pz: z, nx: 0i32, ny: 0i32, nz: -1i32, u: 1i32, v: 1i32, tex: idx },
            Vertex { px: x1, py: y1, pz: z, nx: 0i32, ny: 0i32, nz: -1i32, u: 1i32, v: 0i32, tex: idx },
            Vertex { px: x, py: y1, pz: z, nx: 0i32, ny: 0i32, nz: -1i32, u: 0i32, v: 0i32, tex: idx },
        ],
    }
}

/// The six indices of one quad based at vertex slot `base`: two triangles,
/// wound one of two ways so that every face winds consistently outward.
pub open spec fn spec_quad_winding(base: int, flipped: bool) -> Seq<u32> {
    if flipped {
        seq![
            base as u32,
            (base + 3) as u32,
            (base + 2) as u32,
            (base + 2) as u32,
            (base + 1) as u32,
            base as u32,
        ]
    } else {
        seq![
            base as u32,
            (base + 1) as u32,
            (base + 2) as u32,
            (base + 2) as u32,
            (base + 3) as u32,
            base as u32,
        ]
    }
}

/// All vertices one cube emits: the quads of its visible faces, in the
/// fixed face order left, right, top, bottom, front, back.
pub open spec fn spec_cube_verts(block: Block, x: i32, y: i32, z: i32, faces: BlockFaces) -> Seq<
    Vertex,
> {
    (if faces.left {
        spec_face_quad(block, BlockFace::Left, x, y, z)
    } else {
        Seq::empty()
    }) + (if faces.right {
        spec_face_quad(block, BlockFace::Right, x, y, z)
    } else {
        Seq::empty()
    }) + (if faces.top {
        spec_face_quad(block, BlockFace::Top, x, y, z)
    } else {
        Seq::empty()
    }) + (if faces.bottom {
        spec_face_quad(block, BlockFace::Bottom, x, y, z)
    } else {
        Seq::empty()
    }) + (if faces.front {
        spec_face_quad(block, BlockFace::Front, x, y, z)
    } else {
        Seq::empty()
    }) + (if faces.back {
        spec_face_quad(block, BlockFace::Back, x, y, z)
    } else {
        Seq::empty()
    })
}

/// All indices one cube emits, quads based consecutively from `base`.
pub open spec fn spec_cube_inds(base: int, faces: BlockFaces) -> Seq<u32> {
    let b1 = base + (if faces.left { 4int } else { 0 });
    let b2 = b1 + (if faces.right { 4int } else { 0 });
    let b3 = b2 + (if faces.top { 4int } else { 0 });
    let b4 = b3 + (if faces.bottom { 4int } else { 0 });
    let b5 = b4 + (if faces.front { 4int } else { 0 });
    (if faces.left {
        spec_quad_winding(base, true)
    } else {
        Seq::empty()
    }) + (if faces.right {
        spec_quad_winding(b1, false)
    } else {
        Seq::empty()
    }) + (if faces.top {
        spec_quad_winding(b2, true)
    } else {
        Seq::empty()
    }) + (if faces.bottom {
        spec_quad_winding(b3, false)
    } else {
        Seq::empty()
    }) + (if faces.front {
        spec_quad_winding(b4, false)
    } else {
        Seq::empty()
    }) + (if faces.back {
        spec_quad_winding(b5, true)
    } else {
        Seq::empty()
    })
}

/// Appends the quad of one left face.
fn emit_left(chunk: &mut MeshBuilder, block: Block, x: i32, y: i32, z: i32)
    requires
        0 <= x < CHUNK_SIZE,
        0 <= y < CHUNK_SIZE,
        0 <= z < CHUNK_SIZE,
        old(chunk).verts().len() + 4 < u32::MAX,
    ensures
        final(chunk).verts() == old(chunk).verts() + spec_face_quad(block, BlockFace::Left, x, y, z),
        final(chunk).inds() == old(chunk).inds() + spec_quad_winding(
            old(chunk).verts().len() as int,
            true,
        ),
{
    let idx = block.face_index(BlockFace::Left);
    let a = chunk.vertex(Vertex { px: x, py: y, pz: z, nx: -1, ny: 0, nz: 0, u: 0, v: 1, tex: idx });
    let b = chunk.vertex(Vertex { px: x, py: y + 1, pz: z, nx: -1, ny: 0, nz: 0, u: 0, v: 0, tex: idx });
    let c = chunk.vertex(Vertex { px: x, py: y + 1, pz: z + 1, nx: -1, ny: 0, nz: 0, u: 1, v: 0, tex: idx });
    let d = chunk.vertex(Vertex { px: x, py: y, pz: z + 1, nx: -1, ny: 0, nz: 0, u: 1, v: 1, tex: idx });
    chunk.indices([a, d, c, c, b, a]);
    proof {
        assert(chunk.verts() =~= old(chunk).verts() + spec_face_quad(block, BlockFace::Left, x, y, z));
        assert(chunk.inds() =~= old(chunk).inds() + spec_quad_winding(
            old(chunk).verts().len() as int,
            true,
        ));
    }
}

/// Appends the quad of one right face.
fn emit_right(chunk: &mut MeshBuilder, block: Block, x: i32, y: i32, z: i32)
    requires
        0 <= x < CHUNK_SIZE,
        0 <= y < CHUNK_SIZE,
        0 <= z < CHUNK_SIZE,
        old(chunk).verts().len() + 4 < u32::MAX,
    ensures
        final(chunk).verts() == old(chunk).verts() + spec_face_quad(block, BlockFace::Right, x, y, z),
        final(chunk).inds() == old(chunk).inds() + spec_quad_winding(
            old(chunk).verts().len() as int,
            false,
        ),
{
    let idx = block.face_index(BlockFace::Right);
    let a = chunk.vertex(Vertex { px: x + 1, py: y, pz: z, nx: 1, ny: 0, nz: 0, u: 0, v: 1, tex: idx });
    let b = chunk.vertex(Vertex { px: x + 1, py: y + 1, pz: z, nx: 1, ny: 0, nz: 0, u: 0, v: 0, tex: idx });
    let c = chunk.vertex(Vertex { px: x + 1, py: y + 1, pz: z + 1, nx: 1, ny: 0, nz: 0, u: 1, v: 0, tex: idx });
    let d = chunk.vertex(Vertex { px: x + 1, py: y, pz: z + 1, nx: 1, ny: 0, nz: 0, u: 1, v: 1, tex: idx });
    chunk.indices([a, b, c, c, d, a]);
    proof {
        assert(chunk.verts() =~= old(chunk).verts() + spec_face_quad(block, BlockFace::Right, x, y, z));
        assert(chunk.inds() =~= old(chunk).inds() + spec_quad_winding(
            old(chunk).verts().len() as int,
            false,
        ));
    }
}

/// Appends the quad of one top face.
fn emit_top(chunk: &mut MeshBuilder, block: Block, x: i32, y: i32, z: i32)
    requires
        0 <= x < CHUNK_SIZE,
        0 <= y < CHUNK_SIZE,
        0 <= z < CHUNK_SIZE,
        old(chunk).verts().len() + 4 < u32::MAX,
    ensures
        final(chunk).verts() == old(chunk).verts() + spec_face_quad(block, BlockFace::Top, x, y, z),
        final(chunk).inds() == old(chunk).inds() + spec_quad_winding(
            old(chunk).verts().len() as int,
            true,
        ),
{
    let idx = block.face_index(BlockFace::Top);
    let a = chunk.vertex(Vertex { px: x, py: y + 1, pz: z, nx: 0, ny: 1, nz: 0, u: 0, v: 0, tex: idx });
    let b = chunk.vertex(Vertex { px: x + 1, py: y + 1, pz: z, nx: 0, ny: 1, nz: 0, u: 0, v: 1, tex: idx });
    let c = chunk.vertex(Vertex { px: x + 1, py: y + 1, pz: z + 1, nx: 0, ny: 1, nz: 0, u: 1, v: 1, tex: idx });
    let d = chunk.vertex(Vertex { px: x, py: y + 1, pz: z + 1, nx: 0, ny: 1, nz: 0, u: 1, v: 0, tex: idx });
    chunk.indices([a, d, c, c, b, a]);
    proof {
        assert(chunk.verts() =~= old(chunk).verts() + spec_face_quad(block, BlockFace::Top, x, y, z));
        assert(chunk.inds() =~= old(chunk).inds() + spec_quad_winding(
            old(chunk).verts().len() as int,
            true,
        ));
    }
}

/// Appends the quad of one bottom face.
fn emit_bottom(chunk: &mut MeshBuilder, block: Block, x: i32, y: i32, z: i32)
    requires
        0 <= x < CHUNK_SIZE,
        0 <= y < CHUNK_SIZE,
        0 <= z < CHUNK_SIZE,
        old(chunk).verts().len() + 4 < u32::MAX,
    ensures
        final(chunk).verts() == old(chunk).verts() + spec_face_quad(
            block,
            BlockFace::Bottom,
            x,
            y,
            z,
        ),
        final(chunk).inds() == old(chunk).inds() + spec_quad_winding(
            old(chunk).verts().len() as int,
            false,
        ),
{
    let idx = block.face_index(BlockFace::Bottom);
    let a = chunk.vertex(Vertex { px: x, py: y, pz: z, nx: 0, ny: -1, nz: 0, u: 0, v: 0, tex: idx });
    let b = chunk.vertex(Vertex { px: x + 1, py: y, pz: z, nx: 0, ny: -1, nz: 0, u: 0, v: 1, tex: idx });
    let c = chunk.vertex(Vertex { px: x + 1, py: y, pz: z + 1, nx: 0, ny: -1, nz: 0, u: 1, v: 1, tex: idx });
    let d = chunk.vertex(Vertex { px: x, py: y, pz: z + 1, nx: 0, ny: -1, nz: 0, u: 1, v: 0, tex: idx });
    chunk.indices([a, b, c, c, d, a]);
    proof {
        assert(chunk.verts() =~= old(chunk).verts() + spec_face_quad(
            block,
            BlockFace::Bottom,
            x,
            y,
            z,
        ));
        assert(chunk.inds() =~= old(chunk).inds() + spec_quad_winding(
            old(chunk).verts().len() as int,
            false,
        ));
    }
}

/// Appends the quad of one front face.
fn emit_front(chunk: &mut MeshBuilder, block: Block, x: i32, y: i32, z: i32)
    requires
        0 <= x < CHUNK_SIZE,
        0 <= y < CHUNK_SIZE,
        0 <= z < CHUNK_SIZE,
        old(chunk).verts().len() + 4 < u32::MAX,
    ensures
        final(chunk).verts() == old(chunk).verts() + spec_face_quad(
            block,
            BlockFace::Front,
            x,
            y,
            z,
        ),
        final(chunk).inds() == old(chunk).inds() + spec_quad_winding(
            old(chunk).verts().len() as int,
            false,
        ),
{
    let idx = block.face_index(BlockFace::Front);
    let a = chunk.vertex(Vertex { px: x, py: y, pz: z + 1, nx: 0, ny: 0, nz: 1, u: 0, v: 1, tex: idx });
    let b = chunk.vertex(Vertex { px: x + 1, py: y, pz: z + 1, nx: 0, ny: 0, nz: 1, u: 1, v: 1, tex: idx });
    let c = chunk.vertex(Vertex { px: x + 1, py: y + 1, pz: z + 1, nx: 0, ny: 0, nz: 1, u: 1, v: 0, tex: idx });
    let d = chunk.vertex(Vertex { px: x, py: y + 1, pz: z + 1, nx: 0, ny: 0, nz: 1, u: 0, v: 0, tex: idx });
    chunk.indices([a, b, c, c, d, a]);
    proof {
        assert(chunk.verts() =~= old(chunk).verts() + spec_face_quad(
            block,
            BlockFace::Front,
            x,
            y,
            z,
        ));
        assert(chunk.inds() =~= old(chunk).inds() + spec_quad_winding(
            old(chunk).verts().len() as int,
            false,
        ));
    }
}

/// Appends the quad of one back face.
fn emit_back(chunk: &mut MeshBuilder, block: Block, x: i32, y: i32, z: i32)
    requires
        0 <= x < CHUNK_SIZE,
        0 <= y < CHUNK_SIZE,
        0 <= z < CHUNK_SIZE,
        old(chunk).verts().len() + 4 < u32::MAX,
    ensures
        final(chunk).verts() == old(chunk).verts() + spec_face_quad(block, BlockFace::Back, x, y, z),
        final(chunk).inds() == old(chunk).inds() + spec_quad_winding(
            old(chunk).verts().len() as int,
            true,
        ),
{
    let idx = block.face_index(BlockFace::Back);
    let a = chunk.vertex(Vertex { px: x, py: y, pz: z, nx: 0, ny: 0, nz: -1, u: 0, v: 1, tex: idx });
    let b = chunk.vertex(Vertex { px: x + 1, py: y, pz: z, nx: 0, ny: 0, nz: -1, u: 1, v: 1, tex: idx });
    let c = chunk.vertex(Vertex { px: x + 1, py: y + 1, pz: z, nx: 0, ny: 0, nz: -1, u: 1, v: 0, tex: idx });
    let d = chunk.vertex(Vertex { px: x, py: y + 1, pz: z, nx: 0, ny: 0, nz: -1, u: 0, v: 0, tex: idx });
    chunk.indices([a, d, c, c, b, a]);
    proof {
        assert(chunk.verts() =~= old(chunk).verts() + spec_face_quad(block, BlockFace::Back, x, y, z));
        assert(chunk.inds() =~= old(chunk).inds() + spec_quad_winding(
            old(chunk).verts().len() as int,
            true,
        ));
    }
}

/// Appending the empty sequence changes nothing.
pub(crate) proof fn lemma_append_empty<A>(s: Seq<A>)
    ensures
        s + Seq::<A>::empty() == s,
{
    assert(s + Seq::<A>::empty() =~= s);
}

/// Six appends in a row equal one append of the six pieces.
proof fn lemma_concat6<A>(
    v0: Seq<A>,
    a: Seq<A>,
    b: Seq<A>,
    c: Seq<A>,
    d: Seq<A>,
    e: Seq<A>,
    f: Seq<A>,
)
    ensures
        (((((v0 + a) + b) + c) + d) + e) + f == v0 + (((((a + b) + c) + d) + e) + f),
{
    assert((((((v0 + a) + b) + c) + d) + e) + f =~= v0 + (((((a + b) + c) + d) + e) + f));
}

/// Every index of one cube's geometry names a slot below `n` when the
/// cube's own vertices end below `n`.
#[verifier::rlimit(100)]
proof fn lemma_cube_inds_bound(b0: int, faces: BlockFaces, n: int)
    requires
        0 <= b0,
        b0 + 4 * faces.count() <= n,
        n <= u32::MAX,
    ensures
        forall|i: int|
            0 <= i < spec_cube_inds(b0, faces).len() ==> (#[trigger] spec_cube_inds(b0, faces)[i]
                as int) < n,
{
}

/// Emits one quad (four vertices, two triangles with consistent winding)/// Emits one quad (four vertices, two triangles with consistent winding)
/// for every visible face of one cube at cell `(x, y, z)`, with the block's
/// per-face material index: exactly the vertices of `spec_cube_verts` and
/// the indices of `spec_cube_inds`, appended to the builder.
#[verifier::rlimit(100)]
pub fn render_cube(block: Block, chunk: &mut MeshBuilder, x: i32, y: i32, z: i32, faces: BlockFaces)
    requires
        0 <= x < CHUNK_SIZE,
        0 <= y < CHUNK_SIZE,
        0 <= z < CHUNK_SIZE,
        old(chunk).verts().len() + 24 < u32::MAX,
    ensures
        final(chunk).verts() == old(chunk).verts() + spec_cube_verts(block, x, y, z, faces),
        final(chunk).inds() == old(chunk).inds() + spec_cube_inds(
            old(chunk).verts().len() as int,
            faces,
        ),
        final(chunk).verts().len() == old(chunk).verts().len() + 4 * faces.count(),
        final(chunk).inds().len() == old(chunk).inds().len() + 6 * faces.count(),
        old(chunk).wf() ==> final(chunk).wf(),
{
    let ghost v0 = chunk.verts();
    let ghost i0 = chunk.inds();
    let ghost b0 = v0.len() as int;
    let ghost qa = if faces.left {
        spec_face_quad(block, BlockFace::Left, x, y, z)
    } else {
        Seq::<Vertex>::empty()
    };
    let ghost qb = if faces.right {
        spec_face_quad(block, BlockFace::Right, x, y, z)
    } else {
        Seq::<Vertex>::empty()
    };
    let ghost qc = if faces.top {
        spec_face_quad(block, BlockFace::Top, x, y, z)
    } else {
        Seq::<Vertex>::empty()
    };
    let ghost qd = if faces.bottom {
        spec_face_quad(block, BlockFace::Bottom, x, y, z)
    } else {
        Seq::<Vertex>::empty()
    };
    let ghost qe = if faces.front {
        spec_face_quad(block, BlockFace::Front, x, y, z)
    } else {
        Seq::<Vertex>::empty()
    };
    let ghost qf = if faces.back {
        spec_face_quad(block, BlockFace::Back, x, y, z)
    } else {
        Seq::<Vertex>::empty()
    };
    if faces.left {
        emit_left(chunk, block, x, y, z);
    }
    let ghost v1 = chunk.verts();
    let ghost i1 = chunk.inds();
    proof {
        lemma_append_empty::<Vertex>(v0);
        lemma_append_empty::<u32>(i0);
        assert(v1 == v0 + qa);
        assert(v1.len() as int == b0 + (if faces.left {
            4int
        } else {
            0
        }));
    }
    if faces.right {
        emit_right(chunk, block, x, y, z);
    }
    let ghost v2 = chunk.verts();
    let ghost i2 = chunk.inds();
    proof {
        lemma_append_empty::<Vertex>(v1);
        lemma_append_empty::<u32>(i1);
        assert(v2 == v1 + qb);
        assert(v2.len() as int == v1.len() + (if faces.right {
            4int
        } else {
            0
        }));
    }
    if faces.top {
        emit_top(chunk, block, x, y, z);
    }
    let ghost v3 = chunk.verts();
    let ghost i3 = chunk.inds();
    proof {
        lemma_append_empty::<Vertex>(v2);
        lemma_append_empty::<u32>(i2);
        assert(v3 == v2 + qc);
        assert(v3.len() as int == v2.len() + (if faces.top {
            4int
        } else {
            0
        }));
    }
    if faces.bottom {
        emit_bottom(chunk, block, x, y, z);
    }
    let ghost v4 = chunk.verts();
    let ghost i4 = chunk.inds();
    proof {
        lemma_append_empty::<Vertex>(v3);
        lemma_append_empty::<u32>(i3);
        assert(v4 == v3 + qd);
        assert(v4.len() as int == v3.len() + (if faces.bottom {
            4int
        } else {
            0
        }));
    }
    if faces.front {
        emit_front(chunk, block, x, y, z);
    }
    let ghost v5 = chunk.verts();
    let ghost i5 = chunk.inds();
    proof {
        lemma_append_empty::<Vertex>(v4);
        lemma_append_empty::<u32>(i4);
        assert(v5 == v4 + qe);
        assert(v5.len() as int == v4.len() + (if faces.front {
            4int
        } else {
            0
        }));
    }
    if faces.back {
        emit_back(chunk, block, x, y, z);
    }
    proof {
        lemma_append_empty::<Vertex>(v5);
        lemma_append_empty::<u32>(i5);
        assert(chunk.verts() == v5 + qf);
        let wa = if faces.left {
            spec_quad_winding(b0, true)
        } else {
            Seq::<u32>::empty()
        };
        let wb = if faces.right {
            spec_quad_winding(v1.len() as int, false)
        } else {
            Seq::<u32>::empty()
        };
        let wc = if faces.top {
            spec_quad_winding(v2.len() as int, true)
        } else {
            Seq::<u32>::empty()
        };
        let wd = if faces.bottom {
            spec_quad_winding(v3.len() as int, false)
        } else {
            Seq::<u32>::empty()
        };
        let we = if faces.front {
            spec_quad_winding(v4.len() as int, false)
        } else {
            Seq::<u32>::empty()
        };
        let wf_ = if faces.back {
            spec_quad_winding(v5.len() as int, true)
        } else {
            Seq::<u32>::empty()
        };
        assert(chunk.inds() == (((((i0 + wa) + wb) + wc) + wd) + we) + wf_);
        lemma_concat6(v0, qa, qb, qc, qd, qe, qf);
        lemma_concat6(i0, wa, wb, wc, wd, we, wf_);
        assert(spec_cube_verts(block, x, y, z, faces) == (((((qa + qb) + qc) + qd) + qe) + qf));
        assert(spec_cube_inds(b0, faces) == (((((wa + wb) + wc) + wd) + we) + wf_));
        assert(chunk.verts() == v0 + spec_cube_verts(block, x, y, z, faces));
        assert(chunk.inds() == i0 + spec_cube_inds(b0, faces));
        lemma_cube_inds_bound(b0, faces, chunk.verts().len() as int);
        if old(chunk).wf() {
            assert forall|i: int| 0 <= i < chunk.inds().len() implies chunk.inds()[i]
                < chunk.verts().len() by {
                if i >= i0.len() {
                    assert(chunk.inds()[i] == spec_cube_inds(b0, faces)[i - i0.len()]);
                }
            }
        }
    }
}

} // verus!