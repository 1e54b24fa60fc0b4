//! Axis-aligned collision resolution against the voxel grid.
//!
//! All geometry here is fixed-point: one block is `SCALE` units, so boxes,
//! velocities and displacements are exact integers and resolution is free of
//! rounding drift. Each tick the resolver sweeps a body's box by its
//! intended displacement, collects the solid cells the swept region
//! touches, and resolves one axis at a time — vertical first — clamping the
//! displacement toward zero (never past it, never flipping sign) and
//! leaving a small margin at every contacted surface.

use vstd::prelude::*;

use crate::block_pos::BlockPos;
use crate::chunk::CHUNK_SIZE;
use crate::chunk_pos::ChunkPos;
use crate::level::Level;

verus! {

/// Fixed-point units per block.
pub const SCALE: i64 = 1000;

/// Separation kept from a contacted surface, in fixed-point units.
pub const MARGIN: i64 = 1;

/// A fixed-point 3-vector (thousandths of blocks).
#[derive(Debug, Clone, Copy, PartialEq, Eq, Structural)]
pub struct FixedVec {
    pub x: i64,
    pub y: i64,
    pub z: i64,
}

/// Coordinates small enough for all resolver arithmetic.
pub open spec fn coord_ok(v: int) -> bool {
    -0x4_0000_0000_0000 <= v <= 0x4_0000_0000_0000
}

/// Coordinates of intermediate boxes: a well-formed box moved by at most
/// one well-formed displacement.
pub open spec fn coord_ok2(v: int) -> bool {
    -0x10_0000_0000_0000 <= v <= 0x10_0000_0000_0000
}

/// An axis-aligned box in fixed-point world coordinates.
#[derive(Debug, Clone, Copy, PartialEq, Eq, Structural)]
pub struct Collider {
    pub min_x: i64,
    pub min_y: i64,
    pub min_z: i64,
    pub max_x: i64,
    pub max_y: i64,
    pub max_z: i64,
}

/// Two boxes overlap when they intersect with positive volume on every
/// axis; touching faces do not overlap.
pub open spec fn spec_overlap(a: Collider, b: Collider) -> bool {
    a.min_x < b.max_x && a.max_x > b.min_x && a.min_y < b.max_y && a.max_y > b.min_y && a.min_z
        < b.max_z && a.max_z > b.min_z
}

/// The box moved by a displacement.
pub open spec fn spec_moved(c: Collider, dx: int, dy: int, dz: int) -> Collider {
    Collider {
        min_x: (c.min_x + dx) as i64,
        min_y: (c.min_y + dy) as i64,
        min_z: (c.min_z + dz) as i64,
        max_x: (c.max_x + dx) as i64,
        max_y: (c.max_y + dy) as i64,
        max_z: (c.max_z + dz) as i64,
    }
}

impl Collider {
    /// Ordered extents within the resolver's coordinate range.
    pub open spec fn wf(self) -> bool {
        self.min_x <= self.max_x && self.min_y <= self.max_y && self.min_z <= self.max_z
            && coord_ok(self.min_x as int) && coord_ok(self.min_y as int) && coord_ok(
            self.min_z as int,
        ) && coord_ok(self.max_x as int) && coord_ok(self.max_y as int) && coord_ok(
            self.max_z as int,
        )
    }

    /// Like `wf`, in the wider range of swept and moved boxes.
    pub open spec fn wf2(self) -> bool {
        self.min_x <= self.max_x && self.min_y <= self.max_y && self.min_z <= self.max_z
            && coord_ok2(self.min_x as int) && coord_ok2(self.min_y as int) && coord_ok2(
            self.min_z as int,
        ) && coord_ok2(self.max_x as int) && coord_ok2(self.max_y as int) && coord_ok2(
            self.max_z as int,
        )
    }

    /// The box of the given size centered at a point.
    pub fn new(center: FixedVec, size: FixedVec) -> (c: Collider)
        requires
            0 <= size.x && 0 <= size.y && 0 <= size.z,
            coord_ok(center.x as int) && coord_ok(center.y as int) && coord_ok(center.z as int),
            coord_ok(size.x as int) && coord_ok(size.y as int) && coord_ok(size.z as int),
        ensures
            c.min_x == center.x - size.x / 2 && c.max_x == center.x + size.x / 2,
            c.min_y == center.y - size.y / 2 && c.max_y == center.y + size.y / 2,
            c.min_z == center.z - size.z / 2 && c.max_z == center.z + size.z / 2,
            c.wf2(),
    {
        let hx = size.x.checked_div_euclid(2).unwrap();
        let hy = size.y.checked_div_euclid(2).unwrap();
        let hz = size.z.checked_div_euclid(2).unwrap();
        Collider {
            min_x: center.x - hx,
            min_y: center.y - hy,
            min_z: center.z - hz,
            max_x: center.x + hx,
            max_y: center.y + hy,
            max_z: center.z + hz,
        }
    }

    /// The box swept by a displacement: grown on each axis in the direction
    /// of travel.
    pub fn extend(self, value: FixedVec) -> (c: Collider)
        requires
            coord_ok2(self.min_x as int) && coord_ok2(self.min_y as int) && coord_ok2(
                self.min_z as int,
            ) && coord_ok2(self.max_x as int) && coord_ok2(self.max_y as int) && coord_ok2(
                self.max_z as int,
            ),
            coord_ok(value.x as int) && coord_ok(value.y as int) && coord_ok(value.z as int),
        ensures
            c.min_x == self.min_x + (if value.x < 0 { value.x as int } else { 0 }),
            c.min_y == self.min_y + (if value.y < 0 { value.y as int } else { 0 }),
            c.min_z == self.min_z + (if value.z < 0 { value.z as int } else { 0 }),
            c.max_x == self.max_x + (if value.x > 0 { value.x as int } else { 0 }),
            c.max_y == self.max_y + (if value.y > 0 { value.y as int } else { 0 }),
            c.max_z == self.max_z + (if value.z > 0 { value.z as int } else { 0 }),
    {
        Collider {
            min_x: self.min_x + (if value.x < 0 { value.x } else { 0 }),
            min_y: self.min_y + (if value.y < 0 { value.y } else { 0 }),
            min_z: self.min_z + (if value.z < 0 { value.z } else { 0 }),
            max_x: self.max_x + (if value.x > 0 { value.x } else { 0 }),
            max_y: self.max_y + (if value.y > 0 { value.y } else { 0 }),
            max_z: self.max_z + (if value.z > 0 { value.z } else { 0 }),
        }
    }

    /// The box moved by a displacement.
    pub fn offset(self, value: FixedVec) -> (c: Collider)
        requires
            coord_ok2(self.min_x as int) && coord_ok2(self.min_y as int) && coord_ok2(
                self.min_z as int,
            ) && coord_ok2(self.max_x as int) && coord_ok2(self.max_y as int) && coord_ok2(
                self.max_z as int,
            ),
            coord_ok(value.x as int) && coord_ok(value.y as int) && coord_ok(value.z as int),
        ensures
            c == spec_moved(self, value.x as int, value.y as int, value.z as int),
    {
        Collider {
            min_x: self.min_x + value.x,
            min_y: self.min_y + value.y,
            min_z: self.min_z + value.z,
            max_x: self.max_x + value.x,
            max_y: self.max_y + value.y,
            max_z: self.max_z + value.z,
        }
    }

    /// Whether two boxes overlap.
    pub fn check_collision(self, other: Collider) -> (r: bool)
        ensures
            r == spec_overlap(self, other),
    {
        self.min_x < other.max_x && self.max_x > other.min_x && self.min_y < other.max_y
            && self.max_y > other.min_y && self.min_z < other.max_z && self.max_z > other.min_z
    }
}

/// The clamp of an `x` displacement of `moving` against the solid box
/// `block`: unchanged unless the boxes overlap on the other two axes and
/// the block stands in the direction of travel, else shrunk to the largest
/// non-penetrating value.
pub open spec fn spec_calculate_x_offset(block: Collider, moving: Collider, off: int) -> int {
    if !(moving.max_y > block.min_y && moving.min_y < block.max_y && moving.max_z > block.min_z
        && moving.min_z < block.max_z) {
        off
    } else if off > 0 && moving.max_x <= block.min_x && block.min_x - moving.max_x < off {
        block.min_x - moving.max_x
    } else if off < 0 && moving.min_x >= block.max_x && block.max_x - moving.min_x > off {
        block.max_x - moving.min_x
    } else {
        off
    }
}

/// The clamp of a `y` displacement (other axes alike).
pub open spec fn spec_calculate_y_offset(block: Collider, moving: Collider, off: int) -> int {
    if !(moving.max_x > block.min_x && moving.min_x < block.max_x && moving.max_z > block.min_z
        && moving.min_z < block.max_z) {
        off
    } else if off > 0 && moving.max_y <= block.min_y && block.min_y - moving.max_y < off {
        block.min_y - moving.max_y
    } else if off < 0 && moving.min_y >= block.max_y && block.max_y - moving.min_y > off {
        block.max_y - moving.min_y
    } else {
        off
    }
}

/// The clamp of a `z` displacement.
pub open spec fn spec_calculate_z_offset(block: Collider, moving: Collider, off: int) -> int {
    if !(moving.max_x > block.min_x && moving.min_x < block.max_x && moving.max_y > block.min_y
        && moving.min_y < block.max_y) {
        off
    } else if off > 0 && moving.max_z <= block.min_z && block.min_z - moving.max_z < off {
        block.min_z - moving.max_z
    } else if off < 0 && moving.min_z >= block.max_z && block.max_z - moving.min_z > off {
        block.max_z - moving.min_z
    } else {
        off
    }
}

/// A displacement lies between zero and the intended one: same direction,
/// no larger magnitude.
pub open spec fn between_zero(off: int, d: int) -> bool {
    if off >= 0 {
        0 <= d <= off
    } else {
        off <= d <= 0
    }
}

impl Collider {
    /// Clamps an `x` displacement of `other` so it cannot penetrate `self`.
    pub fn calculate_x_offset(self, other: Collider, x_offset: i64) -> (r: i64)
        requires
            self.wf2(),
            other.wf2(),
            coord_ok2(x_offset as int),
        ensures
            r == spec_calculate_x_offset(self, other, x_offset as int),
            between_zero(x_offset as int, r as int),
    {
        if !(other.max_y > self.min_y && other.min_y < self.max_y && other.max_z > self.min_z
            && other.min_z < self.max_z) {
            return x_offset;
        }
        if x_offset > 0 && other.max_x <= self.min_x {
            let this_offset = self.min_x - other.max_x;
            if this_offset < x_offset {
                return this_offset;
            }
        } else if x_offset < 0 && other.min_x >= self.max_x {
            let this_offset = self.max_x - other.min_x;
            if this_offset > x_offset {
                return this_offset;
            }
        }
        x_offset
    }

    /// Clamps a `y` displacement of `other` so it cannot penetrate `self`.
    pub fn calculate_y_offset(self, other: Collider, y_offset: i64) -> (r: i64)
        requires
            self.wf2(),
            other.wf2(),
            coord_ok2(y_offset as int),
        ensures
            r == spec_calculate_y_offset(self, other, y_offset as int),
            between_zero(y_offset as int, r as int),
    {
        if !(other.max_x > self.min_x && other.min_x < self.max_x && other.max_z > self.min_z
            && other.min_z < self.max_z) {
            return y_offset;
        }
        if y_offset > 0 && other.max_y <= self.min_y {
            let this_offset = self.min_y - other.max_y;
            if this_offset < y_offset {
                return this_offset;
            }
        } else if y_offset < 0 && other.min_y >= self.max_y {
            let this_offset = self.max_y - other.min_y;
            if this_offset > y_offset {
                return this_offset;
            }
        }
        y_offset
    }

    /// Clamps a `z` displacement of `other` so it cannot penetrate `self`.
    pub fn calculate_z_offset(self, other: Collider, z_offset: i64) -> (r: i64)
        requires
            self.wf2(),
            other.wf2(),
            coord_ok2(z_offset as int),
        ensures
            r == spec_calculate_z_offset(self, other, z_offset as int),
            between_zero(z_offset as int, r as int),
    {
        if !(other.max_x > self.min_x && other.min_x < self.max_x && other.max_y > self.min_y
            && other.min_y < self.max_y) {
            return z_offset;
        }
        if z_offset > 0 && other.max_z <= self.min_z {
            let this_offset = self.min_z - other.max_z;
            if this_offset < z_offset {
                return this_offset;
            }
        } else if z_offset < 0 && other.min_z >= self.max_z {
            let this_offset = self.max_z - other.min_z;
            if this_offset > z_offset {
                return this_offset;
            }
        }
        z_offset
    }
}

/// A clamped `x` move of a non-penetrating box stays non-penetrating, and
/// any further shrink toward zero keeps it so.
proof fn lemma_x_safe(block: Collider, moving: Collider, off: int, d: int)
    requires
        moving.wf2(),
        coord_ok2(off),
        !spec_overlap(moving, block),
        between_zero(spec_calculate_x_offset(block, moving, off), d) || d
            == spec_calculate_x_offset(block, moving, off),
        between_zero(off, spec_calculate_x_offset(block, moving, off)),
    ensures
        !spec_overlap(spec_moved(moving, d, 0, 0), block),
{
}

/// A clamped `y` move of a non-penetrating box stays non-penetrating, and
/// any further shrink toward zero keeps it so.
proof fn lemma_y_safe(block: Collider, moving: Collider, off: int, d: int)
    requires
        moving.wf2(),
        coord_ok2(off),
        !spec_overlap(moving, block),
        between_zero(spec_calculate_y_offset(block, moving, off), d) || d
            == spec_calculate_y_offset(block, moving, off),
        between_zero(off, spec_calculate_y_offset(block, moving, off)),
    ensures
        !spec_overlap(spec_moved(moving, 0, d, 0), block),
{
}

/// A clamped `z` move of a non-penetrating box stays non-penetrating, and
/// any further shrink toward zero keeps it so.
proof fn lemma_z_safe(block: Collider, moving: Collider, off: int, d: int)
    requires
        moving.wf2(),
        coord_ok2(off),
        !spec_overlap(moving, block),
        between_zero(spec_calculate_z_offset(block, moving, off), d) || d
            == spec_calculate_z_offset(block, moving, off),
        between_zero(off, spec_calculate_z_offset(block, moving, off)),
    ensures
        !spec_overlap(spec_moved(moving, 0, 0, d), block),
{
}

/// The displacement left after clamping against each candidate box in
/// order: the sequential per-axis resolution the resolver performs.
pub open spec fn spec_clamped_x(solids: Seq<Collider>, moving: Collider, off: int) -> int
    decreases solids.len(),
{
    if solids.len() == 0 {
        off
    } else {
        spec_clamped_x(solids.drop_first(), moving, spec_calculate_x_offset(solids[0], moving, off))
    }
}

/// The `y` displacement left after clamping against each candidate in order.
pub open spec fn spec_clamped_y(solids: Seq<Collider>, moving: Collider, off: int) -> int
    decreases solids.len(),
{
    if solids.len() == 0 {
        off
    } else {
        spec_clamped_y(solids.drop_first(), moving, spec_calculate_y_offset(solids[0], moving, off))
    }
}

/// The `z` displacement left after clamping against each candidate in order.
pub open spec fn spec_clamped_z(solids: Seq<Collider>, moving: Collider, off: int) -> int
    decreases solids.len(),
{
    if solids.len() == 0 {
        off
    } else {
        spec_clamped_z(solids.drop_first(), moving, spec_calculate_z_offset(solids[0], moving, off))
    }
}

/// Backing a clamped displacement off by the margin, toward zero and never
/// past it.
pub open spec fn spec_margin_back(d: int) -> int {
    if d > MARGIN {
        d - MARGIN
    } else if d < -(MARGIN as int) {
        d + MARGIN
    } else {
        0
    }
}

/// A clamp that engaged at a shrunken displacement engages the same way at
/// the original one (`x` axis; the others alike).
proof fn lemma_clamp_x_transfer(b: Collider, moving: Collider, off: int, c1: int)
    requires
        between_zero(off, c1),
        spec_calculate_x_offset(b, moving, c1) != c1,
    ensures
        spec_calculate_x_offset(b, moving, off) == spec_calculate_x_offset(b, moving, c1),
        spec_calculate_x_offset(b, moving, off) != off,
{
}

proof fn lemma_clamp_y_transfer(b: Collider, moving: Collider, off: int, c1: int)
    requires
        between_zero(off, c1),
        spec_calculate_y_offset(b, moving, c1) != c1,
    ensures
        spec_calculate_y_offset(b, moving, off) == spec_calculate_y_offset(b, moving, c1),
        spec_calculate_y_offset(b, moving, off) != off,
{
}

proof fn lemma_clamp_z_transfer(b: Collider, moving: Collider, off: int, c1: int)
    requires
        between_zero(off, c1),
        spec_calculate_z_offset(b, moving, c1) != c1,
    ensures
        spec_calculate_z_offset(b, moving, off) == spec_calculate_z_offset(b, moving, c1),
        spec_calculate_z_offset(b, moving, off) != off,
{
}

/// The clamp of a single candidate stays between zero and its input.
proof fn lemma_clamp_between(b: Collider, moving: Collider, off: int)
    ensures
        between_zero(off, spec_calculate_x_offset(b, moving, off)),
        between_zero(off, spec_calculate_y_offset(b, moving, off)),
        between_zero(off, spec_calculate_z_offset(b, moving, off)),
{
}

/// A clamped fold that shrank the displacement was shrunk by one of the
/// candidates, engaging already at the original displacement.
proof fn lemma_clamped_x_witness(solids: Seq<Collider>, moving: Collider, off: int)
    requires
        spec_clamped_x(solids, moving, off) != off,
    ensures
        exists|k: int|
            0 <= k < solids.len() && spec_calculate_x_offset(#[trigger] solids[k], moving, off)
                == spec_clamped_x(solids, moving, off) && spec_calculate_x_offset(
                solids[k],
                moving,
                off,
            ) != off,
    decreases solids.len(),
{
    let c = spec_clamped_x(solids, moving, off);
    let c1 = spec_calculate_x_offset(solids[0], moving, off);
    if spec_clamped_x(solids.drop_first(), moving, c1) == c1 {
        assert(c == c1 && c1 != off);
        assert(spec_calculate_x_offset(solids[0], moving, off) == c);
    } else {
        lemma_clamped_x_witness(solids.drop_first(), moving, c1);
        let k = choose|k: int|
            0 <= k < solids.drop_first().len() && spec_calculate_x_offset(
                #[trigger] solids.drop_first()[k],
                moving,
                c1,
            ) == spec_clamped_x(solids.drop_first(), moving, c1) && spec_calculate_x_offset(
                solids.drop_first()[k],
                moving,
                c1,
            ) != c1;
        lemma_clamp_between(solids[0], moving, off);
        lemma_clamp_x_transfer(solids.drop_first()[k], moving, off, c1);
        assert(solids.drop_first()[k] == solids[k + 1]);
        assert(spec_calculate_x_offset(solids[k + 1], moving, off) == c && c != off);
    }
}

proof fn lemma_clamped_y_witness(solids: Seq<Collider>, moving: Collider, off: int)
    requires
        spec_clamped_y(solids, moving, off) != off,
    ensures
        exists|k: int|
            0 <= k < solids.len() && spec_calculate_y_offset(#[trigger] solids[k], moving, off)
                == spec_clamped_y(solids, moving, off) && spec_calculate_y_offset(
                solids[k],
                moving,
                off,
            ) != off,
    decreases solids.len(),
{
    let c = spec_clamped_y(solids, moving, off);
    let c1 = spec_calculate_y_offset(solids[0], moving, off);
    if spec_clamped_y(solids.drop_first(), moving, c1) == c1 {
        assert(c == c1 && c1 != off);
        assert(spec_calculate_y_offset(solids[0], moving, off) == c);
    } else {
        lemma_clamped_y_witness(solids.drop_first(), moving, c1);
        let k = choose|k: int|
            0 <= k < solids.drop_first().len() && spec_calculate_y_offset(
                #[trigger] solids.drop_first()[k],
                moving,
                c1,
            ) == spec_clamped_y(solids.drop_first(), moving, c1) && spec_calculate_y_offset(
                solids.drop_first()[k],
                moving,
                c1,
            ) != c1;
        lemma_clamp_between(solids[0], moving, off);
        lemma_clamp_y_transfer(solids.drop_first()[k], moving, off, c1);
        assert(solids.drop_first()[k] == solids[k + 1]);
        assert(spec_calculate_y_offset(solids[k + 1], moving, off) == c && c != off);
    }
}

proof fn lemma_clamped_z_witness(solids: Seq<Collider>, moving: Collider, off: int)
    requires
        spec_clamped_z(solids, moving, off) != off,
    ensures
        exists|k: int|
            0 <= k < solids.len() && spec_calculate_z_offset(#[trigger] solids[k], moving, off)
                == spec_clamped_z(solids, moving, off) && spec_calculate_z_offset(
                solids[k],
                moving,
                off,
            ) != off,
    decreases solids.len(),
{
    let c = spec_clamped_z(solids, moving, off);
    let c1 = spec_calculate_z_offset(solids[0], moving, off);
    if spec_clamped_z(solids.drop_first(), moving, c1) == c1 {
        assert(c == c1 && c1 != off);
        assert(spec_calculate_z_offset(solids[0], moving, off) == c);
    } else {
        lemma_clamped_z_witness(solids.drop_first(), moving, c1);
        let k = choose|k: int|
            0 <= k < solids.drop_first().len() && spec_calculate_z_offset(
                #[trigger] solids.drop_first()[k],
                moving,
                c1,
            ) == spec_clamped_z(solids.drop_first(), moving, c1) && spec_calculate_z_offset(
                solids.drop_first()[k],
                moving,
                c1,
            ) != c1;
        lemma_clamp_between(solids[0], moving, off);
        lemma_clamp_z_transfer(solids.drop_first()[k], moving, off, c1);
        assert(solids.drop_first()[k] == solids[k + 1]);
        assert(spec_calculate_z_offset(solids[k + 1], moving, off) == c && c != off);
    }
}

/// Every displacement in the segment from zero to `d` moves the box clear
/// of `block` on the `x` axis.
pub open spec fn x_segment_safe(moving: Collider, block: Collider, d: int) -> bool {
    forall|e: int|
        between_zero(d, e) ==> !spec_overlap(#[trigger] spec_moved(moving, e, 0, 0), block)
}

/// Every displacement in the segment from zero to `d` moves the box clear
/// of `block` on the `y` axis.
pub open spec fn y_segment_safe(moving: Collider, block: Collider, d: int) -> bool {
    forall|e: int|
        between_zero(d, e) ==> !spec_overlap(#[trigger] spec_moved(moving, 0, e, 0), block)
}

/// Every displacement in the segment from zero to `d` moves the box clear
/// of `block` on the `z` axis.
pub open spec fn z_segment_safe(moving: Collider, block: Collider, d: int) -> bool {
    forall|e: int|
        between_zero(d, e) ==> !spec_overlap(#[trigger] spec_moved(moving, 0, 0, e), block)
}

/// A clamped displacement leaves its whole segment safe, and narrowing a
/// safe segment keeps it safe.
proof fn lemma_x_clamp_segment(block: Collider, moving: Collider, off: int, nd: int)
    requires
        moving.wf2(),
        coord_ok2(off),
        !spec_overlap(moving, block),
        nd == spec_calculate_x_offset(block, moving, off),
        between_zero(off, nd),
    ensures
        x_segment_safe(moving, block, nd),
{
    assert forall|e: int| between_zero(nd, e) implies !spec_overlap(
        #[trigger] spec_moved(moving, e, 0, 0),
        block,
    ) by {
        lemma_x_safe(block, moving, off, e);
    }
}

proof fn lemma_y_clamp_segment(block: Collider, moving: Collider, off: int, nd: int)
    requires
        moving.wf2(),
        coord_ok2(off),
        !spec_overlap(moving, block),
        nd == spec_calculate_y_offset(block, moving, off),
        between_zero(off, nd),
    ensures
        y_segment_safe(moving, block, nd),
{
    assert forall|e: int| between_zero(nd, e) implies !spec_overlap(
        #[trigger] spec_moved(moving, 0, e, 0),
        block,
    ) by {
        lemma_y_safe(block, moving, off, e);
    }
}

proof fn lemma_z_clamp_segment(block: Collider, moving: Collider, off: int, nd: int)
    requires
        moving.wf2(),
        coord_ok2(off),
        !spec_overlap(moving, block),
        nd == spec_calculate_z_offset(block, moving, off),
        between_zero(off, nd),
    ensures
        z_segment_safe(moving, block, nd),
{
    assert forall|e: int| between_zero(nd, e) implies !spec_overlap(
        #[trigger] spec_moved(moving, 0, 0, e),
        block,
    ) by {
        lemma_z_safe(block, moving, off, e);
    }
}

/// Narrowing a safe segment keeps it safe (`x` axis; the others alike).
proof fn lemma_x_segment_narrow(moving: Collider, block: Collider, d: int, d2: int)
    requires
        x_segment_safe(moving, block, d),
        between_zero(d, d2),
    ensures
        x_segment_safe(moving, block, d2),
{
    assert forall|e: int| between_zero(d2, e) implies !spec_overlap(
        #[trigger] spec_moved(moving, e, 0, 0),
        block,
    ) by {
        assert(between_zero(d, e));
    }
}

proof fn lemma_y_segment_narrow(moving: Collider, block: Collider, d: int, d2: int)
    requires
        y_segment_safe(moving, block, d),
        between_zero(d, d2),
    ensures
        y_segment_safe(moving, block, d2),
{
    assert forall|e: int| between_zero(d2, e) implies !spec_overlap(
        #[trigger] spec_moved(moving, 0, e, 0),
        block,
    ) by {
        assert(between_zero(d, e));
    }
}

proof fn lemma_z_segment_narrow(moving: Collider, block: Collider, d: int, d2: int)
    requires
        z_segment_safe(moving, block, d),
        between_zero(d, d2),
    ensures
        z_segment_safe(moving, block, d2),
{
    assert forall|e: int| between_zero(d2, e) implies !spec_overlap(
        #[trigger] spec_moved(moving, 0, 0, e),
        block,
    ) by {
        assert(between_zero(d, e));
    }
}

/// Resolves an `x` displacement against every candidate solid box: clamps
/// it toward zero at the nearest contact, then backs off by the margin.
fn resolve_axis_x(solids: &Vec<Collider>, moving: Collider, dx: i64) -> (r: (i64, bool))
    requires
        moving.wf2(),
        coord_ok(dx as int),
        forall|j: int|
            0 <= j < solids@.len() ==> (#[trigger] solids@[j]).wf2() && !spec_overlap(
                moving,
                solids@[j],
            ),
    ensures
        between_zero(dx as int, r.0 as int),
        forall|j: int|
            0 <= j < solids@.len() ==> !spec_overlap(
                spec_moved(moving, r.0 as int, 0, 0),
                #[trigger] solids@[j],
            ),
        r.1 == (spec_clamped_x(solids@, moving, dx as int) != dx as int),
        r.0 == (if r.1 {
            spec_margin_back(spec_clamped_x(solids@, moving, dx as int))
        } else {
            dx as int
        }),
{
    let mut d = dx;
    let mut hit = false;
    let mut i: usize = 0;
    proof {
        assert(solids@.skip(0) =~= solids@);
    }
    while i < solids.len()
        invariant
            moving.wf2(),
            coord_ok(dx as int),
            forall|j: int|
                0 <= j < solids@.len() ==> (#[trigger] solids@[j]).wf2() && !spec_overlap(
                    moving,
                    solids@[j],
                ),
            i <= solids@.len(),
            between_zero(dx as int, d as int),
            forall|j: int| 0 <= j < i ==> x_segment_safe(moving, #[trigger] solids@[j], d as int),
            hit == (d != dx),
            spec_clamped_x(solids@, moving, dx as int) == spec_clamped_x(
                solids@.skip(i as int),
                moving,
                d as int,
            ),
        decreases solids@.len() - i,
    {
        let nd = solids[i].calculate_x_offset(moving, d);
        proof {
            lemma_x_clamp_segment(solids@[i as int], moving, d as int, nd as int);
            assert(solids@.skip(i as int).drop_first() =~= solids@.skip(i as int + 1));
            assert(solids@.skip(i as int)[0] == solids@[i as int]);
            assert(spec_clamped_x(solids@.skip(i as int), moving, d as int) == spec_clamped_x(
                solids@.skip(i as int + 1),
                moving,
                nd as int,
            ));
            assert forall|j: int| 0 <= j < i implies x_segment_safe(
                moving,
                #[trigger] solids@[j],
                nd as int,
            ) by {
                lemma_x_segment_narrow(moving, solids@[j], d as int, nd as int);
            }
        }
        if nd != d {
            hit = true;
        }
        d = nd;
        i = i + 1;
    }
    proof {
        assert(solids@.skip(solids@.len() as int) =~= Seq::<Collider>::empty());
        assert(spec_clamped_x(solids@, moving, dx as int) == d as int);
    }
    if hit {
        let ghost d0 = d as int;
        if d > MARGIN {
            d = d - MARGIN;
        } else if d < -MARGIN {
            d = d + MARGIN;
        } else {
            d = 0;
        }
        proof {
            assert(d as int == spec_margin_back(d0));
            assert forall|j: int| 0 <= j < solids@.len() implies x_segment_safe(
                moving,
                #[trigger] solids@[j],
                d as int,
            ) by {
                lemma_x_segment_narrow(moving, solids@[j], d0, d as int);
            }
        }
    }
    proof {
        assert forall|j: int| 0 <= j < solids@.len() implies !spec_overlap(
            spec_moved(moving, d as int, 0, 0),
            #[trigger] solids@[j],
        ) by {
            assert(between_zero(d as int, d as int));
        }
    }
    (d, hit)
}

/// Resolves a `y` displacement against every candidate solid box.
fn resolve_axis_y(solids: &Vec<Collider>, moving: Collider, dy: i64) -> (r: (i64, bool))
    requires
        moving.wf2(),
        coord_ok(dy as int),
        forall|j: int|
            0 <= j < solids@.len() ==> (#[trigger] solids@[j]).wf2() && !spec_overlap(
                moving,
                solids@[j],
            ),
    ensures
        between_zero(dy as int, r.0 as int),
        forall|j: int|
            0 <= j < solids@.len() ==> !spec_overlap(
                spec_moved(moving, 0, r.0 as int, 0),
                #[trigger] solids@[j],
            ),
        r.1 == (spec_clamped_y(solids@, moving, dy as int) != dy as int),
        r.0 == (if r.1 {
            spec_margin_back(spec_clamped_y(solids@, moving, dy as int))
        } else {
            dy as int
        }),
{
    let mut d = dy;
    let mut hit = false;
    let mut i: usize = 0;
    proof {
        assert(solids@.skip(0) =~= solids@);
    }
    while i < solids.len()
        invariant
            moving.wf2(),
            coord_ok(dy as int),
            forall|j: int|
                0 <= j < solids@.len() ==> (#[trigger] solids@[j]).wf2() && !spec_overlap(
                    moving,
                    solids@[j],
                ),
            i <= solids@.len(),
            between_zero(dy as int, d as int),
            forall|j: int| 0 <= j < i ==> y_segment_safe(moving, #[trigger] solids@[j], d as int),
            hit == (d != dy),
            spec_clamped_y(solids@, moving, dy as int) == spec_clamped_y(
                solids@.skip(i as int),
                moving,
                d as int,
            ),
        decreases solids@.len() - i,
    {
        let nd = solids[i].calculate_y_offset(moving, d);
        proof {
            lemma_y_clamp_segment(solids@[i as int], moving, d as int, nd as int);
            assert(solids@.skip(i as int).drop_first() =~= solids@.skip(i as int + 1));
            assert(solids@.skip(i as int)[0] == solids@[i as int]);
            assert(spec_clamped_y(solids@.skip(i as int), moving, d as int) == spec_clamped_y(
                solids@.skip(i as int + 1),
                moving,
                nd as int,
            ));
            assert forall|j: int| 0 <= j < i implies y_segment_safe(
                moving,
                #[trigger] solids@[j],
                nd as int,
            ) by {
                lemma_y_segment_narrow(moving, solids@[j], d as int, nd as int);
            }
        }
        if nd != d {
            hit = true;
        }
        d = nd;
        i = i + 1;
    }
    proof {
        assert(solids@.skip(solids@.len() as int) =~= Seq::<Collider>::empty());
        assert(spec_clamped_y(solids@, moving, dy as int) == d as int);
    }
    if hit {
        let ghost d0 = d as int;
        if d > MARGIN {
            d = d - MARGIN;
        } else if d < -MARGIN {
            d = d + MARGIN;
        } else {
            d = 0;
        }
        proof {
            assert(d as int == spec_margin_back(d0));
            assert forall|j: int| 0 <= j < solids@.len() implies y_segment_safe(
                moving,
                #[trigger] solids@[j],
                d as int,
            ) by {
                lemma_y_segment_narrow(moving, solids@[j], d0, d as int);
            }
        }
    }
    proof {
        assert forall|j: int| 0 <= j < solids@.len() implies !spec_overlap(
            spec_moved(moving, 0, d as int, 0),
            #[trigger] solids@[j],
        ) by {
            assert(between_zero(d as int, d as int));
        }
    }
    (d, hit)
}

/// Resolves a `z` displacement against every candidate solid box.
fn resolve_axis_z(solids: &Vec<Collider>, moving: Collider, dz: i64) -> (r: (i64, bool))
    requires
        moving.wf2(),
        coord_ok(dz as int),
        forall|j: int|
            0 <= j < solids@.len() ==> (#[trigger] solids@[j]).wf2() && !spec_overlap(
                moving,
                solids@[j],
            ),
    ensures
        between_zero(dz as int, r.0 as int),
        forall|j: int|
            0 <= j < solids@.len() ==> !spec_overlap(
                spec_moved(moving, 0, 0, r.0 as int),
                #[trigger] solids@[j],
            ),
        r.1 == (spec_clamped_z(solids@, moving, dz as int) != dz as int),
        r.0 == (if r.1 {
            spec_margin_back(spec_clamped_z(solids@, moving, dz as int))
        } else {
            dz as int
        }),
{
    let mut d = dz;
    let mut hit = false;
    let mut i: usize = 0;
    proof {
        assert(solids@.skip(0) =~= solids@);
    }
    while i < solids.len()
        invariant
            moving.wf2(),
            coord_ok(dz as int),
            forall|j: int|
                0 <= j < solids@.len() ==> (#[trigger] solids@[j]).wf2() && !spec_overlap(
                    moving,
                    solids@[j],
                ),
            i <= solids@.len(),
            between_zero(dz as int, d as int),
            forall|j: int| 0 <= j < i ==> z_segment_safe(moving, #[trigger] solids@[j], d as int),
            hit == (d != dz),
            spec_clamped_z(solids@, moving, dz as int) == spec_clamped_z(
                solids@.skip(i as int),
                moving,
                d as int,
            ),
        decreases solids@.len() - i,
    {
        let nd = solids[i].calculate_z_offset(moving, d);
        proof {
            lemma_z_clamp_segment(solids@[i as int], moving, d as int, nd as int);
            assert(solids@.skip(i as int).drop_first() =~= solids@.skip(i as int + 1));
            assert(solids@.skip(i as int)[0] == solids@[i as int]);
            assert(spec_clamped_z(solids@.skip(i as int), moving, d as int) == spec_clamped_z(
                solids@.skip(i as int + 1),
                moving,
                nd as int,
            ));
            assert forall|j: int| 0 <= j < i implies z_segment_safe(
                moving,
                #[trigger] solids@[j],
                nd as int,
            ) by {
                lemma_z_segment_narrow(moving, solids@[j], d as int, nd as int);
            }
        }
        if nd != d {
            hit = true;
        }
        d = nd;
        i = i + 1;
    }
    proof {
        assert(solids@.skip(solids@.len() as int) =~= Seq::<Collider>::empty());
        assert(spec_clamped_z(solids@, moving, dz as int) == d as int);
    }
    if hit {
        let ghost d0 = d as int;
        if d > MARGIN {
            d = d - MARGIN;
        } else if d < -MARGIN {
            d = d + MARGIN;
        } else {
            d = 0;
        }
        proof {
            assert(d as int == spec_margin_back(d0));
            assert forall|j: int| 0 <= j < solids@.len() implies z_segment_safe(
                moving,
                #[trigger] solids@[j],
                d as int,
            ) by {
                lemma_z_segment_narrow(moving, solids@[j], d0, d as int);
            }
        }
    }
    proof {
        assert forall|j: int| 0 <= j < solids@.len() implies !spec_overlap(
            spec_moved(moving, 0, 0, d as int),
            #[trigger] solids@[j],
        ) by {
            assert(between_zero(d as int, d as int));
        }
    }
    (d, hit)
}

/// The outcome of one resolution tick: the corrected displacement, the
/// velocity with contacted axes zeroed, and which axes made contact.
pub struct ResolvedMotion {
    pub dx: i64,
    pub dy: i64,
    pub dz: i64,
    pub vx: i64,
    pub vy: i64,
    pub vz: i64,
    pub hit_x: bool,
    pub hit_y: bool,
    pub hit_z: bool,
}

/// Resolves a body's intended displacement against the candidate solid
/// boxes, one axis at a time — vertical first, then the horizontals — with
/// the body advanced after each axis so resolved axes cannot reintroduce
/// penetration. The resolved body overlaps no candidate box; each axis's
/// displacement shrinks toward zero and never flips sign; velocity is
/// zeroed exactly on the axes that made contact.
pub fn resolve_movement(
    solids: &Vec<Collider>,
    body: Collider,
    delta: FixedVec,
    velocity: FixedVec,
) -> (r: ResolvedMotion)
    requires
        body.wf(),
        coord_ok(delta.x as int) && coord_ok(delta.y as int) && coord_ok(delta.z as int),
        forall|j: int|
            0 <= j < solids@.len() ==> (#[trigger] solids@[j]).wf2() && !spec_overlap(
                body,
                solids@[j],
            ),
    ensures
        between_zero(delta.x as int, r.dx as int),
        between_zero(delta.y as int, r.dy as int),
        between_zero(delta.z as int, r.dz as int),
        forall|j: int|
            0 <= j < solids@.len() ==> !spec_overlap(
                spec_moved(body, r.dx as int, r.dy as int, r.dz as int),
                #[trigger] solids@[j],
            ),
        r.hit_y == (spec_clamped_y(solids@, body, delta.y as int) != delta.y as int),
        r.dy == (if r.hit_y {
            spec_margin_back(spec_clamped_y(solids@, body, delta.y as int))
        } else {
            delta.y as int
        }),
        r.hit_x == (spec_clamped_x(solids@, spec_moved(body, 0, r.dy as int, 0), delta.x as int)
            != delta.x as int),
        r.dx == (if r.hit_x {
            spec_margin_back(
                spec_clamped_x(solids@, spec_moved(body, 0, r.dy as int, 0), delta.x as int),
            )
        } else {
            delta.x as int
        }),
        r.hit_z == (spec_clamped_z(
            solids@,
            spec_moved(body, r.dx as int, r.dy as int, 0),
            delta.z as int,
        ) != delta.z as int),
        r.dz == (if r.hit_z {
            spec_margin_back(
                spec_clamped_z(
                    solids@,
                    spec_moved(body, r.dx as int, r.dy as int, 0),
                    delta.z as int,
                ),
            )
        } else {
            delta.z as int
        }),
        r.vx == (if r.hit_x { 0 } else { velocity.x }),
        r.vy == (if r.hit_y { 0 } else { velocity.y }),
        r.vz == (if r.hit_z { 0 } else { velocity.z }),
{
    let (ry, hit_y) = resolve_axis_y(solids, body, delta.y);
    let body1 = body.offset(FixedVec { x: 0, y: ry, z: 0 });
    let (rx, hit_x) = resolve_axis_x(solids, body1, delta.x);
    let body2 = body1.offset(FixedVec { x: rx, y: 0, z: 0 });
    let (rz, hit_z) = resolve_axis_z(solids, body2, delta.z);
    proof {
        assert(body1 == spec_moved(body, 0, ry as int, 0));
        assert(body2 == spec_moved(body, rx as int, ry as int, 0));
        assert forall|j: int| 0 <= j < solids@.len() implies !spec_overlap(
            spec_moved(body, rx as int, ry as int, rz as int),
            #[trigger] solids@[j],
        ) by {
            assert(spec_moved(body, rx as int, ry as int, rz as int) == spec_moved(
                body2,
                0,
                0,
                rz as int,
            ));
        }
    }
    ResolvedMotion {
        dx: rx,
        dy: ry,
        dz: rz,
        vx: if hit_x {
            0
        } else {
            velocity.x
        },
        vy: if hit_y {
            0
        } else {
            velocity.y
        },
        vz: if hit_z {
            0
        } else {
            velocity.z
        },
        hit_x,
        hit_y,
        hit_z,
    }
}

/// The box of one block cell in fixed-point coordinates.
pub open spec fn spec_cell_box(bx: int, by: int, bz: int) -> Collider {
    Collider {
        min_x: (bx * SCALE) as i64,
        min_y: (by * SCALE) as i64,
        min_z: (bz * SCALE) as i64,
        max_x: ((bx + 1) * SCALE) as i64,
        max_y: ((by + 1) * SCALE) as i64,
        max_z: ((bz + 1) * SCALE) as i64,
    }
}

/// Whether the level holds a solid block at one cell.
pub open spec fn spec_solid_at(level: &Level, bx: int, by: int, bz: int) -> bool {
    level.spec_block_at(BlockPos { x: bx as i64, y: by as i64, z: bz as i64 }) is Some
}

/// Coordinates of a broad-phase region: small enough that every cell it
/// touches lies within the chunk coordinate range.
pub open spec fn region_ok(c: Collider) -> bool {
    -0x1000_0000_0000 <= c.min_x <= 0x1000_0000_0000 && -0x1000_0000_0000 <= c.min_y
        <= 0x1000_0000_0000 && -0x1000_0000_0000 <= c.min_z <= 0x1000_0000_0000
        && -0x1000_0000_0000 <= c.max_x <= 0x1000_0000_0000 && -0x1000_0000_0000 <= c.max_y
        <= 0x1000_0000_0000 && -0x1000_0000_0000 <= c.max_z <= 0x1000_0000_0000
}

/// Dividing by the scale keeps a value between bounds that divide exactly.
proof fn lemma_div_range(x: int, lo: int, hi: int)
    requires
        lo * (SCALE as int) <= x <= hi * (SCALE as int),
    ensures
        lo <= x / (SCALE as int) <= hi,
{
    let s = SCALE as int;
    vstd::arithmetic::div_mod::lemma_div_is_ordered(lo * s, x, s);
    vstd::arithmetic::div_mod::lemma_div_is_ordered(x, hi * s, s);
    vstd::arithmetic::div_mod::lemma_div_multiples_vanish(lo, s);
    vstd::arithmetic::div_mod::lemma_div_multiples_vanish(hi, s);
    assert(lo * s == s * lo) by (nonlinear_arith);
    assert(hi * s == s * hi) by (nonlinear_arith);
}

/// One axis of a cell overlaps the span `[lo_v, hi_v)` exactly when the
/// cell index lies in the integer range the broad phase enumerates.
proof fn lemma_range_equiv(lo_v: int, hi_v: int, b: int)
    ensures
        ((b + 1) * (SCALE as int) > lo_v) == (b >= lo_v / (SCALE as int)),
        (b * (SCALE as int) < hi_v) == (b <= (hi_v - 1) / (SCALE as int)),
{
    let s = SCALE as int;
    let ql = lo_v / s;
    vstd::arithmetic::div_mod::lemma_fundamental_div_mod(lo_v, s);
    vstd::arithmetic::div_mod::lemma_mod_bound(lo_v, s);
    assert(s * ql == ql * s) by (nonlinear_arith);
    if b >= ql {
        vstd::arithmetic::mul::lemma_mul_inequality(ql + 1, b + 1, s);
        assert((ql + 1) * s == ql * s + s) by (nonlinear_arith);
    } else {
        vstd::arithmetic::mul::lemma_mul_inequality(b + 1, ql, s);
    }
    let qh = (hi_v - 1) / s;
    vstd::arithmetic::div_mod::lemma_fundamental_div_mod(hi_v - 1, s);
    vstd::arithmetic::div_mod::lemma_mod_bound(hi_v - 1, s);
    assert(s * qh == qh * s) by (nonlinear_arith);
    if b <= qh {
        vstd::arithmetic::mul::lemma_mul_inequality(b, qh, s);
    } else {
        vstd::arithmetic::mul::lemma_mul_inequality(qh + 1, b, s);
        assert((qh + 1) * s == qh * s + s) by (nonlinear_arith);
    }
}

/// A cell coordinate within the world range: its chunk coordinate fits and
/// its cell box suffers no arithmetic wrap.
pub open spec fn cell_in_world(b: int) -> bool {
    crate::block_pos::spec_in_chunk_range(b)
}

/// Every collected box is the unwrapped box of a solid world cell.
pub open spec fn solids_ok(level: &Level, solids: Seq<Collider>) -> bool {
    forall|k: int|
        0 <= k < solids.len() ==> (#[trigger] solids[k]).wf2() && exists|cx: int, cy: int, cz: int|
            solids[k] == spec_cell_box(cx, cy, cz) && spec_solid_at(level, cx, cy, cz)
                && cell_in_world(cx) && cell_in_world(cy) && cell_in_world(cz)
}

/// Enumerates the solid block cells whose boxes overlap a region: the
/// result holds the cell box of every solid world cell the region touches,
/// and nothing else.
pub fn block_colliders_within(level: &Level, region: Collider) -> (solids: Vec<Collider>)
    requires
        level.wf(),
        region_ok(region),
        region.min_x <= region.max_x,
        region.min_y <= region.max_y,
        region.min_z <= region.max_z,
    ensures
        solids_ok(level, solids@),
        forall|k: int| 0 <= k < solids@.len() ==> spec_overlap(#[trigger] solids@[k], region),
        forall|bx: int, by: int, bz: int|
            spec_solid_at(level, bx, by, bz) && cell_in_world(bx) && cell_in_world(by)
                && cell_in_world(bz) && spec_overlap(#[trigger] spec_cell_box(bx, by, bz), region)
                ==> solids@.contains(spec_cell_box(bx, by, bz)),
{
    let x_lo = region.min_x.checked_div_euclid(SCALE).unwrap();
    let x_hi = (region.max_x - 1).checked_div_euclid(SCALE).unwrap();
    let y_lo = region.min_y.checked_div_euclid(SCALE).unwrap();
    let y_hi = (region.max_y - 1).checked_div_euclid(SCALE).unwrap();
    let z_lo = region.min_z.checked_div_euclid(SCALE).unwrap();
    let z_hi = (region.max_z - 1).checked_div_euclid(SCALE).unwrap();
    proof {
        lemma_div_range(region.min_x as int, -0x5_0000_0000, 0x5_0000_0000);
        lemma_div_range(region.max_x as int - 1, -0x5_0000_0000, 0x5_0000_0000);
        lemma_div_range(region.min_y as int, -0x5_0000_0000, 0x5_0000_0000);
        lemma_div_range(region.max_y as int - 1, -0x5_0000_0000, 0x5_0000_0000);
        lemma_div_range(region.min_z as int, -0x5_0000_0000, 0x5_0000_0000);
        lemma_div_range(region.max_z as int - 1, -0x5_0000_0000, 0x5_0000_0000);
        vstd::arithmetic::div_mod::lemma_div_is_ordered(
            region.min_x as int,
            region.max_x as int - 1 + (SCALE as int),
            SCALE as int,
        );
        vstd::arithmetic::div_mod::lemma_div_plus_one(region.max_x as int - 1, SCALE as int);
        vstd::arithmetic::div_mod::lemma_div_is_ordered(
            region.min_y as int,
            region.max_y as int - 1 + (SCALE as int),
            SCALE as int,
        );
        vstd::arithmetic::div_mod::lemma_div_plus_one(region.max_y as int - 1, SCALE as int);
        vstd::arithmetic::div_mod::lemma_div_is_ordered(
            region.min_z as int,
            region.max_z as int - 1 + (SCALE as int),
            SCALE as int,
        );
        vstd::arithmetic::div_mod::lemma_div_plus_one(region.max_z as int - 1, SCALE as int);
    }
    let mut solids: Vec<Collider> = Vec::new();
    let mut bx = x_lo;
    while bx <= x_hi
        invariant
            level.wf(),
            x_lo == region.min_x as int / (SCALE as int),
            x_hi == (region.max_x - 1) as int / (SCALE as int),
            y_lo == region.min_y as int / (SCALE as int),
            y_hi == (region.max_y - 1) as int / (SCALE as int),
            z_lo == region.min_z as int / (SCALE as int),
            z_hi == (region.max_z - 1) as int / (SCALE as int),
            -0x5_0000_0000 <= x_lo <= bx,
            bx <= x_hi + 1,
            x_hi <= 0x5_0000_0000,
            -0x5_0000_0000 <= y_lo && y_hi <= 0x5_0000_0000 && y_lo <= y_hi + 1,
            -0x5_0000_0000 <= z_lo && z_hi <= 0x5_0000_0000 && z_lo <= z_hi + 1,
            solids_ok(level, solids@),
            forall|k: int| 0 <= k < solids@.len() ==> spec_overlap(#[trigger] solids@[k], region),
            forall|cx: int, cy: int, cz: int|
                spec_solid_at(level, cx, cy, cz) && x_lo <= cx < bx && y_lo <= cy <= y_hi && z_lo
                    <= cz <= z_hi ==> solids@.contains(#[trigger] spec_cell_box(cx, cy, cz)),
        decreases x_hi + 1 - bx,
    {
        let mut by = y_lo;
        while by <= y_hi
            invariant
                level.wf(),
                x_lo == region.min_x as int / (SCALE as int),
                x_hi == (region.max_x - 1) as int / (SCALE as int),
                y_lo == region.min_y as int / (SCALE as int),
                y_hi == (region.max_y - 1) as int / (SCALE as int),
                z_lo == region.min_z as int / (SCALE as int),
                z_hi == (region.max_z - 1) as int / (SCALE as int),
                x_lo <= bx <= x_hi,
                -0x5_0000_0000 <= x_lo && x_hi <= 0x5_0000_0000,
                -0x5_0000_0000 <= y_lo <= by,
                by <= y_hi + 1,
                y_hi <= 0x5_0000_0000,
                -0x5_0000_0000 <= z_lo && z_hi <= 0x5_0000_0000 && z_lo <= z_hi + 1,
                solids_ok(level, solids@),
                forall|k: int|
                    0 <= k < solids@.len() ==> spec_overlap(#[trigger] solids@[k], region),
                forall|cx: int, cy: int, cz: int|
                    spec_solid_at(level, cx, cy, cz) && x_lo <= cx < bx && y_lo <= cy <= y_hi
                        && z_lo <= cz <= z_hi ==> solids@.contains(
                        #[trigger] spec_cell_box(cx, cy, cz),
                    ),
                forall|cx: int, cy: int, cz: int|
                    spec_solid_at(level, cx, cy, cz) && cx == bx && y_lo <= cy < by && z_lo <= cz
                        <= z_hi ==> solids@.contains(#[trigger] spec_cell_box(cx, cy, cz)),
            decreases y_hi + 1 - by,
        {
            let mut bz = z_lo;
            while bz <= z_hi
                invariant
                    level.wf(),
                    x_lo == region.min_x as int / (SCALE as int),
                    x_hi == (region.max_x - 1) as int / (SCALE as int),
                    y_lo == region.min_y as int / (SCALE as int),
                    y_hi == (region.max_y - 1) as int / (SCALE as int),
                    z_lo == region.min_z as int / (SCALE as int),
                    z_hi == (region.max_z - 1) as int / (SCALE as int),
                    x_lo <= bx <= x_hi,
                    y_lo <= by <= y_hi,
                    -0x5_0000_0000 <= x_lo && x_hi <= 0x5_0000_0000,
                    -0x5_0000_0000 <= y_lo && y_hi <= 0x5_0000_0000,
                    -0x5_0000_0000 <= z_lo <= bz,
                    bz <= z_hi + 1,
                    z_hi <= 0x5_0000_0000,
                    solids_ok(level, solids@),
                    forall|k: int|
                        0 <= k < solids@.len() ==> spec_overlap(#[trigger] solids@[k], region),
                    forall|cx: int, cy: int, cz: int|
                        spec_solid_at(level, cx, cy, cz) && x_lo <= cx < bx && y_lo <= cy <= y_hi
                            && z_lo <= cz <= z_hi ==> solids@.contains(
                            #[trigger] spec_cell_box(cx, cy, cz),
                        ),
                    forall|cx: int, cy: int, cz: int|
                        spec_solid_at(level, cx, cy, cz) && cx == bx && y_lo <= cy < by && z_lo
                            <= cz <= z_hi ==> solids@.contains(
                            #[trigger] spec_cell_box(cx, cy, cz),
                        ),
                    forall|cx: int, cy: int, cz: int|
                        spec_solid_at(level, cx, cy, cz) && cx == bx && cy == by && z_lo <= cz
                            < bz ==> solids@.contains(#[trigger] spec_cell_box(cx, cy, cz)),
                decreases z_hi + 1 - bz,
            {
                let pos = BlockPos::new(bx, by, bz);
                let solid = match level.block_at(pos) {
                    Some(_) => true,
                    None => false,
                };
                let ghost before = solids@;
                if solid {
                    let cell = Collider {
                        min_x: bx * SCALE,
                        min_y: by * SCALE,
                        min_z: bz * SCALE,
                        max_x: (bx + 1) * SCALE,
                        max_y: (by + 1) * SCALE,
                        max_z: (bz + 1) * SCALE,
                    };
                    proof {
                        assert(cell == spec_cell_box(bx as int, by as int, bz as int));
                        assert(spec_solid_at(level, bx as int, by as int, bz as int));
                        lemma_range_equiv(region.min_x as int, region.max_x as int, bx as int);
                        lemma_range_equiv(region.min_y as int, region.max_y as int, by as int);
                        lemma_range_equiv(region.min_z as int, region.max_z as int, bz as int);
                        assert(spec_overlap(cell, region));
                    }
                    solids.push(cell);
                }
                proof {
                    assert forall|k: int|
                        0 <= k < solids@.len() implies spec_overlap(
                        #[trigger] solids@[k],
                        region,
                    ) by {
                        if k < before.len() {
                            assert(solids@[k] == before[k]);
                            assert(spec_overlap(before[k], region));
                        }
                    }
                    assert forall|k: int|
                        0 <= k < solids@.len() implies (#[trigger] solids@[k]).wf2() && exists|
                        cx: int,
                        cy: int,
                        cz: int,
                    |
                        solids@[k] == spec_cell_box(cx, cy, cz) && spec_solid_at(level, cx, cy, cz)
                            && cell_in_world(cx) && cell_in_world(cy) && cell_in_world(cz) by {
                        if k < before.len() {
                            assert(solids@[k] == before[k]);
                            assert(before[k].wf2());
                        } else {
                            assert(solids@[k] == spec_cell_box(bx as int, by as int, bz as int));
                        }
                    }
                    assert forall|cx: int, cy: int, cz: int|
                        spec_solid_at(level, cx, cy, cz) && cx == bx && cy == by && z_lo <= cz
                            < bz + 1 implies solids@.contains(
                        #[trigger] spec_cell_box(cx, cy, cz),
                    ) by {
                        if cz == bz {
                            assert(solid);
                            assert(solids@[solids@.len() - 1] == spec_cell_box(cx, cy, cz));
                        } else {
                            assert(before.contains(spec_cell_box(cx, cy, cz)));
                            let k = choose|k: int|
                                0 <= k < before.len() && before[k] == spec_cell_box(cx, cy, cz);
                            assert(solids@[k] == spec_cell_box(cx, cy, cz));
                        }
                    }
                    assert forall|cx: int, cy: int, cz: int|
                        spec_solid_at(level, cx, cy, cz) && ((x_lo <= cx < bx && y_lo <= cy
                            <= y_hi && z_lo <= cz <= z_hi) || (cx == bx && y_lo <= cy < by && z_lo
                            <= cz <= z_hi)) implies solids@.contains(
                        #[trigger] spec_cell_box(cx, cy, cz),
                    ) by {
                        assert(before.contains(spec_cell_box(cx, cy, cz)));
                        let k = choose|k: int|
                            0 <= k < before.len() && before[k] == spec_cell_box(cx, cy, cz);
                        assert(solids@[k] == spec_cell_box(cx, cy, cz));
                    }
                }
                bz = bz + 1;
            }
            by = by + 1;
        }
        bx = bx + 1;
    }
    proof {
        assert forall|cx: int, cy: int, cz: int|
            spec_solid_at(level, cx, cy, cz) && cell_in_world(cx) && cell_in_world(cy)
                && cell_in_world(cz) && spec_overlap(
                #[trigger] spec_cell_box(cx, cy, cz),
                region,
            ) implies solids@.contains(spec_cell_box(cx, cy, cz)) by {
            lemma_range_equiv(region.min_x as int, region.max_x as int, cx);
            lemma_range_equiv(region.min_y as int, region.max_y as int, cy);
            lemma_range_equiv(region.min_z as int, region.max_z as int, cz);
        }
    }
    solids
}

/// Moves a body through the world: collects the solid cells its swept box
/// touches and resolves the displacement axis by axis. A body that starts
/// clear of every solid block ends clear of every solid block.
pub fn move_body(level: &Level, body: Collider, delta: FixedVec, velocity: FixedVec) -> (r:
    ResolvedMotion)
    requires
        level.wf(),
        body.wf(),
        -0x800_0000_0000 <= body.min_x && body.max_x <= 0x800_0000_0000,
        -0x800_0000_0000 <= body.min_y && body.max_y <= 0x800_0000_0000,
        -0x800_0000_0000 <= body.min_z && body.max_z <= 0x800_0000_0000,
        -0x800_0000_0000 <= delta.x <= 0x800_0000_0000,
        -0x800_0000_0000 <= delta.y <= 0x800_0000_0000,
        -0x800_0000_0000 <= delta.z <= 0x800_0000_0000,
        forall|bx: int, by: int, bz: int|
            spec_solid_at(level, bx, by, bz) && cell_in_world(bx) && cell_in_world(by)
                && cell_in_world(bz) ==> !spec_overlap(body, #[trigger] spec_cell_box(bx, by, bz)),
    ensures
        between_zero(delta.x as int, r.dx as int),
        between_zero(delta.y as int, r.dy as int),
        between_zero(delta.z as int, r.dz as int),
        forall|bx: int, by: int, bz: int|
            spec_solid_at(level, bx, by, bz) && cell_in_world(bx) && cell_in_world(by)
                && cell_in_world(bz) ==> !spec_overlap(
                spec_moved(body, r.dx as int, r.dy as int, r.dz as int),
                #[trigger] spec_cell_box(bx, by, bz),
            ),
        !r.hit_x ==> r.dx == delta.x,
        !r.hit_y ==> r.dy == delta.y,
        !r.hit_z ==> r.dz == delta.z,
        r.hit_y ==> exists|bx: int, by: int, bz: int|
            {
                &&& spec_solid_at(level, bx, by, bz)
                &&& cell_in_world(bx) && cell_in_world(by) && cell_in_world(bz)
                &&& spec_calculate_y_offset(
                    #[trigger] spec_cell_box(bx, by, bz),
                    body,
                    delta.y as int,
                ) != delta.y as int
                &&& r.dy == spec_margin_back(
                    spec_calculate_y_offset(spec_cell_box(bx, by, bz), body, delta.y as int),
                )
            },
        r.hit_x ==> exists|bx: int, by: int, bz: int|
            {
                &&& spec_solid_at(level, bx, by, bz)
                &&& cell_in_world(bx) && cell_in_world(by) && cell_in_world(bz)
                &&& spec_calculate_x_offset(
                    #[trigger] spec_cell_box(bx, by, bz),
                    spec_moved(body, 0, r.dy as int, 0),
                    delta.x as int,
                ) != delta.x as int
                &&& r.dx == spec_margin_back(
                    spec_calculate_x_offset(
                        spec_cell_box(bx, by, bz),
                        spec_moved(body, 0, r.dy as int, 0),
                        delta.x as int,
                    ),
                )
            },
        r.hit_z ==> exists|bx: int, by: int, bz: int|
            {
                &&& spec_solid_at(level, bx, by, bz)
                &&& cell_in_world(bx) && cell_in_world(by) && cell_in_world(bz)
                &&& spec_calculate_z_offset(
                    #[trigger] spec_cell_box(bx, by, bz),
                    spec_moved(body, r.dx as int, r.dy as int, 0),
                    delta.z as int,
                ) != delta.z as int
                &&& r.dz == spec_margin_back(
                    spec_calculate_z_offset(
                        spec_cell_box(bx, by, bz),
                        spec_moved(body, r.dx as int, r.dy as int, 0),
                        delta.z as int,
                    ),
                )
            },
        r.vx == (if r.hit_x { 0 } else { velocity.x }),
        r.vy == (if r.hit_y { 0 } else { velocity.y }),
        r.vz == (if r.hit_z { 0 } else { velocity.z }),
{
    let region = body.extend(delta);
    let solids = block_colliders_within(level, region);
    proof {
        assert forall|j: int| 0 <= j < solids@.len() implies (#[trigger] solids@[j]).wf2()
            && !spec_overlap(body, solids@[j]) by {
            assert(solids@[j].wf2());
            let (cx, cy, cz) = choose|cx: int, cy: int, cz: int|
                solids@[j] == spec_cell_box(cx, cy, cz) && spec_solid_at(level, cx, cy, cz)
                    && cell_in_world(cx) && cell_in_world(cy) && cell_in_world(cz);
            assert(!spec_overlap(body, spec_cell_box(cx, cy, cz)));
        }
    }
    let r = resolve_movement(&solids, body, delta, velocity);
    proof {
        if r.hit_y {
            lemma_clamped_y_witness(solids@, body, delta.y as int);
            let k = choose|k: int|
                0 <= k < solids@.len() && spec_calculate_y_offset(
                    #[trigger] solids@[k],
                    body,
                    delta.y as int,
                ) == spec_clamped_y(solids@, body, delta.y as int) && spec_calculate_y_offset(
                    solids@[k],
                    body,
                    delta.y as int,
                ) != delta.y as int;
            assert(solids@[k].wf2());
            let (cx, cy, cz) = choose|cx: int, cy: int, cz: int|
                solids@[k] == spec_cell_box(cx, cy, cz) && spec_solid_at(level, cx, cy, cz)
                    && cell_in_world(cx) && cell_in_world(cy) && cell_in_world(cz);
            assert(spec_calculate_y_offset(spec_cell_box(cx, cy, cz), body, delta.y as int)
                != delta.y as int && r.dy == spec_margin_back(
                spec_calculate_y_offset(spec_cell_box(cx, cy, cz), body, delta.y as int),
            ));
        }
        if r.hit_x {
            let moving = spec_moved(body, 0, r.dy as int, 0);
            lemma_clamped_x_witness(solids@, moving, delta.x as int);
            let k = choose|k: int|
                0 <= k < solids@.len() && spec_calculate_x_offset(
                    #[trigger] solids@[k],
                    moving,
                    delta.x as int,
                ) == spec_clamped_x(solids@, moving, delta.x as int) && spec_calculate_x_offset(
                    solids@[k],
                    moving,
                    delta.x as int,
                ) != delta.x as int;
            assert(solids@[k].wf2());
            let (cx, cy, cz) = choose|cx: int, cy: int, cz: int|
                solids@[k] == spec_cell_box(cx, cy, cz) && spec_solid_at(level, cx, cy, cz)
                    && cell_in_world(cx) && cell_in_world(cy) && cell_in_world(cz);
            assert(spec_calculate_x_offset(spec_cell_box(cx, cy, cz), moving, delta.x as int)
                != delta.x as int && r.dx == spec_margin_back(
                spec_calculate_x_offset(spec_cell_box(cx, cy, cz), moving, delta.x as int),
            ));
        }
        if r.hit_z {
            let moving = spec_moved(body, r.dx as int, r.dy as int, 0);
            lemma_clamped_z_witness(solids@, moving, delta.z as int);
            let k = choose|k: int|
                0 <= k < solids@.len() && spec_calculate_z_offset(
                    #[trigger] solids@[k],
                    moving,
                    delta.z as int,
                ) == spec_clamped_z(solids@, moving, delta.z as int) && spec_calculate_z_offset(
                    solids@[k],
                    moving,
                    delta.z as int,
                ) != delta.z as int;
            assert(solids@[k].wf2());
            let (cx, cy, cz) = choose|cx: int, cy: int, cz: int|
                solids@[k] == spec_cell_box(cx, cy, cz) && spec_solid_at(level, cx, cy, cz)
                    && cell_in_world(cx) && cell_in_world(cy) && cell_in_world(cz);
            assert(spec_calculate_z_offset(spec_cell_box(cx, cy, cz), moving, delta.z as int)
                != delta.z as int && r.dz == spec_margin_back(
                spec_calculate_z_offset(spec_cell_box(cx, cy, cz), moving, delta.z as int),
            ));
        }
        let moved = spec_moved(body, r.dx as int, r.dy as int, r.dz as int);
        assert forall|bx: int, by: int, bz: int|
            spec_solid_at(level, bx, by, bz) && cell_in_world(bx) && cell_in_world(by)
                && cell_in_world(bz) implies !spec_overlap(
            moved,
            #[trigger] spec_cell_box(bx, by, bz),
        ) by {
            let cell = spec_cell_box(bx, by, bz);
            if spec_overlap(cell, region) {
                assert(solids@.contains(cell));
                let k = choose|k: int| 0 <= k < solids@.len() && solids@[k] == cell;
                assert(!spec_overlap(moved, solids@[k]));
            } else {
                assert(moved.min_x >= region.min_x && moved.max_x <= region.max_x
                    && moved.min_y >= region.min_y && moved.max_y <= region.max_y && moved.min_z
                    >= region.min_z && moved.max_z <= region.max_z);
            }
        }
    }
    r
}

/// Dividing by a positive divisor keeps a value between bounds that divide
/// exactly.
proof fn lemma_div_range_by(x: int, d: int, lo: int, hi: int)
    requires
        d >= 1,
        lo * d <= x <= hi * d,
    ensures
        lo <= x / d <= hi,
{
    vstd::arithmetic::div_mod::lemma_div_is_ordered(lo * d, x, d);
    vstd::arithmetic::div_mod::lemma_div_is_ordered(x, hi * d, d);
    vstd::arithmetic::div_mod::lemma_div_multiples_vanish(lo, d);
    vstd::arithmetic::div_mod::lemma_div_multiples_vanish(hi, d);
    assert(lo * d == d * lo) by (nonlinear_arith);
    assert(hi * d == d * hi) by (nonlinear_arith);
}

/// A positive value divided by a nonzero magnitude stays within itself.
pub proof fn lemma_div_pos_bound(n: int, d: int)
    requires
        n >= 1,
        -n <= d <= n,
    ensures
        d != 0 ==> 0 <= n / (if d > 0 { d } else { -d }) <= n,
{
    if d != 0 {
        let m = if d > 0 { d } else { -d };
        vstd::arithmetic::div_mod::lemma_div_pos_is_pos(n, m);
        vstd::arithmetic::div_mod::lemma_div_nonincreasing(n, m);
    }
}

/// Normalizes a grid-cell / local-offset pair: carries whole chunk spans
/// out of the local offset so it always lies in `[0, CHUNK_SIZE * SCALE)`,
/// adjusting the grid cell to keep the absolute position unchanged.
pub fn normalize_position(grid_cell: &mut ChunkPos, translation: &mut FixedVec)
    requires
        -0x2000_0000 <= old(grid_cell).x <= 0x2000_0000,
        -0x2000_0000 <= old(grid_cell).y <= 0x2000_0000,
        -0x2000_0000 <= old(grid_cell).z <= 0x2000_0000,
        -0x100_0000_0000 <= old(translation).x <= 0x100_0000_0000,
        -0x100_0000_0000 <= old(translation).y <= 0x100_0000_0000,
        -0x100_0000_0000 <= old(translation).z <= 0x100_0000_0000,
    ensures
        0 <= final(translation).x < (CHUNK_SIZE as int) * (SCALE as int),
        0 <= final(translation).y < (CHUNK_SIZE as int) * (SCALE as int),
        0 <= final(translation).z < (CHUNK_SIZE as int) * (SCALE as int),
        final(grid_cell).x * ((CHUNK_SIZE as int) * (SCALE as int)) + final(translation).x == old(
            grid_cell,
        ).x * ((CHUNK_SIZE as int) * (SCALE as int)) + old(translation).x,
        final(grid_cell).y * ((CHUNK_SIZE as int) * (SCALE as int)) + final(translation).y == old(
            grid_cell,
        ).y * ((CHUNK_SIZE as int) * (SCALE as int)) + old(translation).y,
        final(grid_cell).z * ((CHUNK_SIZE as int) * (SCALE as int)) + final(translation).z == old(
            grid_cell,
        ).z * ((CHUNK_SIZE as int) * (SCALE as int)) + old(translation).z,
{
    let span: i64 = (CHUNK_SIZE as i64) * SCALE;
    proof {
        lemma_div_range_by(translation.x as int, span as int, -0x2000_0000, 0x2000_0000);
        lemma_div_range_by(translation.y as int, span as int, -0x2000_0000, 0x2000_0000);
        lemma_div_range_by(translation.z as int, span as int, -0x2000_0000, 0x2000_0000);
        vstd::arithmetic::div_mod::lemma_fundamental_div_mod(translation.x as int, span as int);
        vstd::arithmetic::div_mod::lemma_fundamental_div_mod(translation.y as int, span as int);
        vstd::arithmetic::div_mod::lemma_fundamental_div_mod(translation.z as int, span as int);
        vstd::arithmetic::mul::lemma_mul_is_commutative(
            span as int,
            translation.x as int / (span as int),
        );
        vstd::arithmetic::mul::lemma_mul_is_commutative(
            span as int,
            translation.y as int / (span as int),
        );
        vstd::arithmetic::mul::lemma_mul_is_commutative(
            span as int,
            translation.z as int / (span as int),
        );
    }
    let qx = translation.x.checked_div_euclid(span).unwrap();
    let qy = translation.y.checked_div_euclid(span).unwrap();
    let qz = translation.z.checked_div_euclid(span).unwrap();
    grid_cell.x = grid_cell.x + qx as i32;
    grid_cell.y = grid_cell.y + qy as i32;
    grid_cell.z = grid_cell.z + qz as i32;
    translation.x = translation.x.checked_rem_euclid(span).unwrap();
    translation.y = translation.y.checked_rem_euclid(span).unwrap();
    translation.z = translation.z.checked_rem_euclid(span).unwrap();
    proof {
        let sp = span as int;
        let gx = old(grid_cell).x as int;
        let gy = old(grid_cell).y as int;
        let gz = old(grid_cell).z as int;
        vstd::arithmetic::mul::lemma_mul_is_distributive_add_other_way(sp, gx, qx as int);
        vstd::arithmetic::mul::lemma_mul_is_distributive_add_other_way(sp, gy, qy as int);
        vstd::arithmetic::mul::lemma_mul_is_distributive_add_other_way(sp, gz, qz as int);
        assert((gx + qx) * sp == gx * sp + qx * sp);
        assert((gy + qy) * sp == gy * sp + qy * sp);
        assert((gz + qz) * sp == gz * sp + qz * sp);
    }
}

} // verus!
