//! Integer chunk coordinates: neighbors and the sorted radius query used for
//! streaming priority.

use vstd::prelude::*;
use vstd::seq_lib::group_to_multiset_ensures;

use crate::block_pos::BlockPos;
use crate::chunk::CHUNK_SIZE;

verus! {

/// The position of one 32x32x32 chunk of the voxel grid.
#[derive(Debug, Clone, Copy, PartialEq, Eq, Structural, Hash)]
pub struct ChunkPos {
    pub x: i32,
    pub y: i32,
    pub z: i32,
}

/// Squared Euclidean distance between two chunk positions.
pub open spec fn spec_dist_sq(a: ChunkPos, b: ChunkPos) -> int {
    (a.x - b.x) * (a.x - b.x) + (a.y - b.y) * (a.y - b.y) + (a.z - b.z) * (a.z - b.z)
}

impl ChunkPos {
    pub fn new(x: i32, y: i32, z: i32) -> (pos: ChunkPos)
        ensures
            pos == (ChunkPos { x, y, z }),
    {
        ChunkPos { x, y, z }
    }

    /// The block position of this chunk's minimum corner.
    pub fn block_pos(self) -> (pos: BlockPos)
        ensures
            pos.x == self.x * (CHUNK_SIZE as int),
            pos.y == self.y * (CHUNK_SIZE as int),
            pos.z == self.z * (CHUNK_SIZE as int),
    {
        let scale = CHUNK_SIZE as i64;
        BlockPos::new(self.x as i64 * scale, self.y as i64 * scale, self.z as i64 * scale)
    }

    /// The neighbor one chunk toward negative `x`.
    pub fn left(self) -> (pos: ChunkPos)
        requires
            self.x > i32::MIN,
        ensures
            pos == (ChunkPos { x: (self.x - 1) as i32, ..self }),
    {
        ChunkPos { x: self.x - 1, ..self }
    }

    /// The neighbor one chunk toward positive `x`.
    pub fn right(self) -> (pos: ChunkPos)
        requires
            self.x < i32::MAX,
        ensures
            pos == (ChunkPos { x: (self.x + 1) as i32, ..self }),
    {
        ChunkPos { x: self.x + 1, ..self }
    }

    /// The neighbor one chunk toward positive `y`.
    pub fn top(self) -> (pos: ChunkPos)
        requires
            self.y < i32::MAX,
        ensures
            pos == (ChunkPos { y: (self.y + 1) as i32, ..self }),
    {
        ChunkPos { y: self.y + 1, ..self }
    }

    /// The neighbor one chunk toward negative `y`.
    pub fn bottom(self) -> (pos: ChunkPos)
        requires
            self.y > i32::MIN,
        ensures
            pos == (ChunkPos { y: (self.y - 1) as i32, ..self }),
    {
        ChunkPos { y: self.y - 1, ..self }
    }

    /// The neighbor one chunk toward positive `z`.
    pub fn front(self) -> (pos: ChunkPos)
        requires
            self.z < i32::MAX,
        ensures
            pos == (ChunkPos { z: (self.z + 1) as i32, ..self }),
    {
        ChunkPos { z: self.z + 1, ..self }
    }

    /// The neighbor one chunk toward negative `z`.
    pub fn back(self) -> (pos: ChunkPos)
        requires
            self.z > i32::MIN,
        ensures
            pos == (ChunkPos { z: (self.z - 1) as i32, ..self }),
    {
        ChunkPos { z: self.z - 1, ..self }
    }

    /// True when all six neighbors exist without coordinate overflow.
    pub open spec fn has_neighbors(self) -> bool {
        i32::MIN < self.x < i32::MAX && i32::MIN < self.y < i32::MAX && i32::MIN < self.z
            < i32::MAX
    }

    /// The six axis-aligned neighbors of this chunk.
    pub fn adjacent(self) -> (neighbors: [ChunkPos; 6])
        requires
            self.has_neighbors(),
        ensures
            neighbors@ == spec_adjacent(self),
    {
        let neighbors = [self.left(), self.right(), self.top(), self.bottom(), self.front(), self.back()];
        proof {
            assert(neighbors@ =~= spec_adjacent(self));
        }
        neighbors
    }
}

/// The six axis-aligned neighbors of a chunk, in a fixed order.
pub open spec fn spec_adjacent(p: ChunkPos) -> Seq<ChunkPos> {
    seq![
        ChunkPos { x: (p.x - 1) as i32, ..p },
        ChunkPos { x: (p.x + 1) as i32, ..p },
        ChunkPos { y: (p.y + 1) as i32, ..p },
        ChunkPos { y: (p.y - 1) as i32, ..p },
        ChunkPos { z: (p.z + 1) as i32, ..p },
        ChunkPos { z: (p.z - 1) as i32, ..p },
    ]
}

/// True when `p` lies within the axis cube of half-width `2^30` around
/// `center`, so squared distances to `center` fit an `i64`.
pub open spec fn in_box(center: ChunkPos, p: ChunkPos) -> bool {
    -0x4000_0000 <= p.x - center.x <= 0x4000_0000 && -0x4000_0000 <= p.y - center.y <= 0x4000_0000
        && -0x4000_0000 <= p.z - center.z <= 0x4000_0000
}

/// A squared component is bounded by the squared sum, so each axis offset of
/// a position within squared distance `r * r` lies in `[-r, r]`.
proof fn lemma_component_bound(d: int, rest: int, r: int)
    requires
        r >= 0,
        rest >= 0,
        d * d + rest <= r * r,
    ensures
        -r <= d <= r,
{
    assert(-r <= d <= r) by (nonlinear_arith)
        requires
            r >= 0,
            rest >= 0,
            d * d + rest <= r * r,
    ;
}

/// Every axis offset of a position within squared distance `r * r` of
/// `center` lies in `[-r, r]`.
proof fn lemma_all_components(center: ChunkPos, p: ChunkPos, r: int)
    requires
        r >= 0,
        spec_dist_sq(center, p) <= r * r,
    ensures
        -r <= p.x - center.x <= r,
        -r <= p.y - center.y <= r,
        -r <= p.z - center.z <= r,
{
    let dx = center.x - p.x;
    let dy = center.y - p.y;
    let dz = center.z - p.z;
    assert(dx * dx >= 0 && dy * dy >= 0 && dz * dz >= 0) by (nonlinear_arith);
    lemma_component_bound(dx, dy * dy + dz * dz, r);
    lemma_component_bound(dy, dx * dx + dz * dz, r);
    lemma_component_bound(dz, dx * dx + dy * dy, r);
}

/// Pushing onto a sequence keeps every element it already contains, and adds
/// the pushed one.
proof fn lemma_push_keeps<A>(s: Seq<A>, x: A)
    ensures
        forall|p: A| s.contains(p) ==> #[trigger] s.push(x).contains(p),
        s.push(x).contains(x),
{
    assert forall|p: A| s.contains(p) implies s.push(x).contains(p) by {
        let i = choose|i: int| 0 <= i < s.len() && s[i] == p;
        assert(s.push(x)[i] == p);
    }
    assert(s.push(x)[s.len() as int] == x);
}

/// Squared distance between two chunk positions whose offsets are small
/// enough that the sum of squares fits an `i64`.
fn dist_squared(a: ChunkPos, b: ChunkPos) -> (d: i64)
    requires
        -0x4000_0000 <= a.x - b.x <= 0x4000_0000,
        -0x4000_0000 <= a.y - b.y <= 0x4000_0000,
        -0x4000_0000 <= a.z - b.z <= 0x4000_0000,
    ensures
        d == spec_dist_sq(a, b),
{
    let dx = a.x as i64 - b.x as i64;
    let dy = a.y as i64 - b.y as i64;
    let dz = a.z as i64 - b.z as i64;
    proof {
        assert(dx * dx <= 0x1000_0000_0000_0000 && dx * dx >= 0) by (nonlinear_arith)
            requires
                -0x4000_0000 <= dx <= 0x4000_0000,
        ;
        assert(dy * dy <= 0x1000_0000_0000_0000 && dy * dy >= 0) by (nonlinear_arith)
            requires
                -0x4000_0000 <= dy <= 0x4000_0000,
        ;
        assert(dz * dz <= 0x1000_0000_0000_0000 && dz * dz >= 0) by (nonlinear_arith)
            requires
                -0x4000_0000 <= dz <= 0x4000_0000,
        ;
    }
    dx * dx + dy * dy + dz * dz
}

/// Sorts positions by ascending squared distance from `center` with an
/// in-place insertion sort, keeping exactly the same elements.
fn sort_by_dist(center: ChunkPos, v: &mut Vec<ChunkPos>)
    requires
        forall|j: int| 0 <= j < old(v)@.len() ==> in_box(center, #[trigger] old(v)@[j]),
    ensures
        final(v)@.to_multiset() == old(v)@.to_multiset(),
        final(v)@.len() == old(v)@.len(),
        forall|j: int| 0 <= j < final(v)@.len() ==> in_box(center, #[trigger] final(v)@[j]),
        forall|a: int, b: int|
            0 <= a <= b < final(v)@.len() ==> spec_dist_sq(center, final(v)@[a]) <= spec_dist_sq(
                center,
                final(v)@[b],
            ),
{
    broadcast use group_to_multiset_ensures;
    broadcast use vstd::seq_lib::to_multiset_update;
    broadcast use vstd::multiset::group_multiset_axioms;

    let ghost orig = v@;
    let mut i: usize = 1;
    while i < v.len()
        invariant
            1 <= i,
            v@.len() == orig.len(),
            v@.to_multiset() == orig.to_multiset(),
            forall|j: int| 0 <= j < v@.len() ==> in_box(center, #[trigger] v@[j]),
            forall|a: int, b: int|
                0 <= a <= b < i && b < v@.len() ==> spec_dist_sq(center, v@[a]) <= spec_dist_sq(
                    center,
                    v@[b],
                ),
        decreases v@.len() - i,
    {
        let mut j: usize = i;
        while j > 0 && dist_squared(center, v[j - 1]) > dist_squared(center, v[j])
            invariant
                0 <= j <= i < v@.len(),
                v@.len() == orig.len(),
                v@.to_multiset() == orig.to_multiset(),
                forall|k: int| 0 <= k < v@.len() ==> in_box(center, #[trigger] v@[k]),
                forall|a: int, b: int|
                    0 <= a <= b <= i && a != j && b != j ==> spec_dist_sq(center, v@[a])
                        <= spec_dist_sq(center, v@[b]),
                forall|b: int|
                    j < b <= i ==> spec_dist_sq(center, v@[j as int]) <= spec_dist_sq(
                        center,
                        v@[b],
                    ),
            decreases j,
        {
            let ghost before = v@;
            let a = v[j - 1];
            let b = v[j];
            v.set(j - 1, b);
            v.set(j, a);
            proof {
                broadcast use group_to_multiset_ensures;
                broadcast use vstd::multiset::group_multiset_axioms;

                let m0 = before.to_multiset();
                assert(before[j - 1] == a && before[j as int] == b);
                assert(before.contains(a) && before.contains(b));
                let s1 = before.update(j - 1, b);
                vstd::seq_lib::to_multiset_update(before, j - 1, b);
                assert(s1.to_multiset() == m0.insert(b).remove(a));
                assert(s1[j as int] == b);
                assert(v@ =~= s1.update(j as int, a));
                vstd::seq_lib::to_multiset_update(s1, j as int, a);
                assert(v@.to_multiset() == s1.to_multiset().insert(a).remove(b));
                assert(v@.to_multiset() =~= m0);
            }
            j = j - 1;
        }
        proof {
            assert forall|a: int, b: int| 0 <= a <= b <= i implies spec_dist_sq(center, v@[a])
                <= spec_dist_sq(center, v@[b]) by {
                if a == j && b != j {
                } else if b == j && a != j {
                    if j > 0 {
                        assert(spec_dist_sq(center, v@[a]) <= spec_dist_sq(center, v@[j - 1]));
                    }
                }
            }
        }
        i = i + 1;
    }
}

impl ChunkPos {
    /// True when the radius query's arithmetic cannot overflow: the radius is
    /// non-negative and small enough, and the whole cube fits `i32` axes.
    pub open spec fn radius_ok(self, r: int) -> bool {
        0 <= r <= 0x4000_0000 && i32::MIN + r <= self.x <= i32::MAX - r && i32::MIN + r <= self.y
            <= i32::MAX - r && i32::MIN + r <= self.z <= i32::MAX - r
    }

    /// All chunk positions whose squared distance from `self` is at most
    /// `chunk_radius` squared, nearest first: the result is sorted by
    /// ascending squared distance, holds no duplicates, and holds every
    /// position within the radius.
    pub fn chunks_within_radius(self, chunk_radius: i32) -> (result: Vec<ChunkPos>)
        requires
            self.radius_ok(chunk_radius as int),
        ensures
            forall|i: int|
                0 <= i < result@.len() ==> spec_dist_sq(self, #[trigger] result@[i])
                    <= chunk_radius * chunk_radius,
            forall|a: int, b: int|
                0 <= a <= b < result@.len() ==> spec_dist_sq(self, result@[a]) <= spec_dist_sq(
                    self,
                    result@[b],
                ),
            forall|p: ChunkPos|
                spec_dist_sq(self, p) <= chunk_radius * chunk_radius ==> #[trigger] result@.contains(
                    p,
                ),
            result@.no_duplicates(),
    {
        broadcast use group_to_multiset_ensures;

        let r = chunk_radius;
        let ghost rr = (chunk_radius * chunk_radius) as int;
        proof {
            assert(0 <= (r as int) * (r as int) <= 0x1000_0000_0000_0000) by (nonlinear_arith)
                requires
                    0 <= r <= 0x4000_0000,
            ;
        }
        let radius_squared: i64 = r as i64 * r as i64;
        let mut candidates: Vec<ChunkPos> = Vec::new();
        proof {
            assert forall|p: ChunkPos|
                spec_dist_sq(self, p) <= rr && p.x - self.x
                    < -r implies #[trigger] candidates@.contains(p) by {
                lemma_all_components(self, p, r as int);
            }
        }
        let mut dx: i32 = -r;
        while dx <= r
        invariant
            self.radius_ok(r as int),
            radius_squared == rr,
            rr == (r as int) * (r as int),
            -r <= dx <= r + 1,
            forall|i: int|
                0 <= i < candidates@.len() ==> spec_dist_sq(self, #[trigger] candidates@[i]) <= rr,
            forall|i: int|
                0 <= i < candidates@.len() ==> off_lex_lt(
                    self,
                    #[trigger] candidates@[i],
                    dx as int,
                    -r,
                    -r,
                ),
            candidates@.no_duplicates(),
            forall|p: ChunkPos|
                spec_dist_sq(self, p) <= rr && p.x - self.x < dx ==> #[trigger] candidates@.contains(
                    p,
                ),
            decreases r + 1 - dx,
        {
            proof {
                assert forall|p: ChunkPos|
                    spec_dist_sq(self, p) <= rr && p.x - self.x == dx && p.y - self.y
                        < -r implies #[trigger] candidates@.contains(p) by {
                    lemma_all_components(self, p, r as int);
                }
            }
            let mut dy: i32 = -r;
            while dy <= r
                invariant
                    self.radius_ok(r as int),
                    radius_squared == rr,
                    rr == (r as int) * (r as int),
                    -r <= dx <= r,
                    -r <= dy <= r + 1,
                    forall|i: int|
                        0 <= i < candidates@.len() ==> spec_dist_sq(self, #[trigger] candidates@[i])
                            <= rr,
                    forall|i: int|
                        0 <= i < candidates@.len() ==> off_lex_lt(
                            self,
                            #[trigger] candidates@[i],
                            dx as int,
                            dy as int,
                            -r,
                        ),
                    candidates@.no_duplicates(),
                    forall|p: ChunkPos|
                        spec_dist_sq(self, p) <= rr && p.x - self.x < dx
                            ==> #[trigger] candidates@.contains(p),
                    forall|p: ChunkPos|
                        spec_dist_sq(self, p) <= rr && p.x - self.x == dx && p.y - self.y < dy
                            ==> #[trigger] candidates@.contains(p),
                decreases r + 1 - dy,
            {
                proof {
                    assert forall|p: ChunkPos|
                        spec_dist_sq(self, p) <= rr && p.x - self.x == dx && p.y - self.y == dy
                            && p.z - self.z < -r implies #[trigger] candidates@.contains(p) by {
                        lemma_all_components(self, p, r as int);
                    }
                }
                let mut dz: i32 = -r;
                while dz <= r
                    invariant
                        self.radius_ok(r as int),
                        radius_squared == rr,
                        rr == (r as int) * (r as int),
                        -r <= dx <= r,
                        -r <= dy <= r,
                        -r <= dz <= r + 1,
                        forall|i: int|
                            0 <= i < candidates@.len() ==> spec_dist_sq(
                                self,
                                #[trigger] candidates@[i],
                            ) <= rr,
                        forall|i: int|
                            0 <= i < candidates@.len() ==> off_lex_lt(
                                self,
                                #[trigger] candidates@[i],
                                dx as int,
                                dy as int,
                                dz as int,
                            ),
                        candidates@.no_duplicates(),
                        forall|p: ChunkPos|
                            spec_dist_sq(self, p) <= rr && p.x - self.x < dx
                                ==> #[trigger] candidates@.contains(p),
                        forall|p: ChunkPos|
                            spec_dist_sq(self, p) <= rr && p.x - self.x == dx && p.y - self.y < dy
                                ==> #[trigger] candidates@.contains(p),
                        forall|p: ChunkPos|
                            spec_dist_sq(self, p) <= rr && p.x - self.x == dx && p.y - self.y == dy
                                && p.z - self.z < dz ==> #[trigger] candidates@.contains(p),
                    decreases r + 1 - dz,
                {
                    let q = ChunkPos { x: self.x + dx, y: self.y + dy, z: self.z + dz };
                    let d = dist_squared(self, q);
                    if d <= radius_squared {
                        proof {
                            lemma_push_keeps(candidates@, q);
                            assert(!off_lex_lt(self, q, dx as int, dy as int, dz as int));
                        }
                        candidates.push(q);
                    }
                    proof {
                        assert forall|p: ChunkPos|
                            spec_dist_sq(self, p) <= rr && p.x - self.x == dx && p.y - self.y == dy
                                && p.z - self.z < dz + 1 implies #[trigger] candidates@.contains(
                            p,
                        ) by {
                            if p.z - self.z == dz {
                                assert(p == q);
                                assert(spec_dist_sq(self, q) <= rr);
                            }
                        }
                    }
                    dz = dz + 1;
                }
                proof {
                    assert forall|p: ChunkPos|
                        spec_dist_sq(self, p) <= rr && p.x - self.x == dx && p.y - self.y < dy
                            + 1 implies #[trigger] candidates@.contains(p) by {
                        if p.y - self.y == dy {
                            lemma_all_components(self, p, r as int);
                        }
                    }
                }
                dy = dy + 1;
            }
            proof {
                assert forall|p: ChunkPos|
                    spec_dist_sq(self, p) <= rr && p.x - self.x < dx
                        + 1 implies #[trigger] candidates@.contains(p) by {
                    if p.x - self.x == dx {
                        lemma_all_components(self, p, r as int);
                    }
                }
            }
            dx = dx + 1;
        }
        proof {
            assert forall|i: int| 0 <= i < candidates@.len() implies in_box(
                self,
                #[trigger] candidates@[i],
            ) by {
                lemma_all_components(self, candidates@[i], r as int);
            }
        }
        let ghost collected = candidates@;
        sort_by_dist(self, &mut candidates);
        proof {
            assert forall|p: ChunkPos| spec_dist_sq(self, p) <= rr implies #[trigger] candidates@.contains(
                p,
            ) by {
                lemma_all_components(self, p, r as int);
                assert(collected.contains(p));
                assert(collected.to_multiset().count(p) > 0);
            }
            assert forall|i: int| 0 <= i < candidates@.len() implies spec_dist_sq(
                self,
                #[trigger] candidates@[i],
            ) <= rr by {
                let p = candidates@[i];
                assert(candidates@.contains(p));
                assert(candidates@.to_multiset().count(p) > 0);
                assert(collected.contains(p));
                let k = choose|k: int| 0 <= k < collected.len() && collected[k] == p;
            }
            collected.lemma_multiset_has_no_duplicates();
            candidates@.lemma_multiset_has_no_duplicates_conv();
        }
        candidates
    }
}

/// Lexicographic order on the offsets from `center`, matching the order in
/// which the radius query's cube enumeration visits positions.
pub open spec fn off_lex_lt(center: ChunkPos, p: ChunkPos, dx: int, dy: int, dz: int) -> bool {
    p.x - center.x < dx || (p.x - center.x == dx && (p.y - center.y < dy || (p.y - center.y == dy
        && p.z - center.z < dz)))
}

} // verus!
