//! The resident chunk map and the streaming state machine.
//!
//! A `Level` tracks, per chunk position, whether a load job is in flight or
//! the chunk is resident, and drives the per-tick reconciliation: completed
//! loads are inserted and dirty-marked, missing chunks within the render
//! radius are scheduled (up to a hard cap on in-flight loads), chunks outside
//! it are evicted, and dirty resident chunks are handed to mesh extraction.
//! The level itself performs no I/O: the scheduler around it reads and
//! writes persistence, runs the jobs, and feeds the results back in.

use vstd::prelude::*;

use crate::block::Block;
use crate::block_pos::BlockPos;
use crate::chunk::{AdjacentChunks, CHUNK_SIZE};
use crate::chunk_data::ChunkData;
use crate::chunk_index::{spec_flat_index, ChunkIndex};
use crate::chunk_pos::{spec_adjacent, spec_dist_sq, ChunkPos};

verus! {

/// Hard cap on concurrently in-flight load jobs.
pub const MAX_LOADS: usize = 25;

/// One resident chunk: its storage, whether it needs remeshing, and whether
/// a mesh job for it is in flight.
pub struct ResidentChunk {
    pub data: ChunkData,
    pub dirty: bool,
    pub meshing: bool,
}

/// The per-position chunk bookkeeping of a running world.
pub struct Level {
    loading: Vec<ChunkPos>,
    resident: Vec<(ChunkPos, ResidentChunk)>,
}

impl Level {
    /// Positions with a load job in flight.
    pub closed spec fn loading_seq(&self) -> Seq<ChunkPos> {
        self.loading@
    }

    /// The resident chunks, keyed by position.
    pub closed spec fn resident_seq(&self) -> Seq<(ChunkPos, ResidentChunk)> {
        self.resident@
    }

    /// A load job for `p` is in flight.
    pub open spec fn spec_loading(&self, p: ChunkPos) -> bool {
        self.loading_seq().contains(p)
    }

    /// The chunk at `p` is resident.
    pub open spec fn spec_resident(&self, p: ChunkPos) -> bool {
        exists|i: int| 0 <= i < self.resident_seq().len() && self.resident_seq()[i].0 == p
    }

    /// The slot of the resident chunk at `p`.
    pub open spec fn spec_slot(&self, p: ChunkPos) -> int {
        choose|i: int| 0 <= i < self.resident_seq().len() && self.resident_seq()[i].0 == p
    }

    /// The resident chunk at `p`.
    pub open spec fn spec_chunk(&self, p: ChunkPos) -> ResidentChunk {
        self.resident_seq()[self.spec_slot(p)].1
    }

    /// The position is tracked: loading or resident.
    pub open spec fn spec_tracked(&self, p: ChunkPos) -> bool {
        self.spec_loading(p) || self.spec_resident(p)
    }

    /// Well-formed bookkeeping: no duplicate positions, loads and residents
    /// disjoint, every resident chunk a whole volume, and the in-flight load
    /// count within the cap.
    pub open spec fn wf(&self) -> bool {
        &&& self.loading_seq().no_duplicates()
        &&& (forall|i: int, j: int|
            0 <= i < j < self.resident_seq().len() ==> self.resident_seq()[i].0
                != self.resident_seq()[j].0)
        &&& (forall|p: ChunkPos| self.spec_loading(p) ==> !self.spec_resident(p))
        &&& (forall|i: int|
            0 <= i < self.resident_seq().len() ==> (#[trigger] self.resident_seq()[i]).1.data.wf())
        &&& self.loading_seq().len() <= MAX_LOADS
    }

    /// An empty level: nothing loading, nothing resident.
    pub fn new() -> (level: Level)
        ensures
            level.wf(),
            level.loading_seq() == Seq::<ChunkPos>::empty(),
            level.resident_seq() == Seq::<(ChunkPos, ResidentChunk)>::empty(),
    {
        Level { loading: Vec::new(), resident: Vec::new() }
    }

    /// The slot of the resident chunk at `pos`, if any.
    fn find_resident(&self, pos: ChunkPos) -> (r: Option<usize>)
        requires
            self.wf(),
        ensures
            match r {
                Some(i) => i < self.resident_seq().len() && self.resident_seq()[i as int].0 == pos
                    && self.spec_resident(pos) && self.spec_slot(pos) == i,
                None => !self.spec_resident(pos),
            },
    {
        let mut i: usize = 0;
        while i < self.resident.len()
            invariant
                self.wf(),
                i <= self.resident@.len(),
                forall|j: int| 0 <= j < i ==> self.resident@[j].0 != pos,
            decreases self.resident@.len() - i,
        {
            if self.resident[i].0 == pos {
                proof {
                    assert(self.resident_seq()[i as int].0 == pos);
                    let s = self.spec_slot(pos);
                    assert(0 <= s < self.resident_seq().len() && self.resident_seq()[s].0 == pos);
                }
                return Some(i);
            }
            i = i + 1;
        }
        proof {
            if self.spec_resident(pos) {
                let j = choose|j: int|
                    0 <= j < self.resident_seq().len() && self.resident_seq()[j].0 == pos;
                assert(self.resident@[j].0 != pos);
            }
        }
        None
    }

    /// Whether a load job for `pos` is in flight.
    fn find_loading(&self, pos: ChunkPos) -> (r: Option<usize>)
        ensures
            match r {
                Some(i) => i < self.loading_seq().len() && self.loading_seq()[i as int] == pos
                    && self.spec_loading(pos),
                None => !self.spec_loading(pos),
            },
    {
        let mut i: usize = 0;
        while i < self.loading.len()
            invariant
                i <= self.loading@.len(),
                forall|j: int| 0 <= j < i ==> self.loading@[j] != pos,
            decreases self.loading@.len() - i,
        {
            if self.loading[i] == pos {
                return Some(i);
            }
            i = i + 1;
        }
        proof {
            if self.loading_seq().contains(pos) {
                let j = choose|j: int|
                    0 <= j < self.loading_seq().len() && self.loading_seq()[j] == pos;
                assert(self.loading@[j] != pos);
            }
        }
        None
    }

    /// The block stored at one world position, or `None` when the owning
    /// chunk is not resident or the cell is empty.
    pub open spec fn spec_block_at(&self, pos: BlockPos) -> Option<Block> {
        let cp = ChunkPos {
            x: (pos.x as int / (CHUNK_SIZE as int)) as i32,
            y: (pos.y as int / (CHUNK_SIZE as int)) as i32,
            z: (pos.z as int / (CHUNK_SIZE as int)) as i32,
        };
        if self.spec_resident(cp) {
            self.spec_chunk(cp).data@[spec_flat_index(
                pos.x as int % (CHUNK_SIZE as int),
                pos.y as int % (CHUNK_SIZE as int),
                pos.z as int % (CHUNK_SIZE as int),
            )]
        } else {
            None
        }
    }

    /// Reads the block at one world position from the resident map.
    pub fn block_at(&self, pos: BlockPos) -> (b: Option<Block>)
        requires
            self.wf(),
            pos.in_chunk_range(),
        ensures
            b == self.spec_block_at(pos),
    {
        let cp = pos.chunk_pos();
        match self.find_resident(cp) {
            None => None,
            Some(i) => {
                let (rx, ry, rz) = pos.relative_pos();
                let idx = ChunkIndex::new(rx, ry, rz);
                self.resident[i].1.data.block(idx)
            },
        }
    }

    /// Clone snapshots of the six resident neighbors of `pos`; an absent or
    /// still-loading neighbor is `None`.
    pub fn adjacent(&self, pos: ChunkPos) -> (adj: AdjacentChunks)
        requires
            self.wf(),
            pos.has_neighbors(),
        ensures
            adj.wf(),
            spec_adjacent_match(self, pos, adj),
    {
        AdjacentChunks {
            left: self.snapshot(pos.left()),
            right: self.snapshot(pos.right()),
            top: self.snapshot(pos.top()),
            bottom: self.snapshot(pos.bottom()),
            front: self.snapshot(pos.front()),
            back: self.snapshot(pos.back()),
        }
    }

    /// A clone of the resident chunk at `pos`, if any.
    fn snapshot(&self, pos: ChunkPos) -> (snap: Option<ChunkData>)
        requires
            self.wf(),
        ensures
            spec_snapshot_match(self, pos, snap),
    {
        match self.find_resident(pos) {
            None => None,
            Some(i) => Some(self.resident[i].1.data.clone_data()),
        }
    }
}

/// Two resident chunks agree on contents and flags.
pub open spec fn chunk_eq(a: ResidentChunk, b: ResidentChunk) -> bool {
    a.data@ == b.data@ && a.dirty == b.dirty && a.meshing == b.meshing
}

impl Level {
    /// Replaces the flags of the resident entry in slot `i`, keeping its
    /// position and storage.
    fn set_flags_at(&mut self, i: usize, dirty: bool, meshing: bool)
        requires
            old(self).wf(),
            i < old(self).resident_seq().len(),
        ensures
            final(self).wf(),
            final(self).loading_seq() == old(self).loading_seq(),
            final(self).resident_seq().len() == old(self).resident_seq().len(),
            forall|j: int|
                0 <= j < old(self).resident_seq().len() && j != i
                    ==> final(self).resident_seq()[j] == old(self).resident_seq()[j],
            final(self).resident_seq()[i as int].0 == old(self).resident_seq()[i as int].0,
            final(self).resident_seq()[i as int].1.data@ == old(self).resident_seq()[
                i as int].1.data@,
            final(self).resident_seq()[i as int].1.dirty == dirty,
            final(self).resident_seq()[i as int].1.meshing == meshing,
            forall|q: ChunkPos| final(self).spec_resident(q) == old(self).spec_resident(q),
            forall|q: ChunkPos|
                old(self).spec_resident(q) ==> final(self).spec_slot(q) == old(self).spec_slot(q),
    {
        let mut tmp: (ChunkPos, ResidentChunk) = (
            ChunkPos { x: 0, y: 0, z: 0 },
            ResidentChunk { data: ChunkData::default(), dirty: false, meshing: false },
        );
        self.resident.set_and_swap(i, &mut tmp);
        let (pos, rc) = tmp;
        let updated = ResidentChunk { data: rc.data, dirty, meshing };
        let mut back: (ChunkPos, ResidentChunk) = (pos, updated);
        self.resident.set_and_swap(i, &mut back);
        proof {
            assert(self.resident_seq() =~= old(self).resident_seq().update(
                i as int,
                self.resident_seq()[i as int],
            ));
            lemma_same_keys_same_slots(old(self), self);
        }
    }
}

/// Two levels whose resident entries carry the same positions slot for slot
/// agree on residency and on slot choice.
proof fn lemma_same_keys_same_slots(a: &Level, b: &Level)
    requires
        a.wf(),
        a.resident_seq().len() == b.resident_seq().len(),
        forall|j: int|
            0 <= j < a.resident_seq().len() ==> (#[trigger] a.resident_seq()[j]).0
                == b.resident_seq()[j].0,
    ensures
        forall|q: ChunkPos| a.spec_resident(q) == b.spec_resident(q),
        forall|q: ChunkPos| a.spec_resident(q) ==> a.spec_slot(q) == b.spec_slot(q),
        forall|i: int, j: int|
            0 <= i < j < b.resident_seq().len() ==> b.resident_seq()[i].0 != b.resident_seq()[j].0,
{
    assert forall|q: ChunkPos| a.spec_resident(q) == b.spec_resident(q) by {
        if a.spec_resident(q) {
            let j = choose|j: int|
                0 <= j < a.resident_seq().len() && a.resident_seq()[j].0 == q;
            assert(b.resident_seq()[j].0 == q);
        }
        if b.spec_resident(q) {
            let j = choose|j: int|
                0 <= j < b.resident_seq().len() && b.resident_seq()[j].0 == q;
            assert(a.resident_seq()[j].0 == q);
        }
    }
    assert forall|i: int, j: int|
        0 <= i < j < b.resident_seq().len() implies b.resident_seq()[i].0 != b.resident_seq()[j].0
    by {
        assert(a.resident_seq()[i].0 != a.resident_seq()[j].0);
        assert(b.resident_seq()[i].0 == a.resident_seq()[i].0);
        assert(b.resident_seq()[j].0 == a.resident_seq()[j].0);
    }
    assert forall|q: ChunkPos| a.spec_resident(q) implies a.spec_slot(q) == b.spec_slot(q) by {
        let ja = a.spec_slot(q);
        assert(0 <= ja < a.resident_seq().len() && a.resident_seq()[ja].0 == q);
        assert(b.resident_seq()[ja].0 == q);
        assert(b.spec_resident(q));
        let jb = b.spec_slot(q);
        assert(0 <= jb < b.resident_seq().len() && b.resident_seq()[jb].0 == q);
        assert(a.resident_seq()[jb].0 == q);
        if ja < jb {
            assert(a.resident_seq()[ja].0 != a.resident_seq()[jb].0);
        } else if jb < ja {
            assert(a.resident_seq()[jb].0 != a.resident_seq()[ja].0);
        }
    }
}

/// Removing one slot of a duplicate-free sequence removes exactly that
/// element.
proof fn lemma_remove_keeps<A>(s: Seq<A>, i: int)
    requires
        0 <= i < s.len(),
        s.no_duplicates(),
    ensures
        s.remove(i).no_duplicates(),
        forall|q: A| s.remove(i).contains(q) == (s.contains(q) && q != s[i]),
{
    s.remove_ensures(i);
    assert forall|q: A| s.remove(i).contains(q) == (s.contains(q) && q != s[i]) by {
        if s.remove(i).contains(q) {
            let j = choose|j: int| 0 <= j < s.remove(i).len() && s.remove(i)[j] == q;
            if j < i {
                assert(s[j] == q);
                assert(s[j] != s[i]);
            } else {
                assert(s[j + 1] == q);
                assert(s[j + 1] != s[i]);
            }
        }
        if s.contains(q) && q != s[i] {
            let j = choose|j: int| 0 <= j < s.len() && s[j] == q;
            if j < i {
                assert(s.remove(i)[j] == q);
            } else {
                assert(j > i);
                assert(s.remove(i)[j - 1] == q);
            }
        }
    }
    assert forall|a: int, b: int|
        0 <= a < b < s.remove(i).len() implies s.remove(i)[a] != s.remove(i)[b] by {
        let sa: int = if a < i {
            a
        } else {
            a + 1
        };
        let sb: int = if b < i {
            b
        } else {
            b + 1
        };
        assert(s.remove(i)[a] == s[sa] && s.remove(i)[b] == s[sb]);
        assert(s[sa] != s[sb]);
    }
}

/// Whether a position list holds one position.
fn contains_pos(v: &Vec<ChunkPos>, pos: ChunkPos) -> (b: bool)
    ensures
        b == v@.contains(pos),
{
    let mut i: usize = 0;
    while i < v.len()
        invariant
            i <= v@.len(),
            forall|j: int| 0 <= j < i ==> v@[j] != pos,
        decreases v@.len() - i,
    {
        if v[i] == pos {
            return true;
        }
        i = i + 1;
    }
    proof {
        if v@.contains(pos) {
            let j = choose|j: int| 0 <= j < v@.len() && v@[j] == pos;
            assert(v@[j] != pos);
        }
    }
    false
}

impl Level {
    /// Marks the chunk at `pos` dirty if it is resident; otherwise does
    /// nothing.
    pub fn mark_dirty(&mut self, pos: ChunkPos)
        requires
            old(self).wf(),
        ensures
            final(self).wf(),
            final(self).loading_seq() == old(self).loading_seq(),
            forall|q: ChunkPos| final(self).spec_resident(q) == old(self).spec_resident(q),
            old(self).spec_resident(pos) ==> {
                &&& final(self).spec_chunk(pos).data@ == old(self).spec_chunk(pos).data@
                &&& final(self).spec_chunk(pos).dirty == true
                &&& final(self).spec_chunk(pos).meshing == old(self).spec_chunk(pos).meshing
            },
            !old(self).spec_resident(pos) ==> final(self).resident_seq() == old(
                self,
            ).resident_seq(),
            forall|q: ChunkPos|
                old(self).spec_resident(q) && q != pos ==> chunk_eq(
                    final(self).spec_chunk(q),
                    old(self).spec_chunk(q),
                ),
    {
        match self.find_resident(pos) {
            None => {
            },
            Some(i) => {
                let dirty = true;
                let meshing = self.resident[i].1.meshing;
                self.set_flags_at(i, dirty, meshing);
                proof {
                    assert forall|q: ChunkPos|
                        old(self).spec_resident(q) && q != pos implies chunk_eq(
                        self.spec_chunk(q),
                        old(self).spec_chunk(q),
                    ) by {
                        let j = old(self).spec_slot(q);
                        assert(j != i);
                        assert(self.resident_seq()[j] == old(self).resident_seq()[j]);
                    }
                }
            },
        }
    }
}

impl Level {
    /// Applies one finished load job: if a load for `pos` is still in
    /// flight and `pos` is still wanted, the chunk becomes resident and
    /// dirty, and all resident neighbors are marked dirty too (a newly
    /// resident chunk can unblock previously culled faces on them). A
    /// completion for an untracked or unwanted position is discarded.
    pub fn apply_completed_load(
        &mut self,
        pos: ChunkPos,
        data: ChunkData,
        visible: &Vec<ChunkPos>,
    ) -> (inserted: bool)
        requires
            old(self).wf(),
            data.wf(),
            pos.has_neighbors(),
        ensures
            final(self).wf(),
            inserted == (old(self).spec_loading(pos) && visible@.contains(pos)),
            !inserted ==> {
                &&& final(self).loading_seq() == old(self).loading_seq()
                &&& final(self).resident_seq() == old(self).resident_seq()
            },
            inserted ==> {
                &&& !final(self).spec_loading(pos)
                &&& final(self).spec_resident(pos)
                &&& final(self).spec_chunk(pos).data@ == data@
                &&& final(self).spec_chunk(pos).dirty == true
                &&& final(self).spec_chunk(pos).meshing == false
                &&& forall|q: ChunkPos|
                    q != pos ==> final(self).spec_loading(q) == old(self).spec_loading(q)
                &&& forall|q: ChunkPos|
                    final(self).spec_resident(q) == (old(self).spec_resident(q) || q == pos)
                &&& forall|q: ChunkPos|
                    old(self).spec_resident(q) && q != pos && spec_adjacent(pos).contains(q)
                        ==> final(self).spec_chunk(q).dirty == true && final(self).spec_chunk(
                        q,
                    ).data@ == old(self).spec_chunk(q).data@ && final(self).spec_chunk(q).meshing
                        == old(self).spec_chunk(q).meshing
                &&& forall|q: ChunkPos|
                    old(self).spec_resident(q) && q != pos && !spec_adjacent(pos).contains(q)
                        ==> chunk_eq(final(self).spec_chunk(q), old(self).spec_chunk(q))
            },
    {
        let li = match self.find_loading(pos) {
            None => {
                return false;
            },
            Some(li) => li,
        };
        if !contains_pos(visible, pos) {
            return false;
        }
        let ghost dv = data@;
        let ghost pre = *old(self);
        proof {
            lemma_remove_keeps(self.loading_seq(), li as int);
        }
        self.loading.remove(li);
        self.resident.push((pos, ResidentChunk { data, dirty: true, meshing: false }));
        proof {
            assert forall|i: int, j: int|
                0 <= i < j < self.resident_seq().len() implies self.resident_seq()[i].0
                != self.resident_seq()[j].0 by {
                if j == self.resident_seq().len() - 1 {
                    assert(self.resident_seq()[j].0 == pos);
                    if self.resident_seq()[i].0 == pos {
                        assert(pre.resident_seq()[i].0 == pos);
                        assert(pre.spec_resident(pos));
                    }
                } else {
                    assert(self.resident_seq()[i] == pre.resident_seq()[i]);
                    assert(self.resident_seq()[j] == pre.resident_seq()[j]);
                }
            }
            assert forall|q: ChunkPos| self.spec_loading(q) implies !self.spec_resident(q) by {
                assert(pre.spec_loading(q));
                if self.spec_resident(q) {
                    let j = choose|j: int|
                        0 <= j < self.resident_seq().len() && self.resident_seq()[j].0 == q;
                    if j == self.resident_seq().len() - 1 {
                        assert(q == pos);
                        assert(!self.loading_seq().contains(pos));
                    } else {
                        assert(pre.resident_seq()[j].0 == q);
                        assert(pre.spec_resident(q));
                    }
                }
            }
            assert(self.spec_resident(pos)) by {
                assert(self.resident_seq()[self.resident_seq().len() - 1].0 == pos);
            }
        }
        let ghost mid = *self;
        proof {
            assert(mid.spec_chunk(pos).data@ == dv && mid.spec_chunk(pos).dirty == true
                && mid.spec_chunk(pos).meshing == false) by {
                let s = mid.spec_slot(pos);
                assert(mid.resident_seq()[s].0 == pos);
                if s != mid.resident_seq().len() - 1 {
                    assert(pre.resident_seq()[s].0 == pos);
                    assert(pre.spec_resident(pos));
                }
            }
        }
        let ns = pos.adjacent();
        let mut k: usize = 0;
        while k < 6
            invariant
                self.wf(),
                ns@ == spec_adjacent(pos),
                k <= 6,
                self.loading_seq() == mid.loading_seq(),
                forall|q: ChunkPos| self.spec_resident(q) == mid.spec_resident(q),
                mid.spec_resident(pos),
                self.spec_chunk(pos).data@ == dv,
                self.spec_chunk(pos).dirty == true,
                self.spec_chunk(pos).meshing == false,
                forall|q: ChunkPos|
                    mid.spec_resident(q) && q != pos && (exists|j: int|
                        0 <= j < k && ns@[j] == q) ==> self.spec_chunk(q).dirty == true
                        && self.spec_chunk(q).data@ == mid.spec_chunk(q).data@
                        && self.spec_chunk(q).meshing == mid.spec_chunk(q).meshing,
                forall|q: ChunkPos|
                    mid.spec_resident(q) && q != pos && !(exists|j: int|
                        0 <= j < k && ns@[j] == q) ==> chunk_eq(
                        self.spec_chunk(q),
                        mid.spec_chunk(q),
                    ),
            decreases 6 - k,
        {
            let target = ns[k];
            let ghost before = *self;
            self.mark_dirty(target);
            proof {
                if target == pos {
                    assert(self.spec_chunk(pos).dirty == true);
                }
                assert forall|q: ChunkPos|
                    mid.spec_resident(q) && q != pos && (exists|j: int|
                        0 <= j < k + 1 && ns@[j] == q) implies self.spec_chunk(q).dirty == true
                    && self.spec_chunk(q).data@ == mid.spec_chunk(q).data@
                    && self.spec_chunk(q).meshing == mid.spec_chunk(q).meshing by {
                    if q == target {
                        assert(before.spec_chunk(q).data@ == mid.spec_chunk(q).data@
                            && before.spec_chunk(q).meshing == mid.spec_chunk(q).meshing);
                    } else {
                        assert(chunk_eq(self.spec_chunk(q), before.spec_chunk(q)));
                        assert(exists|j: int| 0 <= j < k && ns@[j] == q);
                    }
                }
                assert forall|q: ChunkPos|
                    mid.spec_resident(q) && q != pos && !(exists|j: int|
                        0 <= j < k + 1 && ns@[j] == q) implies chunk_eq(
                    self.spec_chunk(q),
                    mid.spec_chunk(q),
                ) by {
                    assert(q != target) by {
                        assert(ns@[k as int] == target);
                    }
                    assert(chunk_eq(self.spec_chunk(q), before.spec_chunk(q)));
                    assert(!(exists|j: int| 0 <= j < k && ns@[j] == q));
                }
            }
            k = k + 1;
        }
        proof {
            assert forall|q: ChunkPos|
                pre.spec_resident(q) && q != pos && spec_adjacent(pos).contains(
                    q,
                ) implies self.spec_chunk(q).dirty == true && self.spec_chunk(q).data@
                == pre.spec_chunk(q).data@ && self.spec_chunk(q).meshing == pre.spec_chunk(
                q,
            ).meshing by {
                let j = choose|j: int|
                    0 <= j < spec_adjacent(pos).len() && spec_adjacent(pos)[j] == q;
                assert(ns@[j] == q);
                let s = pre.spec_slot(q);
                assert(mid.resident_seq()[s] == pre.resident_seq()[s]);
                assert(mid.spec_resident(q));
                lemma_same_slots_prefix(&pre, &mid, q);
            }
            assert forall|q: ChunkPos|
                pre.spec_resident(q) && q != pos && !spec_adjacent(pos).contains(
                    q,
                ) implies chunk_eq(self.spec_chunk(q), pre.spec_chunk(q)) by {
                assert(mid.spec_resident(q)) by {
                    let s = pre.spec_slot(q);
                    assert(mid.resident_seq()[s] == pre.resident_seq()[s]);
                }
                if exists|j: int| 0 <= j < 6 && ns@[j] == q {
                    let j = choose|j: int| 0 <= j < 6 && ns@[j] == q;
                    assert(spec_adjacent(pos)[j] == q);
                    assert(spec_adjacent(pos).contains(q));
                }
                lemma_same_slots_prefix(&pre, &mid, q);
            }
            assert forall|q: ChunkPos|
                self.spec_resident(q) == (pre.spec_resident(q) || q == pos) by {
                if self.spec_resident(q) && q != pos {
                    assert(mid.spec_resident(q));
                    let j = choose|j: int|
                        0 <= j < mid.resident_seq().len() && mid.resident_seq()[j].0 == q;
                    assert(j != mid.resident_seq().len() - 1);
                    assert(pre.resident_seq()[j].0 == q);
                }
                if pre.spec_resident(q) {
                    let j = pre.spec_slot(q);
                    assert(mid.resident_seq()[j] == pre.resident_seq()[j]);
                    assert(mid.spec_resident(q));
                }
            }
        }
        true
    }
}

/// A chunk resident before new entries were appended keeps its slot and its
/// stored value.
proof fn lemma_same_slots_prefix(pre: &Level, mid: &Level, q: ChunkPos)
    requires
        pre.wf(),
        mid.wf(),
        pre.spec_resident(q),
        pre.resident_seq().len() <= mid.resident_seq().len(),
        forall|j: int|
            0 <= j < pre.resident_seq().len() ==> #[trigger] mid.resident_seq()[j]
                == pre.resident_seq()[j],
    ensures
        mid.spec_resident(q),
        mid.spec_chunk(q) == pre.spec_chunk(q),
    {
    let s = pre.spec_slot(q);
    assert(0 <= s < pre.resident_seq().len() && pre.resident_seq()[s].0 == q);
    assert(mid.resident_seq()[s].0 == q);
    assert(mid.spec_resident(q));
    let m = mid.spec_slot(q);
    assert(0 <= m < mid.resident_seq().len() && mid.resident_seq()[m].0 == q);
    if m != s {
        if m < s {
            assert(mid.resident_seq()[m].0 != mid.resident_seq()[s].0);
        } else {
            assert(mid.resident_seq()[s].0 != mid.resident_seq()[m].0);
        }
    }
}

impl Level {
    /// Starts load jobs for wanted positions that are neither loading nor
    /// resident, walking `visible` in its (nearest-first) order, until the
    /// in-flight cap is reached. Scheduling beyond the cap is deferred to a
    /// later tick, not an error.
    pub fn start_loads(&mut self, visible: &Vec<ChunkPos>) -> (started: Vec<ChunkPos>)
        requires
            old(self).wf(),
        ensures
            final(self).wf(),
            final(self).resident_seq() == old(self).resident_seq(),
            final(self).loading_seq() == old(self).loading_seq() + started@,
            started@.no_duplicates(),
            forall|k: int|
                0 <= k < started@.len() ==> visible@.contains(#[trigger] started@[k]) && !old(
                    self,
                ).spec_tracked(started@[k]),
            forall|p: ChunkPos|
                visible@.contains(p) && !old(self).spec_tracked(p) && !started@.contains(p)
                    ==> final(self).loading_seq().len() == MAX_LOADS,
    {
        let ghost pre = *old(self);
        let mut started: Vec<ChunkPos> = Vec::new();
        let mut i: usize = 0;
        while i < visible.len() && self.loading.len() < MAX_LOADS
            invariant
                pre.wf(),
                self.wf(),
                i <= visible@.len(),
                self.resident_seq() == pre.resident_seq(),
                self.loading_seq() == pre.loading_seq() + started@,
                started@.no_duplicates(),
                forall|k: int|
                    0 <= k < started@.len() ==> visible@.contains(#[trigger] started@[k])
                        && !pre.spec_tracked(started@[k]),
                forall|j: int|
                    0 <= j < i && !pre.spec_tracked(visible@[j]) && !started@.contains(
                        visible@[j],
                    ) ==> self.loading_seq().len() == MAX_LOADS,
            decreases visible@.len() - i,
        {
            let p = visible[i];
            let already = match self.find_loading(p) {
                Some(_) => true,
                None => match self.find_resident(p) {
                    Some(_) => true,
                    None => false,
                },
            };
            let ghost loading_before = self.loading_seq();
            let ghost started_before = started@;
            if !already {
                proof {
                    assert(!pre.spec_tracked(p)) by {
                        if pre.spec_loading(p) {
                            let j = choose|j: int|
                                0 <= j < pre.loading_seq().len() && pre.loading_seq()[j] == p;
                            assert(self.loading_seq()[j] == p);
                            assert(self.spec_loading(p));
                        }
                    }
                    assert(!started@.contains(p)) by {
                        if started@.contains(p) {
                            let j = choose|j: int| 0 <= j < started@.len() && started@[j] == p;
                            assert(self.loading_seq()[pre.loading_seq().len() + j] == p);
                            assert(self.spec_loading(p));
                        }
                    }
                    assert(!loading_before.contains(p)) by {
                        if loading_before.contains(p) {
                            let j = choose|j: int|
                                0 <= j < loading_before.len() && loading_before[j] == p;
                        }
                    }
                }
                self.loading.push(p);
                started.push(p);
                proof {
                    assert(self.loading_seq() =~= pre.loading_seq() + started@);
                    assert(self.loading_seq().no_duplicates()) by {
                        assert forall|a: int, b: int|
                            0 <= a < b < self.loading_seq().len() implies self.loading_seq()[a]
                            != self.loading_seq()[b] by {
                            if b == self.loading_seq().len() - 1 {
                                assert(self.loading_seq()[b] == p);
                                assert(self.loading_seq()[a] == loading_before[a]);
                                if loading_before[a] == p {
                                    assert(loading_before.contains(p));
                                }
                            } else {
                                assert(self.loading_seq()[a] == loading_before[a]
                                    && self.loading_seq()[b] == loading_before[b]);
                            }
                        }
                    }
                    assert(started@.no_duplicates()) by {
                        assert forall|a: int, b: int|
                            0 <= a < b < started@.len() implies started@[a] != started@[b] by {
                            if b == started@.len() - 1 {
                                if started_before[a] == p {
                                    assert(started_before.contains(p));
                                }
                            }
                        }
                    }
                    assert forall|q: ChunkPos| self.spec_loading(q) implies !self.spec_resident(
                        q,
                    ) by {
                        let j = choose|j: int|
                            0 <= j < self.loading_seq().len() && self.loading_seq()[j] == q;
                        if j < pre.loading_seq().len() {
                            assert(pre.loading_seq()[j] == q);
                            assert(pre.spec_loading(q));
                            assert(!pre.spec_resident(q));
                        } else {
                            assert(started@[j - pre.loading_seq().len()] == q);
                            assert(!pre.spec_tracked(q));
                        }
                        assert(!pre.spec_resident(q));
                    }
                }
            }
            proof {
                assert forall|j: int|
                    0 <= j < i + 1 && !pre.spec_tracked(visible@[j]) && !started@.contains(
                        visible@[j],
                    ) implies self.loading_seq().len() == MAX_LOADS by {
                    if j < i {
                        if started_before.contains(visible@[j]) {
                            let k = choose|k: int|
                                0 <= k < started_before.len() && started_before[k] == visible@[j];
                            assert(started@[k] == visible@[j]);
                            assert(started@.contains(visible@[j]));
                        }
                    } else {
                        assert(visible@[j] == p);
                        if !already {
                            assert(started@[started@.len() - 1] == p);
                            assert(started@.contains(p));
                        } else {
                            assert(pre.spec_tracked(p)) by {
                                if self.spec_loading(p) {
                                    let k = choose|k: int|
                                        0 <= k < self.loading_seq().len() && self.loading_seq()[k]
                                            == p;
                                    if k < pre.loading_seq().len() {
                                        assert(pre.loading_seq()[k] == p);
                                    } else {
                                        assert(started@[k - pre.loading_seq().len()] == p);
                                        assert(!pre.spec_tracked(p));
                                    }
                                }
                            }
                        }
                    }
                }
            }
            i = i + 1;
        }
        proof {
            assert forall|p: ChunkPos|
                visible@.contains(p) && !pre.spec_tracked(p) && !started@.contains(
                    p,
                ) implies self.loading_seq().len() == MAX_LOADS by {
                let j = choose|j: int| 0 <= j < visible@.len() && visible@[j] == p;
                if j >= i {
                    assert(i < visible@.len());
                    assert(self.loading_seq().len() >= MAX_LOADS);
                }
            }
        }
        started
    }

    /// Drops in-flight loads for positions outside the wanted set; their
    /// results will be discarded if they still complete.
    fn evict_loading(&mut self, visible: &Vec<ChunkPos>) -> (evicted: Vec<ChunkPos>)
        requires
            old(self).wf(),
        ensures
            final(self).wf(),
            final(self).resident_seq() == old(self).resident_seq(),
            forall|q: ChunkPos|
                final(self).spec_loading(q) == (old(self).spec_loading(q) && visible@.contains(q)),
            forall|k: int|
                0 <= k < evicted@.len() ==> old(self).spec_loading(#[trigger] evicted@[k])
                    && !visible@.contains(evicted@[k]),
            forall|q: ChunkPos|
                old(self).spec_loading(q) && !visible@.contains(q) ==> evicted@.contains(q),
    {
        let ghost pre = *old(self);
        let mut evicted: Vec<ChunkPos> = Vec::new();
        let mut kept: Vec<ChunkPos> = Vec::new();
        let mut i: usize = 0;
        while i < self.loading.len()
            invariant
                pre.wf(),
                *self == pre,
                i <= self.loading@.len(),
                forall|j: int|
                    0 <= j < kept@.len() ==> (exists|a: int|
                        0 <= a < i && pre.loading_seq()[a] == #[trigger] kept@[j])
                        && visible@.contains(kept@[j]),
                forall|a: int|
                    0 <= a < i ==> (visible@.contains(#[trigger] pre.loading_seq()[a])
                        ==> kept@.contains(pre.loading_seq()[a])) && (!visible@.contains(
                        pre.loading_seq()[a],
                    ) ==> evicted@.contains(pre.loading_seq()[a])),
                forall|j: int|
                    0 <= j < evicted@.len() ==> pre.spec_loading(#[trigger] evicted@[j])
                        && !visible@.contains(evicted@[j]),
                kept@.no_duplicates(),
                kept@.len() <= i,
            decreases self.loading@.len() - i,
        {
            let p = self.loading[i];
            let ghost kept_before = kept@;
            let ghost evicted_before = evicted@;
            if contains_pos(visible, p) {
                proof {
                    assert(!kept@.contains(p)) by {
                        if kept@.contains(p) {
                            let j = choose|j: int| 0 <= j < kept@.len() && kept@[j] == p;
                            let a = choose|a: int|
                                0 <= a < i && pre.loading_seq()[a] == kept@[j];
                            assert(pre.loading_seq()[a] == pre.loading_seq()[i as int]);
                        }
                    }
                }
                kept.push(p);
            } else {
                proof {
                    assert(pre.spec_loading(p)) by {
                        assert(pre.loading_seq()[i as int] == p);
                    }
                }
                evicted.push(p);
            }
            proof {
                assert forall|a: int|
                    0 <= a < i + 1 implies (visible@.contains(#[trigger] pre.loading_seq()[a])
                    ==> kept@.contains(pre.loading_seq()[a])) && (!visible@.contains(
                    pre.loading_seq()[a],
                ) ==> evicted@.contains(pre.loading_seq()[a])) by {
                    if a < i {
                        if visible@.contains(pre.loading_seq()[a]) {
                            let k = choose|k: int|
                                0 <= k < kept_before.len() && kept_before[k] == pre.loading_seq()[a];
                            assert(kept@[k] == pre.loading_seq()[a]);
                        } else {
                            let k = choose|k: int|
                                0 <= k < evicted_before.len() && evicted_before[k]
                                    == pre.loading_seq()[a];
                            assert(evicted@[k] == pre.loading_seq()[a]);
                        }
                    } else {
                        if visible@.contains(p) {
                            assert(kept@[kept@.len() - 1] == p);
                        } else {
                            assert(evicted@[evicted@.len() - 1] == p);
                        }
                    }
                }
            }
            i = i + 1;
        }
        self.loading = kept;
        proof {
            assert forall|q: ChunkPos|
                self.spec_loading(q) == (pre.spec_loading(q) && visible@.contains(q)) by {
                if self.spec_loading(q) {
                    let j = choose|j: int|
                        0 <= j < self.loading_seq().len() && self.loading_seq()[j] == q;
                    let a = choose|a: int|
                        0 <= a < pre.loading_seq().len() && pre.loading_seq()[a] == q;
                    assert(pre.spec_loading(q));
                }
                if pre.spec_loading(q) && visible@.contains(q) {
                    let a = choose|a: int|
                        0 <= a < pre.loading_seq().len() && pre.loading_seq()[a] == q;
                    assert(self.loading_seq().contains(q));
                }
            }
            assert forall|q: ChunkPos| self.spec_loading(q) implies !self.spec_resident(q) by {
                let j = choose|j: int|
                    0 <= j < self.loading_seq().len() && self.loading_seq()[j] == q;
                let a = choose|a: int|
                    0 <= a < pre.loading_seq().len() && pre.loading_seq()[a] == #[trigger] self.loading_seq()[j];
                assert(pre.spec_loading(q));
                assert(!pre.spec_resident(q));
                assert(self.resident_seq() == pre.resident_seq());
            }
        }
        evicted
    }

    /// Releases resident chunks outside the wanted set.
    #[verifier::rlimit(60)]
    fn evict_resident(&mut self, visible: &Vec<ChunkPos>) -> (evicted: Vec<ChunkPos>)
        requires
            old(self).wf(),
        ensures
            final(self).wf(),
            final(self).loading_seq() == old(self).loading_seq(),
            forall|q: ChunkPos|
                final(self).spec_resident(q) == (old(self).spec_resident(q) && visible@.contains(
                    q,
                )),
            forall|q: ChunkPos|
                final(self).spec_resident(q) ==> chunk_eq(
                    final(self).spec_chunk(q),
                    old(self).spec_chunk(q),
                ),
            forall|k: int|
                0 <= k < evicted@.len() ==> old(self).spec_resident(#[trigger] evicted@[k])
                    && !visible@.contains(evicted@[k]),
            forall|q: ChunkPos|
                old(self).spec_resident(q) && !visible@.contains(q) ==> evicted@.contains(q),
    {
        let ghost pre = *old(self);
        let ghost orig_res = pre.resident_seq();
        let mut evicted: Vec<ChunkPos> = Vec::new();
        let mut kept: Vec<(ChunkPos, ResidentChunk)> = Vec::new();
        let mut n: usize = self.resident.len();
        proof {
            assert(self.resident@ =~= orig_res.take(n as int));
        }
        while n > 0
            invariant
                pre.wf(),
                orig_res == pre.resident_seq(),
                self.loading@ == pre.loading_seq(),
                n <= orig_res.len(),
                self.resident@ == orig_res.take(n as int),
                forall|j: int|
                    0 <= j < kept@.len() ==> (exists|a: int|
                        n <= a < orig_res.len() && orig_res[a] == #[trigger] kept@[j]),
                forall|j: int|
                    0 <= j < kept@.len() ==> visible@.contains((#[trigger] kept@[j]).0),
                forall|a: int|
                    n <= a < orig_res.len() ==> (visible@.contains((#[trigger] orig_res[a]).0)
                        ==> (exists|j: int| 0 <= j < kept@.len() && kept@[j] == orig_res[a])) && (
                    !visible@.contains(orig_res[a].0) ==> evicted@.contains(orig_res[a].0)),
                forall|j: int|
                    0 <= j < evicted@.len() ==> pre.spec_resident(#[trigger] evicted@[j])
                        && !visible@.contains(evicted@[j]),
                forall|u: int, v: int|
                    0 <= u < v < kept@.len() ==> kept@[u].0 != kept@[v].0,
            decreases n,
        {
            let ghost kept_before = kept@;
            let ghost evicted_before = evicted@;
            let entry = self.resident.pop().unwrap();
            proof {
                assert(orig_res.take(n as int).last() == orig_res[n - 1]);
                assert(self.resident@ =~= orig_res.take(n as int - 1));
            }
            let in_vis = contains_pos(visible, entry.0);
            if in_vis {
                proof {
                    assert forall|j: int| 0 <= j < kept@.len() implies kept@[j].0 != entry.0 by {
                        let a = choose|a: int|
                            n <= a < orig_res.len() && orig_res[a] == kept@[j];
                        assert(orig_res[n - 1].0 != orig_res[a].0);
                    }
                }
                kept.push(entry);
            } else {
                proof {
                    assert(pre.spec_resident(entry.0)) by {
                        assert(orig_res[n - 1].0 == entry.0);
                    }
                }
                evicted.push(entry.0);
            }
            proof {
                assert forall|a: int|
                    n - 1 <= a < orig_res.len() implies (visible@.contains(
                    (#[trigger] orig_res[a]).0,
                ) ==> (exists|j: int| 0 <= j < kept@.len() && kept@[j] == orig_res[a])) && (
                !visible@.contains(orig_res[a].0) ==> evicted@.contains(orig_res[a].0)) by {
                    if a == n - 1 {
                        if in_vis {
                            assert(kept@[kept@.len() - 1] == orig_res[a]);
                        } else {
                            assert(evicted@[evicted@.len() - 1] == orig_res[a].0);
                        }
                    } else {
                        if visible@.contains(orig_res[a].0) {
                            let j = choose|j: int|
                                0 <= j < kept_before.len() && kept_before[j] == orig_res[a];
                            assert(kept@[j] == orig_res[a]);
                        } else {
                            let j = choose|j: int|
                                0 <= j < evicted_before.len() && evicted_before[j] == orig_res[a].0;
                            assert(evicted@[j] == orig_res[a].0);
                        }
                    }
                }
            }
            n = n - 1;
        }
        self.resident = kept;
        proof {
            assert forall|q: ChunkPos|
                self.spec_resident(q) == (pre.spec_resident(q) && visible@.contains(q)) by {
                if self.spec_resident(q) {
                    let j = choose|j: int|
                        0 <= j < self.resident_seq().len() && self.resident_seq()[j].0 == q;
                    let a = choose|a: int|
                        0 <= a < orig_res.len() && orig_res[a] == self.resident_seq()[j];
                    assert(orig_res[a].0 == q);
                    assert(pre.spec_resident(q));
                }
                if pre.spec_resident(q) && visible@.contains(q) {
                    let a = pre.spec_slot(q);
                    assert(orig_res[a].0 == q);
                    let j = choose|j: int|
                        0 <= j < self.resident_seq().len() && self.resident_seq()[j] == orig_res[a];
                    assert(self.resident_seq()[j].0 == q);
                }
            }
            assert forall|q: ChunkPos| self.spec_resident(q) implies chunk_eq(
                self.spec_chunk(q),
                pre.spec_chunk(q),
            ) by {
                let j = self.spec_slot(q);
                assert(self.resident_seq()[j].0 == q);
                let a = choose|a: int|
                    0 <= a < orig_res.len() && orig_res[a] == self.resident_seq()[j];
                assert(orig_res[a].0 == q);
                let s = pre.spec_slot(q);
                assert(orig_res[s].0 == q);
                if s < a {
                    assert(orig_res[s].0 != orig_res[a].0);
                } else if a < s {
                    assert(orig_res[a].0 != orig_res[s].0);
                }
                assert(self.spec_chunk(q) == orig_res[a].1);
            }
            assert forall|q: ChunkPos| self.spec_loading(q) implies !self.spec_resident(q) by {
                assert(pre.spec_loading(q));
                if self.spec_resident(q) {
                    assert(pre.spec_resident(q));
                }
            }
            assert forall|q: ChunkPos|
                pre.spec_resident(q) && !visible@.contains(q) implies evicted@.contains(q) by {
                let s = pre.spec_slot(q);
                assert(orig_res[s].0 == q);
            }
        }
        evicted
    }

    /// Removes every tracked position that is no longer wanted: in-flight
    /// loads are dropped (their results will be discarded on completion) and
    /// resident chunks outside the set release their storage.
    pub fn evict_outside(&mut self, visible: &Vec<ChunkPos>) -> (evicted: Vec<ChunkPos>)
        requires
            old(self).wf(),
        ensures
            final(self).wf(),
            forall|q: ChunkPos|
                final(self).spec_loading(q) == (old(self).spec_loading(q) && visible@.contains(q)),
            forall|q: ChunkPos|
                final(self).spec_resident(q) == (old(self).spec_resident(q) && visible@.contains(
                    q,
                )),
            forall|q: ChunkPos|
                final(self).spec_resident(q) ==> chunk_eq(
                    final(self).spec_chunk(q),
                    old(self).spec_chunk(q),
                ),
            forall|k: int|
                0 <= k < evicted@.len() ==> old(self).spec_tracked(#[trigger] evicted@[k])
                    && !visible@.contains(evicted@[k]),
            forall|q: ChunkPos|
                old(self).spec_tracked(q) && !visible@.contains(q) ==> evicted@.contains(q),
    {
        let ghost pre = *old(self);
        let mut evicted = self.evict_loading(visible);
        let ghost mid = *self;
        let mut from_resident = self.evict_resident(visible);
        let ghost el = evicted@;
        let ghost er = from_resident@;
        evicted.append(&mut from_resident);
        proof {
            assert(evicted@ =~= el + er);
            assert forall|q: ChunkPos|
                self.spec_resident(q) == (pre.spec_resident(q) && visible@.contains(q)) by {
                assert(mid.spec_resident(q) == pre.spec_resident(q));
            }
            assert forall|k: int|
                0 <= k < evicted@.len() implies pre.spec_tracked(#[trigger] evicted@[k])
                && !visible@.contains(evicted@[k]) by {
                if k < el.len() {
                    assert(evicted@[k] == el[k]);
                } else {
                    assert(evicted@[k] == er[k - el.len()]);
                    assert(mid.spec_resident(evicted@[k]));
                }
            }
            assert forall|q: ChunkPos|
                pre.spec_tracked(q) && !visible@.contains(q) implies evicted@.contains(q) by {
                if pre.spec_loading(q) {
                    let j = choose|j: int| 0 <= j < el.len() && el[j] == q;
                    assert(evicted@[j] == q);
                } else {
                    assert(mid.spec_resident(q));
                    let j = choose|j: int| 0 <= j < er.len() && er[j] == q;
                    assert(evicted@[el.len() + j] == q);
                }
            }
        }
        evicted
    }
}

/// What one reconciliation tick decided: load jobs to start and positions
/// whose storage was released.
pub struct UpdateActions {
    pub loads_to_start: Vec<ChunkPos>,
    pub evicted: Vec<ChunkPos>,
}

impl Level {
    /// One streaming reconciliation tick, in the order the state machine
    /// prescribes: evict everything outside the radius, apply finished load
    /// jobs (inserting their chunks dirty and dirty-marking their resident
    /// neighbors), then start loads for missing chunks within the radius,
    /// nearest first, up to the in-flight cap; wanted chunks beyond the cap
    /// are deferred to a later tick. The contract fixes the resulting
    /// loading and resident sets exactly: chunks become resident only
    /// through completed loads, and loads are forced to start whenever the
    /// cap leaves room.
    pub fn update_chunks(
        &mut self,
        center: ChunkPos,
        radius: i32,
        completed: Vec<(ChunkPos, ChunkData)>,
    ) -> (acts: UpdateActions)
        requires
            old(self).wf(),
            center.radius_ok(radius as int),
            forall|k: int|
                0 <= k < completed@.len() ==> (#[trigger] completed@[k]).1.wf()
                    && completed@[k].0.has_neighbors(),
        ensures
            final(self).wf(),
            forall|p: ChunkPos|
                final(self).spec_tracked(p) ==> spec_dist_sq(center, p) <= radius * radius,
            forall|k: int|
                0 <= k < acts.loads_to_start@.len() ==> spec_dist_sq(
                    center,
                    #[trigger] acts.loads_to_start@[k],
                ) <= radius * radius && !old(self).spec_tracked(acts.loads_to_start@[k]),
            acts.loads_to_start@.no_duplicates(),
            forall|p: ChunkPos|
                (spec_dist_sq(center, p) <= radius * radius && !old(self).spec_tracked(p)
                    && !acts.loads_to_start@.contains(p)) ==> final(self).loading_seq().len()
                    == MAX_LOADS,
            forall|p: ChunkPos|
                #![trigger final(self).spec_resident(p)]
                final(self).spec_resident(p) == (spec_dist_sq(center, p) <= radius * radius && (
                old(self).spec_resident(p) || (old(self).spec_loading(p) && (exists|k: int|
                    0 <= k < completed@.len() && (#[trigger] completed@[k]).0 == p)))),
            forall|p: ChunkPos|
                #![trigger final(self).spec_loading(p)]
                final(self).spec_loading(p) == ((old(self).spec_loading(p) && spec_dist_sq(
                    center,
                    p,
                ) <= radius * radius && !(exists|k: int|
                    0 <= k < completed@.len() && (#[trigger] completed@[k]).0 == p))
                    || acts.loads_to_start@.contains(p)),
            forall|k: int|
                (0 <= k < completed@.len() && old(self).spec_loading(
                    (#[trigger] completed@[k]).0,
                ) && spec_dist_sq(center, completed@[k].0) <= radius * radius && (forall|j: int|
                    0 <= j < k ==> completed@[j].0 != completed@[k].0)) ==> {
                    &&& final(self).spec_resident(completed@[k].0)
                    &&& final(self).spec_chunk(completed@[k].0).data@ == completed@[k].1@
                    &&& final(self).spec_chunk(completed@[k].0).dirty == true
                    &&& final(self).spec_chunk(completed@[k].0).meshing == false
                },
            forall|p: ChunkPos|
                (old(self).spec_resident(p) && spec_dist_sq(center, p) <= radius * radius) ==> {
                    &&& final(self).spec_chunk(p).data@ == old(self).spec_chunk(p).data@
                    &&& final(self).spec_chunk(p).meshing == old(self).spec_chunk(p).meshing
                    &&& final(self).spec_chunk(p).dirty == (old(self).spec_chunk(p).dirty || (
                    exists|k: int|
                        0 <= k < completed@.len() && old(self).spec_loading(
                            (#[trigger] completed@[k]).0,
                        ) && spec_dist_sq(center, completed@[k].0) <= radius * radius
                            && spec_adjacent(completed@[k].0).contains(p)))
                },
            forall|e: int|
                0 <= e < acts.evicted@.len() ==> old(self).spec_tracked(#[trigger] acts.evicted@[e])
                    && spec_dist_sq(center, acts.evicted@[e]) > radius * radius,
            forall|p: ChunkPos|
                old(self).spec_tracked(p) && spec_dist_sq(center, p) > radius * radius
                    ==> acts.evicted@.contains(p),
    {
        let ghost pre = *old(self);
        let visible = center.chunks_within_radius(radius);
        proof {
            assert forall|p: ChunkPos|
                visible@.contains(p) == (spec_dist_sq(center, p) <= radius * radius) by {
                if visible@.contains(p) {
                    let j = choose|j: int| 0 <= j < visible@.len() && visible@[j] == p;
                    assert(spec_dist_sq(center, visible@[j]) <= radius * radius);
                }
            }
        }
        let evicted = self.evict_outside(&visible);
        let ghost e0 = *self;
        let mut k: usize = 0;
        while k < completed.len()
            invariant
                e0.wf(),
                self.wf(),
                k <= completed@.len(),
                forall|j: int|
                    0 <= j < completed@.len() ==> (#[trigger] completed@[j]).1.wf()
                        && completed@[j].0.has_neighbors(),
                forall|p: ChunkPos| e0.spec_loading(p) ==> visible@.contains(p),
                forall|p: ChunkPos|
                    #![trigger self.spec_resident(p)]
                    self.spec_resident(p) == (e0.spec_resident(p) || (e0.spec_loading(p) && (
                    exists|j: int| 0 <= j < k && (#[trigger] completed@[j]).0 == p))),
                forall|p: ChunkPos|
                    #![trigger self.spec_loading(p)]
                    self.spec_loading(p) == (e0.spec_loading(p) && !(exists|j: int|
                        0 <= j < k && (#[trigger] completed@[j]).0 == p)),
                forall|j: int|
                    (0 <= j < k && e0.spec_loading((#[trigger] completed@[j]).0) && (forall|
                        i2: int,
                    |
                        0 <= i2 < j ==> completed@[i2].0 != completed@[j].0)) ==> {
                        &&& self.spec_resident(completed@[j].0)
                        &&& self.spec_chunk(completed@[j].0).data@ == completed@[j].1@
                        &&& self.spec_chunk(completed@[j].0).dirty == true
                        &&& self.spec_chunk(completed@[j].0).meshing == false
                    },
                forall|p: ChunkPos|
                    e0.spec_resident(p) ==> {
                        &&& self.spec_chunk(p).data@ == e0.spec_chunk(p).data@
                        &&& self.spec_chunk(p).meshing == e0.spec_chunk(p).meshing
                        &&& self.spec_chunk(p).dirty == (e0.spec_chunk(p).dirty || (exists|j: int|
                            0 <= j < k && e0.spec_loading((#[trigger] completed@[j]).0)
                                && spec_adjacent(completed@[j].0).contains(p)))
                    },
            decreases completed@.len() - k,
        {
            let pos = completed[k].0;
            let data = completed[k].1.clone_data();
            let ghost before = *self;
            let inserted = self.apply_completed_load(pos, data, &visible);
            proof {
                let was_loading = before.spec_loading(pos);
                assert(inserted == (was_loading && visible@.contains(pos)));
                if was_loading {
                    assert(e0.spec_loading(pos));
                    assert(visible@.contains(pos));
                    assert(inserted);
                }
                assert forall|p: ChunkPos|
                    #![trigger self.spec_resident(p)]
                    self.spec_resident(p) == (e0.spec_resident(p) || (e0.spec_loading(p) && (
                exists|j: int| 0 <= j < k + 1 && (#[trigger] completed@[j]).0 == p))) by {
                    if p == pos {
                        assert(completed@[k as int].0 == pos);
                        if inserted {
                            assert(self.spec_resident(pos));
                            assert(e0.spec_loading(pos) || e0.spec_resident(pos)) by {
                                assert(was_loading);
                            }
                        } else {
                            assert(self.spec_resident(p) == before.spec_resident(p));
                            if e0.spec_loading(p) && !before.spec_resident(p) {
                                assert(was_loading);
                            }
                        }
                    } else {
                        if inserted {
                            assert(self.spec_resident(p) == (before.spec_resident(p) || p
                                == pos));
                        } else {
                            assert(self.spec_resident(p) == before.spec_resident(p));
                        }
                        if exists|j: int| 0 <= j < k + 1 && (#[trigger] completed@[j]).0 == p {
                            let j = choose|j: int|
                                0 <= j < k + 1 && (#[trigger] completed@[j]).0 == p;
                            assert(j < k);
                        }
                    }
                }
                assert forall|p: ChunkPos|
                    #![trigger self.spec_loading(p)]
                    self.spec_loading(p) == (e0.spec_loading(p) && !(exists|j: int|
                        0 <= j < k + 1 && (#[trigger] completed@[j]).0 == p)) by {
                    if p == pos {
                        assert(completed@[k as int].0 == pos);
                        if inserted {
                            assert(!self.spec_loading(pos));
                        } else {
                            assert(self.spec_loading(p) == before.spec_loading(p));
                            assert(!was_loading);
                        }
                    } else {
                        if inserted {
                            assert(self.spec_loading(p) == before.spec_loading(p));
                        } else {
                            assert(self.spec_loading(p) == before.spec_loading(p));
                        }
                        if exists|j: int| 0 <= j < k + 1 && (#[trigger] completed@[j]).0 == p {
                            let j = choose|j: int|
                                0 <= j < k + 1 && (#[trigger] completed@[j]).0 == p;
                            assert(j < k);
                        }
                    }
                }
                assert forall|j: int|
                    (0 <= j < k + 1 && e0.spec_loading((#[trigger] completed@[j]).0) && (forall|
                        i2: int,
                    |
                        0 <= i2 < j ==> completed@[i2].0 != completed@[j].0)) implies {
                    &&& self.spec_resident(completed@[j].0)
                    &&& self.spec_chunk(completed@[j].0).data@ == completed@[j].1@
                    &&& self.spec_chunk(completed@[j].0).dirty == true
                    &&& self.spec_chunk(completed@[j].0).meshing == false
                } by {
                    let q = completed@[j].0;
                    if j == k {
                        assert(inserted);
                        assert(self.spec_chunk(q).data@ == completed@[j].1@);
                    } else {
                        assert(before.spec_resident(q) && before.spec_chunk(q).data@
                            == completed@[j].1@ && before.spec_chunk(q).dirty == true
                            && before.spec_chunk(q).meshing == false);
                        if inserted {
                            assert(q != pos) by {
                                if q == pos {
                                    assert(before.spec_resident(pos));
                                    assert(!was_loading);
                                }
                            }
                            if spec_adjacent(pos).contains(q) {
                                assert(self.spec_chunk(q).dirty == true && self.spec_chunk(
                                    q,
                                ).data@ == before.spec_chunk(q).data@ && self.spec_chunk(
                                    q,
                                ).meshing == before.spec_chunk(q).meshing);
                            } else {
                                assert(chunk_eq(self.spec_chunk(q), before.spec_chunk(q)));
                            }
                            assert(self.spec_resident(q));
                        }
                    }
                }
                assert forall|p: ChunkPos| e0.spec_resident(p) implies {
                    &&& self.spec_chunk(p).data@ == e0.spec_chunk(p).data@
                    &&& self.spec_chunk(p).meshing == e0.spec_chunk(p).meshing
                    &&& self.spec_chunk(p).dirty == (e0.spec_chunk(p).dirty || (exists|j: int|
                        0 <= j < k + 1 && e0.spec_loading((#[trigger] completed@[j]).0)
                            && spec_adjacent(completed@[j].0).contains(p)))
                } by {
                    assert(before.spec_resident(p));
                    if inserted {
                        assert(p != pos) by {
                            if p == pos {
                                assert(was_loading);
                                assert(!before.spec_resident(pos) || !e0.spec_loading(pos));
                                assert(e0.spec_resident(p));
                                assert(!e0.spec_loading(p));
                            }
                        }
                        if spec_adjacent(pos).contains(p) {
                            assert(self.spec_chunk(p).dirty == true && self.spec_chunk(p).data@
                                == before.spec_chunk(p).data@ && self.spec_chunk(p).meshing
                                == before.spec_chunk(p).meshing);
                            assert(e0.spec_loading(completed@[k as int].0)) by {
                                assert(was_loading);
                            }
                        } else {
                            assert(chunk_eq(self.spec_chunk(p), before.spec_chunk(p)));
                            if exists|j: int|
                                0 <= j < k + 1 && e0.spec_loading((#[trigger] completed@[j]).0)
                                    && spec_adjacent(completed@[j].0).contains(p) {
                                let j = choose|j: int|
                                    0 <= j < k + 1 && e0.spec_loading(
                                        (#[trigger] completed@[j]).0,
                                    ) && spec_adjacent(completed@[j].0).contains(p);
                                if j == k {
                                    assert(spec_adjacent(pos).contains(p));
                                }
                            }
                        }
                    } else {
                        assert(chunk_eq(self.spec_chunk(p), before.spec_chunk(p)));
                        if exists|j: int|
                            0 <= j < k + 1 && e0.spec_loading((#[trigger] completed@[j]).0)
                                && spec_adjacent(completed@[j].0).contains(p) {
                            let j = choose|j: int|
                                0 <= j < k + 1 && e0.spec_loading((#[trigger] completed@[j]).0)
                                    && spec_adjacent(completed@[j].0).contains(p);
                            if j == k {
                                assert(e0.spec_loading(pos));
                                assert(visible@.contains(pos));
                                assert(was_loading || before.spec_resident(pos)) by {
                                    assert(before.spec_loading(pos) == (e0.spec_loading(pos) && !(
                                    exists|j2: int|
                                        0 <= j2 < k && (#[trigger] completed@[j2]).0 == pos)));
                                    if !was_loading {
                                        let j2 = choose|j2: int|
                                            0 <= j2 < k && (#[trigger] completed@[j2]).0 == pos;
                                        assert(before.spec_resident(pos));
                                    }
                                }
                                assert(before.spec_resident(pos));
                                assert(before.spec_chunk(pos).dirty == true || e0.spec_chunk(
                                    pos,
                                ).dirty || true);
                                assert(e0.spec_resident(pos) || (e0.spec_loading(pos) && (exists|
                                    j2: int,
                                |
                                    0 <= j2 < k && (#[trigger] completed@[j2]).0 == pos)));
                                if e0.spec_resident(pos) {
                                    assert(!e0.spec_loading(pos));
                                }
                                let j2 = choose|j2: int|
                                    0 <= j2 < k && (#[trigger] completed@[j2]).0 == pos;
                                assert(0 <= j2 < k && e0.spec_loading(completed@[j2].0)
                                    && spec_adjacent(completed@[j2].0).contains(p));
                            }
                        }
                    }
                }
            }
            k = k + 1;
        }
        let ghost mid = *self;
        let started = self.start_loads(&visible);
        proof {
            assert forall|p: ChunkPos| self.spec_tracked(p) implies spec_dist_sq(center, p)
                <= radius * radius by {
                assert(self.loading_seq() == mid.loading_seq() + started@);
                if self.spec_loading(p) {
                    let j = choose|j: int|
                        0 <= j < self.loading_seq().len() && self.loading_seq()[j] == p;
                    if j < mid.loading_seq().len() {
                        assert(mid.loading_seq()[j] == p);
                        assert(mid.spec_loading(p));
                        assert(e0.spec_loading(p));
                        assert(visible@.contains(p));
                    } else {
                        assert(started@[j - mid.loading_seq().len()] == p);
                        assert(visible@.contains(p));
                    }
                } else {
                    assert(self.spec_resident(p));
                    assert(mid.spec_resident(p));
                    if e0.spec_resident(p) {
                        assert(e0.spec_tracked(p));
                        assert(visible@.contains(p));
                    } else {
                        assert(e0.spec_loading(p));
                        assert(visible@.contains(p));
                    }
                }
            }
            assert forall|k2: int| 0 <= k2 < started@.len() implies spec_dist_sq(
                center,
                #[trigger] started@[k2],
            ) <= radius * radius && !pre.spec_tracked(started@[k2]) by {
                assert(visible@.contains(started@[k2]));
                assert(!mid.spec_tracked(started@[k2]));
                if pre.spec_tracked(started@[k2]) {
                    assert(e0.spec_tracked(started@[k2]));
                    assert(mid.spec_tracked(started@[k2]));
                }
            }
            assert forall|p: ChunkPos|
                (spec_dist_sq(center, p) <= radius * radius && !pre.spec_tracked(p)
                    && !started@.contains(p)) implies self.loading_seq().len() == MAX_LOADS by {
                assert(visible@.contains(p));
                assert(!mid.spec_tracked(p)) by {
                    if mid.spec_tracked(p) {
                        assert(e0.spec_tracked(p));
                        assert(pre.spec_tracked(p));
                    }
                }
            }
            assert forall|p: ChunkPos|
                #![trigger self.spec_resident(p)]
                self.spec_resident(p) == (spec_dist_sq(center, p) <= radius * radius && (
            pre.spec_resident(p) || (pre.spec_loading(p) && (exists|j: int|
                0 <= j < completed@.len() && (#[trigger] completed@[j]).0 == p)))) by {
                assert(self.spec_resident(p) == mid.spec_resident(p));
                if mid.spec_resident(p) {
                    if e0.spec_resident(p) {
                        assert(visible@.contains(p));
                    } else {
                        assert(e0.spec_loading(p));
                        assert(visible@.contains(p));
                    }
                }
                if pre.spec_loading(p) && visible@.contains(p) {
                    assert(e0.spec_loading(p));
                }
                if pre.spec_resident(p) && visible@.contains(p) {
                    assert(e0.spec_resident(p));
                }
            }
            assert forall|p: ChunkPos|
                #![trigger self.spec_loading(p)]
                self.spec_loading(p) == ((pre.spec_loading(p) && spec_dist_sq(center, p)
                    <= radius * radius && !(exists|j: int|
                    0 <= j < completed@.len() && (#[trigger] completed@[j]).0 == p))
                    || started@.contains(p)) by {
                assert(self.loading_seq() == mid.loading_seq() + started@);
                if self.spec_loading(p) {
                    let j = choose|j: int|
                        0 <= j < self.loading_seq().len() && self.loading_seq()[j] == p;
                    if j < mid.loading_seq().len() {
                        assert(mid.loading_seq()[j] == p);
                        assert(mid.spec_loading(p));
                        assert(e0.spec_loading(p));
                        assert(visible@.contains(p));
                    } else {
                        assert(started@[j - mid.loading_seq().len()] == p);
                    }
                }
                if mid.spec_loading(p) {
                    let j = choose|j: int|
                        0 <= j < mid.loading_seq().len() && mid.loading_seq()[j] == p;
                    assert(self.loading_seq()[j] == p);
                }
                if started@.contains(p) {
                    let j = choose|j: int| 0 <= j < started@.len() && started@[j] == p;
                    assert(self.loading_seq()[mid.loading_seq().len() + j] == p);
                }
                if pre.spec_loading(p) && visible@.contains(p) {
                    assert(e0.spec_loading(p));
                }
                if e0.spec_loading(p) {
                    assert(pre.spec_loading(p) && visible@.contains(p));
                }
            }
            assert forall|k2: int|
                (0 <= k2 < completed@.len() && pre.spec_loading((#[trigger] completed@[k2]).0)
                    && spec_dist_sq(center, completed@[k2].0) <= radius * radius && (forall|
                    j: int,
                |
                    0 <= j < k2 ==> completed@[j].0 != completed@[k2].0)) implies {
                &&& self.spec_resident(completed@[k2].0)
                &&& self.spec_chunk(completed@[k2].0).data@ == completed@[k2].1@
                &&& self.spec_chunk(completed@[k2].0).dirty == true
                &&& self.spec_chunk(completed@[k2].0).meshing == false
            } by {
                let q = completed@[k2].0;
                assert(visible@.contains(q));
                assert(e0.spec_loading(q));
                assert(mid.spec_resident(q) && mid.spec_chunk(q).data@ == completed@[k2].1@
                    && mid.spec_chunk(q).dirty == true && mid.spec_chunk(q).meshing == false);
                lemma_same_keys_same_slots(&mid, self);
                let sm = mid.spec_slot(q);
                assert(self.resident_seq()[sm] == mid.resident_seq()[sm]);
            }
            assert forall|p: ChunkPos|
                (pre.spec_resident(p) && spec_dist_sq(center, p) <= radius * radius) implies {
                &&& self.spec_chunk(p).data@ == pre.spec_chunk(p).data@
                &&& self.spec_chunk(p).meshing == pre.spec_chunk(p).meshing
                &&& self.spec_chunk(p).dirty == (pre.spec_chunk(p).dirty || (exists|j: int|
                    0 <= j < completed@.len() && pre.spec_loading((#[trigger] completed@[j]).0)
                        && spec_dist_sq(center, completed@[j].0) <= radius * radius
                        && spec_adjacent(completed@[j].0).contains(p)))
            } by {
                assert(visible@.contains(p));
                assert(e0.spec_resident(p));
                assert(chunk_eq(e0.spec_chunk(p), pre.spec_chunk(p)));
                lemma_same_keys_same_slots(&mid, self);
                assert(chunk_eq(self.spec_chunk(p), mid.spec_chunk(p))) by {
                    let sm = mid.spec_slot(p);
                    assert(self.resident_seq()[sm] == mid.resident_seq()[sm]);
                }
                if exists|j: int|
                    0 <= j < completed@.len() && e0.spec_loading((#[trigger] completed@[j]).0)
                        && spec_adjacent(completed@[j].0).contains(p) {
                    let j = choose|j: int|
                        0 <= j < completed@.len() && e0.spec_loading((#[trigger] completed@[j]).0)
                            && spec_adjacent(completed@[j].0).contains(p);
                    assert(pre.spec_loading(completed@[j].0) && visible@.contains(
                        completed@[j].0,
                    ));
                }
                if exists|j: int|
                    0 <= j < completed@.len() && pre.spec_loading((#[trigger] completed@[j]).0)
                        && spec_dist_sq(center, completed@[j].0) <= radius * radius
                        && spec_adjacent(completed@[j].0).contains(p) {
                    let j = choose|j: int|
                        0 <= j < completed@.len() && pre.spec_loading((#[trigger] completed@[j]).0)
                            && spec_dist_sq(center, completed@[j].0) <= radius * radius
                            && spec_adjacent(completed@[j].0).contains(p);
                    assert(visible@.contains(completed@[j].0));
                    assert(e0.spec_loading(completed@[j].0));
                }
            }
        }
        UpdateActions { loads_to_start: started, evicted }
    }
}

/// One mesh-extraction job: the chunk to mesh and snapshots of its six
/// neighbors, handed to `generate_mesh` by the scheduler.
pub struct MeshJob {
    pub pos: ChunkPos,
    pub chunk: ChunkData,
    pub adjacent: AdjacentChunks,
}

/// Whether some job in the list is for `p`.
pub open spec fn spec_jobbed(jobs: Seq<MeshJob>, p: ChunkPos) -> bool {
    exists|k: int| 0 <= k < jobs.len() && jobs[k].pos == p
}

/// An adjacency snapshot taken of one level state still matches another
/// whose residency and chunk contents agree.
proof fn lemma_match_transfer(a: &Level, b: &Level, pos: ChunkPos, adj: AdjacentChunks)
    requires
        spec_adjacent_match(a, pos, adj),
        forall|q: ChunkPos| a.spec_resident(q) == b.spec_resident(q),
        forall|q: ChunkPos|
            a.spec_resident(q) ==> a.spec_chunk(q).data@ == b.spec_chunk(q).data@,
    ensures
        spec_adjacent_match(b, pos, adj),
{
}

impl Level {
    /// Schedules mesh extraction: finished mesh jobs clear their in-flight
    /// flag, then every dirty resident chunk (whose position has all six
    /// neighbor coordinates) is snapshotted with its neighbors into a job,
    /// cleared dirty, and marked in flight.
    pub fn build_meshes(&mut self, completed: &Vec<ChunkPos>) -> (jobs: Vec<MeshJob>)
        requires
            old(self).wf(),
        ensures
            final(self).wf(),
            final(self).loading_seq() == old(self).loading_seq(),
            forall|p: ChunkPos| final(self).spec_resident(p) == old(self).spec_resident(p),
            forall|p: ChunkPos|
                old(self).spec_resident(p) ==> final(self).spec_chunk(p).data@ == old(
                    self,
                ).spec_chunk(p).data@,
            forall|k: int|
                0 <= k < jobs@.len() ==> {
                    let j = #[trigger] jobs@[k];
                    &&& final(self).spec_resident(j.pos)
                    &&& j.pos.has_neighbors()
                    &&& j.chunk.wf()
                    &&& j.chunk@ == final(self).spec_chunk(j.pos).data@
                    &&& j.adjacent.wf()
                    &&& spec_adjacent_match(final(self), j.pos, j.adjacent)
                    &&& old(self).spec_chunk(j.pos).dirty
                },
            forall|p: ChunkPos|
                old(self).spec_resident(p) ==> spec_jobbed(jobs@, p) == {
                    let still_meshing = !completed@.contains(p) && old(self).spec_chunk(
                        p,
                    ).meshing;
                    old(self).spec_chunk(p).dirty && !still_meshing && p.has_neighbors()
                },
            forall|p: ChunkPos|
                old(self).spec_resident(p) ==> final(self).spec_chunk(p).dirty == {
                    let still_meshing = !completed@.contains(p) && old(self).spec_chunk(
                        p,
                    ).meshing;
                    old(self).spec_chunk(p).dirty && (still_meshing || !p.has_neighbors())
                },
            forall|p: ChunkPos|
                old(self).spec_resident(p) ==> final(self).spec_chunk(p).meshing == {
                    let still_meshing = !completed@.contains(p) && old(self).spec_chunk(
                        p,
                    ).meshing;
                    if old(self).spec_chunk(p).dirty && !still_meshing && p.has_neighbors() {
                        true
                    } else {
                        still_meshing
                    }
                },
    {
        let ghost pre = *old(self);
        let mut k: usize = 0;
        while k < completed.len()
            invariant
                pre.wf(),
                self.wf(),
                k <= completed@.len(),
                self.loading_seq() == pre.loading_seq(),
                self.resident_seq().len() == pre.resident_seq().len(),
                forall|j: int|
                    0 <= j < self.resident_seq().len() ==> (#[trigger] self.resident_seq()[j]).0
                        == pre.resident_seq()[j].0 && self.resident_seq()[j].1.data@
                        == pre.resident_seq()[j].1.data@ && self.resident_seq()[j].1.dirty
                        == pre.resident_seq()[j].1.dirty,
                forall|j: int|
                    0 <= j < self.resident_seq().len() ==> (#[trigger] self.resident_seq()[j]).1.meshing
                        == (if (exists|c: int|
                        0 <= c < k && completed@[c] == self.resident_seq()[j].0) {
                        false
                    } else {
                        pre.resident_seq()[j].1.meshing
                    }),
            decreases completed@.len() - k,
        {
            let c = completed[k];
            let ghost before = *self;
            match self.find_resident(c) {
                None => {
                    proof {
                        assert forall|j: int|
                            0 <= j < self.resident_seq().len() implies (
                        #[trigger] self.resident_seq()[j]).1.meshing == (if (exists|ci: int|
                            0 <= ci < k + 1 && completed@[ci] == self.resident_seq()[j].0) {
                            false
                        } else {
                            pre.resident_seq()[j].1.meshing
                        }) by {
                            if exists|ci: int|
                                0 <= ci < k + 1 && completed@[ci] == self.resident_seq()[j].0 {
                                let ci = choose|ci: int|
                                    0 <= ci < k + 1 && completed@[ci] == self.resident_seq()[j].0;
                                if ci == k {
                                    assert(self.resident_seq()[j].0 == c);
                                    assert(self.spec_resident(c));
                                }
                            }
                        }
                    }
                },
                Some(i) => {
                    let dirty = self.resident[i].1.dirty;
                    self.set_flags_at(i, dirty, false);
                    proof {
                        assert forall|j: int|
                            0 <= j < self.resident_seq().len() implies (
                        #[trigger] self.resident_seq()[j]).1.meshing == (if (exists|ci: int|
                            0 <= ci < k + 1 && completed@[ci] == self.resident_seq()[j].0) {
                            false
                        } else {
                            pre.resident_seq()[j].1.meshing
                        }) by {
                            if j == i {
                                assert(completed@[k as int] == self.resident_seq()[j].0);
                            } else {
                                assert(self.resident_seq()[j] == before.resident_seq()[j]);
                                if exists|ci: int|
                                    0 <= ci < k + 1 && completed@[ci] == self.resident_seq()[j].0 {
                                    let ci = choose|ci: int|
                                        0 <= ci < k + 1 && completed@[ci]
                                            == self.resident_seq()[j].0;
                                    if ci == k {
                                        assert(self.resident_seq()[j].0 == c);
                                        assert(before.spec_slot(c) == i);
                                        assert(before.resident_seq()[j].0 == c);
                                        assert(j != i && before.resident_seq()[i as int].0 == c);
                                    }
                                }
                            }
                        }
                    }
                },
            }
            k = k + 1;
        }
        let ghost mid = *self;
        let mut jobs: Vec<MeshJob> = Vec::new();
        let mut i: usize = 0;
        while i < self.resident.len()
            invariant
                mid.wf(),
                self.wf(),
                i <= self.resident_seq().len(),
                self.loading_seq() == mid.loading_seq(),
                self.resident_seq().len() == mid.resident_seq().len(),
                forall|j: int|
                    0 <= j < self.resident_seq().len() ==> (#[trigger] self.resident_seq()[j]).0
                        == mid.resident_seq()[j].0 && self.resident_seq()[j].1.data@
                        == mid.resident_seq()[j].1.data@,
                forall|j: int|
                    i <= j < self.resident_seq().len() ==> (#[trigger] self.resident_seq()[j]).1.dirty
                        == mid.resident_seq()[j].1.dirty && self.resident_seq()[j].1.meshing
                        == mid.resident_seq()[j].1.meshing,
                forall|j: int|
                    0 <= j < i ==> (#[trigger] self.resident_seq()[j]).1.dirty == (
                    mid.resident_seq()[j].1.dirty && (mid.resident_seq()[j].1.meshing
                        || !mid.resident_seq()[j].0.has_neighbors())),
                forall|j: int|
                    0 <= j < i ==> (#[trigger] self.resident_seq()[j]).1.meshing == (if (
                    mid.resident_seq()[j].1.dirty && !mid.resident_seq()[j].1.meshing
                        && mid.resident_seq()[j].0.has_neighbors()) {
                        true
                    } else {
                        mid.resident_seq()[j].1.meshing
                    }),
                forall|k2: int|
                    0 <= k2 < jobs@.len() ==> {
                        let j = #[trigger] jobs@[k2];
                        &&& (exists|s: int|
                            0 <= s < i && mid.resident_seq()[s].0 == j.pos
                                && mid.resident_seq()[s].1.dirty
                                && !mid.resident_seq()[s].1.meshing)
                        &&& j.pos.has_neighbors()
                        &&& j.chunk.wf()
                        &&& self.spec_resident(j.pos)
                        &&& j.chunk@ == self.spec_chunk(j.pos).data@
                        &&& j.adjacent.wf()
                        &&& spec_adjacent_match(self, j.pos, j.adjacent)
                    },
                forall|s: int|
                    0 <= s < i && (#[trigger] mid.resident_seq()[s]).1.dirty
                        && !mid.resident_seq()[s].1.meshing
                        && mid.resident_seq()[s].0.has_neighbors() ==> spec_jobbed(
                        jobs@,
                        mid.resident_seq()[s].0,
                    ),
            decreases self.resident_seq().len() - i,
        {
            let pos = self.resident[i].0;
            let dirty = self.resident[i].1.dirty;
            let inflight = self.resident[i].1.meshing;
            let ok = pos.x > i32::MIN && pos.x < i32::MAX && pos.y > i32::MIN && pos.y < i32::MAX
                && pos.z > i32::MIN && pos.z < i32::MAX;
            let ghost before = *self;
            let ghost jobs_before = jobs@;
            if dirty && !inflight && ok {
                let chunk_copy = self.resident[i].1.data.clone_data();
                let adj = self.adjacent(pos);
                let meshing = true;
                jobs.push(MeshJob { pos, chunk: chunk_copy, adjacent: adj });
                self.set_flags_at(i, false, meshing);
                proof {
                    assert forall|k2: int| 0 <= k2 < jobs@.len() implies {
                        let j = #[trigger] jobs@[k2];
                        &&& (exists|s: int|
                            0 <= s < i + 1 && mid.resident_seq()[s].0 == j.pos
                                && mid.resident_seq()[s].1.dirty)
                        &&& j.pos.has_neighbors()
                        &&& j.chunk.wf()
                        &&& self.spec_resident(j.pos)
                        &&& j.chunk@ == self.spec_chunk(j.pos).data@
                        &&& j.adjacent.wf()
                        &&& spec_adjacent_match(self, j.pos, j.adjacent)
                    } by {
                        let j = jobs@[k2];
                        assert forall|q: ChunkPos|
                            before.spec_resident(q) implies before.spec_chunk(q).data@
                            == self.spec_chunk(q).data@ by {
                            let s = before.spec_slot(q);
                            assert(self.resident_seq()[s].1.data@
                                == before.resident_seq()[s].1.data@);
                        }
                        if k2 < jobs@.len() - 1 {
                            assert(j == jobs_before[k2]);
                            lemma_match_transfer(&before, self, j.pos, j.adjacent);
                        } else {
                            assert(j.pos == pos && mid.resident_seq()[i as int].0 == pos
                                && mid.resident_seq()[i as int].1.dirty
                                && !mid.resident_seq()[i as int].1.meshing);
                            lemma_match_transfer(&before, self, j.pos, j.adjacent);
                            assert(self.spec_chunk(pos).data@ == before.spec_chunk(pos).data@);
                            assert(before.spec_slot(pos) == i);
                        }
                    }
                }
            }
            proof {
                assert forall|s: int|
                    0 <= s < i + 1 && (#[trigger] mid.resident_seq()[s]).1.dirty
                        && !mid.resident_seq()[s].1.meshing
                        && mid.resident_seq()[s].0.has_neighbors() implies spec_jobbed(
                    jobs@,
                    mid.resident_seq()[s].0,
                ) by {
                    if s == i {
                        assert(dirty && !inflight && ok);
                        assert(jobs@[jobs@.len() - 1].pos == pos);
                    } else {
                        assert(spec_jobbed(jobs_before, mid.resident_seq()[s].0));
                        let k2 = choose|k2: int|
                            0 <= k2 < jobs_before.len() && jobs_before[k2].pos
                                == mid.resident_seq()[s].0;
                        assert(jobs@[k2].pos == mid.resident_seq()[s].0);
                    }
                }
            }
            i = i + 1;
        }
        proof {
            assert forall|j: int|
                0 <= j < self.resident_seq().len() implies (#[trigger] self.resident_seq()[j]).0
                == pre.resident_seq()[j].0 by {
                assert(mid.resident_seq()[j].0 == pre.resident_seq()[j].0);
            }
            lemma_same_keys_same_slots(&pre, self);
            assert forall|p: ChunkPos| pre.spec_resident(p) implies {
                let s = pre.spec_slot(p);
                &&& self.spec_chunk(p) == self.resident_seq()[s].1
                &&& mid.resident_seq()[s].0 == p
                &&& mid.resident_seq()[s].1.dirty == pre.spec_chunk(p).dirty
                &&& mid.resident_seq()[s].1.meshing == (if completed@.contains(p) {
                    false
                } else {
                    pre.spec_chunk(p).meshing
                })
            } by {
                let s = pre.spec_slot(p);
                assert(pre.resident_seq()[s].0 == p);
                assert(self.spec_slot(p) == s);
                assert(mid.resident_seq()[s].1.dirty == pre.resident_seq()[s].1.dirty);
                if completed@.contains(p) {
                    let c = choose|c: int| 0 <= c < completed@.len() && completed@[c] == p;
                    assert(exists|ci: int|
                        0 <= ci < completed@.len() && completed@[ci] == mid.resident_seq()[s].0);
                } else {
                    if exists|ci: int|
                        0 <= ci < completed@.len() && completed@[ci] == mid.resident_seq()[s].0 {
                        let ci = choose|ci: int|
                            0 <= ci < completed@.len() && completed@[ci]
                                == mid.resident_seq()[s].0;
                        assert(completed@.contains(p));
                    }
                }
            }
            assert forall|p: ChunkPos|
                pre.spec_resident(p) implies spec_jobbed(jobs@, p) == {
                let still_meshing = !completed@.contains(p) && pre.spec_chunk(p).meshing;
                pre.spec_chunk(p).dirty && !still_meshing && p.has_neighbors()
            } by {
                let s = pre.spec_slot(p);
                assert(mid.resident_seq()[s].0 == p);
                let still_meshing = !completed@.contains(p) && pre.spec_chunk(p).meshing;
                assert(mid.resident_seq()[s].1.meshing == still_meshing);
                if pre.spec_chunk(p).dirty && !still_meshing && p.has_neighbors() {
                    assert(mid.resident_seq()[s].1.dirty);
                    assert(spec_jobbed(jobs@, mid.resident_seq()[s].0));
                }
                if spec_jobbed(jobs@, p) {
                    let k2 = choose|k2: int| 0 <= k2 < jobs@.len() && jobs@[k2].pos == p;
                    let s2 = choose|s2: int|
                        0 <= s2 < self.resident_seq().len() && mid.resident_seq()[s2].0 == p
                            && mid.resident_seq()[s2].1.dirty
                            && !mid.resident_seq()[s2].1.meshing;
                    assert(pre.resident_seq()[s2].0 == p);
                    if s2 < s {
                        assert(pre.resident_seq()[s2].0 != pre.resident_seq()[s].0);
                    } else if s < s2 {
                        assert(pre.resident_seq()[s].0 != pre.resident_seq()[s2].0);
                    }
                    assert(s2 == s);
                    assert(pre.spec_chunk(p).dirty && !still_meshing);
                    assert(jobs@[k2].pos.has_neighbors());
                }
            }
        }
        jobs
    }
}

/// The chunk that owns a block position.
pub open spec fn spec_owner(pos: BlockPos) -> ChunkPos {
    ChunkPos {
        x: (pos.x as int / (CHUNK_SIZE as int)) as i32,
        y: (pos.y as int / (CHUNK_SIZE as int)) as i32,
        z: (pos.z as int / (CHUNK_SIZE as int)) as i32,
    }
}

/// The flat cell of a block position within its owning chunk.
pub open spec fn spec_rel_index(pos: BlockPos) -> int {
    spec_flat_index(
        pos.x as int % (CHUNK_SIZE as int),
        pos.y as int % (CHUNK_SIZE as int),
        pos.z as int % (CHUNK_SIZE as int),
    )
}

/// An edit takes effect when the owning chunk is resident, and — for
/// placing a block — the cell is still empty; breaking always takes effect.
pub open spec fn spec_edit_applies(level: &Level, pos: BlockPos, block: Option<Block>) -> bool {
    &&& level.spec_resident(spec_owner(pos))
    &&& (block is None || level.spec_chunk(spec_owner(pos)).data@[spec_rel_index(pos)] is None)
}

impl Level {
    /// Replaces one cell of the resident entry in slot `i`, keeping its
    /// position and flags.
    fn set_block_at(&mut self, i: usize, idx: ChunkIndex, block: Option<Block>)
        requires
            old(self).wf(),
            i < old(self).resident_seq().len(),
            idx.wf(),
        ensures
            final(self).wf(),
            final(self).loading_seq() == old(self).loading_seq(),
            final(self).resident_seq().len() == old(self).resident_seq().len(),
            forall|j: int|
                0 <= j < old(self).resident_seq().len() && j != i
                    ==> final(self).resident_seq()[j] == old(self).resident_seq()[j],
            final(self).resident_seq()[i as int].0 == old(self).resident_seq()[i as int].0,
            final(self).resident_seq()[i as int].1.data@ == old(self).resident_seq()[
                i as int].1.data@.update(idx.as_int(), block),
            final(self).resident_seq()[i as int].1.dirty == old(self).resident_seq()[
                i as int].1.dirty,
            final(self).resident_seq()[i as int].1.meshing == old(self).resident_seq()[
                i as int].1.meshing,
            forall|q: ChunkPos| final(self).spec_resident(q) == old(self).spec_resident(q),
            forall|q: ChunkPos|
                old(self).spec_resident(q) ==> final(self).spec_slot(q) == old(self).spec_slot(q),
    {
        let mut tmp: (ChunkPos, ResidentChunk) = (
            ChunkPos { x: 0, y: 0, z: 0 },
            ResidentChunk { data: ChunkData::default(), dirty: false, meshing: false },
        );
        self.resident.set_and_swap(i, &mut tmp);
        let (pos, rc) = tmp;
        let ResidentChunk { data: mut data, dirty, meshing } = rc;
        data.block_mut(idx, block);
        let mut back: (ChunkPos, ResidentChunk) = (pos, ResidentChunk { data, dirty, meshing });
        self.resident.set_and_swap(i, &mut back);
        proof {
            assert(self.resident_seq() =~= old(self).resident_seq().update(
                i as int,
                self.resident_seq()[i as int],
            ));
            lemma_same_keys_same_slots(old(self), self);
        }
    }

    /// Edits one block of the world: breaking (`None`) always empties the
    /// cell; placing writes the block only into an empty cell. An applied
    /// edit marks the owning chunk and every resident neighbor of it dirty,
    /// and nothing else; an edit whose owner is not resident, or that would
    /// overwrite an occupied cell, changes nothing.
    pub fn edit_block(&mut self, pos: BlockPos, block: Option<Block>) -> (marked: Vec<ChunkPos>)
        requires
            old(self).wf(),
            pos.in_chunk_range(),
            spec_owner(pos).has_neighbors(),
        ensures
            final(self).wf(),
            final(self).loading_seq() == old(self).loading_seq(),
            forall|q: ChunkPos| final(self).spec_resident(q) == old(self).spec_resident(q),
            (marked@.len() > 0) == spec_edit_applies(old(self), pos, block),
            !spec_edit_applies(old(self), pos, block) ==> final(self).resident_seq() == old(
                self,
            ).resident_seq(),
            spec_edit_applies(old(self), pos, block) ==> {
                let owner = spec_owner(pos);
                &&& final(self).spec_chunk(owner).data@ == old(self).spec_chunk(
                    owner,
                ).data@.update(spec_rel_index(pos), block)
                &&& final(self).spec_chunk(owner).dirty == true
                &&& final(self).spec_chunk(owner).meshing == old(self).spec_chunk(owner).meshing
                &&& marked@[0] == owner
                &&& (forall|q: ChunkPos|
                    old(self).spec_resident(q) && q != owner ==> final(self).spec_chunk(q).data@
                        == old(self).spec_chunk(q).data@ && final(self).spec_chunk(q).meshing
                        == old(self).spec_chunk(q).meshing && final(self).spec_chunk(q).dirty == (
                    old(self).spec_chunk(q).dirty || spec_adjacent(owner).contains(q)))
                &&& (forall|q: ChunkPos|
                    marked@.contains(q) == (q == owner || (spec_adjacent(owner).contains(q) && old(
                        self,
                    ).spec_resident(q))))
            },
    {
        let cp = pos.chunk_pos();
        proof {
            assert(cp == spec_owner(pos));
        }
        let mut marked: Vec<ChunkPos> = Vec::new();
        let i = match self.find_resident(cp) {
            None => {
                proof {
                    if marked@.contains(cp) {
                        let j = choose|j: int| 0 <= j < marked@.len() && marked@[j] == cp;
                    }
                }
                return marked;
            },
            Some(i) => i,
        };
        let (rx, ry, rz) = pos.relative_pos();
        let idx = ChunkIndex::new(rx, ry, rz);
        proof {
            assert(idx.as_int() == spec_rel_index(pos));
        }
        let current = self.resident[i].1.data.block(idx);
        if block.is_some() && current.is_some() {
            return marked;
        }
        self.set_block_at(i, idx, block);
        let ghost s1 = *self;
        proof {
            assert(old(self).spec_slot(cp) == i);
            assert(s1.spec_resident(cp) && s1.spec_slot(cp) == i);
            assert(s1.spec_chunk(cp).data@ == old(self).spec_chunk(cp).data@.update(
                idx.as_int(),
                block,
            ));
            assert(s1.spec_chunk(cp).dirty == old(self).spec_chunk(cp).dirty);
            assert(s1.spec_chunk(cp).meshing == old(self).spec_chunk(cp).meshing);
        }
        self.mark_dirty(cp);
        marked.push(cp);
        let ghost mid = *self;
        proof {
            assert(mid.spec_resident(cp));
            assert(mid.spec_chunk(cp).data@ == old(self).spec_chunk(cp).data@.update(
                idx.as_int(),
                block,
            ));
            assert(mid.spec_chunk(cp).dirty == true);
            assert(mid.spec_chunk(cp).meshing == old(self).spec_chunk(cp).meshing);
            assert forall|q: ChunkPos| marked@.contains(q) implies q == cp by {
                let j = choose|j: int| 0 <= j < marked@.len() && marked@[j] == q;
            }
            assert(marked@.contains(cp)) by {
                assert(marked@[0] == cp);
            }
        }
        let ns = cp.adjacent();
        let mut k: usize = 0;
        while k < 6
            invariant
                self.wf(),
                mid.wf(),
                ns@ == spec_adjacent(cp),
                k <= 6,
                self.loading_seq() == mid.loading_seq(),
                forall|q: ChunkPos| self.spec_resident(q) == mid.spec_resident(q),
                mid.spec_resident(cp),
                mid.spec_chunk(cp).dirty == true,
                chunk_eq(self.spec_chunk(cp), mid.spec_chunk(cp)),
                forall|q: ChunkPos|
                    mid.spec_resident(q) && q != cp && (exists|j: int|
                        0 <= j < k && ns@[j] == q) ==> self.spec_chunk(q).dirty == true
                        && self.spec_chunk(q).data@ == mid.spec_chunk(q).data@
                        && self.spec_chunk(q).meshing == mid.spec_chunk(q).meshing,
                forall|q: ChunkPos|
                    mid.spec_resident(q) && q != cp && !(exists|j: int|
                        0 <= j < k && ns@[j] == q) ==> chunk_eq(
                        self.spec_chunk(q),
                        mid.spec_chunk(q),
                    ),
                marked@.len() >= 1 && marked@[0] == cp,
                forall|q: ChunkPos| #![trigger marked@.contains(q)]
                    marked@.contains(q) == (q == cp || ((exists|j: int|
                        0 <= j < k && ns@[j] == q) && mid.spec_resident(q))),
            decreases 6 - k,
        {
            let target = ns[k];
            let ghost before = *self;
            let ghost marked_before = marked@;
            let is_res = match self.find_resident(target) {
                None => false,
                Some(_) => true,
            };
            if is_res {
                self.mark_dirty(target);
                marked.push(target);
            }
            proof {
                if target == cp {
                    assert(before.spec_chunk(cp).dirty == true);
                    assert(chunk_eq(self.spec_chunk(cp), mid.spec_chunk(cp)));
                }
                assert forall|q: ChunkPos|
                    mid.spec_resident(q) && q != cp && (exists|j: int|
                        0 <= j < k + 1 && ns@[j] == q) implies self.spec_chunk(q).dirty == true
                    && self.spec_chunk(q).data@ == mid.spec_chunk(q).data@
                    && self.spec_chunk(q).meshing == mid.spec_chunk(q).meshing by {
                    if q == target {
                        assert(is_res);
                        assert(before.spec_chunk(q).data@ == mid.spec_chunk(q).data@
                            && before.spec_chunk(q).meshing == mid.spec_chunk(q).meshing);
                    } else {
                        if is_res {
                            assert(chunk_eq(self.spec_chunk(q), before.spec_chunk(q)));
                        }
                        assert(exists|j: int| 0 <= j < k && ns@[j] == q);
                    }
                }
                assert forall|q: ChunkPos|
                    mid.spec_resident(q) && q != cp && !(exists|j: int|
                        0 <= j < k + 1 && ns@[j] == q) implies chunk_eq(
                    self.spec_chunk(q),
                    mid.spec_chunk(q),
                ) by {
                    assert(q != target) by {
                        assert(ns@[k as int] == target);
                    }
                    if is_res {
                        assert(chunk_eq(self.spec_chunk(q), before.spec_chunk(q)));
                    }
                    assert(!(exists|j: int| 0 <= j < k && ns@[j] == q));
                }
                assert forall|q: ChunkPos| #![trigger marked@.contains(q)]
                    marked@.contains(q) == (q == cp || ((exists|j: int|
                        0 <= j < k + 1 && ns@[j] == q) && mid.spec_resident(q))) by {
                    if marked@.contains(q) {
                        let j = choose|j: int| 0 <= j < marked@.len() && marked@[j] == q;
                        if j < marked_before.len() {
                            assert(marked_before[j] == q);
                            assert(marked_before.contains(q));
                            if q != cp {
                                let j0 = choose|j0: int| 0 <= j0 < k && ns@[j0] == q;
                                assert(0 <= j0 < k + 1 && ns@[j0] == q);
                            }
                        } else {
                            assert(q == target && is_res);
                            assert(before.spec_resident(q));
                            assert(mid.spec_resident(q));
                            assert(ns@[k as int] == q);
                        }
                    }
                    if q == cp {
                        assert(marked@[0] == cp);
                        assert(marked@.contains(q));
                    } else if (exists|j: int| 0 <= j < k + 1 && ns@[j] == q)
                        && mid.spec_resident(q) {
                        let j = choose|j: int| 0 <= j < k + 1 && ns@[j] == q;
                        if j < k {
                            assert(marked_before.contains(q));
                            let m = choose|m: int|
                                0 <= m < marked_before.len() && marked_before[m] == q;
                            assert(marked@[m] == q);
                            assert(marked@.contains(q));
                        } else {
                            assert(q == target);
                            assert(before.spec_resident(q));
                            assert(is_res);
                            assert(marked@[marked@.len() - 1] == target);
                            assert(marked@.contains(q));
                        }
                    }
                }
            }
            k = k + 1;
        }
        proof {
            assert(spec_edit_applies(old(self), pos, block)) by {
                assert(old(self).spec_slot(cp) == i);
            }
            assert forall|q: ChunkPos|
                old(self).spec_resident(q) && q != cp implies self.spec_chunk(q).data@ == old(
                self,
            ).spec_chunk(q).data@ && self.spec_chunk(q).meshing == old(self).spec_chunk(q).meshing
                && self.spec_chunk(q).dirty == (old(self).spec_chunk(q).dirty || spec_adjacent(
                cp,
            ).contains(q)) by {
                assert(mid.spec_resident(q));
                assert(mid.spec_chunk(q).data@ == old(self).spec_chunk(q).data@
                    && mid.spec_chunk(q).meshing == old(self).spec_chunk(q).meshing
                    && mid.spec_chunk(q).dirty == old(self).spec_chunk(q).dirty) by {
                    let s = old(self).spec_slot(q);
                    assert(s != i);
                    assert(s1.spec_slot(q) == s);
                    assert(s1.resident_seq()[s] == old(self).resident_seq()[s]);
                    assert(chunk_eq(s1.spec_chunk(q), old(self).spec_chunk(q)));
                    assert(s1.spec_resident(q));
                    assert(chunk_eq(mid.spec_chunk(q), s1.spec_chunk(q)));
                }
                if spec_adjacent(cp).contains(q) {
                    let j = choose|j: int|
                        0 <= j < spec_adjacent(cp).len() && spec_adjacent(cp)[j] == q;
                    assert(ns@[j] == q);
                } else {
                    if exists|j: int| 0 <= j < 6 && ns@[j] == q {
                        let j = choose|j: int| 0 <= j < 6 && ns@[j] == q;
                        assert(spec_adjacent(cp)[j] == q);
                        assert(spec_adjacent(cp).contains(q));
                    }
                }
            }
            assert forall|q: ChunkPos|
                marked@.contains(q) == (q == cp || (spec_adjacent(cp).contains(q) && old(
                    self,
                ).spec_resident(q))) by {
                if spec_adjacent(cp).contains(q) {
                    let j = choose|j: int|
                        0 <= j < spec_adjacent(cp).len() && spec_adjacent(cp)[j] == q;
                    assert(ns@[j] == q);
                }
                if exists|j: int| 0 <= j < 6 && ns@[j] == q {
                    let j = choose|j: int| 0 <= j < 6 && ns@[j] == q;
                    assert(spec_adjacent(cp)[j] == q);
                    assert(spec_adjacent(cp).contains(q));
                }
            }
        }
        marked
    }
}

/// The per-axis parameter of the grid walk: how much the ray's progress
/// grows when it crosses one block boundary on that axis, and a sentinel
/// far beyond any real crossing for an axis the ray never crosses.
pub open spec fn spec_ray_delta(d: i64) -> i64 {
    if d == 0 {
        0x4000_0000_0000
    } else if d > 0 {
        (1_000_000int / (d as int)) as i64
    } else {
        (1_000_000int / (-(d as int))) as i64
    }
}

/// The step direction of the grid walk on one axis.
pub open spec fn spec_ray_step(d: i64) -> i64 {
    if d >= 0 {
        1i64
    } else {
        -1i64
    }
}

/// The grid walk itself: starting from `pos` with the per-axis crossing
/// costs `dx, dy, dz` and next-crossing progress `tx, ty, tz`, it reports
/// the first occupied position, or the position after `steps` crossings.
pub open spec fn spec_raycast(
    level: &Level,
    pos: BlockPos,
    sx: i64,
    sy: i64,
    sz: i64,
    dx: i64,
    dy: i64,
    dz: i64,
    tx: int,
    ty: int,
    tz: int,
    steps: int,
) -> Result<BlockPos, BlockPos>
    decreases steps,
{
    if steps <= 0 {
        Err(pos)
    } else if level.spec_block_at(pos) is Some {
        Ok(pos)
    } else if tx < ty && tx < tz {
        spec_raycast(
            level,
            BlockPos { x: (pos.x + sx) as i64, ..pos },
            sx,
            sy,
            sz,
            dx,
            dy,
            dz,
            tx + dx,
            ty,
            tz,
            steps - 1,
        )
    } else if ty < tz {
        spec_raycast(
            level,
            BlockPos { y: (pos.y + sy) as i64, ..pos },
            sx,
            sy,
            sz,
            dx,
            dy,
            dz,
            tx,
            ty + dy,
            tz,
            steps - 1,
        )
    } else {
        spec_raycast(
            level,
            BlockPos { z: (pos.z + sz) as i64, ..pos },
            sx,
            sy,
            sz,
            dx,
            dy,
            dz,
            tx,
            ty,
            tz + dz,
            steps - 1,
        )
    }
}

impl Level {
    /// Walks the voxel grid from `start` along a fixed-point direction,
    /// crossing one block boundary per step, for at most `max_distance`
    /// steps: exactly the walk `spec_raycast` describes. Returns the first
    /// occupied block position found, or the position reached when none
    /// was hit.
    pub fn raycast_blocks(&self, start: BlockPos, direction: crate::physics::FixedVec, max_distance: u32) -> (r: Result<
        BlockPos,
        BlockPos,
    >)
        requires
            self.wf(),
            max_distance <= 100_000,
            -0xF_0000_0000 <= start.x <= 0xF_0000_0000,
            -0xF_0000_0000 <= start.y <= 0xF_0000_0000,
            -0xF_0000_0000 <= start.z <= 0xF_0000_0000,
            -1_000_000 <= direction.x <= 1_000_000,
            -1_000_000 <= direction.y <= 1_000_000,
            -1_000_000 <= direction.z <= 1_000_000,
        ensures
            r == spec_raycast(
                self,
                start,
                spec_ray_step(direction.x),
                spec_ray_step(direction.y),
                spec_ray_step(direction.z),
                spec_ray_delta(direction.x),
                spec_ray_delta(direction.y),
                spec_ray_delta(direction.z),
                spec_ray_delta(direction.x) as int,
                spec_ray_delta(direction.y) as int,
                spec_ray_delta(direction.z) as int,
                max_distance as int,
            ),
            r is Ok ==> self.spec_block_at(r->Ok_0) is Some,
    {
        let step_x: i64 = if direction.x >= 0 {
            1
        } else {
            -1
        };
        let step_y: i64 = if direction.y >= 0 {
            1
        } else {
            -1
        };
        let step_z: i64 = if direction.z >= 0 {
            1
        } else {
            -1
        };
        let far: i64 = 0x4000_0000_0000;
        let delta_x: i64 = if direction.x == 0 {
            far
        } else {
            let mag = if direction.x > 0 {
                direction.x
            } else {
                -direction.x
            };
            (1_000_000i64).checked_div_euclid(mag).unwrap()
        };
        let delta_y: i64 = if direction.y == 0 {
            far
        } else {
            let mag = if direction.y > 0 {
                direction.y
            } else {
                -direction.y
            };
            (1_000_000i64).checked_div_euclid(mag).unwrap()
        };
        let delta_z: i64 = if direction.z == 0 {
            far
        } else {
            let mag = if direction.z > 0 {
                direction.z
            } else {
                -direction.z
            };
            (1_000_000i64).checked_div_euclid(mag).unwrap()
        };
        proof {
            crate::physics::lemma_div_pos_bound(1_000_000, direction.x as int);
            crate::physics::lemma_div_pos_bound(1_000_000, direction.y as int);
            crate::physics::lemma_div_pos_bound(1_000_000, direction.z as int);
            assert(delta_x == spec_ray_delta(direction.x));
            assert(delta_y == spec_ray_delta(direction.y));
            assert(delta_z == spec_ray_delta(direction.z));
            assert(step_x == spec_ray_step(direction.x));
            assert(step_y == spec_ray_step(direction.y));
            assert(step_z == spec_ray_step(direction.z));
        }
        let mut t_next_x = delta_x;
        let mut t_next_y = delta_y;
        let mut t_next_z = delta_z;
        let mut pos = start;
        let mut i: u32 = 0;
        while i < max_distance
            invariant
                self.wf(),
                i <= max_distance <= 100_000,
                0 <= delta_x <= 0x4000_0000_0000,
                0 <= delta_y <= 0x4000_0000_0000,
                0 <= delta_z <= 0x4000_0000_0000,
                0 <= t_next_x <= (i + 1) * 0x4000_0000_0000,
                0 <= t_next_y <= (i + 1) * 0x4000_0000_0000,
                0 <= t_next_z <= (i + 1) * 0x4000_0000_0000,
                step_x == spec_ray_step(direction.x),
                step_y == spec_ray_step(direction.y),
                step_z == spec_ray_step(direction.z),
                delta_x == spec_ray_delta(direction.x),
                delta_y == spec_ray_delta(direction.y),
                delta_z == spec_ray_delta(direction.z),
                step_x == 1 || step_x == -1,
                step_y == 1 || step_y == -1,
                step_z == 1 || step_z == -1,
                start.x - i <= pos.x <= start.x + i,
                start.y - i <= pos.y <= start.y + i,
                start.z - i <= pos.z <= start.z + i,
                -0xF_0000_0000 <= start.x <= 0xF_0000_0000,
                -0xF_0000_0000 <= start.y <= 0xF_0000_0000,
                -0xF_0000_0000 <= start.z <= 0xF_0000_0000,
                spec_raycast(
                    self,
                    start,
                    step_x,
                    step_y,
                    step_z,
                    delta_x,
                    delta_y,
                    delta_z,
                    delta_x as int,
                    delta_y as int,
                    delta_z as int,
                    max_distance as int,
                ) == spec_raycast(
                    self,
                    pos,
                    step_x,
                    step_y,
                    step_z,
                    delta_x,
                    delta_y,
                    delta_z,
                    t_next_x as int,
                    t_next_y as int,
                    t_next_z as int,
                    max_distance as int - i,
                ),
            decreases max_distance - i,
        {
            match self.block_at(pos) {
                Some(_) => {
                    proof {
                        assert(spec_raycast(
                            self,
                            pos,
                            step_x,
                            step_y,
                            step_z,
                            delta_x,
                            delta_y,
                            delta_z,
                            t_next_x as int,
                            t_next_y as int,
                            t_next_z as int,
                            max_distance as int - i,
                        ) == Ok::<BlockPos, BlockPos>(pos));
                    }
                    return Ok(pos);
                },
                None => {
                },
            }
            if t_next_x < t_next_y && t_next_x < t_next_z {
                pos = BlockPos::new(pos.x + step_x, pos.y, pos.z);
                t_next_x = t_next_x + delta_x;
            } else if t_next_y < t_next_z {
                pos = BlockPos::new(pos.x, pos.y + step_y, pos.z);
                t_next_y = t_next_y + delta_y;
            } else {
                pos = BlockPos::new(pos.x, pos.y, pos.z + step_z);
                t_next_z = t_next_z + delta_z;
            }
            i = i + 1;
        }
        proof {
            assert(spec_raycast(
                self,
                pos,
                step_x,
                step_y,
                step_z,
                delta_x,
                delta_y,
                delta_z,
                t_next_x as int,
                t_next_y as int,
                t_next_z as int,
                max_distance as int - i,
            ) == Err::<BlockPos, BlockPos>(pos));
        }
        Err(pos)
    }
}

/// The lifecycle state of one chunk position, as the streaming boundary
/// reports it: untracked, loading, or resident with its dirty and
/// in-flight-mesh flags.
#[derive(Debug, Clone, Copy, PartialEq, Eq, Structural)]
pub enum ChunkLifecycle {
    Unloaded,
    Loading,
    Resident(bool, bool),
}

impl Level {
    /// The current lifecycle state of the chunk at `pos`: `Unloaded`,
    /// `Loading`, or `Resident(dirty, meshing)`.
    pub fn chunk_state(&self, pos: ChunkPos) -> (s: ChunkLifecycle)
        requires
            self.wf(),
        ensures
            (s is Unloaded) == !self.spec_tracked(pos),
            (s is Loading) == self.spec_loading(pos),
            (s is Resident) == self.spec_resident(pos),
            s is Resident ==> s->Resident_0 == self.spec_chunk(pos).dirty && s->Resident_1
                == self.spec_chunk(pos).meshing,
    {
        match self.find_resident(pos) {
            Some(i) => ChunkLifecycle::Resident(
                self.resident[i].1.dirty,
                self.resident[i].1.meshing,
            ),
            None => match self.find_loading(pos) {
                Some(_) => ChunkLifecycle::Loading,
                None => ChunkLifecycle::Unloaded,
            },
        }
    }
}

/// The snapshot is a copy of the resident chunk at `pos`, or `None` when
/// none is resident.
pub open spec fn spec_snapshot_match(level: &Level, pos: ChunkPos, snap: Option<ChunkData>) -> bool {
    if level.spec_resident(pos) {
        snap is Some && snap->Some_0.wf() && snap->Some_0@ == level.spec_chunk(pos).data@
    } else {
        snap is None
    }
}

/// The six neighbor snapshots hold copies of exactly the resident neighbors.
pub open spec fn spec_adjacent_match(level: &Level, pos: ChunkPos, adj: AdjacentChunks) -> bool {
    &&& spec_snapshot_match(level, spec_adjacent(pos)[0], adj.left)
    &&& spec_snapshot_match(level, spec_adjacent(pos)[1], adj.right)
    &&& spec_snapshot_match(level, spec_adjacent(pos)[2], adj.top)
    &&& spec_snapshot_match(level, spec_adjacent(pos)[3], adj.bottom)
    &&& spec_snapshot_match(level, spec_adjacent(pos)[4], adj.front)
    &&& spec_snapshot_match(level, spec_adjacent(pos)[5], adj.back)
}

} // verus!
