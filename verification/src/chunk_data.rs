//! Per-chunk block storage and its run-length byte codec.
//!
//! A chunk always owns exactly `CHUNK_VOLUME` optional blocks in a flat
//! row-major array. The codec writes the array as a stream of
//! `(count: u16 big-endian, value: u8)` records, where value `0` is an empty
//! cell and `code + 1` a filled one; decoding rejects truncated streams,
//! unknown value bytes, and streams whose total cell count is not exactly the
//! chunk volume.

use vstd::prelude::*;

use crate::block::{spec_code, spec_from_code, Block};
use crate::chunk::CHUNK_VOLUME;
use crate::chunk_index::ChunkIndex;

verus! {

/// The blocks of one chunk, in a flat row-major array (`x` fastest, then
/// `y`, then `z`).
pub struct ChunkData {
    blocks: Vec<Option<Block>>,
}

impl View for ChunkData {
    type V = Seq<Option<Block>>;

    closed spec fn view(&self) -> Seq<Option<Block>> {
        self.blocks@
    }
}

impl ChunkData {
    /// A chunk's storage is never partially constructed: it always holds
    /// exactly the chunk volume.
    pub open spec fn wf(&self) -> bool {
        self@.len() == CHUNK_VOLUME
    }

    /// The block stored at one cell.
    pub fn block(&self, index: ChunkIndex) -> (b: Option<Block>)
        requires
            self.wf(),
            index.wf(),
        ensures
            b == self@[index.as_int()],
    {
        self.blocks[index.as_usize()]
    }

    /// Stores a block (or empties the cell) at one cell.
    pub fn block_mut(&mut self, index: ChunkIndex, block: Option<Block>)
        requires
            old(self).wf(),
            index.wf(),
        ensures
            final(self).wf(),
            final(self)@ == old(self)@.update(index.as_int(), block),
    {
        self.blocks.set(index.as_usize(), block);
    }

    /// A deep copy with the same contents.
    pub fn clone_data(&self) -> (copy: ChunkData)
        requires
            self.wf(),
        ensures
            copy.wf(),
            copy@ == self@,
    {
        let mut blocks: Vec<Option<Block>> = Vec::new();
        let mut i: usize = 0;
        while i < self.blocks.len()
            invariant
                i <= self.blocks.len(),
                blocks@ =~= self.blocks@.take(i as int),
            decreases self.blocks.len() - i,
        {
            blocks.push(self.blocks[i]);
            i = i + 1;
        }
        proof {
            assert(blocks@ =~= self.blocks@);
        }
        ChunkData { blocks }
    }
}

impl Default for ChunkData {
    /// A chunk with every cell empty.
    fn default() -> (chunk: ChunkData)
        ensures
            chunk.wf(),
            forall|i: int| 0 <= i < chunk@.len() ==> chunk@[i] is None,
    {
        let mut blocks: Vec<Option<Block>> = Vec::new();
        let mut i: usize = 0;
        while i < CHUNK_VOLUME
            invariant
                i <= CHUNK_VOLUME,
                blocks@.len() == i,
                forall|k: int| 0 <= k < blocks@.len() ==> blocks@[k] is None,
            decreases CHUNK_VOLUME - i,
        {
            blocks.push(None);
            i = i + 1;
        }
        ChunkData { blocks }
    }
}

/// The length of the first maximal run of equal bytes.
pub open spec fn spec_run_len(s: Seq<u8>) -> int
    decreases s.len(),
{
    if s.len() == 0 {
        0
    } else if s.len() >= 2 && s[1] == s[0] {
        1 + spec_run_len(s.drop_first())
    } else {
        1
    }
}

/// The first maximal run: at least one byte, all equal to the first, and
/// stopped exactly where the value changes.
proof fn lemma_run_len_char(s: Seq<u8>)
    requires
        s.len() >= 1,
    ensures
        1 <= spec_run_len(s) <= s.len(),
        forall|j: int| 0 <= j < spec_run_len(s) ==> #[trigger] s[j] == s[0],
        spec_run_len(s) < s.len() ==> s[spec_run_len(s)] != s[0],
    decreases s.len(),
{
    if s.len() >= 2 && s[1] == s[0] {
        lemma_run_len_char(s.drop_first());
        let t = s.drop_first();
        let n = spec_run_len(s);
        assert forall|j: int| 0 <= j < n implies #[trigger] s[j] == s[0] by {
            if j >= 1 {
                assert(t[j - 1] == s[j]);
                assert(t[j - 1] == t[0]);
            }
        }
        if n < s.len() {
            assert(t[n - 1] == s[n]);
            assert(t[n - 1] != t[0]);
        }
    }
}

/// Any boundary with the run properties is the run length.
proof fn lemma_run_len_is(s: Seq<u8>, n: int)
    requires
        s.len() >= 1,
        1 <= n <= s.len(),
        forall|j: int| 0 <= j < n ==> #[trigger] s[j] == s[0],
        n < s.len() ==> s[n] != s[0],
    ensures
        spec_run_len(s) == n,
{
    lemma_run_len_char(s);
    let r = spec_run_len(s);
    if r < n {
        assert(s[r] == s[0]);
        assert(s[r] != s[0]);
    } else if n < r {
        assert(s[n] == s[0]);
    }
}

/// The canonical run-length encoding of a byte sequence: one
/// `(count: u16 big-endian, value)` record per maximal run.
pub open spec fn spec_encode_runs(s: Seq<u8>) -> Seq<u8>
    decreases s.len(),
    via spec_encode_runs_decreases
{
    if s.len() == 0 {
        Seq::empty()
    } else {
        let n = spec_run_len(s);
        seq![((n / 256) as u8), ((n % 256) as u8), s[0]] + spec_encode_runs(s.skip(n))
    }
}

#[via_fn]
proof fn spec_encode_runs_decreases(s: Seq<u8>) {
    if s.len() > 0 {
        lemma_run_len_char(s);
    }
}

/// The canonical serialized form of a chunk: its row-major cell bytes,
/// run-length encoded with maximal runs.
pub open spec fn spec_serialize(chunk: Seq<Option<Block>>) -> Seq<u8> {
    spec_encode_runs(spec_bytes_of(chunk))
}

/// Decoding inverts the canonical encoding of any stream short enough
/// that every run count fits a `u16`.
proof fn lemma_decode_encode(s: Seq<u8>)
    requires
        s.len() <= 0xFFFF,
    ensures
        spec_decode_runs(spec_encode_runs(s)) == Some(s),
    decreases s.len(),
{
    if s.len() == 0 {
        assert(spec_encode_runs(s) =~= Seq::<u8>::empty());
        assert(spec_decode_runs(Seq::<u8>::empty()) == Some(Seq::<u8>::empty()));
        assert(Seq::<u8>::empty() =~= s);
    } else {
        lemma_run_len_char(s);
        let n = spec_run_len(s);
        lemma_decode_encode(s.skip(n));
        let enc = spec_encode_runs(s);
        let hi = ((n / 256) as u8);
        let lo = ((n % 256) as u8);
        assert(enc == seq![hi, lo, s[0]] + spec_encode_runs(s.skip(n)));
        assert(enc.len() >= 3);
        assert(enc[0] == hi && enc[1] == lo && enc[2] == s[0]);
        assert(enc.skip(3) =~= spec_encode_runs(s.skip(n)));
        assert((hi as int) * 256 + (lo as int) == n) by {
            vstd::arithmetic::div_mod::lemma_fundamental_div_mod(n, 256);
            assert(0 <= n / 256 <= 255);
            assert(0 <= n % 256 < 256);
        }
        assert(spec_decode_runs(enc) == Some(Seq::new(n as nat, |k: int| enc[2]) + s.skip(n)));
        assert(Seq::new(n as nat, |k: int| enc[2]) + s.skip(n) =~= s);
    }
}

/// Round trip at the specification level: decoding a serialized chunk
/// yields exactly the chunk back.
pub proof fn lemma_serialize_round_trip(chunk: Seq<Option<Block>>)
    requires
        chunk.len() == CHUNK_VOLUME,
    ensures
        spec_deserialize(spec_serialize(chunk)) == Some(chunk),
{
    let bytes = spec_bytes_of(chunk);
    lemma_decode_encode(bytes);
    lemma_cell_byte_round_trip();
    assert(forall|k: int|
        0 <= k < bytes.len() ==> spec_cell_of_byte(#[trigger] bytes[k]) is Some);
    assert(bytes.map_values(|v: u8| spec_cell_of_byte(v)->Some_0) =~= chunk);
}

/// An all-empty chunk serializes to the single record
/// `(count = 32768 big-endian, value = 0)`.
pub proof fn lemma_empty_chunk_encoding(chunk: Seq<Option<Block>>)
    requires
        chunk.len() == CHUNK_VOLUME,
        forall|i: int| 0 <= i < chunk.len() ==> chunk[i] is None,
    ensures
        spec_serialize(chunk) == seq![0x80u8, 0x00u8, 0x00u8],
{
    let bytes = spec_bytes_of(chunk);
    assert forall|j: int| 0 <= j < bytes.len() implies #[trigger] bytes[j] == bytes[0] by {
        assert(bytes[j] == spec_cell_byte(chunk[j]));
        assert(bytes[0] == spec_cell_byte(chunk[0]));
    }
    lemma_run_len_is(bytes, CHUNK_VOLUME as int);
    assert(bytes.skip(CHUNK_VOLUME as int) =~= Seq::<u8>::empty());
    assert(spec_encode_runs(bytes) == seq![
        (((CHUNK_VOLUME as int) / 256) as u8),
        (((CHUNK_VOLUME as int) % 256) as u8),
        bytes[0],
    ] + spec_encode_runs(Seq::<u8>::empty()));
    assert(bytes[0] == 0);
    assert(seq![
        (((CHUNK_VOLUME as int) / 256) as u8),
        (((CHUNK_VOLUME as int) % 256) as u8),
        bytes[0],
    ] + spec_encode_runs(Seq::<u8>::empty()) =~= seq![0x80u8, 0x00u8, 0x00u8]);
}

impl ChunkData {
    /// Encodes this chunk as a run-length byte stream: one `(count, value)`
    /// record per maximal run of equal cells. Decoding the result yields
    /// exactly this chunk back, so serializing and deserializing round-trips.
    pub fn serialize(&self) -> (data: Vec<u8>)
        requires
            self.wf(),
        ensures
            data@ == spec_serialize(self@),
            spec_deserialize(data@) == Some(self@),
    {
        let ghost bytes = spec_bytes_of(self@);
        let mut data: Vec<u8> = Vec::new();
        let mut last: u8 = match self.blocks[0] {
            None => 0,
            Some(blk) => blk.to_u8() + 1,
        };
        let mut count: u16 = 1;
        let ghost mut flushed: int = 0;
        let mut i: usize = 1;
        proof {
            assert(bytes[0] == last);
            assert(Seq::<u8>::empty() =~= bytes.take(0));
            assert(spec_decode_runs(Seq::<u8>::empty()) == Some(Seq::<u8>::empty()));
            assert(bytes.skip(0) =~= bytes);
            assert(Seq::<u8>::empty() + spec_encode_runs(bytes) =~= spec_encode_runs(bytes));
        }
        while i < CHUNK_VOLUME
            invariant
                self.wf(),
                bytes == spec_bytes_of(self@),
                bytes.len() == CHUNK_VOLUME,
                1 <= i <= CHUNK_VOLUME,
                0 <= flushed,
                flushed + count == i,
                1 <= count,
                data@.len() % 3 == 0,
                spec_decode_runs(data@) == Some(bytes.take(flushed)),
                spec_encode_runs(bytes) == data@ + spec_encode_runs(bytes.skip(flushed)),
                forall|j: int| flushed <= j < i ==> bytes[j] == last,
            decreases CHUNK_VOLUME - i,
        {
            let b: u8 = match self.blocks[i] {
                None => 0,
                Some(blk) => blk.to_u8() + 1,
            };
            proof {
                assert(bytes[i as int] == b);
            }
            if b == last {
                count = count + 1;
            } else {
                let hi = (count / 256) as u8;
                let lo = (count % 256) as u8;
                proof {
                    assert(count / 256 <= 128 && count % 256 < 256);
                    assert((hi as int) * 256 + (lo as int) == count as int);
                }
                let ghost old_data = data@;
                data.push(hi);
                data.push(lo);
                data.push(last);
                proof {
                    assert(data@ =~= old_data + seq![hi, lo, last]);
                    lemma_decode_single_record(hi, lo, last);
                    lemma_decode_append(old_data, seq![hi, lo, last]);
                    assert(spec_decode_runs(data@) == Some(
                        bytes.take(flushed) + Seq::new(count as nat, |k: int| last),
                    ));
                    assert(bytes.take(flushed) + Seq::new(count as nat, |k: int| last)
                        =~= bytes.take(i as int));
                    let suffix = bytes.skip(flushed);
                    assert(suffix.len() == CHUNK_VOLUME - flushed);
                    assert forall|j: int| 0 <= j < count implies #[trigger] suffix[j]
                        == suffix[0] by {
                        assert(suffix[j] == bytes[flushed + j]);
                        assert(suffix[0] == bytes[flushed]);
                    }
                    assert(suffix[0] == last);
                    assert(suffix[count as int] == bytes[i as int]);
                    lemma_run_len_is(suffix, count as int);
                    assert(suffix.skip(count as int) =~= bytes.skip(i as int));
                    assert(spec_encode_runs(suffix) == seq![hi, lo, last] + spec_encode_runs(
                        bytes.skip(i as int),
                    )) by {
                        assert(((count as int) / 256) as u8 == hi);
                        assert(((count as int) % 256) as u8 == lo);
                        assert(seq![
                            (((count as int) / 256) as u8),
                            (((count as int) % 256) as u8),
                            suffix[0],
                        ] =~= seq![hi, lo, last]);
                    }
                    assert(old_data + (seq![hi, lo, last] + spec_encode_runs(
                        bytes.skip(i as int),
                    )) =~= (old_data + seq![hi, lo, last]) + spec_encode_runs(
                        bytes.skip(i as int),
                    ));
                    assert(spec_encode_runs(bytes) == data@ + spec_encode_runs(
                        bytes.skip(i as int),
                    ));
                    flushed = i as int;
                }
                last = b;
                count = 1;
            }
            i = i + 1;
        }
        let hi = (count / 256) as u8;
        let lo = (count % 256) as u8;
        proof {
            assert(count / 256 <= 128 && count % 256 < 256);
            assert((hi as int) * 256 + (lo as int) == count as int);
        }
        let ghost old_data = data@;
        data.push(hi);
        data.push(lo);
        data.push(last);
        proof {
            assert(data@ =~= old_data + seq![hi, lo, last]);
            lemma_decode_single_record(hi, lo, last);
            lemma_decode_append(old_data, seq![hi, lo, last]);
            assert(spec_decode_runs(data@) == Some(
                bytes.take(flushed) + Seq::new(count as nat, |k: int| last),
            ));
            assert(bytes.take(flushed) + Seq::new(count as nat, |k: int| last) =~= bytes);
            lemma_cell_byte_round_trip();
            assert(forall|k: int|
                0 <= k < bytes.len() ==> spec_cell_of_byte(#[trigger] bytes[k]) is Some);
            assert(bytes.map_values(|v: u8| spec_cell_of_byte(v)->Some_0) =~= self@);
            let suffix = bytes.skip(flushed);
            assert(suffix.len() == count);
            assert forall|j: int| 0 <= j < count implies #[trigger] suffix[j] == suffix[0] by {
                assert(suffix[j] == bytes[flushed + j]);
                assert(suffix[0] == bytes[flushed]);
            }
            assert(suffix[0] == last);
            lemma_run_len_is(suffix, count as int);
            assert(suffix.skip(count as int) =~= Seq::<u8>::empty());
            assert(spec_encode_runs(suffix) == seq![hi, lo, last]) by {
                assert(((count as int) / 256) as u8 == hi);
                assert(((count as int) % 256) as u8 == lo);
                assert(seq![
                    (((count as int) / 256) as u8),
                    (((count as int) % 256) as u8),
                    suffix[0],
                ] + spec_encode_runs(Seq::<u8>::empty()) =~= seq![hi, lo, last]);
            }
            assert(spec_encode_runs(bytes) == old_data + seq![hi, lo, last]);
            assert(data@ == spec_serialize(self@));
        }
        data
    }
}

impl ChunkData {
    /// Decodes a run-length byte stream back into a chunk. Returns `None`
    /// exactly when the stream is malformed: truncated mid-record, holding a
    /// value byte with no known block code, or expanding to anything but one
    /// whole chunk volume of cells.
    pub fn deserialize(data: &[u8]) -> (chunk: Option<ChunkData>)
        ensures
            match chunk {
                Some(c) => c.wf() && spec_deserialize(data@) == Some(c@),
                None => spec_deserialize(data@) is None,
            },
    {
        let mut blocks: Vec<Option<Block>> = Vec::new();
        let len = data.len();
        let mut pos: usize = 0;
        proof {
            assert(data@.skip(0) =~= data@);
            assert(spec_bytes_of(Seq::<Option<Block>>::empty()) =~= Seq::<u8>::empty());
            assert(spec_decode_runs(Seq::<u8>::empty()) == Some(Seq::<u8>::empty()));
        }
        while len - pos >= 3
            invariant
                len == data@.len(),
                pos <= len,
                blocks@.len() <= CHUNK_VOLUME,
                spec_decode_runs(data@) == match spec_decode_runs(data@.skip(pos as int)) {
                    Some(rest) => Some(spec_bytes_of(blocks@) + rest),
                    None => None::<Seq<u8>>,
                },
            decreases len - pos,
        {
            let count: usize = (data[pos] as usize) * 256 + (data[pos + 1] as usize);
            let value: u8 = data[pos + 2];
            let ghost tail = data@.skip(pos as int);
            proof {
                assert(tail.len() == len - pos >= 3);
                assert(tail[0] == data@[pos as int] && tail[1] == data@[pos as int + 1] && tail[2]
                    == data@[pos as int + 2]);
                assert(tail.skip(3) =~= data@.skip(pos as int + 3));
            }
            if count > CHUNK_VOLUME - blocks.len() {
                proof {
                    if spec_decode_runs(data@) is Some {
                        let rest = spec_decode_runs(tail)->Some_0;
                        let full = spec_decode_runs(data@)->Some_0;
                        assert(rest.len() >= count);
                        assert(full.len() > CHUNK_VOLUME);
                    }
                }
                return None;
            }
            let cell: Option<Block> = if value == 0 {
                None
            } else {
                match Block::from_u8(value - 1) {
                    Some(blk) => Some(blk),
                    None => {
                        proof {
                            if count > 0 && spec_decode_runs(data@) is Some {
                                let full = spec_decode_runs(data@)->Some_0;
                                assert(full[blocks@.len() as int] == value);
                                assert(spec_cell_of_byte(value) is None);
                            }
                        }
                        if count > 0 {
                            return None;
                        }
                        None
                    },
                }
            };
            proof {
                if count > 0 {
                    assert(spec_cell_of_byte(value) == Some(cell));
                }
            }
            let ghost blocks_before = blocks@;
            let mut k: usize = 0;
            while k < count
                invariant
                    k <= count,
                    blocks@ =~= blocks_before + Seq::new(k as nat, |j: int| cell),
                    spec_cell_of_byte(value) == Some(cell) || count == 0,
                decreases count - k,
            {
                blocks.push(cell);
                proof {
                    assert(blocks@ =~= blocks_before + Seq::new((k + 1) as nat, |j: int| cell));
                }
                k = k + 1;
            }
            proof {
                let run = Seq::new(count as nat, |j: int| value);
                assert(spec_bytes_of(blocks@) =~= spec_bytes_of(blocks_before) + run) by {
                    lemma_cell_byte_round_trip();
                    assert(forall|j: int|
                        0 <= j < blocks@.len() ==> spec_bytes_of(blocks@)[j] == spec_cell_byte(
                            #[trigger] blocks@[j],
                        ));
                }
                let tail3 = data@.skip(pos as int + 3);
                assert(Seq::new(count as nat, |j: int| tail[2]) =~= run);
                if spec_decode_runs(tail3) is Some {
                    let r = spec_decode_runs(tail3)->Some_0;
                    assert(spec_decode_runs(tail) == Some(run + r));
                    assert(spec_bytes_of(blocks_before) + (run + r) =~= spec_bytes_of(blocks@)
                        + r);
                } else {
                    assert(spec_decode_runs(tail) is None);
                }
            }
            pos = pos + 3;
        }
        if pos != len {
            proof {
                assert(0 < data@.skip(pos as int).len() < 3);
                assert(spec_decode_runs(data@.skip(pos as int)) is None);
            }
            return None;
        }
        proof {
            assert(data@.skip(pos as int) =~= Seq::<u8>::empty());
            assert(spec_decode_runs(Seq::<u8>::empty()) == Some(Seq::<u8>::empty()));
            assert(spec_bytes_of(blocks@) + Seq::<u8>::empty() =~= spec_bytes_of(blocks@));
            assert(spec_decode_runs(data@) == Some(spec_bytes_of(blocks@)));
        }
        if blocks.len() != CHUNK_VOLUME {
            return None;
        }
        proof {
            lemma_cell_byte_round_trip();
            let s = spec_bytes_of(blocks@);
            assert(forall|j: int| 0 <= j < s.len() ==> spec_cell_of_byte(#[trigger] s[j]) is Some);
            assert(s.map_values(|v: u8| spec_cell_of_byte(v)->Some_0) =~= blocks@);
        }
        Some(ChunkData { blocks })
    }
}

/// The byte one cell is stored as: `0` for an empty cell, the block's code
/// plus one for a filled one.
pub open spec fn spec_cell_byte(b: Option<Block>) -> u8 {
    match b {
        None => 0,
        Some(blk) => (spec_code(blk) + 1) as u8,
    }
}

/// The cell a stored byte stands for, or `None` when the byte is no known
/// code.
pub open spec fn spec_cell_of_byte(v: u8) -> Option<Option<Block>> {
    if v == 0 {
        Some(None)
    } else {
        match spec_from_code((v - 1) as u8) {
            Some(blk) => Some(Some(blk)),
            None => None,
        }
    }
}

/// The byte image of a whole cell sequence.
pub open spec fn spec_bytes_of(s: Seq<Option<Block>>) -> Seq<u8> {
    s.map_values(|b: Option<Block>| spec_cell_byte(b))
}

/// Expands a stream of `(count: u16 big-endian, value: u8)` records into the
/// byte sequence it repeats, or `None` when the stream ends mid-record.
pub open spec fn spec_decode_runs(data: Seq<u8>) -> Option<Seq<u8>>
    decreases data.len(),
{
    if data.len() == 0 {
        Some(Seq::empty())
    } else if data.len() < 3 {
        None
    } else {
        let count = (data[0] as int) * 256 + (data[1] as int);
        match spec_decode_runs(data.skip(3)) {
            Some(rest) => Some(Seq::new(count as nat, |i: int| data[2]) + rest),
            None => None,
        }
    }
}

/// What a byte stream decodes to: the run-length records expanded, every
/// value byte a known code, and exactly one chunk volume of cells in total.
pub open spec fn spec_deserialize(data: Seq<u8>) -> Option<Seq<Option<Block>>> {
    match spec_decode_runs(data) {
        Some(s) => if s.len() == CHUNK_VOLUME && (forall|i: int|
            0 <= i < s.len() ==> spec_cell_of_byte(#[trigger] s[i]) is Some) {
            Some(s.map_values(|v: u8| spec_cell_of_byte(v)->Some_0))
        } else {
            None
        },
        None => None,
    }
}

/// Every cell's stored byte maps back to the cell, and a cell's byte is
/// always a known code.
pub proof fn lemma_cell_byte_round_trip()
    ensures
        forall|b: Option<Block>| spec_cell_of_byte(#[trigger] spec_cell_byte(b)) == Some(b),
        forall|v: u8|
            #[trigger] spec_cell_of_byte(v) is Some ==> spec_cell_byte(
                spec_cell_of_byte(v)->Some_0,
            ) == v,
{
    assert forall|b: Option<Block>| spec_cell_of_byte(#[trigger] spec_cell_byte(b)) == Some(
        b,
    ) by {
        if b is Some {
            crate::block::lemma_code_round_trip();
        }
    }
    assert forall|v: u8| #[trigger] spec_cell_of_byte(v) is Some implies spec_cell_byte(
        spec_cell_of_byte(v)->Some_0,
    ) == v by {
        if v != 0 {
            crate::block::lemma_code_round_trip();
        }
    }
}

/// Decoding distributes over splitting a stream at a record boundary.
proof fn lemma_decode_append(d: Seq<u8>, e: Seq<u8>)
    requires
        d.len() % 3 == 0,
        spec_decode_runs(d) is Some,
    ensures
        spec_decode_runs(d + e) == match spec_decode_runs(e) {
            Some(r) => Some(spec_decode_runs(d)->Some_0 + r),
            None => None::<Seq<u8>>,
        },
    decreases d.len(),
{
    if d.len() == 0 {
        assert(d + e =~= e);
        match spec_decode_runs(e) {
            Some(r) => {
                assert(spec_decode_runs(d)->Some_0 + r =~= r);
            },
            None => {},
        }
    } else {
        assert(d.len() >= 3);
        let dtail = d.skip(3);
        assert(dtail.len() % 3 == 0) by {
            assert(dtail.len() == d.len() - 3);
        }
        assert(spec_decode_runs(dtail) is Some);
        lemma_decode_append(dtail, e);
        let whole = d + e;
        assert(whole.len() >= 3);
        assert(whole[0] == d[0] && whole[1] == d[1] && whole[2] == d[2]);
        assert(whole.skip(3) =~= dtail + e);
        let count = (d[0] as int) * 256 + (d[1] as int);
        let head = Seq::new(count as nat, |i: int| d[2]);
        match spec_decode_runs(e) {
            Some(r) => {
                let dt = spec_decode_runs(dtail)->Some_0;
                assert(spec_decode_runs(whole) == Some(head + (dt + r)));
                assert(spec_decode_runs(d)->Some_0 == head + dt);
                assert(head + (dt + r) =~= (head + dt) + r);
            },
            None => {
                assert(spec_decode_runs(dtail + e) is None);
                assert(spec_decode_runs(whole) is None);
            },
        }
    }
}

/// A single record decodes to its value repeated `count` times.
proof fn lemma_decode_single_record(hi: u8, lo: u8, v: u8)
    ensures
        spec_decode_runs(seq![hi, lo, v]) == Some(
            Seq::new(((hi as int) * 256 + (lo as int)) as nat, |i: int| v),
        ),
{
    let rec = seq![hi, lo, v];
    assert(rec.len() == 3 && rec[0] == hi && rec[1] == lo && rec[2] == v);
    assert(rec.skip(3) =~= Seq::<u8>::empty());
    assert(spec_decode_runs(Seq::<u8>::empty()) == Some(Seq::<u8>::empty()));
    let count = (hi as int) * 256 + (lo as int);
    assert(spec_decode_runs(rec) is Some);
    let inner = spec_decode_runs(rec)->Some_0;
    assert(inner =~= Seq::new(count as nat, |i: int| v));
}

} // verus!
