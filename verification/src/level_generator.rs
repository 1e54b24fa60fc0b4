//! Deterministic, seed-driven terrain generation.
//!
//! Terrain is driven by layered lattice value noise computed entirely in
//! fixed-point integers (thousandths), so the same seed and position always
//! yield the same blocks on every machine. A fractal elevation field (four
//! octaves with halving amplitude and period) sets the surface height above
//! sea level, and an independent coarse temperature field switches warm
//! columns to sand.

use vstd::prelude::*;

use crate::block::Block;
use crate::block_pos::BlockPos;
use crate::chunk::{CHUNK_SIZE, CHUNK_VOLUME};
use crate::chunk_data::ChunkData;
use crate::chunk_index::{spec_flat_index, ChunkIndex};
use crate::chunk_pos::ChunkPos;

verus! {

/// Multiplier of the mixing step, an odd 64-bit constant.
pub const MIX_MULTIPLIER: u64 = 0x5851_F42D_4C95_7F2D;

/// Sea level in blocks: columns rise and fall around this height.
pub const SEA_LEVEL: i64 = 60;

/// Fixed-point denominator: noise values and amplitudes are in thousandths.
pub const NOISE_ONE: i64 = 1000;

/// Base amplitude of the elevation field, in thousandths of blocks.
pub const ELEVATION_AMPLITUDE: i64 = 15000;

/// Lattice period of the coarsest elevation octave, in blocks.
pub const ELEVATION_PERIOD: i64 = 32;

/// Lattice period of the temperature field, in blocks.
pub const TEMPERATURE_PERIOD: i64 = 256;

/// Temperature threshold (in thousandths) above which a column is sand.
pub const TEMPERATURE_THRESHOLD: i64 = 400;

/// One step of the seed mixer: multiply-and-add modulo `2^64`.
pub open spec fn spec_mix(h: u64, v: u64) -> u64 {
    (((h * MIX_MULTIPLIER) + v) % 0x1_0000_0000_0000_0000) as u64
}

/// The lattice value a hash stands for, in `[-NOISE_ONE, NOISE_ONE]`.
pub open spec fn spec_corner_val(h: u64) -> int {
    (h % 2001) - NOISE_ONE as int
}

/// The hash of one lattice corner of one noise field.
pub open spec fn spec_corner_hash(field_seed: u64, xi: i64, zi: i64) -> u64 {
    spec_mix(spec_mix(field_seed, xi as u64), zi as u64)
}

/// One sample of a lattice value noise field: the four surrounding lattice
/// corners, bilinearly interpolated by the position within the cell.
/// The result lies in `[-NOISE_ONE, NOISE_ONE]`.
pub open spec fn spec_noise_at(field_seed: u64, x: int, z: int, period: int) -> int {
    let x0 = x / period;
    let z0 = z / period;
    let fx = x % period;
    let fz = z % period;
    let v00 = spec_corner_val(spec_corner_hash(field_seed, x0 as i64, z0 as i64));
    let v10 = spec_corner_val(spec_corner_hash(field_seed, (x0 + 1) as i64, z0 as i64));
    let v01 = spec_corner_val(spec_corner_hash(field_seed, x0 as i64, (z0 + 1) as i64));
    let v11 = spec_corner_val(spec_corner_hash(field_seed, (x0 + 1) as i64, (z0 + 1) as i64));
    (v00 * (period - fx) * (period - fz) + v10 * fx * (period - fz) + v01 * (period - fx) * fz
        + v11 * fx * fz) / (period * period)
}

/// The seed of one noise field, derived from the world seed and a tag.
pub open spec fn spec_field_seed(seed: u64, tag: u64) -> u64 {
    spec_mix(seed, tag)
}

/// The elevation of one column in thousandths of blocks: four octaves of
/// value noise with halving amplitude and period.
pub open spec fn spec_elevation(seed: u64, x: int, z: int) -> int {
    let e = spec_field_seed(seed, 1);
    let amp = ELEVATION_AMPLITUDE as int;
    let period = ELEVATION_PERIOD as int;
    let one = NOISE_ONE as int;
    (amp * spec_noise_at(spec_mix(e, 0), x, z, period)) / one + ((amp / 2) * spec_noise_at(
        spec_mix(e, 1),
        x,
        z,
        period / 2,
    )) / one + ((amp / 4) * spec_noise_at(spec_mix(e, 2), x, z, period / 4)) / one + ((amp / 8)
        * spec_noise_at(spec_mix(e, 3), x, z, period / 8)) / one
}

/// The surface height of one column, in blocks.
pub open spec fn spec_surface_height(seed: u64, x: int, z: int) -> int {
    SEA_LEVEL as int + spec_elevation(seed, x, z) / (NOISE_ONE as int)
}

/// Whether a column is warm enough to be sand.
pub open spec fn spec_hot(seed: u64, x: int, z: int) -> bool {
    spec_noise_at(spec_field_seed(seed, 2), x, z, TEMPERATURE_PERIOD as int)
        > TEMPERATURE_THRESHOLD as int
}

/// The block generated at one position: sand up to the surface in warm
/// columns; elsewhere dirt below the surface, grass at the surface, and
/// empty air above it.
pub open spec fn spec_generate_block(seed: u64, x: int, y: int, z: int) -> Option<Block> {
    let h = spec_surface_height(seed, x, z);
    if spec_hot(seed, x, z) {
        if y <= h {
            Some(Block::Sand)
        } else {
            None
        }
    } else if y <= h - 1 {
        Some(Block::Dirt)
    } else if y == h {
        Some(Block::Grass)
    } else {
        None
    }
}

/// One step of the seed mixer.
fn mix(h: u64, v: u64) -> (r: u64)
    ensures
        r == spec_mix(h, v),
{
    proof {
        assert((h as int) * (MIX_MULTIPLIER as int) <= 0xFFFF_FFFF_FFFF_FFFF * (
        MIX_MULTIPLIER as int)) by (nonlinear_arith)
            requires
                h <= 0xFFFF_FFFF_FFFF_FFFF,
        ;
    }
    (((h as u128) * (MIX_MULTIPLIER as u128) + (v as u128)) % 0x1_0000_0000_0000_0000u128) as u64
}

/// The lattice value of one corner hash.
fn corner_val(h: u64) -> (v: i64)
    ensures
        v == spec_corner_val(h),
        -NOISE_ONE <= v <= NOISE_ONE,
{
    (h % 2001) as i64 - NOISE_ONE
}

/// Coordinates the generator accepts: small enough that lattice arithmetic
/// cannot overflow.
pub open spec fn spec_coord_ok(v: int) -> bool {
    -0x1000_0000_0000_0000 <= v <= 0x1000_0000_0000_0000
}

/// One sample of a value noise field.
fn noise_at(field_seed: u64, x: i64, z: i64, period: i64) -> (v: i64)
    requires
        1 <= period <= 256,
        spec_coord_ok(x as int),
        spec_coord_ok(z as int),
    ensures
        v == spec_noise_at(field_seed, x as int, z as int, period as int),
        -NOISE_ONE <= v <= NOISE_ONE,
{
    proof {
        assert((-0x1000_0000_0000_0000) * period <= x <= 0x1000_0000_0000_0000 * period)
            by (nonlinear_arith)
            requires
                1 <= period,
                -0x1000_0000_0000_0000 <= x <= 0x1000_0000_0000_0000,
        ;
        assert((-0x1000_0000_0000_0000) * period <= z <= 0x1000_0000_0000_0000 * period)
            by (nonlinear_arith)
            requires
                1 <= period,
                -0x1000_0000_0000_0000 <= z <= 0x1000_0000_0000_0000,
        ;
        lemma_div_bounded(x as int, period as int, -0x1000_0000_0000_0000, 0x1000_0000_0000_0000);
        lemma_div_bounded(z as int, period as int, -0x1000_0000_0000_0000, 0x1000_0000_0000_0000);
    }
    let x0 = x.checked_div_euclid(period).unwrap();
    let z0 = z.checked_div_euclid(period).unwrap();
    let fx = x.checked_rem_euclid(period).unwrap();
    let fz = z.checked_rem_euclid(period).unwrap();
    let v00 = corner_val(mix(mix(field_seed, x0 as u64), z0 as u64));
    let v10 = corner_val(mix(mix(field_seed, (x0 + 1) as u64), z0 as u64));
    let v01 = corner_val(mix(mix(field_seed, x0 as u64), (z0 + 1) as u64));
    let v11 = corner_val(mix(mix(field_seed, (x0 + 1) as u64), (z0 + 1) as u64));
    let pfx = period - fx;
    let pfz = period - fz;
    proof {
        lemma_weight_product_bound(v00 as int, pfx as int, pfz as int);
        lemma_weight_product_bound(v10 as int, fx as int, pfz as int);
        lemma_weight_product_bound(v01 as int, pfx as int, fz as int);
        lemma_weight_product_bound(v11 as int, fx as int, fz as int);
    }
    let t00 = v00 * pfx * pfz;
    let t10 = v10 * fx * pfz;
    let t01 = v01 * pfx * fz;
    let t11 = v11 * fx * fz;
    let num = t00 + t10 + t01 + t11;
    proof {
        lemma_interp_bounds(
            v00 as int,
            v10 as int,
            v01 as int,
            v11 as int,
            fx as int,
            fz as int,
            period as int,
        );
        assert(1 <= period * period <= 65536) by (nonlinear_arith)
            requires
                1 <= period <= 256,
        ;
        assert((-1000) * (period * period) <= num <= 1000 * (period * period)) by (nonlinear_arith)
            requires
                (-1000) * period * period <= num <= 1000 * period * period,
        ;
        lemma_div_bounded(num as int, (period * period) as int, -1000, 1000);
    }
    let v = num.checked_div_euclid(period * period).unwrap();
    v
}

/// Dividing by a positive divisor keeps a value between bounds that divide
/// exactly.
proof fn lemma_div_bounded(x: int, d: int, lo: int, hi: int)
    requires
        d >= 1,
        lo * d <= x <= hi * d,
    ensures
        lo <= x / d <= hi,
{
    vstd::arithmetic::div_mod::lemma_div_is_ordered(lo * d, x, d);
    vstd::arithmetic::div_mod::lemma_div_is_ordered(x, hi * d, d);
    vstd::arithmetic::div_mod::lemma_div_multiples_vanish(lo, d);
    vstd::arithmetic::div_mod::lemma_div_multiples_vanish(hi, d);
    assert(lo * d == d * lo) by (nonlinear_arith);
    assert(hi * d == d * hi) by (nonlinear_arith);
}

/// One corner value weighted by its cell area stays within the scaled bound.
proof fn lemma_weight_product_bound(v: int, wa: int, wb: int)
    requires
        -1000 <= v <= 1000,
        0 <= wa <= 256,
        0 <= wb <= 256,
    ensures
        -256_000 <= v * wa <= 256_000,
        -65_536_000 <= v * wa * wb <= 65_536_000,
        v * wa * wb == v * (wa * wb),
{
    assert(-256_000 <= v * wa <= 256_000) by (nonlinear_arith)
        requires
            -1000 <= v <= 1000,
            0 <= wa <= 256,
    ;
    assert(-65_536_000 <= (v * wa) * wb <= 65_536_000) by (nonlinear_arith)
        requires
            -256_000 <= v * wa <= 256_000,
            0 <= wb <= 256,
    ;
    assert(v * wa * wb == v * (wa * wb)) by (nonlinear_arith);
}

/// The bilinear blend of four bounded corner values stays within the same
/// bound, scaled by the cell area.
proof fn lemma_interp_bounds(v00: int, v10: int, v01: int, v11: int, fx: int, fz: int, p: int)
    requires
        -1000 <= v00 <= 1000,
        -1000 <= v10 <= 1000,
        -1000 <= v01 <= 1000,
        -1000 <= v11 <= 1000,
        0 <= fx < p,
        0 <= fz < p,
        1 <= p <= 256,
    ensures
        (-1000) * p * p <= v00 * (p - fx) * (p - fz) + v10 * fx * (p - fz) + v01 * (p - fx) * fz
            + v11 * fx * fz <= 1000 * p * p,
{
    let wa = (p - fx) * (p - fz);
    let wb = fx * (p - fz);
    let wc = (p - fx) * fz;
    let wd = fx * fz;
    assert(wa >= 0 && wb >= 0 && wc >= 0 && wd >= 0) by (nonlinear_arith)
        requires
            0 <= fx < p,
            0 <= fz < p,
            wa == (p - fx) * (p - fz),
            wb == fx * (p - fz),
            wc == (p - fx) * fz,
            wd == fx * fz,
    ;
    assert(wa + wb + wc + wd == p * p) by (nonlinear_arith)
        requires
            wa == (p - fx) * (p - fz),
            wb == fx * (p - fz),
            wc == (p - fx) * fz,
            wd == fx * fz,
    ;
    assert((-1000) * wa <= v00 * wa <= 1000 * wa) by (nonlinear_arith)
        requires
            -1000 <= v00 <= 1000,
            wa >= 0,
    ;
    assert((-1000) * wb <= v10 * wb <= 1000 * wb) by (nonlinear_arith)
        requires
            -1000 <= v10 <= 1000,
            wb >= 0,
    ;
    assert((-1000) * wc <= v01 * wc <= 1000 * wc) by (nonlinear_arith)
        requires
            -1000 <= v01 <= 1000,
            wc >= 0,
    ;
    assert((-1000) * wd <= v11 * wd <= 1000 * wd) by (nonlinear_arith)
        requires
            -1000 <= v11 <= 1000,
            wd >= 0,
    ;
    assert(v00 * (p - fx) * (p - fz) == v00 * wa) by (nonlinear_arith)
        requires
            wa == (p - fx) * (p - fz),
    ;
    assert(v10 * fx * (p - fz) == v10 * wb) by (nonlinear_arith)
        requires
            wb == fx * (p - fz),
    ;
    assert(v01 * (p - fx) * fz == v01 * wc) by (nonlinear_arith)
        requires
            wc == (p - fx) * fz,
    ;
    assert(v11 * fx * fz == v11 * wd) by (nonlinear_arith)
        requires
            wd == fx * fz,
    ;
    assert((-1000) * wa + (-1000) * wb + (-1000) * wc + (-1000) * wd == (-1000) * (wa + wb + wc
        + wd)) by (nonlinear_arith);
    assert(1000 * wa + 1000 * wb + 1000 * wc + 1000 * wd == 1000 * (wa + wb + wc + wd))
        by (nonlinear_arith);
    assert((-1000) * (p * p) == (-1000) * p * p && 1000 * (p * p) == 1000 * p * p)
        by (nonlinear_arith);
}

/// Deterministic terrain generator: a pure function of the world seed and
/// the block position.
pub struct LevelGenerator {
    seed: u64,
}

impl LevelGenerator {
    /// The world seed this generator was made with.
    pub closed spec fn spec_seed(&self) -> u64 {
        self.seed
    }

    /// A generator for the given world seed.
    pub fn new(seed: u64) -> (generator: LevelGenerator)
        ensures
            generator.spec_seed() == seed,
    {
        LevelGenerator { seed }
    }

    /// The block this world holds at one position.
    pub fn generate_block(&self, pos: BlockPos) -> (block: Option<Block>)
        requires
            spec_coord_ok(pos.x as int),
            spec_coord_ok(pos.z as int),
        ensures
            block == spec_generate_block(
                self.spec_seed(),
                pos.x as int,
                pos.y as int,
                pos.z as int,
            ),
    {
        let e = mix(self.seed, 1);
        let elevation = (ELEVATION_AMPLITUDE * noise_at(mix(e, 0), pos.x, pos.z, ELEVATION_PERIOD))
            .checked_div_euclid(NOISE_ONE)
            .unwrap() + ((ELEVATION_AMPLITUDE / 2) * noise_at(
            mix(e, 1),
            pos.x,
            pos.z,
            ELEVATION_PERIOD / 2,
        )).checked_div_euclid(NOISE_ONE).unwrap() + ((ELEVATION_AMPLITUDE / 4) * noise_at(
            mix(e, 2),
            pos.x,
            pos.z,
            ELEVATION_PERIOD / 4,
        )).checked_div_euclid(NOISE_ONE).unwrap() + ((ELEVATION_AMPLITUDE / 8) * noise_at(
            mix(e, 3),
            pos.x,
            pos.z,
            ELEVATION_PERIOD / 8,
        )).checked_div_euclid(NOISE_ONE).unwrap();
        let h = SEA_LEVEL + elevation.checked_div_euclid(NOISE_ONE).unwrap();
        let temperature = noise_at(mix(self.seed, 2), pos.x, pos.z, TEMPERATURE_PERIOD);
        proof {
            assert(spec_field_seed(self.seed, 2) == spec_mix(self.seed, 2));
            assert(h == spec_surface_height(self.spec_seed(), pos.x as int, pos.z as int));
        }
        if temperature > TEMPERATURE_THRESHOLD {
            if pos.y <= h {
                Some(Block::Sand)
            } else {
                None
            }
        } else if pos.y <= h - 1 {
            Some(Block::Dirt)
        } else if pos.y == h {
            Some(Block::Grass)
        } else {
            None
        }
    }
}

/// Every cell of `chunk` holds exactly the block the world seed assigns to
/// its position.
pub open spec fn spec_chunk_generated(seed: u64, pos: ChunkPos, chunk: Seq<Option<Block>>) -> bool {
    chunk.len() == CHUNK_VOLUME && forall|x: int, y: int, z: int|
        #![trigger spec_flat_index(x, y, z)]
        0 <= x < CHUNK_SIZE && 0 <= y < CHUNK_SIZE && 0 <= z < CHUNK_SIZE ==> chunk[spec_flat_index(
            x,
            y,
            z,
        )] == spec_generate_block(
            seed,
            pos.x * (CHUNK_SIZE as int) + x,
            pos.y * (CHUNK_SIZE as int) + y,
            pos.z * (CHUNK_SIZE as int) + z,
        )
}

/// Cells visited strictly before `(x, y, z)` in generation order.
spec fn cell_lex_lt(xp: int, yp: int, zp: int, x: int, y: int, z: int) -> bool {
    xp < x || (xp == x && (yp < y || (yp == y && zp < z)))
}

/// The flat row-major index splits back into its three coordinates.
proof fn lemma_flat_decompose(x: int, y: int, z: int)
    requires
        0 <= x < CHUNK_SIZE,
        0 <= y < CHUNK_SIZE,
        0 <= z < CHUNK_SIZE,
    ensures
        0 <= spec_flat_index(x, y, z) < CHUNK_VOLUME,
        spec_flat_index(x, y, z) % 32 == x,
        (spec_flat_index(x, y, z) / 32) % 32 == y,
        spec_flat_index(x, y, z) / 1024 == z,
{
    let i = x + y * 32 + z * 1024;
    assert(0 <= i < 32768 && i % 32 == x && (i / 32) % 32 == y && i / 1024 == z)
        by (nonlinear_arith)
        requires
            i == x + y * 32 + z * 1024,
            0 <= x < 32,
            0 <= y < 32,
            0 <= z < 32,
    ;
}

impl LevelGenerator {
    /// Generates one whole chunk: every cell holds the block of its world
    /// position.
    pub fn generate_chunk(&self, pos: ChunkPos) -> (chunk: ChunkData)
        ensures
            chunk.wf(),
            spec_chunk_generated(self.spec_seed(), pos, chunk@),
    {
        let base = pos.block_pos();
        let mut chunk = ChunkData::default();
        let mut x: usize = 0;
        while x < CHUNK_SIZE
            invariant
                chunk.wf(),
                x <= CHUNK_SIZE,
                base.x == pos.x * (CHUNK_SIZE as int),
                base.y == pos.y * (CHUNK_SIZE as int),
                base.z == pos.z * (CHUNK_SIZE as int),
                forall|xp: int, yp: int, zp: int|
                    #![trigger spec_flat_index(xp, yp, zp)]
                    0 <= xp < CHUNK_SIZE && 0 <= yp < CHUNK_SIZE && 0 <= zp < CHUNK_SIZE
                        ==> chunk@[spec_flat_index(xp, yp, zp)] == (if cell_lex_lt(
                        xp,
                        yp,
                        zp,
                        x as int,
                        0,
                        0,
                    ) {
                        spec_generate_block(
                            self.spec_seed(),
                            base.x + xp,
                            base.y + yp,
                            base.z + zp,
                        )
                    } else {
                        None
                    }),
            decreases CHUNK_SIZE - x,
        {
            let mut y: usize = 0;
            while y < CHUNK_SIZE
                invariant
                    chunk.wf(),
                    x < CHUNK_SIZE,
                    y <= CHUNK_SIZE,
                    base.x == pos.x * (CHUNK_SIZE as int),
                    base.y == pos.y * (CHUNK_SIZE as int),
                    base.z == pos.z * (CHUNK_SIZE as int),
                    forall|xp: int, yp: int, zp: int|
                        #![trigger spec_flat_index(xp, yp, zp)]
                        0 <= xp < CHUNK_SIZE && 0 <= yp < CHUNK_SIZE && 0 <= zp < CHUNK_SIZE
                            ==> chunk@[spec_flat_index(xp, yp, zp)] == (if cell_lex_lt(
                            xp,
                            yp,
                            zp,
                            x as int,
                            y as int,
                            0,
                        ) {
                            spec_generate_block(
                                self.spec_seed(),
                                base.x + xp,
                                base.y + yp,
                                base.z + zp,
                            )
                        } else {
                            None
                        }),
                decreases CHUNK_SIZE - y,
            {
                let mut z: usize = 0;
                while z < CHUNK_SIZE
                    invariant
                        chunk.wf(),
                        x < CHUNK_SIZE,
                        y < CHUNK_SIZE,
                        z <= CHUNK_SIZE,
                        base.x == pos.x * (CHUNK_SIZE as int),
                        base.y == pos.y * (CHUNK_SIZE as int),
                        base.z == pos.z * (CHUNK_SIZE as int),
                        forall|xp: int, yp: int, zp: int|
                            #![trigger spec_flat_index(xp, yp, zp)]
                            0 <= xp < CHUNK_SIZE && 0 <= yp < CHUNK_SIZE && 0 <= zp < CHUNK_SIZE
                                ==> chunk@[spec_flat_index(xp, yp, zp)] == (if cell_lex_lt(
                                xp,
                                yp,
                                zp,
                                x as int,
                                y as int,
                                z as int,
                            ) {
                                spec_generate_block(
                                    self.spec_seed(),
                                    base.x + xp,
                                    base.y + yp,
                                    base.z + zp,
                                )
                            } else {
                                None
                            }),
                    decreases CHUNK_SIZE - z,
                {
                    let block_pos = BlockPos::new(
                        base.x + x as i64,
                        base.y + y as i64,
                        base.z + z as i64,
                    );
                    let block = self.generate_block(block_pos);
                    let idx = ChunkIndex::new(x, y, z);
                    let ghost before = chunk@;
                    chunk.block_mut(idx, block);
                    proof {
                        lemma_flat_decompose(x as int, y as int, z as int);
                        assert forall|xp: int, yp: int, zp: int|
                            #![trigger spec_flat_index(xp, yp, zp)]
                            0 <= xp < CHUNK_SIZE && 0 <= yp < CHUNK_SIZE && 0 <= zp
                                < CHUNK_SIZE implies chunk@[spec_flat_index(xp, yp, zp)] == (
                        if cell_lex_lt(xp, yp, zp, x as int, y as int, z as int + 1) {
                            spec_generate_block(
                                self.spec_seed(),
                                base.x + xp,
                                base.y + yp,
                                base.z + zp,
                            )
                        } else {
                            None
                        }) by {
                            lemma_flat_decompose(xp, yp, zp);
                            if spec_flat_index(xp, yp, zp) == idx.as_int() {
                                assert(xp == x as int && yp == y as int && zp == z as int);
                            } else {
                                assert(chunk@[spec_flat_index(xp, yp, zp)]
                                    == before[spec_flat_index(xp, yp, zp)]);
                            }
                        }
                    }
                    z = z + 1;
                }
                y = y + 1;
            }
            x = x + 1;
        }
        chunk
    }
}

/// Determinism: two chunks generated from the same seed at the same chunk
/// position hold exactly the same blocks.
pub proof fn lemma_generation_deterministic(
    seed: u64,
    pos: ChunkPos,
    a: Seq<Option<Block>>,
    b: Seq<Option<Block>>,
)
    requires
        spec_chunk_generated(seed, pos, a),
        spec_chunk_generated(seed, pos, b),
    ensures
        a == b,
{
    assert forall|i: int| 0 <= i < a.len() implies a[i] == b[i] by {
        let x = i % 32;
        let y = (i / 32) % 32;
        let z = i / 1024;
        assert(spec_flat_index(x, y, z) == i && 0 <= x < 32 && 0 <= y < 32 && 0 <= z < 32)
            by (nonlinear_arith)
            requires
                0 <= i < 32768,
                x == i % 32,
                y == (i / 32) % 32,
                z == i / 1024,
        ;
    }
    assert(a =~= b);
}

} // verus!
