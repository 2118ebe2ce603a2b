use vstd::prelude::*;
use rand::rngs::StdRng;
use rand::{Rng, SeedableRng};

verus! {

/// Side of a tile on the terrain sheet, in pixels; the usual world tile size.
pub const TILE_SIZE: i32 = 32;

/// Side of a chunk, in tiles.
pub const CHUNK_SIZE: usize = 8;

/// Side of a chunk at the usual tile size, in pixels.
pub const CHUNK_SIZE_PIXELS: usize = 256;

/// Number of tiles in a chunk.
pub const CHUNK_TILES: usize = 64;

/// The code that fills a placeholder chunk.
pub const TEMPLATE_CODE: u16 = 1;

/// The largest code that generation draws; codes run from zero to it.
pub const MAX_CODE: u16 = 3;

/// What a chunk holds: its origin in pixels and its tile codes, row by row.
pub struct ChunkView {
    pub x: int,
    pub y: int,
    pub tiles: Seq<u16>,
}

/// A square block of tiles anchored at a pixel origin. Its tiles are stored
/// row by row: the tile in column `c` and row `r` is at `r * CHUNK_SIZE + c`.
/// A chunk never changes once made.
#[derive(Clone, Debug, PartialEq, Eq)]
pub struct Chunk {
    x: i32,
    y: i32,
    tiles: Vec<u16>,
}

impl View for Chunk {
    type V = ChunkView;

    closed spec fn view(&self) -> ChunkView {
        ChunkView { x: self.x as int, y: self.y as int, tiles: self.tiles@ }
    }
}

/// One step of a 64-bit finalising mix (the SplitMix64 output function).
pub open spec fn spec_mix(z: u64) -> u64 {
    let a = z ^ (z >> 30u64);
    let b = vstd::wrapping::u64_specs::wrapping_mul(a, 0xbf58476d1ce4e5b9u64);
    let c = b ^ (b >> 27u64);
    let d = vstd::wrapping::u64_specs::wrapping_mul(c, 0x94d049bb133111ebu64);
    d ^ (d >> 31u64)
}

/// The seed of the chunk at a pixel origin: the world seed and both
/// coordinates, signs included, each folded in by a full mix.
pub open spec fn spec_chunk_seed(seed: u32, x: i32, y: i32) -> u64 {
    let s = spec_mix(seed as u64);
    let sx = spec_mix(vstd::wrapping::u64_specs::wrapping_add(s, x as u64));
    spec_mix(vstd::wrapping::u64_specs::wrapping_add(sx, y as u64))
}

/// The seed from which the tile at `index` of a chunk is drawn.
pub open spec fn spec_tile_seed(chunk_seed: u64, index: u64) -> u64 {
    spec_mix(vstd::wrapping::u64_specs::wrapping_add(chunk_seed, index))
}

/// The code that a generator seeded with `seed` draws first from `0..=max`.
pub uninterp spec fn seeded_code(seed: u64, max: u16) -> u16;

/// The tiles of a placeholder chunk.
pub open spec fn template_tiles() -> Seq<u16> {
    Seq::new(CHUNK_TILES as nat, |k: int| TEMPLATE_CODE)
}

/// The tiles generated for the chunk at `(x, y)` under `seed`.
pub open spec fn generated_tiles(seed: u32, x: i32, y: i32) -> Seq<u16> {
    Seq::new(
        CHUNK_TILES as nat,
        |k: int| seeded_code(spec_tile_seed(spec_chunk_seed(seed, x, y), k as u64), MAX_CODE),
    )
}

/// Generation is a function of the seed and the origin: two chunks generated
/// at one origin under one seed hold the same tiles, at every origin, zero and
/// negative coordinates included.
pub proof fn lemma_generation_deterministic(a: ChunkView, b: ChunkView, x: i32, y: i32, seed: u32)
    requires
        a == generated_view(x, y, seed),
        b == generated_view(x, y, seed),
    ensures
        a.tiles == b.tiles,
        a == b,
{
}

/// What `Chunk::random(x, y, seed)` returns.
pub open spec fn generated_view(x: i32, y: i32, seed: u32) -> ChunkView {
    ChunkView { x: x as int, y: y as int, tiles: generated_tiles(seed, x, y) }
}

pub fn mix(z: u64) -> (r: u64)
    ensures
        r == spec_mix(z),
{
    let a = z ^ (z >> 30u64);
    let b = a.wrapping_mul(0xbf58476d1ce4e5b9u64);
    let c = b ^ (b >> 27u64);
    let d = c.wrapping_mul(0x94d049bb133111ebu64);
    d ^ (d >> 31u64)
}

pub fn chunk_seed(seed: u32, x: i32, y: i32) -> (r: u64)
    ensures
        r == spec_chunk_seed(seed, x, y),
{
    let s = mix(seed as u64);
    let sx = mix(s.wrapping_add(x as u64));
    mix(sx.wrapping_add(y as u64))
}

pub fn tile_seed(chunk_seed: u64, index: u64) -> (r: u64)
    ensures
        r == spec_tile_seed(chunk_seed, index),
{
    mix(chunk_seed.wrapping_add(index))
}

/// Relies on rand's `StdRng::seed_from_u64` and `Rng::gen_range`: a standard
/// generator seeded from `seed` draws one value of `0..=max`. The generator is
/// deterministic, so the value depends on `seed` and `max` alone.
#[verifier::external_body]
fn draw_code(seed: u64, max: u16) -> (r: u16)
    ensures
        r == seeded_code(seed, max),
        r <= max,
{
    StdRng::seed_from_u64(seed).gen_range(0..=max)
}

impl Chunk {
    /// Every chunk made by this module holds one code per tile.
    pub open spec fn wf(&self) -> bool {
        self@.tiles.len() == CHUNK_TILES
    }

    /// A placeholder chunk at `(x, y)`: every tile holds `TEMPLATE_CODE`.
    pub fn template(x: i32, y: i32) -> (r: Chunk)
        ensures
            r@ == (ChunkView { x: x as int, y: y as int, tiles: template_tiles() }),
            r.wf(),
    {
        let mut tiles: Vec<u16> = Vec::new();
        let mut k: usize = 0;
        while k < CHUNK_TILES
            invariant
                k <= CHUNK_TILES,
                tiles@ == Seq::new(k as nat, |i: int| TEMPLATE_CODE),
            decreases CHUNK_TILES - k,
        {
            tiles.push(TEMPLATE_CODE);
            k = k + 1;
        }
        Chunk { x, y, tiles }
    }

    /// The chunk at `(x, y)` generated under the world `seed`: each tile is
    /// drawn from `0..=MAX_CODE` by a generator seeded from a mix of the world
    /// seed, both coordinates and the tile's index.
    pub fn random(x: i32, y: i32, seed: u32) -> (r: Chunk)
        ensures
            r@ == generated_view(x, y, seed),
            r.wf(),
            forall|k: int| 0 <= k < CHUNK_TILES ==> r@.tiles[k] <= MAX_CODE,
    {
        let cs = chunk_seed(seed, x, y);
        let mut tiles: Vec<u16> = Vec::new();
        let mut k: usize = 0;
        while k < CHUNK_TILES
            invariant
                k <= CHUNK_TILES,
                cs == spec_chunk_seed(seed, x, y),
                tiles@ == generated_tiles(seed, x, y).take(k as int),
                forall|i: int| 0 <= i < k ==> tiles@[i] <= MAX_CODE,
            decreases CHUNK_TILES - k,
        {
            let code = draw_code(tile_seed(cs, k as u64), MAX_CODE);
            tiles.push(code);
            proof {
                assert(tiles@ =~= generated_tiles(seed, x, y).take(k + 1));
            }
            k = k + 1;
        }
        proof {
            assert(tiles@ =~= generated_tiles(seed, x, y));
        }
        Chunk { x, y, tiles }
    }

    /// Whether the chunk holds one code per tile; every chunk made here does.
    pub fn has_all_tiles(&self) -> (r: bool)
        ensures
            r == self.wf(),
    {
        self.tiles.len() == CHUNK_TILES
    }

    pub fn x(&self) -> (r: i32)
        ensures
            r == self@.x,
    {
        self.x
    }

    pub fn y(&self) -> (r: i32)
        ensures
            r == self@.y,
    {
        self.y
    }

    /// The code of the tile at `index`, counted row by row.
    pub fn tile_code(&self, index: usize) -> (r: u16)
        requires
            self.wf(),
            index < CHUNK_TILES,
        ensures
            r == self@.tiles[index as int],
    {
        self.tiles[index]
    }

    /// The code of the tile in column `col` and row `row`.
    pub fn tile(&self, col: usize, row: usize) -> (r: u16)
        requires
            self.wf(),
            col < CHUNK_SIZE,
            row < CHUNK_SIZE,
        ensures
            r == self@.tiles[row * CHUNK_SIZE + col],
    {
        self.tiles[row * CHUNK_SIZE + col]
    }
}

} // verus!
