use vstd::prelude::*;
use vstd::arithmetic::div_mod::lemma_fundamental_div_mod;
use crate::chunk::{ChunkView, CHUNK_SIZE, CHUNK_TILES};
use crate::tile::{classify, kind_of, TileKind};
use crate::world::{cell_index, rects_overlap, WorldMap, WorldView};

verus! {

/// The camera's window on the world, in pixels: its top-left corner and its
/// size.
#[derive(Clone, Copy, Debug, PartialEq, Eq, Structural)]
pub struct CameraRect {
    pub x: i32,
    pub y: i32,
    pub width: u32,
    pub height: u32,
}

/// A tile to draw: its top-left corner in world pixels and its kind.
#[derive(Clone, Copy, Debug, PartialEq, Eq, Structural)]
pub struct VisibleTile {
    pub x: i32,
    pub y: i32,
    pub kind: TileKind,
}

impl View for VisibleTile {
    type V = (int, int, TileKind);

    open spec fn view(&self) -> (int, int, TileKind) {
        (self.x as int, self.y as int, self.kind)
    }
}

/// The square of side `cp` anchored at chunk `c` shares area with the camera.
pub open spec fn chunk_visible(c: ChunkView, cp: int, cam: CameraRect) -> bool {
    rects_overlap(c.x, c.y, cp, cp, cam.x as int, cam.y as int, cam.width as int, cam.height as int)
}

/// The tile at `index` of chunk `c` (counted row by row), with tiles of side
/// `ts`: its corner in world pixels and its kind.
pub open spec fn tile_view(c: ChunkView, ts: int, index: int) -> (int, int, TileKind) {
    (
        c.x + (index % CHUNK_SIZE as int) * ts,
        c.y + (index / CHUNK_SIZE as int) * ts,
        kind_of(c.tiles[index]),
    )
}

/// All tiles of chunk `c`, row by row.
pub open spec fn chunk_tiles(c: ChunkView, ts: int) -> Seq<(int, int, TileKind)> {
    Seq::new(CHUNK_TILES as nat, |k: int| tile_view(c, ts, k))
}

/// The tiles that the first `n` chunks of `chunks` give to a camera: all
/// tiles of each chunk whose square overlaps it, chunk after chunk.
pub open spec fn visible_prefix(chunks: Seq<ChunkView>, ts: int, cam: CameraRect, n: int) -> Seq<
    (int, int, TileKind),
>
    decreases n,
{
    if n <= 0 {
        Seq::empty()
    } else {
        let c = chunks[n - 1];
        visible_prefix(chunks, ts, cam, n - 1) + if chunk_visible(c, CHUNK_SIZE * ts, cam) {
            chunk_tiles(c, ts)
        } else {
            Seq::empty()
        }
    }
}

/// The tiles that world `m` gives to a camera.
pub open spec fn visible(m: WorldView, cam: CameraRect) -> Seq<(int, int, TileKind)> {
    visible_prefix(m.chunks, m.tile_size as int, cam, m.chunks.len() as int)
}

/// The chunk at `index` of a world lies inside the world's extent.
proof fn lemma_chunk_in_extent(m: WorldView, index: int)
    requires
        m.wf(),
        0 <= index < m.chunks.len(),
    ensures
        0 <= m.chunks[index].x,
        m.chunks[index].x + m.chunk_pixels() <= m.cols * m.chunk_pixels(),
        0 <= m.chunks[index].y,
        m.chunks[index].y + m.chunk_pixels() <= m.rows * m.chunk_pixels(),
        m.chunks[index].tiles.len() == CHUNK_TILES,
{
    let cols = m.cols as int;
    let cx = index % cols;
    let cy = index / cols;
    lemma_fundamental_div_mod(index, cols);
    assert(0 <= cy < m.rows) by (nonlinear_arith)
        requires
            index == cols * cy + cx,
            0 <= cx < cols,
            0 <= index < cols * m.rows,
    ;
    assert(cell_index(cols, cx, cy) == index);
    let cp = m.chunk_pixels();
    assert(0 <= cx * cp && cx * cp + cp <= cols * cp && 0 <= cy * cp && cy * cp + cp <= m.rows
        * cp) by (nonlinear_arith)
        requires
            0 <= cx < cols,
            0 <= cy < m.rows,
            cp > 0,
    ;
}

/// Every tile of a chunk that overlaps the camera is among the visible tiles.
proof fn lemma_prefix_contains(
    chunks: Seq<ChunkView>,
    ts: int,
    cam: CameraRect,
    n: int,
    i: int,
    k: int,
)
    requires
        0 <= i < n <= chunks.len(),
        0 <= k < CHUNK_TILES,
        chunks[i].tiles.len() == CHUNK_TILES,
        chunk_visible(chunks[i], CHUNK_SIZE * ts, cam),
    ensures
        visible_prefix(chunks, ts, cam, n).contains(tile_view(chunks[i], ts, k)),
    decreases n,
{
    let prev = visible_prefix(chunks, ts, cam, n - 1);
    let here = if chunk_visible(chunks[n - 1], CHUNK_SIZE * ts, cam) {
        chunk_tiles(chunks[n - 1], ts)
    } else {
        Seq::empty()
    };
    assert(visible_prefix(chunks, ts, cam, n) == prev + here);
    if i < n - 1 {
        lemma_prefix_contains(chunks, ts, cam, n - 1, i, k);
        let j = choose|j: int| 0 <= j < prev.len() && prev[j] == tile_view(chunks[i], ts, k);
        assert((prev + here)[j] == tile_view(chunks[i], ts, k));
    } else {
        assert((prev + here)[prev.len() + k] == tile_view(chunks[i], ts, k));
    }
}

/// No tile is visible through a camera that overlaps no chunk.
proof fn lemma_prefix_empty(chunks: Seq<ChunkView>, ts: int, cam: CameraRect, n: int)
    requires
        0 <= n <= chunks.len(),
        forall|i: int|
            #![trigger chunks[i]]
            0 <= i < chunks.len() ==> !chunk_visible(chunks[i], CHUNK_SIZE * ts, cam),
    ensures
        visible_prefix(chunks, ts, cam, n) == Seq::<(int, int, TileKind)>::empty(),
    decreases n,
{
    if n > 0 {
        lemma_prefix_empty(chunks, ts, cam, n - 1);
        assert(!chunk_visible(chunks[n - 1], CHUNK_SIZE * ts, cam));
        assert(visible_prefix(chunks, ts, cam, n) =~= Seq::<(int, int, TileKind)>::empty());
    }
}

/// Culling loses no tile: every tile of every chunk whose own square overlaps
/// the camera is among the visible tiles.
pub proof fn lemma_culling_complete(m: WorldView, cam: CameraRect, index: int, k: int)
    requires
        m.wf(),
        0 <= index < m.chunks.len(),
        0 <= k < CHUNK_TILES,
        rects_overlap(
            tile_view(m.chunks[index], m.tile_size as int, k).0,
            tile_view(m.chunks[index], m.tile_size as int, k).1,
            m.tile_size as int,
            m.tile_size as int,
            cam.x as int,
            cam.y as int,
            cam.width as int,
            cam.height as int,
        ),
    ensures
        visible(m, cam).contains(tile_view(m.chunks[index], m.tile_size as int, k)),
{
    let ts = m.tile_size as int;
    let c = m.chunks[index];
    lemma_chunk_in_extent(m, index);
    let col = k % CHUNK_SIZE as int;
    let row = k / CHUNK_SIZE as int;
    assert(0 <= col * ts && col * ts + ts <= CHUNK_SIZE * ts && 0 <= row * ts && row * ts + ts
        <= CHUNK_SIZE * ts) by (nonlinear_arith)
        requires
            0 <= col < CHUNK_SIZE,
            0 <= row < CHUNK_SIZE,
            ts > 0,
    ;
    lemma_prefix_contains(m.chunks, ts, cam, m.chunks.len() as int, index, k);
}

/// A camera that overlaps no chunk sees no tile.
pub proof fn lemma_culling_outside(m: WorldView, cam: CameraRect)
    requires
        forall|i: int|
            #![trigger m.chunks[i]]
            0 <= i < m.chunks.len() ==> !chunk_visible(m.chunks[i], m.chunk_pixels(), cam),
    ensures
        visible(m, cam) == Seq::<(int, int, TileKind)>::empty(),
{
    lemma_prefix_empty(m.chunks, m.tile_size as int, cam, m.chunks.len() as int);
}

/// A camera that shares no area with the world's extent sees no tile.
pub proof fn lemma_culling_outside_world(m: WorldView, cam: CameraRect)
    requires
        m.wf(),
        !rects_overlap(
            0,
            0,
            m.extent().0,
            m.extent().1,
            cam.x as int,
            cam.y as int,
            cam.width as int,
            cam.height as int,
        ),
    ensures
        visible(m, cam) == Seq::<(int, int, TileKind)>::empty(),
{
    assert forall|i: int|
        #![trigger m.chunks[i]]
        0 <= i < m.chunks.len() implies !chunk_visible(m.chunks[i], m.chunk_pixels(), cam) by {
        lemma_chunk_in_extent(m, i);
    }
    lemma_culling_outside(m, cam);
}

impl WorldMap {
    /// The tiles to draw for `camera`: for each chunk, row by row over the
    /// grid, whose square overlaps the camera (touching an edge is not
    /// overlapping), each of its tiles row by row, with its corner in world
    /// pixels and its kind. Tiles of such a chunk that fall outside the
    /// camera are kept: culling is by chunk.
    pub fn visible_tiles(&self, camera: CameraRect) -> (r: Vec<VisibleTile>)
        requires
            self.wf(),
        ensures
            r@.map_values(|t: VisibleTile| t@) == visible(self@, camera),
    {
        let ghost m = self@;
        let ghost tsi = m.tile_size as int;
        proof {
            assert(m.chunk_pixels() <= m.cols * m.chunk_pixels()) by (nonlinear_arith)
                requires
                    m.cols >= 1,
                    m.chunk_pixels() >= 1,
            ;
        }
        let ts: i32 = self.tile_size() as i32;
        let cp: i64 = CHUNK_SIZE as i64 * ts as i64;
        let left: i64 = camera.x as i64;
        let top: i64 = camera.y as i64;
        let right: i64 = left + camera.width as i64;
        let bottom: i64 = top + camera.height as i64;
        let n = self.chunk_count();
        let mut out: Vec<VisibleTile> = Vec::new();
        let mut i: usize = 0;
        while i < n
            invariant
                self.wf(),
                m == self@,
                tsi == m.tile_size,
                ts == tsi,
                cp == m.chunk_pixels(),
                left == camera.x,
                top == camera.y,
                right == camera.x + camera.width,
                bottom == camera.y + camera.height,
                n == m.chunks.len(),
                i <= n,
                out@.map_values(|t: VisibleTile| t@) == visible_prefix(m.chunks, tsi, camera, i as int),
            decreases n - i,
        {
            let c = self.chunk(i);
            proof {
                lemma_chunk_in_extent(m, i as int);
            }
            let x: i64 = c.x() as i64;
            let y: i64 = c.y() as i64;
            let ghost before = out@.map_values(|t: VisibleTile| t@);
            if x < right && left < x + cp && y < bottom && top < y + cp {
                let mut k: usize = 0;
                while k < CHUNK_TILES
                    invariant
                        c.wf(),
                        ts == tsi,
                        tsi > 0,
                        0 <= c@.x,
                        c@.x + CHUNK_SIZE * tsi <= i32::MAX,
                        0 <= c@.y,
                        c@.y + CHUNK_SIZE * tsi <= i32::MAX,
                        k <= CHUNK_TILES,
                        out@.map_values(|t: VisibleTile| t@) == before + chunk_tiles(c@, tsi).take(
                            k as int,
                        ),
                    decreases CHUNK_TILES - k,
                {
                    let col: usize = k % CHUNK_SIZE;
                    let row: usize = k / CHUNK_SIZE;
                    proof {
                        assert(0 <= col * tsi < CHUNK_SIZE * tsi && 0 <= row * tsi < CHUNK_SIZE
                            * tsi) by (nonlinear_arith)
                            requires
                                0 <= col < CHUNK_SIZE,
                                0 <= row < CHUNK_SIZE,
                                tsi > 0,
                        ;
                    }
                    let px: i32 = c.x() + col as i32 * ts;
                    let py: i32 = c.y() + row as i32 * ts;
                    let kind = classify(c.tile_code(k));
                    let ghost prev = out@;
                    out.push(VisibleTile { x: px, y: py, kind });
                    proof {
                        assert(out@.map_values(|t: VisibleTile| t@) =~= prev.map_values(
                            |t: VisibleTile| t@,
                        ).push(tile_view(c@, tsi, k as int)));
                        assert(chunk_tiles(c@, tsi).take(k + 1) =~= chunk_tiles(c@, tsi).take(
                            k as int,
                        ).push(tile_view(c@, tsi, k as int)));
                        assert(out@.map_values(|t: VisibleTile| t@) =~= before + chunk_tiles(
                            c@,
                            tsi,
                        ).take(k + 1));
                    }
                    k = k + 1;
                }
                proof {
                    assert(chunk_tiles(c@, tsi).take(CHUNK_TILES as int) =~= chunk_tiles(c@, tsi));
                }
            } else {
                proof {
                    assert(before + Seq::<(int, int, TileKind)>::empty() =~= before);
                }
            }
            i = i + 1;
        }
        out
    }
}

} // verus!
