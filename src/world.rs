use vstd::prelude::*;
use vstd::arithmetic::div_mod::{lemma_fundamental_div_mod, lemma_fundamental_div_mod_converse};
use rand::Rng;
use crate::chunk::{generated_view, Chunk, ChunkView, CHUNK_SIZE, CHUNK_TILES};

verus! {

/// The lowest world seed that `random_seed` draws.
pub const SEED_LOW: u32 = 100000000;

/// One past the highest world seed that `random_seed` draws.
pub const SEED_END: u32 = 1000000000;

/// Why a world could not be built or could not go on streaming.
#[derive(Clone, Copy, Debug, PartialEq, Eq, Structural)]
pub enum WorldError {
    /// The grid has no chunk along one of its axes.
    EmptyGrid,
    /// The tile size is zero.
    ZeroTileSize,
    /// The world's pixel extent does not fit in an `i32`.
    TooLarge,
    /// Generated chunks came back while no request was outstanding.
    NoPendingRequest,
    /// Generated chunks do not answer the oldest outstanding request entry
    /// by entry.
    ResponseMismatch,
    /// A channel to or from the generation worker was closed.
    ChannelClosed,
}

/// Index of the cell in column `cx` and row `cy` of a grid `cols` wide.
pub open spec fn cell_index(cols: int, cx: int, cy: int) -> int {
    cy * cols + cx
}

/// Side of a chunk in pixels for a tile size.
pub open spec fn chunk_pixels(tile_size: int) -> int {
    CHUNK_SIZE * tile_size
}

/// The configuration error of a grid `cols` by `rows` chunks with tiles of
/// `tile_size` pixels, if it has one.
pub open spec fn config_error(cols: u32, rows: u32, tile_size: u32) -> Option<WorldError> {
    if cols == 0 || rows == 0 {
        Some(WorldError::EmptyGrid)
    } else if tile_size == 0 {
        Some(WorldError::ZeroTileSize)
    } else if cols * chunk_pixels(tile_size as int) > i32::MAX || rows * chunk_pixels(
        tile_size as int,
    ) > i32::MAX {
        Some(WorldError::TooLarge)
    } else {
        None
    }
}

/// What a world holds: its size in chunks, its tile size and seed, its chunks
/// row by row, and the requests sent to the generation worker and not yet
/// answered, oldest first.
pub struct WorldView {
    pub cols: nat,
    pub rows: nat,
    pub tile_size: nat,
    pub seed: u32,
    pub chunks: Seq<ChunkView>,
    pub pending: Seq<Seq<(i32, i32)>>,
}

impl WorldView {
    pub open spec fn chunk_pixels(self) -> int {
        chunk_pixels(self.tile_size as int)
    }

    /// Width and height of the world in pixels.
    pub open spec fn extent(self) -> (int, int) {
        (self.cols * self.chunk_pixels(), self.rows * self.chunk_pixels())
    }

    pub open spec fn in_grid(self, cx: int, cy: int) -> bool {
        0 <= cx < self.cols && 0 <= cy < self.rows
    }

    /// The chunk in column `cx` and row `cy`.
    pub open spec fn chunk_at(self, cx: int, cy: int) -> ChunkView {
        self.chunks[cell_index(self.cols as int, cx, cy)]
    }

    /// Every cell holds one chunk, anchored where the cell starts, so the
    /// chunks tile the world.
    pub open spec fn wf(self) -> bool {
        &&& self.cols > 0
        &&& self.rows > 0
        &&& self.tile_size > 0
        &&& self.cols * self.chunk_pixels() <= i32::MAX
        &&& self.rows * self.chunk_pixels() <= i32::MAX
        &&& self.chunks.len() == self.cols * self.rows
        &&& forall|cx: int, cy: int|
            #![trigger cell_index(self.cols as int, cx, cy)]
            self.in_grid(cx, cy) ==> {
                let c = self.chunks[cell_index(self.cols as int, cx, cy)];
                &&& c.x == cx * self.chunk_pixels()
                &&& c.y == cy * self.chunk_pixels()
                &&& c.tiles.len() == CHUNK_TILES
            }
    }

    /// The index of the cell whose chunk is anchored at pixel `(x, y)`.
    pub open spec fn cell_of(self, x: int, y: int) -> Option<int> {
        let cp = self.chunk_pixels();
        if 0 <= x && 0 <= y && x % cp == 0 && y % cp == 0 && x / cp < self.cols && y / cp
            < self.rows {
            Some(cell_index(self.cols as int, x / cp, y / cp))
        } else {
            None
        }
    }

    /// The world after `c` is installed: it replaces the chunk of the cell
    /// anchored at its origin; a chunk anchored elsewhere changes nothing.
    pub open spec fn installed(self, c: ChunkView) -> WorldView {
        match self.cell_of(c.x, c.y) {
            Some(i) => WorldView { chunks: self.chunks.update(i, c), ..self },
            None => self,
        }
    }
}

/// The chunk that generation puts in column `cx` and row `cy` of a grid
/// whose chunks are `cp` pixels wide.
#[verifier::opaque]
pub open spec fn cell_chunk(seed: u32, cp: int, cx: int, cy: int) -> ChunkView {
    generated_view((cx * cp) as i32, (cy * cp) as i32, seed)
}

/// Installing a chunk keeps a world well formed.
pub proof fn lemma_installed_wf(m: WorldView, c: ChunkView)
    requires
        m.wf(),
        c.tiles.len() == CHUNK_TILES,
    ensures
        m.installed(c).wf(),
{
    let cp = m.chunk_pixels();
    if let Some(i) = m.cell_of(c.x, c.y) {
        let qx = c.x / cp;
        let qy = c.y / cp;
        lemma_fundamental_div_mod(c.x, cp);
        lemma_fundamental_div_mod(c.y, cp);
        assert(c.x == qx * cp && c.y == qy * cp) by (nonlinear_arith)
            requires
                c.x == cp * qx + c.x % cp,
                c.y == cp * qy + c.y % cp,
                c.x % cp == 0,
                c.y % cp == 0,
        ;
        assert(0 <= qx && 0 <= qy) by (nonlinear_arith)
            requires
                0 <= c.x,
                0 <= c.y,
                cp > 0,
                qx == c.x / cp,
                qy == c.y / cp,
        ;
        lemma_cell_index(m.cols as int, m.rows as int, qx, qy);
        let n = m.installed(c);
        assert forall|cx: int, cy: int|
            #![trigger cell_index(n.cols as int, cx, cy)]
            n.in_grid(cx, cy) implies ({
                let d = n.chunks[cell_index(n.cols as int, cx, cy)];
                &&& d.x == cx * n.chunk_pixels()
                &&& d.y == cy * n.chunk_pixels()
                &&& d.tiles.len() == CHUNK_TILES
            }) by {
            lemma_cell_index(m.cols as int, m.rows as int, cx, cy);
            if cell_index(m.cols as int, cx, cy) == i {
                lemma_cell_index_injective(m.cols as int, m.rows as int, cx, cy, qx, qy);
            }
        }
    }
}

/// `response` answers `request` entry by entry: as many chunks as
/// coordinates, the chunk at each position anchored at the coordinate at
/// that position, each holding a full set of tiles.
pub open spec fn answers(request: Seq<(i32, i32)>, response: Seq<ChunkView>) -> bool {
    &&& request.len() == response.len()
    &&& forall|i: int|
        #![trigger response[i]]
        0 <= i < response.len() ==> {
            &&& response[i].x == request[i].0
            &&& response[i].y == request[i].1
            &&& response[i].tiles.len() == CHUNK_TILES
        }
}

/// The world after each chunk of `chunks` is installed, first to last.
pub open spec fn install_all(m: WorldView, chunks: Seq<ChunkView>) -> WorldView
    decreases chunks.len(),
{
    if chunks.len() == 0 {
        m
    } else {
        install_all(m.installed(chunks[0]), chunks.drop_first())
    }
}

/// Two axis-aligned rectangles, each given by its corner and its size, share
/// some area: each starts strictly before the other ends, on both axes.
pub open spec fn rects_overlap(
    ax: int,
    ay: int,
    aw: int,
    ah: int,
    bx: int,
    by: int,
    bw: int,
    bh: int,
) -> bool {
    ax < bx + bw && bx < ax + aw && ay < by + bh && by < ay + ah
}

/// Pixel `(px, py)` lies in the square of side `cp` anchored at chunk `c`.
pub open spec fn chunk_contains(c: ChunkView, cp: int, px: int, py: int) -> bool {
    c.x <= px < c.x + cp && c.y <= py < c.y + cp
}

/// Installing the same chunk twice leaves the world as installing it once.
pub proof fn lemma_install_idempotent(m: WorldView, c: ChunkView)
    requires
        m.wf(),
        c.tiles.len() == CHUNK_TILES,
    ensures
        m.installed(c).installed(c) == m.installed(c),
{
    if let Some(i) = m.cell_of(c.x, c.y) {
        let n = m.installed(c);
        let cp = m.chunk_pixels();
        assert(0 <= c.x / cp && 0 <= c.y / cp) by (nonlinear_arith)
            requires
                0 <= c.x,
                0 <= c.y,
                cp > 0,
        ;
        lemma_cell_index(m.cols as int, m.rows as int, c.x / cp, c.y / cp);
        assert(n.cell_of(c.x, c.y) == Some(i));
        assert(n.installed(c).chunks =~= n.chunks);
        assert(n.installed(c) =~= n);
    }
}

/// The squares of two different cells of a world never overlap.
pub proof fn lemma_chunks_disjoint(m: WorldView, a: int, b: int, c: int, d: int)
    requires
        m.wf(),
        m.in_grid(a, b),
        m.in_grid(c, d),
        a != c || b != d,
    ensures
        !rects_overlap(
            m.chunk_at(a, b).x,
            m.chunk_at(a, b).y,
            m.chunk_pixels(),
            m.chunk_pixels(),
            m.chunk_at(c, d).x,
            m.chunk_at(c, d).y,
            m.chunk_pixels(),
            m.chunk_pixels(),
        ),
{
    let cp = m.chunk_pixels();
    assert(m.chunks[cell_index(m.cols as int, a, b)].x == a * cp);
    assert(m.chunks[cell_index(m.cols as int, c, d)].x == c * cp);
    assert(m.chunks[cell_index(m.cols as int, a, b)].y == b * cp);
    assert(m.chunks[cell_index(m.cols as int, c, d)].y == d * cp);
    if a != c {
        assert(!(a * cp < c * cp + cp && c * cp < a * cp + cp)) by (nonlinear_arith)
            requires
                a != c,
                cp > 0,
        ;
    } else {
        assert(!(b * cp < d * cp + cp && d * cp < b * cp + cp)) by (nonlinear_arith)
            requires
                b != d,
                cp > 0,
        ;
    }
}

/// Every pixel of the world's extent lies in the square of exactly one cell:
/// the cell of column `px / cp` and row `py / cp`, where `cp` is the side of a
/// chunk in pixels.
pub proof fn lemma_chunks_cover(m: WorldView, px: int, py: int)
    requires
        m.wf(),
        0 <= px < m.extent().0,
        0 <= py < m.extent().1,
    ensures
        m.in_grid(px / m.chunk_pixels(), py / m.chunk_pixels()),
        chunk_contains(
            m.chunk_at(px / m.chunk_pixels(), py / m.chunk_pixels()),
            m.chunk_pixels(),
            px,
            py,
        ),
        forall|cx: int, cy: int|
            #![trigger m.chunk_at(cx, cy)]
            m.in_grid(cx, cy) && chunk_contains(m.chunk_at(cx, cy), m.chunk_pixels(), px, py)
                ==> cx == px / m.chunk_pixels() && cy == py / m.chunk_pixels(),
{
    let cp = m.chunk_pixels();
    let qx = px / cp;
    let qy = py / cp;
    lemma_fundamental_div_mod(px, cp);
    lemma_fundamental_div_mod(py, cp);
    assert(0 <= qx < m.cols && qx * cp <= px < qx * cp + cp) by (nonlinear_arith)
        requires
            px == cp * qx + px % cp,
            0 <= px % cp < cp,
            0 <= px < m.cols * cp,
            cp > 0,
    ;
    assert(0 <= qy < m.rows && qy * cp <= py < qy * cp + cp) by (nonlinear_arith)
        requires
            py == cp * qy + py % cp,
            0 <= py % cp < cp,
            0 <= py < m.rows * cp,
            cp > 0,
    ;
    assert(m.chunks[cell_index(m.cols as int, qx, qy)].x == qx * cp);
    assert(m.chunks[cell_index(m.cols as int, qx, qy)].y == qy * cp);
    assert forall|cx: int, cy: int|
        #![trigger m.chunk_at(cx, cy)]
        m.in_grid(cx, cy) && chunk_contains(m.chunk_at(cx, cy), cp, px, py) implies cx == qx
        && cy == qy by {
        assert(m.chunks[cell_index(m.cols as int, cx, cy)].x == cx * cp);
        assert(m.chunks[cell_index(m.cols as int, cx, cy)].y == cy * cp);
        assert(cx == qx) by (nonlinear_arith)
            requires
                cx * cp <= px < cx * cp + cp,
                qx * cp <= px < qx * cp + cp,
                cp > 0,
        ;
        assert(cy == qy) by (nonlinear_arith)
            requires
                cy * cp <= py < cy * cp + cp,
                qy * cp <= py < qy * cp + cp,
                cp > 0,
        ;
    }
}

/// The cells of a grid `cols` wide are numbered row by row without gaps.
pub proof fn lemma_cell_index(cols: int, rows: int, cx: int, cy: int)
    requires
        0 <= cx < cols,
        0 <= cy < rows,
    ensures
        0 <= cell_index(cols, cx, cy) < cols * rows,
        cell_index(cols, cx, cy) % cols == cx,
        cell_index(cols, cx, cy) / cols == cy,
{
    lemma_fundamental_div_mod_converse(cell_index(cols, cx, cy), cols, cy, cx);
    assert(0 <= cy * cols) by (nonlinear_arith)
        requires
            0 <= cy,
            0 < cols,
    ;
    assert(cy * cols + cx < cols * rows) by (nonlinear_arith)
        requires
            0 <= cx < cols,
            0 <= cy < rows,
    ;
}

/// Two cells of the grid with one index are one cell.
pub proof fn lemma_cell_index_injective(cols: int, rows: int, a: int, b: int, c: int, d: int)
    requires
        0 <= a < cols,
        0 <= b < rows,
        0 <= c < cols,
        0 <= d < rows,
        cell_index(cols, a, b) == cell_index(cols, c, d),
    ensures
        a == c,
        b == d,
{
    lemma_cell_index(cols, rows, a, b);
    lemma_cell_index(cols, rows, c, d);
}

/// The world's configuration error, or its pixel extent: `chunks * CHUNK_SIZE
/// * tile_size` along each axis.
pub fn world_pixel_extent(cols: u32, rows: u32, tile_size: u32) -> (r: Result<(u32, u32), WorldError>)
    ensures
        match config_error(cols, rows, tile_size) {
            Some(e) => r == Err::<(u32, u32), WorldError>(e),
            None => r == Ok::<(u32, u32), WorldError>(
                (
                    (cols * chunk_pixels(tile_size as int)) as u32,
                    (rows * chunk_pixels(tile_size as int)) as u32,
                ),
            ),
        },
{
    if cols == 0 || rows == 0 {
        return Err(WorldError::EmptyGrid);
    }
    if tile_size == 0 {
        return Err(WorldError::ZeroTileSize);
    }
    let cp: u64 = CHUNK_SIZE as u64 * tile_size as u64;
    if cp > i32::MAX as u64 {
        assert(cols * cp > i32::MAX) by (nonlinear_arith)
            requires
                cols >= 1,
                cp > i32::MAX,
        ;
        return Err(WorldError::TooLarge);
    }
    assert(cols * cp <= u32::MAX * i32::MAX && rows * cp <= u32::MAX * i32::MAX) by (nonlinear_arith)
        requires
            cols <= u32::MAX,
            rows <= u32::MAX,
            0 <= cp <= i32::MAX,
    ;
    let w: u64 = cols as u64 * cp;
    let h: u64 = rows as u64 * cp;
    if w > i32::MAX as u64 || h > i32::MAX as u64 {
        return Err(WorldError::TooLarge);
    }
    Ok((w as u32, h as u32))
}

/// Relies on rand's `thread_rng` and `Rng::gen_range`: the value drawn lies in
/// `low..high`.
#[verifier::external_body]
fn draw_between(low: u32, high: u32) -> (r: u32)
    requires
        low < high,
    ensures
        low <= r < high,
{
    rand::thread_rng().gen_range(low..high)
}

/// A fresh world seed, drawn from the thread's generator.
pub fn random_seed() -> (r: u32)
    ensures
        SEED_LOW <= r < SEED_END,
{
    draw_between(SEED_LOW, SEED_END)
}

/// A world of chunks, the unit of generation and of culling, on a fixed grid.
/// The chunk in column `cx` and row `cy` is anchored at pixel
/// `(cx * CHUNK_SIZE * tile_size, cy * CHUNK_SIZE * tile_size)`.
pub struct WorldMap {
    chunks: Vec<Chunk>,
    cols: u32,
    rows: u32,
    tile_size: u32,
    seed: u32,
    pending: Vec<Vec<(i32, i32)>>,
}

impl View for WorldMap {
    type V = WorldView;

    closed spec fn view(&self) -> WorldView {
        WorldView {
            cols: self.cols as nat,
            rows: self.rows as nat,
            tile_size: self.tile_size as nat,
            seed: self.seed,
            chunks: self.chunks@.map_values(|c: Chunk| c@),
            pending: self.pending@.map_values(|v: Vec<(i32, i32)>| v@),
        }
    }
}

impl WorldMap {
    pub open spec fn wf(&self) -> bool {
        self@.wf()
    }

    /// A world of `cols` by `rows` chunks with tiles of `tile_size` pixels,
    /// every chunk generated from `seed`, with no request outstanding. Fails
    /// with the configuration error, if there is one.
    pub fn new(cols: u32, rows: u32, tile_size: u32, seed: u32) -> (r: Result<WorldMap, WorldError>)
        ensures
            match config_error(cols, rows, tile_size) {
                Some(e) => r == Err::<WorldMap, WorldError>(e),
                None => r is Ok,
            },
            r matches Ok(m) ==> {
                &&& m.wf()
                &&& m@.cols == cols
                &&& m@.rows == rows
                &&& m@.tile_size == tile_size
                &&& m@.seed == seed
                &&& m@.pending.len() == 0
                &&& forall|cx: int, cy: int|
                    #![trigger m@.chunk_at(cx, cy)]
                    m@.in_grid(cx, cy) ==> m@.chunk_at(cx, cy) == generated_view(
                        (cx * m@.chunk_pixels()) as i32,
                        (cy * m@.chunk_pixels()) as i32,
                        seed,
                    )
            },
    {
        match world_pixel_extent(cols, rows, tile_size) {
            Err(e) => Err(e),
            Ok(_) => {
                let ghost cpi = chunk_pixels(tile_size as int);
                assert(cpi <= i32::MAX && cols <= cols * cpi && rows <= rows * cpi) by (nonlinear_arith)
                    requires
                        cols >= 1,
                        rows >= 1,
                        cpi >= 1,
                        cols * cpi <= i32::MAX,
                        rows * cpi <= i32::MAX,
                ;
                let cp: i32 = (CHUNK_SIZE as u32 * tile_size) as i32;
                let mut chunks: Vec<Chunk> = Vec::new();
                let mut cy: u32 = 0;
                while cy < rows
                    invariant
                        cy <= rows,
                        cols > 0,
                        cp == cpi,
                        cpi > 0,
                        cols * cpi <= i32::MAX,
                        rows * cpi <= i32::MAX,
                        cols <= i32::MAX,
                        rows <= i32::MAX,
                        chunks.len() == cy * cols,
                        forall|a: int, b: int|
                            #![trigger cell_index(cols as int, a, b)]
                            0 <= a < cols && 0 <= b < cy ==> chunks@[cell_index(cols as int, a, b)]@
                                == cell_chunk(seed, cpi, a, b),
                    decreases rows - cy,
                {
                    let mut cx: u32 = 0;
                    while cx < cols
                        invariant
                            cy < rows,
                            cx <= cols,
                            cols > 0,
                            cp == cpi,
                            cpi > 0,
                            cols * cpi <= i32::MAX,
                            rows * cpi <= i32::MAX,
                            cols <= i32::MAX,
                            rows <= i32::MAX,
                            chunks.len() == cy * cols + cx,
                            forall|a: int, b: int|
                                #![trigger cell_index(cols as int, a, b)]
                                (0 <= a < cols && 0 <= b < cy) || (0 <= a < cx && b == cy)
                                    ==> chunks@[cell_index(cols as int, a, b)]@ == cell_chunk(seed, cpi, a, b),
                        decreases cols - cx,
                    {
                        assert(cx * cpi < cols * cpi && cy * cpi < rows * cpi) by (nonlinear_arith)
                            requires
                                cx < cols,
                                cy < rows,
                                cpi > 0,
                        ;
                        assert(0 <= cx * cpi && 0 <= cy * cpi) by (nonlinear_arith)
                            requires
                                cpi > 0,
                        ;
                        let x: i32 = cx as i32 * cp;
                        let y: i32 = cy as i32 * cp;
                        let ghost old_chunks = chunks@;
                        chunks.push(Chunk::random(x, y, seed));
                        proof {
                            assert forall|a: int, b: int|
                                #![trigger cell_index(cols as int, a, b)]
                                (0 <= a < cols && 0 <= b < cy) || (0 <= a < cx + 1 && b == cy)
                                    implies chunks@[cell_index(cols as int, a, b)]@
                                    == cell_chunk(seed, cpi, a, b) by {
                                lemma_cell_index(cols as int, rows as int, a, b);
                                if a == cx && b == cy {
                                    reveal(cell_chunk);
                                } else {
                                    assert(cell_index(cols as int, a, b) < old_chunks.len())
                                        by (nonlinear_arith)
                                        requires
                                            (0 <= a < cols && 0 <= b < cy) || (0 <= a < cx && b == cy),
                                            old_chunks.len() == cy * cols + cx,
                                    ;
                                }
                            }
                        }
                        cx = cx + 1;
                    }
                    assert((cy + 1) * cols == cy * cols + cols) by (nonlinear_arith);
                    cy = cy + 1;
                }
                let m = WorldMap { chunks, cols, rows, tile_size, seed, pending: Vec::new() };
                proof {
                    assert(m@.chunks.len() == cols * rows) by (nonlinear_arith)
                        requires
                            m@.chunks.len() == cy * cols,
                            cy == rows,
                    ;
                    assert forall|cx: int, cy: int|
                        #![trigger cell_index(m@.cols as int, cx, cy)]
                        m@.in_grid(cx, cy) implies ({
                            let c = m@.chunks[cell_index(m@.cols as int, cx, cy)];
                            &&& c.x == cx * m@.chunk_pixels()
                            &&& c.y == cy * m@.chunk_pixels()
                            &&& c.tiles.len() == CHUNK_TILES
                        }) by {
                        lemma_cell_index(cols as int, rows as int, cx, cy);
                        reveal(cell_chunk);
                        assert(0 <= cx * cpi < cols * cpi && 0 <= cy * cpi < rows * cpi) by (nonlinear_arith)
                            requires
                                0 <= cx < cols,
                                0 <= cy < rows,
                                cpi > 0,
                        ;
                    }
                    assert forall|cx: int, cy: int|
                        #![trigger m@.chunk_at(cx, cy)]
                        m@.in_grid(cx, cy) implies m@.chunk_at(cx, cy) == generated_view(
                            (cx * m@.chunk_pixels()) as i32,
                            (cy * m@.chunk_pixels()) as i32,
                            seed,
                        ) by {
                        lemma_cell_index(cols as int, rows as int, cx, cy);
                        reveal(cell_chunk);
                    }
                }
                Ok(m)
            },
        }
    }

    /// Width and height of the world in pixels.
    pub fn pixel_extent(&self) -> (r: (u32, u32))
        requires
            self.wf(),
        ensures
            r.0 == self@.extent().0,
            r.1 == self@.extent().1,
    {
        proof {
            let cpi = self@.chunk_pixels();
            assert(cpi <= self.cols * cpi && cpi <= self.rows * cpi) by (nonlinear_arith)
                requires
                    self.cols >= 1,
                    self.rows >= 1,
                    cpi >= 1,
            ;
        }
        let cp: u32 = CHUNK_SIZE as u32 * self.tile_size;
        (self.cols * cp, self.rows * cp)
    }

    pub fn cols(&self) -> (r: u32)
        ensures
            r == self@.cols,
    {
        self.cols
    }

    pub fn rows(&self) -> (r: u32)
        ensures
            r == self@.rows,
    {
        self.rows
    }

    pub fn tile_size(&self) -> (r: u32)
        ensures
            r == self@.tile_size,
    {
        self.tile_size
    }

    /// The seed that every chunk of this world is generated from.
    pub fn seed(&self) -> (r: u32)
        ensures
            r == self@.seed,
    {
        self.seed
    }

    /// Number of chunks, one per cell.
    pub fn chunk_count(&self) -> (r: usize)
        ensures
            r == self@.chunks.len(),
    {
        self.chunks.len()
    }

    /// The chunk of the cell at `index`, counted row by row.
    pub fn chunk(&self, index: usize) -> (r: &Chunk)
        requires
            index < self@.chunks.len(),
        ensures
            r@ == self@.chunks[index as int],
    {
        &self.chunks[index]
    }

    fn index_of(&self, cx: u32, cy: u32) -> (r: usize)
        requires
            self.wf(),
            cx < self@.cols,
            cy < self@.rows,
        ensures
            r == cell_index(self@.cols as int, cx as int, cy as int),
            r < self@.chunks.len(),
    {
        let count = self.chunks.len();
        proof {
            lemma_cell_index(self.cols as int, self.rows as int, cx as int, cy as int);
            assert(cell_index(self.cols as int, cx as int, cy as int) < count);
            assert(0 <= cy * self.cols <= cy * self.cols + cx) by (nonlinear_arith)
                requires
                    0 <= cx,
                    0 <= cy,
                    0 <= self.cols,
            ;
        }
        cy as usize * self.cols as usize + cx as usize
    }

    /// The chunk in column `cx` and row `cy`; nothing outside the grid.
    pub fn chunk_at(&self, cx: i32, cy: i32) -> (r: Option<&Chunk>)
        requires
            self.wf(),
        ensures
            r is Some <==> self@.in_grid(cx as int, cy as int),
            r matches Some(c) ==> c@ == self@.chunk_at(cx as int, cy as int),
    {
        if cx < 0 || cy < 0 || cx as u32 >= self.cols || cy as u32 >= self.rows {
            None
        } else {
            let i = self.index_of(cx as u32, cy as u32);
            Some(&self.chunks[i])
        }
    }

    /// The index of the cell whose chunk is anchored at pixel `(x, y)`.
    fn cell_of(&self, x: i32, y: i32) -> (r: Option<usize>)
        requires
            self.wf(),
        ensures
            r matches Some(i) ==> self@.cell_of(x as int, y as int) == Some(i as int) && i
                < self@.chunks.len(),
            r is None ==> self@.cell_of(x as int, y as int) is None,
    {
        if x < 0 || y < 0 {
            return None;
        }
        proof {
            let cpi = self@.chunk_pixels();
            assert(cpi <= self.cols * cpi) by (nonlinear_arith)
                requires
                    self.cols >= 1,
                    cpi >= 1,
            ;
        }
        let cp: u32 = CHUNK_SIZE as u32 * self.tile_size;
        let xu = x as u32;
        let yu = y as u32;
        if xu % cp != 0 || yu % cp != 0 {
            return None;
        }
        let cx = xu / cp;
        let cy = yu / cp;
        if cx >= self.cols || cy >= self.rows {
            return None;
        }
        Some(self.index_of(cx, cy))
    }

    /// Records a request for the chunks anchored at `origins`, to be sent to
    /// the generation worker, and returns the request to send.
    pub fn request_chunks(&mut self, origins: &Vec<(i32, i32)>) -> (r: Vec<(i32, i32)>)
        requires
            old(self).wf(),
        ensures
            final(self).wf(),
            r@ == origins@,
            final(self)@ == (WorldView { pending: old(self)@.pending.push(origins@), ..old(self)@ }),
    {
        let mut kept: Vec<(i32, i32)> = Vec::new();
        let mut sent: Vec<(i32, i32)> = Vec::new();
        let mut i: usize = 0;
        while i < origins.len()
            invariant
                i <= origins.len(),
                kept@ == origins@.take(i as int),
                sent@ == origins@.take(i as int),
            decreases origins.len() - i,
        {
            kept.push(origins[i]);
            sent.push(origins[i]);
            i = i + 1;
        }
        assert(kept@ =~= origins@);
        assert(sent@ =~= origins@);
        let ghost before = self@;
        self.pending.push(kept);
        assert(self@.pending =~= before.pending.push(origins@));
        assert(self@ =~= WorldView { pending: before.pending.push(origins@), ..before });
        sent
    }

    /// Number of requests sent and not yet answered.
    pub fn pending_count(&self) -> (r: usize)
        ensures
            r == self@.pending.len(),
    {
        self.pending.len()
    }

    /// Takes the worker's answer to the oldest outstanding request: the
    /// request is settled, and if `response` answers it entry by entry, its
    /// chunks are installed in order. Fails, installing nothing, when no
    /// request is outstanding or when `response` does not answer it.
    pub fn accept_generated(&mut self, response: Vec<Chunk>) -> (r: Result<(), WorldError>)
        requires
            old(self).wf(),
        ensures
            final(self).wf(),
            old(self)@.pending.len() == 0 ==> r == Err::<(), WorldError>(WorldError::NoPendingRequest)
                && final(self)@ == old(self)@,
            old(self)@.pending.len() > 0 ==> {
                let settled = WorldView { pending: old(self)@.pending.drop_first(), ..old(self)@ };
                let views = response@.map_values(|c: Chunk| c@);
                if answers(old(self)@.pending[0], views) {
                    r == Ok::<(), WorldError>(()) && final(self)@ == install_all(settled, views)
                } else {
                    r == Err::<(), WorldError>(WorldError::ResponseMismatch) && final(self)@ == settled
                }
            },
    {
        if self.pending.len() == 0 {
            return Err(WorldError::NoPendingRequest);
        }
        let ghost views = response@.map_values(|c: Chunk| c@);
        let ghost before = self@;
        let request = self.pending.remove(0);
        proof {
            assert(self@.pending =~= before.pending.drop_first());
            assert(request@ == before.pending[0]);
            assert(self@ =~= WorldView { pending: before.pending.drop_first(), ..before });
        }
        let ghost settled = self@;
        if request.len() != response.len() {
            return Err(WorldError::ResponseMismatch);
        }
        let mut i: usize = 0;
        while i < response.len()
            invariant
                self.wf(),
                before == old(self)@,
                before.pending.len() > 0,
                settled == (WorldView { pending: before.pending.drop_first(), ..before }),
                self@ == settled,
                request@ == before.pending[0],
                i <= response.len(),
                request.len() == response.len(),
                views == response@.map_values(|c: Chunk| c@),
                forall|j: int|
                    #![trigger views[j]]
                    0 <= j < i ==> {
                        &&& views[j].x == request@[j].0
                        &&& views[j].y == request@[j].1
                        &&& views[j].tiles.len() == CHUNK_TILES
                    },
            decreases response.len() - i,
        {
            let c = &response[i];
            if c.x() != request[i].0 || c.y() != request[i].1 || !c.has_all_tiles() {
                proof {
                    assert(views[i as int] == response@[i as int]@);
                }
                return Err(WorldError::ResponseMismatch);
            }
            i = i + 1;
        }
        proof {
            assert(answers(request@, views));
            assert forall|j: int|
                #![trigger response@[j]]
                0 <= j < response@.len() implies response@[j]@.tiles.len() == CHUNK_TILES by {
                assert(views[j] == response@[j]@);
            }
        }
        let mut rest = response;
        while rest.len() > 0
            invariant
                self.wf(),
                install_all(self@, rest@.map_values(|c: Chunk| c@)) == install_all(settled, views),
                forall|j: int|
                    #![trigger rest@[j]]
                    0 <= j < rest@.len() ==> rest@[j]@.tiles.len() == CHUNK_TILES,
            decreases rest.len(),
        {
            let ghost left = rest@.map_values(|c: Chunk| c@);
            let c = rest.remove(0);
            proof {
                assert(rest@.map_values(|c: Chunk| c@) =~= left.drop_first());
                assert(left[0] == c@);
            }
            self.install(c);
        }
        proof {
            assert(rest@.map_values(|c: Chunk| c@) =~= Seq::<ChunkView>::empty());
        }
        Ok(())
    }

    /// Installs a generated chunk: it replaces the chunk of the cell anchored
    /// at its origin. Returns whether such a cell exists; if none does, the
    /// world is left as it was.
    pub fn install(&mut self, chunk: Chunk) -> (r: bool)
        requires
            old(self).wf(),
            chunk.wf(),
        ensures
            final(self).wf(),
            final(self)@ == old(self)@.installed(chunk@),
            r == old(self)@.cell_of(chunk@.x, chunk@.y) is Some,
    {
        let x = chunk.x();
        let y = chunk.y();
        match self.cell_of(x, y) {
            None => false,
            Some(i) => {
                proof {
                    lemma_installed_wf(self@, chunk@);
                }
                let ghost old_view = self@;
                self.chunks.set(i, chunk);
                proof {
                    assert(self@.chunks =~= old_view.chunks.update(i as int, chunk@));
                    assert(self@ =~= old_view.installed(chunk@));
                }
                true
            },
        }
    }
}

} // verus!
