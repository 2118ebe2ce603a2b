use vstd::prelude::*;

verus! {

/// The look of a tile: which cell of the terrain sheet it is drawn from.
#[derive(Clone, Copy, Debug, PartialEq, Eq, Structural)]
pub enum TileKind {
    Grass,
    Sand,
    Dirt,
    Stone,
}

/// The kind that a tile code stands for; codes past the known range fall
/// back to grass.
pub open spec fn kind_of(code: u16) -> TileKind {
    if code == 1 {
        TileKind::Sand
    } else if code == 2 {
        TileKind::Dirt
    } else if code == 3 {
        TileKind::Stone
    } else {
        TileKind::Grass
    }
}

/// Classifies a tile code. Total: every code has a kind.
pub fn classify(code: u16) -> (r: TileKind)
    ensures
        r == kind_of(code),
{
    match code {
        1 => TileKind::Sand,
        2 => TileKind::Dirt,
        3 => TileKind::Stone,
        _ => TileKind::Grass,
    }
}

impl TileKind {
    /// Column and row, counted in tiles, of this kind's picture on the
    /// terrain sheet.
    pub open spec fn spec_sheet_cell(self) -> (u32, u32) {
        match self {
            TileKind::Grass => (0, 0),
            TileKind::Sand => (1, 0),
            TileKind::Dirt => (0, 1),
            TileKind::Stone => (1, 1),
        }
    }

    pub fn sheet_cell(&self) -> (r: (u32, u32))
        ensures
            r == self.spec_sheet_cell(),
    {
        match self {
            TileKind::Grass => (0, 0),
            TileKind::Sand => (1, 0),
            TileKind::Dirt => (0, 1),
            TileKind::Stone => (1, 1),
        }
    }
}

} // verus!
