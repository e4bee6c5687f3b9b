//! The immutable background terrain of one chunk: a fixed
//! `CHUNK_SIZE x CHUNK_SIZE` grid of tile kinds, generated once and then
//! only read.

use vstd::prelude::*;

use crate::coords::{AbsolutePosition, ChunkPosition, LocalPosition, CHUNK_SIZE};
use crate::tile_types::TileType;

verus! {

/// Mathematical content of a [`ChunkTerrain`]: the owning chunk, the cell
/// coordinate grid and the tile grid, both indexed `[y][x]`.
pub ghost struct ChunkTerrainView {
    pub chunk: ChunkPosition,
    pub positions: Seq<Seq<LocalPosition>>,
    pub tiles: Seq<Seq<TileType>>,
}

/// The background terrain for the chunk.
#[derive(Debug)]
pub struct ChunkTerrain {
    chunk: ChunkPosition,
    positions: Vec<Vec<LocalPosition>>,
    tile_types: Vec<Vec<TileType>>,
}

impl View for ChunkTerrain {
    type V = ChunkTerrainView;

    closed spec fn view(&self) -> ChunkTerrainView {
        ChunkTerrainView {
            chunk: self.chunk,
            positions: self.positions@.map_values(|row: Vec<LocalPosition>| row@),
            tiles: self.tile_types@.map_values(|row: Vec<TileType>| row@),
        }
    }
}

impl ChunkTerrainView {
    /// Both grids are full `CHUNK_SIZE x CHUNK_SIZE` squares and the
    /// coordinate grid holds each cell's own coordinates.
    pub open spec fn wf(self) -> bool {
        &&& self.tiles.len() == CHUNK_SIZE as int
        &&& (forall|y: int|
            0 <= y < CHUNK_SIZE as int ==> (#[trigger] self.tiles[y]).len() == CHUNK_SIZE as int)
        &&& self.positions.len() == CHUNK_SIZE as int
        &&& (forall|y: int|
            0 <= y < CHUNK_SIZE as int ==> (#[trigger] self.positions[y]).len()
                == CHUNK_SIZE as int)
        &&& (forall|y: int, x: int|
            0 <= y < CHUNK_SIZE as int && 0 <= x < CHUNK_SIZE as int
                ==> #[trigger] self.positions[y][x] == (LocalPosition { x: x as i16, y: y as i16 }))
    }
}

impl ChunkTerrain {
    /// The view's well-formedness, lifted to the owning value.
    pub open spec fn wf(&self) -> bool {
        self@.wf()
    }

    /// The tile kind of the cell at local coordinates `(x, y)`.
    pub open spec fn tile_at(&self, x: int, y: int) -> TileType {
        self@.tiles[y][x]
    }

    pub fn new(
        chunk: ChunkPosition,
        tile_types: Vec<Vec<TileType>>,
        positions: Vec<Vec<LocalPosition>>,
    ) -> (r: Self)
        requires
            tile_types@.len() == CHUNK_SIZE as int,
            forall|y: int|
                0 <= y < CHUNK_SIZE as int ==> (#[trigger] tile_types@[y])@.len()
                    == CHUNK_SIZE as int,
            positions@.len() == CHUNK_SIZE as int,
            forall|y: int|
                0 <= y < CHUNK_SIZE as int ==> (#[trigger] positions@[y])@.len()
                    == CHUNK_SIZE as int,
            forall|y: int, x: int|
                0 <= y < CHUNK_SIZE as int && 0 <= x < CHUNK_SIZE as int
                    ==> #[trigger] positions@[y]@[x] == (LocalPosition { x: x as i16, y: y as i16 }),
        ensures
            r.wf(),
            r@.chunk == chunk,
            forall|y: int, x: int|
                0 <= y < CHUNK_SIZE as int && 0 <= x < CHUNK_SIZE as int ==> #[trigger] r.tile_at(
                    x,
                    y,
                ) == tile_types@[y]@[x],
    {
        let r = Self { chunk, positions, tile_types };
        proof {
            assert forall|y: int| 0 <= y < CHUNK_SIZE as int implies (#[trigger] r@.tiles[y]).len()
                == CHUNK_SIZE as int by {
                assert(r@.tiles[y] == r.tile_types@[y]@);
            }
            assert forall|y: int|
                0 <= y < CHUNK_SIZE as int implies (#[trigger] r@.positions[y]).len()
                == CHUNK_SIZE as int by {
                assert(r@.positions[y] == r.positions@[y]@);
            }
        }
        r
    }

    /// The chunk this terrain belongs to.
    pub fn chunk_position(&self) -> (r: ChunkPosition)
        ensures
            r == self@.chunk,
    {
        self.chunk
    }

    /// Looks up the tile kind at an in-chunk coordinate.  An out-of-grid
    /// local coordinate is a programming error upstream and is excluded by
    /// precondition.
    pub fn get_tile(&self, pos: &LocalPosition) -> (r: TileType)
        requires
            self.wf(),
            pos.in_range(),
        ensures
            r == self.tile_at(pos.x as int, pos.y as int),
    {
        self.tile_types[pos.y as usize][pos.x as usize]
    }

    /// The read-only iteration surface for a renderer: every cell's tile
    /// kind and absolute world address, in row-major order of the cell
    /// index.
    pub fn entries(&self) -> (r: Vec<(TileType, AbsolutePosition)>)
        requires
            self.wf(),
        ensures
            r@.len() == (CHUNK_SIZE as int) * (CHUNK_SIZE as int),
            forall|i: int|
                0 <= i < r@.len() ==> #[trigger] r@[i] == (
                    self.tile_at(i % (CHUNK_SIZE as int), i / (CHUNK_SIZE as int)),
                    AbsolutePosition {
                        chunk: self@.chunk,
                        local: LocalPosition {
                            x: (i % (CHUNK_SIZE as int)) as i16,
                            y: (i / (CHUNK_SIZE as int)) as i16,
                        },
                    },
                ),
    {
        let mut r: Vec<(TileType, AbsolutePosition)> = Vec::new();
        let mut y: usize = 0;
        while y < CHUNK_SIZE as usize
            invariant
                self.wf(),
                0 <= y <= CHUNK_SIZE as int,
                r@.len() == y * (CHUNK_SIZE as int),
                forall|i: int|
                    0 <= i < r@.len() ==> #[trigger] r@[i] == (
                        self.tile_at(i % (CHUNK_SIZE as int), i / (CHUNK_SIZE as int)),
                        AbsolutePosition {
                            chunk: self@.chunk,
                            local: LocalPosition {
                                x: (i % (CHUNK_SIZE as int)) as i16,
                                y: (i / (CHUNK_SIZE as int)) as i16,
                            },
                        },
                    ),
            decreases CHUNK_SIZE as int - y,
        {
            let mut x: usize = 0;
            while x < CHUNK_SIZE as usize
                invariant
                    self.wf(),
                    0 <= y < CHUNK_SIZE as int,
                    0 <= x <= CHUNK_SIZE as int,
                    r@.len() == y * (CHUNK_SIZE as int) + x,
                    forall|i: int|
                        0 <= i < r@.len() ==> #[trigger] r@[i] == (
                            self.tile_at(i % (CHUNK_SIZE as int), i / (CHUNK_SIZE as int)),
                            AbsolutePosition {
                                chunk: self@.chunk,
                                local: LocalPosition {
                                    x: (i % (CHUNK_SIZE as int)) as i16,
                                    y: (i / (CHUNK_SIZE as int)) as i16,
                                },
                            },
                        ),
                decreases CHUNK_SIZE as int - x,
            {
                proof {
                    assert(self@.tiles[y as int] == self.tile_types@[y as int]@);
                    assert(self@.positions[y as int] == self.positions@[y as int]@);
                }
                let tile = self.tile_types[y][x];
                let pos = self.positions[y][x];
                proof {
                    let i = y * (CHUNK_SIZE as int) + x;
                    assert(i % (CHUNK_SIZE as int) == x && i / (CHUNK_SIZE as int) == y) by (
                    nonlinear_arith)
                        requires
                            0 <= x < CHUNK_SIZE as int,
                            0 <= y,
                            i == y * (CHUNK_SIZE as int) + x,
                    ;
                }
                r.push((tile, AbsolutePosition { chunk: self.chunk, local: pos }));
                x = x + 1;
            }
            y = y + 1;
        }
        r
    }
}

} // verus!
