//! Deterministic terrain and feature synthesis for one chunk.
//!
//! The generator consumes one coherent-noise sample per cell, already scaled
//! to the 8-bit range (sampling the noise field at the chunk's world offset
//! is the caller's business, outside the library).  Each sample is bucketed
//! into a terrain kind by fixed, exhaustive threshold ranges; a second,
//! higher-frequency sample field is bucketed, conditioned on the terrain
//! beneath, into at most one feature entity per cell.  Both results are
//! pinned to spec functions of the samples alone, which is what lets the
//! cache regenerate a cold chunk instead of storing it.

use vstd::prelude::*;

use crate::chunk_terrain::ChunkTerrain;
use crate::coords::{ChunkPosition, LocalPosition, CHUNK_SIZE};
use crate::entities::Entity;
use crate::tile_types::TileType;

verus! {

/// Number of cells in one chunk, and so the length of a noise sample slab.
pub const CHUNK_AREA: usize = 1024;

/// Terrain kind for one scaled noise sample: exhaustive, non-overlapping
/// buckets over the full 8-bit range.
pub open spec fn terrain_bucket(number: u8) -> TileType {
    if number <= 29 {
        TileType::StoneFloor
    } else if number <= 239 {
        TileType::GrassFloor
    } else {
        TileType::SandFloor
    }
}

/// Feature kind seeded on grass for one scaled noise sample.
pub open spec fn grass_feature(number: u8) -> Option<TileType> {
    if 219 <= number <= 220 {
        Some(TileType::TreeStomp)
    } else if 221 <= number <= 225 {
        Some(TileType::MushroomBrown)
    } else if 226 <= number <= 228 {
        Some(TileType::MushroomOrange)
    } else if 229 <= number <= 230 {
        Some(TileType::MushroomRed)
    } else if 231 <= number <= 234 {
        Some(TileType::VioletFlower)
    } else if 235 <= number <= 239 {
        Some(TileType::WhiteFlower)
    } else if 240 <= number <= 241 {
        Some(TileType::Pond)
    } else if 242 <= number <= 244 {
        Some(TileType::GrassStones)
    } else if 245 <= number <= 252 {
        Some(TileType::Bush)
    } else if 253 <= number {
        Some(TileType::Coin)
    } else {
        None
    }
}

/// Feature kind seeded on sand for one scaled noise sample.
pub open spec fn sand_feature(number: u8) -> Option<TileType> {
    if 235 <= number <= 252 {
        Some(TileType::SandStones)
    } else if 253 <= number {
        Some(TileType::Coin)
    } else {
        None
    }
}

/// Feature kind seeded on stone for one scaled noise sample.
pub open spec fn stone_feature(number: u8) -> Option<TileType> {
    if 245 <= number <= 250 {
        Some(TileType::Placeholder)
    } else if 251 <= number <= 252 {
        Some(TileType::Pond)
    } else if 253 <= number {
        Some(TileType::Coin)
    } else {
        None
    }
}

/// Feature kind for one cell, conditioned on the terrain beneath it.
pub open spec fn feature_for(ground: TileType, number: u8) -> Option<TileType> {
    match ground {
        TileType::SandFloor => sand_feature(number),
        TileType::GrassFloor => grass_feature(number),
        TileType::StoneFloor => stone_feature(number),
        _ => None,
    }
}

/// The chunk-local feature entity for one cell, if any.
pub open spec fn gen_entity(ground: TileType, number: u8, pos: LocalPosition) -> Option<Entity> {
    match feature_for(ground, number) {
        Some(kind) => Some(
            Entity { chunk_pos: ChunkPosition { x: 0, y: 0 }, pos, tile: kind, removed: false },
        ),
        None => None,
    }
}

/// The feature entity produced at cell index `i` (row-major, `y` major) of
/// a chunk with tile grid `tiles` and feature noise `noise`.
pub open spec fn gen_cell(tiles: Seq<Seq<TileType>>, noise: Seq<u8>, i: int) -> Option<Entity> {
    let x = i % (CHUNK_SIZE as int);
    let y = i / (CHUNK_SIZE as int);
    gen_entity(tiles[y][x], noise[i], LocalPosition { x: x as i16, y: y as i16 })
}

/// The feature entities of the first `n` cells, in cell order.
pub open spec fn gen_entities_upto(tiles: Seq<Seq<TileType>>, noise: Seq<u8>, n: int) -> Seq<
    Entity,
>
    decreases n,
{
    if n <= 0 {
        Seq::empty()
    } else {
        let prev = gen_entities_upto(tiles, noise, n - 1);
        match gen_cell(tiles, noise, n - 1) {
            Some(e) => prev.push(e),
            None => prev,
        }
    }
}

/// All feature entities of one chunk, in cell order.
pub open spec fn gen_entities_full(tiles: Seq<Seq<TileType>>, noise: Seq<u8>) -> Seq<Entity> {
    gen_entities_upto(tiles, noise, CHUNK_AREA as int)
}

/// Every generated entity is chunk-local: its coordinates are in range, its
/// chunk is still the default one, and it is not flagged removed.
pub proof fn lemma_gen_entities_props(tiles: Seq<Seq<TileType>>, noise: Seq<u8>, n: int)
    requires
        n <= CHUNK_AREA as int,
    ensures
        gen_entities_upto(tiles, noise, n).len() <= if n >= 0 {
            n
        } else {
            0
        },
        forall|i: int|
            0 <= i < gen_entities_upto(tiles, noise, n).len() ==> {
                let e = #[trigger] gen_entities_upto(tiles, noise, n)[i];
                &&& e.pos.in_range()
                &&& e.chunk_pos == (ChunkPosition { x: 0, y: 0 })
                &&& !e.removed
            },
    decreases n,
{
    if n > 0 {
        lemma_gen_entities_props(tiles, noise, n - 1);
        let k = n - 1;
        let x = k % (CHUNK_SIZE as int);
        let y = k / (CHUNK_SIZE as int);
        assert(0 <= x < CHUNK_SIZE as int);
        assert(0 <= y < CHUNK_SIZE as int) by (nonlinear_arith)
            requires
                0 <= k < 1024,
                y == k / (CHUNK_SIZE as int),
                CHUNK_SIZE == 32,
        ;
    }
}

/// The generator: a pure function of the seed it is built with and the
/// noise samples it is handed; it keeps no other state.
#[derive(Debug, Clone, Copy, PartialEq, Eq, Structural)]
pub struct Generator {
    seed: i32,
}

impl Default for Generator {
    fn default() -> (r: Self)
        ensures
            r.seed_spec() == 0,
    {
        Self { seed: 0 }
    }
}

impl Generator {
    pub fn new(seed: i32) -> (r: Self)
        ensures
            r.seed_spec() == seed,
    {
        Self { seed }
    }

    /// The seed the world is generated from; noise sampled for this
    /// generator must be sampled with exactly this seed.
    pub fn seed(&self) -> (r: i32)
        ensures
            r == self.seed_spec(),
    {
        self.seed
    }

    pub closed spec fn seed_spec(&self) -> i32 {
        self.seed
    }

    /// Buckets one chunk's scaled terrain noise into the tile grid, and
    /// builds the matching cell coordinate grid, both indexed `[y][x]`.
    pub fn generate_chunk_terrain(&self, chunk_pos: ChunkPosition, noise: &Vec<u8>) -> (r: (
        Vec<Vec<LocalPosition>>,
        Vec<Vec<TileType>>,
    ))
        requires
            noise@.len() == CHUNK_AREA as int,
        ensures
            r.0@.len() == CHUNK_SIZE as int,
            forall|y: int|
                0 <= y < CHUNK_SIZE as int ==> (#[trigger] r.0@[y])@.len() == CHUNK_SIZE as int,
            forall|y: int, x: int|
                0 <= y < CHUNK_SIZE as int && 0 <= x < CHUNK_SIZE as int
                    ==> #[trigger] r.0@[y]@[x] == (LocalPosition { x: x as i16, y: y as i16 }),
            r.1@.len() == CHUNK_SIZE as int,
            forall|y: int|
                0 <= y < CHUNK_SIZE as int ==> (#[trigger] r.1@[y])@.len() == CHUNK_SIZE as int,
            forall|y: int, x: int|
                0 <= y < CHUNK_SIZE as int && 0 <= x < CHUNK_SIZE as int ==> #[trigger] r.1@[y]@[x]
                    == terrain_bucket(noise@[y * (CHUNK_SIZE as int) + x]),
    {
        let mut positions: Vec<Vec<LocalPosition>> = Vec::new();
        let mut tile_types: Vec<Vec<TileType>> = Vec::new();
        let mut y: u16 = 0;
        while y < CHUNK_SIZE
            invariant
                noise@.len() == CHUNK_AREA as int,
                0 <= y <= CHUNK_SIZE,
                positions@.len() == y as int,
                tile_types@.len() == y as int,
                forall|j: int|
                    0 <= j < y as int ==> (#[trigger] positions@[j])@.len() == CHUNK_SIZE as int,
                forall|j: int|
                    0 <= j < y as int ==> (#[trigger] tile_types@[j])@.len() == CHUNK_SIZE as int,
                forall|j: int, x: int|
                    0 <= j < y as int && 0 <= x < CHUNK_SIZE as int ==> #[trigger] positions@[j]@[x]
                        == (LocalPosition { x: x as i16, y: j as i16 }),
                forall|j: int, x: int|
                    0 <= j < y as int && 0 <= x < CHUNK_SIZE as int ==> #[trigger] tile_types@[j]@[x]
                        == terrain_bucket(noise@[j * (CHUNK_SIZE as int) + x]),
            decreases CHUNK_SIZE as int - y,
        {
            let mut tiles_row: Vec<TileType> = Vec::new();
            let mut positions_row: Vec<LocalPosition> = Vec::new();
            let mut x: u16 = 0;
            while x < CHUNK_SIZE
                invariant
                    noise@.len() == CHUNK_AREA as int,
                    0 <= y < CHUNK_SIZE,
                    0 <= x <= CHUNK_SIZE,
                    tiles_row@.len() == x as int,
                    positions_row@.len() == x as int,
                    forall|k: int|
                        0 <= k < x as int ==> #[trigger] positions_row@[k] == (LocalPosition {
                            x: k as i16,
                            y: y as i16,
                        }),
                    forall|k: int|
                        0 <= k < x as int ==> #[trigger] tiles_row@[k] == terrain_bucket(
                            noise@[y as int * (CHUNK_SIZE as int) + k],
                        ),
                decreases CHUNK_SIZE as int - x,
            {
                positions_row.push(LocalPosition::new(x as i16, y as i16));
                let number = noise[(y * CHUNK_SIZE + x) as usize];
                let tile_type = if number <= 29 {
                    TileType::StoneFloor
                } else if number <= 239 {
                    TileType::GrassFloor
                } else {
                    TileType::SandFloor
                };
                tiles_row.push(tile_type);
                x = x + 1;
            }
            positions.push(positions_row);
            tile_types.push(tiles_row);
            y = y + 1;
        }
        (positions, tile_types)
    }

    /// Buckets one chunk's scaled feature noise, conditioned on the terrain
    /// beneath each cell, into the chunk-local feature entities, in cell
    /// order.
    pub fn generate_entities(&self, noise: &Vec<u8>, chunk_terrain: &ChunkTerrain) -> (r: Vec<
        Entity,
    >)
        requires
            noise@.len() == CHUNK_AREA as int,
            chunk_terrain.wf(),
        ensures
            r@ == gen_entities_full(chunk_terrain@.tiles, noise@),
            forall|i: int|
                0 <= i < r@.len() ==> {
                    let e = #[trigger] r@[i];
                    &&& e.pos.in_range()
                    &&& e.chunk_pos == (ChunkPosition { x: 0, y: 0 })
                    &&& !e.removed
                },
    {
        let ghost tiles = chunk_terrain@.tiles;
        let mut entities: Vec<Entity> = Vec::new();
        let mut y: u16 = 0;
        while y < CHUNK_SIZE
            invariant
                noise@.len() == CHUNK_AREA as int,
                chunk_terrain.wf(),
                tiles == chunk_terrain@.tiles,
                0 <= y <= CHUNK_SIZE,
                entities@ == gen_entities_upto(tiles, noise@, y as int * (CHUNK_SIZE as int)),
            decreases CHUNK_SIZE as int - y,
        {
            let mut x: u16 = 0;
            while x < CHUNK_SIZE
                invariant
                    noise@.len() == CHUNK_AREA as int,
                    chunk_terrain.wf(),
                    tiles == chunk_terrain@.tiles,
                    0 <= y < CHUNK_SIZE,
                    0 <= x <= CHUNK_SIZE,
                    entities@ == gen_entities_upto(
                        tiles,
                        noise@,
                        y as int * (CHUNK_SIZE as int) + x as int,
                    ),
                decreases CHUNK_SIZE as int - x,
            {
                let pos = LocalPosition::new(x as i16, y as i16);
                let ground_tile = chunk_terrain.get_tile(&pos);
                let number = noise[(y * CHUNK_SIZE + x) as usize];
                let entity = match ground_tile {
                    TileType::SandFloor => self.sand_entity(number, pos),
                    TileType::GrassFloor => self.grass_entity(number, pos),
                    TileType::StoneFloor => self.stone_entity(number, pos),
                    _ => None,
                };
                proof {
                    let i = y as int * (CHUNK_SIZE as int) + x as int;
                    assert(i % (CHUNK_SIZE as int) == x as int && i / (CHUNK_SIZE as int)
                        == y as int) by (nonlinear_arith)
                        requires
                            0 <= (x as int) && (x as int) < (CHUNK_SIZE as int),
                            0 <= y as int,
                            i == y as int * (CHUNK_SIZE as int) + x as int,
                            CHUNK_SIZE == 32,
                    ;
                    assert(gen_cell(tiles, noise@, i) == entity);
                }
                if let Some(entity) = entity {
                    entities.push(entity);
                }
                x = x + 1;
            }
            y = y + 1;
        }
        proof {
            lemma_gen_entities_props(tiles, noise@, CHUNK_AREA as int);
        }
        entities
    }

    fn grass_entity(&self, number: u8, pos: LocalPosition) -> (r: Option<Entity>)
        ensures
            r == gen_entity(TileType::GrassFloor, number, pos),
    {
        match number {
            219..=220 => Some(Entity::new_local(pos, TileType::TreeStomp)),
            221..=225 => Some(Entity::new_local(pos, TileType::MushroomBrown)),
            226..=228 => Some(Entity::new_local(pos, TileType::MushroomOrange)),
            229..=230 => Some(Entity::new_local(pos, TileType::MushroomRed)),
            231..=234 => Some(Entity::new_local(pos, TileType::VioletFlower)),
            235..=239 => Some(Entity::new_local(pos, TileType::WhiteFlower)),
            240..=241 => Some(Entity::new_local(pos, TileType::Pond)),
            242..=244 => Some(Entity::new_local(pos, TileType::GrassStones)),
            245..=252 => Some(Entity::new_local(pos, TileType::Bush)),
            253..=255 => Some(Entity::new_local(pos, TileType::Coin)),
            _ => None,
        }
    }

    fn sand_entity(&self, number: u8, pos: LocalPosition) -> (r: Option<Entity>)
        ensures
            r == gen_entity(TileType::SandFloor, number, pos),
    {
        match number {
            235..=252 => Some(Entity::new_local(pos, TileType::SandStones)),
            253..=255 => Some(Entity::new_local(pos, TileType::Coin)),
            _ => None,
        }
    }

    fn stone_entity(&self, number: u8, pos: LocalPosition) -> (r: Option<Entity>)
        ensures
            r == gen_entity(TileType::StoneFloor, number, pos),
    {
        match number {
            245..=250 => Some(Entity::new_local(pos, TileType::Placeholder)),
            251..=252 => Some(Entity::new_local(pos, TileType::Pond)),
            253..=255 => Some(Entity::new_local(pos, TileType::Coin)),
            _ => None,
        }
    }
}

/// Determinism of feature generation: the generated entity list is a
/// function of the tile grid and the noise samples alone, so two runs on
/// identical arguments return identical results.
pub proof fn lemma_entities_deterministic(
    tiles: Seq<Seq<TileType>>,
    noise: Seq<u8>,
    a: Seq<Entity>,
    b: Seq<Entity>,
)
    requires
        a == gen_entities_full(tiles, noise),
        b == gen_entities_full(tiles, noise),
    ensures
        a == b,
{
}

/// Determinism of terrain generation: any two tile grids that satisfy the
/// terrain contract for the same noise samples are equal.
pub proof fn lemma_terrain_deterministic(noise: Seq<u8>, a: Seq<Seq<TileType>>, b: Seq<Seq<TileType>>)
    requires
        a.len() == CHUNK_SIZE as int,
        b.len() == CHUNK_SIZE as int,
        forall|y: int| 0 <= y < CHUNK_SIZE as int ==> (#[trigger] a[y]).len() == CHUNK_SIZE as int,
        forall|y: int| 0 <= y < CHUNK_SIZE as int ==> (#[trigger] b[y]).len() == CHUNK_SIZE as int,
        forall|y: int, x: int|
            0 <= y < CHUNK_SIZE as int && 0 <= x < CHUNK_SIZE as int ==> #[trigger] a[y][x]
                == terrain_bucket(noise[y * (CHUNK_SIZE as int) + x]),
        forall|y: int, x: int|
            0 <= y < CHUNK_SIZE as int && 0 <= x < CHUNK_SIZE as int ==> #[trigger] b[y][x]
                == terrain_bucket(noise[y * (CHUNK_SIZE as int) + x]),
    ensures
        a == b,
{
    assert forall|y: int| 0 <= y < CHUNK_SIZE as int implies #[trigger] a[y] == b[y] by {
        assert(a[y] =~= b[y]);
    }
    assert(a =~= b);
}

} // verus!
