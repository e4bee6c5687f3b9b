//! The world: the insert-once terrain store and the visibility window.
//!
//! Terrain for a chunk is generated on first need and never regenerated;
//! the active window is always the 3x3 block of chunks centered on the
//! observer's chunk.  The caller supplies one scaled noise slab per missing
//! chunk (listed by [`World::missing_chunks`]); everything else is decided
//! here.

use vstd::prelude::*;

use crate::chunk_map::{
    assoc_find, assoc_has, assoc_index_of, keys_unique, lemma_assoc_absent, lemma_assoc_append,
    lemma_assoc_at, lemma_assoc_has_exists,
};
use crate::chunk_terrain::{ChunkTerrain, ChunkTerrainView};
use crate::coords::{AbsolutePosition, ChunkPosition, CHUNK_SIZE};
use crate::generator::{terrain_bucket, Generator, CHUNK_AREA};
use crate::tile_types::TileType;

verus! {

/// The active window around center chunk `c`: exactly the nine chunks
/// `{c.x-1 .. c.x+1} x {c.y-1 .. c.y+1}`, row by row.
pub open spec fn window9(c: ChunkPosition) -> Seq<ChunkPosition> {
    seq![
        ChunkPosition { x: (c.x - 1) as i32, y: (c.y - 1) as i32 },
        ChunkPosition { x: c.x, y: (c.y - 1) as i32 },
        ChunkPosition { x: (c.x + 1) as i32, y: (c.y - 1) as i32 },
        ChunkPosition { x: (c.x - 1) as i32, y: c.y },
        ChunkPosition { x: c.x, y: c.y },
        ChunkPosition { x: (c.x + 1) as i32, y: c.y },
        ChunkPosition { x: (c.x - 1) as i32, y: (c.y + 1) as i32 },
        ChunkPosition { x: c.x, y: (c.y + 1) as i32 },
        ChunkPosition { x: (c.x + 1) as i32, y: (c.y + 1) as i32 },
    ]
}

/// The window around `c` stays within machine bounds, with one more unit of
/// room above for the structure stamp's carry.
pub open spec fn center_ok(c: ChunkPosition) -> bool {
    &&& i32::MIN + 1 <= c.x <= i32::MAX - 2
    &&& i32::MIN + 1 <= c.y <= i32::MAX - 2
}

/// The window holds nine pairwise distinct chunks.
pub proof fn lemma_window_distinct(c: ChunkPosition)
    requires
        center_ok(c),
    ensures
        window9(c).len() == 9,
        forall|i: int, j: int| 0 <= i < j < 9 ==> window9(c)[i] != window9(c)[j],
{
}

/// Window sizing: a chunk is in the active window of center `c` exactly
/// when each of its coordinates is within one of `c`'s.
pub proof fn lemma_window_membership(c: ChunkPosition, d: ChunkPosition)
    requires
        center_ok(c),
    ensures
        window9(c).contains(d) <==> (c.x - 1 <= d.x <= c.x + 1 && c.y - 1 <= d.y <= c.y + 1),
{
    if c.x - 1 <= d.x <= c.x + 1 && c.y - 1 <= d.y <= c.y + 1 {
        let i = 3 * (d.y - c.y + 1) + (d.x - c.x + 1);
        assert(0 <= i < 9);
        assert(window9(c)[i] == d);
        assert(window9(c).contains(d));
    }
    if window9(c).contains(d) {
        let i = choose|i: int| 0 <= i < 9 && window9(c)[i] == d;
        assert(c.x - 1 <= d.x <= c.x + 1 && c.y - 1 <= d.y <= c.y + 1);
    }
}

/// Whether `samples` carries a full noise slab for chunk `c`.
pub open spec fn sample_ok(samples: Seq<(ChunkPosition, Vec<u8>)>, c: ChunkPosition) -> bool {
    match assoc_find(samples, c) {
        Some(n) => n@.len() == CHUNK_AREA as int,
        None => false,
    }
}

/// The stored terrain for `c` is well formed and bucketed cell by cell from
/// the noise slab that `samples` carries for `c`.
pub open spec fn generated_ok(
    chunks: Seq<(ChunkPosition, ChunkTerrainView)>,
    c: ChunkPosition,
    samples: Seq<(ChunkPosition, Vec<u8>)>,
) -> bool {
    match assoc_find(chunks, c) {
        Some(tv) => {
            &&& tv.wf()
            &&& tv.chunk == c
            &&& match assoc_find(samples, c) {
                Some(n) => forall|y: int, x: int|
                    0 <= y < CHUNK_SIZE as int && 0 <= x < CHUNK_SIZE as int
                        ==> #[trigger] tv.tiles[y][x] == terrain_bucket(
                        n@[y * (CHUNK_SIZE as int) + x],
                    ),
                None => false,
            }
        },
        None => false,
    }
}

/// Mathematical content of a [`World`]: the chunks in view and the terrain
/// store as a key/value list.
pub ghost struct WorldView {
    pub in_view: Seq<ChunkPosition>,
    pub chunks: Seq<(ChunkPosition, ChunkTerrainView)>,
}

/// Handles the chunks, terrain.
pub struct World {
    pub positions_of_chunks_in_view: Vec<ChunkPosition>,
    chunks: Vec<(ChunkPosition, ChunkTerrain)>,
}

impl View for World {
    type V = WorldView;

    closed spec fn view(&self) -> WorldView {
        WorldView {
            in_view: self.positions_of_chunks_in_view@,
            chunks: self.chunks@.map_values(|p: (ChunkPosition, ChunkTerrain)| (p.0, p.1@)),
        }
    }
}

impl World {
    /// The terrain store has unique keys and well-formed grids, each tagged
    /// with its own chunk, and every chunk in view is present and listed
    /// once.
    pub open spec fn wf(&self) -> bool {
        &&& keys_unique(self@.chunks)
        &&& (forall|i: int|
            0 <= i < self@.chunks.len() ==> {
                &&& (#[trigger] self@.chunks[i]).1.wf()
                &&& self@.chunks[i].1.chunk == self@.chunks[i].0
            })
        &&& (forall|i: int|
            0 <= i < self@.in_view.len() ==> assoc_has(self@.chunks, #[trigger] self@.in_view[i]))
        &&& (forall|i: int, j: int|
            0 <= i < j < self@.in_view.len() ==> self@.in_view[i] != self@.in_view[j])
    }

    /// The chunks currently in view, in window order.
    pub fn chunks_in_view(&self) -> (r: &Vec<ChunkPosition>)
        ensures
            r@ == self@.in_view,
    {
        &self.positions_of_chunks_in_view
    }

    /// Updates and possibly generates the chunks that should be in view.
    /// `samples` must carry one full noise slab for every window chunk the
    /// store does not hold yet, as listed by [`Self::missing_chunks`].
    pub fn update(
        &mut self,
        player_chunk: &ChunkPosition,
        generator: &Generator,
        samples: &Vec<(ChunkPosition, Vec<u8>)>,
    )
        requires
            old(self).wf(),
            center_ok(*player_chunk),
            forall|k: int|
                0 <= k < 9 ==> (assoc_has(old(self)@.chunks, #[trigger] window9(*player_chunk)[k])
                    || sample_ok(samples@, window9(*player_chunk)[k])),
        ensures
            final(self).wf(),
            final(self)@.in_view == window9(*player_chunk),
            forall|c: ChunkPosition|
                assoc_has(old(self)@.chunks, c) ==> assoc_find(final(self)@.chunks, c)
                    == assoc_find(old(self)@.chunks, c),
            forall|c: ChunkPosition|
                assoc_has(final(self)@.chunks, c) <==> (assoc_has(old(self)@.chunks, c) || window9(
                    *player_chunk,
                ).contains(c)),
            forall|k: int|
                0 <= k < 9 && !assoc_has(old(self)@.chunks, #[trigger] window9(*player_chunk)[k])
                    ==> generated_ok(final(self)@.chunks, window9(*player_chunk)[k], samples@),
    {
        self.set_visible_layers(player_chunk, generator, samples);
    }

    /// Generates the chunk at `ChunkPosition` and adds it to the world.
    fn gen_chunk(&mut self, chunk_pos: ChunkPosition, generator: &Generator, noise: &Vec<u8>)
        requires
            noise@.len() == CHUNK_AREA as int,
        ensures
            final(self)@.chunks.len() == old(self)@.chunks.len() + 1,
            final(self)@.chunks.drop_last() == old(self)@.chunks,
            final(self)@.chunks.last().0 == chunk_pos,
            final(self)@.chunks.last().1.wf(),
            final(self)@.chunks.last().1.chunk == chunk_pos,
            forall|y: int, x: int|
                0 <= y < CHUNK_SIZE as int && 0 <= x < CHUNK_SIZE as int
                    ==> #[trigger] final(self)@.chunks.last().1.tiles[y][x] == terrain_bucket(
                    noise@[y * (CHUNK_SIZE as int) + x],
                ),
            final(self)@.in_view == old(self)@.in_view.push(chunk_pos),
    {
        self.positions_of_chunks_in_view.push(chunk_pos);
        let terrain = Self::new_chunk_terrain(generator, chunk_pos, noise);
        self.chunks.push((chunk_pos, terrain));
        proof {
            assert(self@.chunks.drop_last() =~= old(self)@.chunks);
        }
    }

    /// Utility function to create a new `ChunkTerrain` from one noise slab.
    fn new_chunk_terrain(gen: &Generator, chunk_pos: ChunkPosition, noise: &Vec<u8>) -> (r:
        ChunkTerrain)
        requires
            noise@.len() == CHUNK_AREA as int,
        ensures
            r.wf(),
            r@.chunk == chunk_pos,
            forall|y: int, x: int|
                0 <= y < CHUNK_SIZE as int && 0 <= x < CHUNK_SIZE as int ==> #[trigger] r@.tiles[y][x]
                    == terrain_bucket(noise@[y * (CHUNK_SIZE as int) + x]),
    {
        let (positions, tile_types) = gen.generate_chunk_terrain(chunk_pos, noise);
        let r = ChunkTerrain::new(chunk_pos, tile_types, positions);
        proof {
            assert forall|y: int, x: int|
                0 <= y < CHUNK_SIZE as int && 0 <= x < CHUNK_SIZE as int implies #[trigger] r@.tiles[y][x]
                == terrain_bucket(noise@[y * (CHUNK_SIZE as int) + x]) by {
                assert(r.tile_at(x, y) == tile_types@[y]@[x]);
            }
        }
        r
    }

    /// The window chunks around `player_chunk` whose terrain is not stored
    /// yet: the chunks the caller must sample noise for before `update`.
    pub fn missing_chunks(&self, player_chunk: &ChunkPosition) -> (r: Vec<ChunkPosition>)
        requires
            center_ok(*player_chunk),
        ensures
            forall|j: int|
                0 <= j < r@.len() ==> (window9(*player_chunk).contains(#[trigger] r@[j])
                    && !assoc_has(self@.chunks, r@[j])),
            forall|k: int|
                0 <= k < 9 && !assoc_has(self@.chunks, #[trigger] window9(*player_chunk)[k])
                    ==> r@.contains(window9(*player_chunk)[k]),
            forall|i: int, j: int| 0 <= i < j < r@.len() ==> r@[i] != r@[j],
    {
        proof {
            lemma_window_distinct(*player_chunk);
        }
        let needed = window_chunks(player_chunk);
        let mut r: Vec<ChunkPosition> = Vec::new();
        let mut k: usize = 0;
        while k < needed.len()
            invariant
                needed@ == window9(*player_chunk),
                needed@.len() == 9,
                forall|i: int, j: int| 0 <= i < j < 9 ==> needed@[i] != needed@[j],
                0 <= k <= 9,
                forall|j: int|
                    0 <= j < r@.len() ==> (window9(*player_chunk).contains(#[trigger] r@[j])
                        && !assoc_has(self@.chunks, r@[j])),
                forall|k2: int|
                    0 <= k2 < k && !assoc_has(self@.chunks, #[trigger] needed@[k2])
                        ==> r@.contains(needed@[k2]),
                forall|i: int, j: int| 0 <= i < j < r@.len() ==> r@[i] != r@[j],
                forall|j: int|
                    0 <= j < r@.len() ==> exists|k2: int|
                        0 <= k2 < k && #[trigger] r@[j] == needed@[k2],
            decreases 9 - k,
        {
            let c = needed[k];
            match assoc_index_of(&self.chunks, &c) {
                Some(idx) => {
                    proof {
                        lemma_map_entry_keys(self);
                        assert(self@.chunks[idx as int].0 == c);
                        lemma_assoc_has_exists(self@.chunks, c);
                    }
                },
                None => {
                    proof {
                        lemma_map_entry_keys(self);
                        lemma_assoc_absent(self@.chunks, c);
                        assert(needed@.contains(needed@[k as int]));
                    }
                    let ghost r0 = r@;
                    r.push(c);
                    proof {
                        assert forall|k2: int|
                            0 <= k2 < k + 1 && !assoc_has(self@.chunks, #[trigger] needed@[k2])
                                implies r@.contains(needed@[k2]) by {
                            if k2 < k {
                                let j = choose|j: int| 0 <= j < r0.len() && r0[j] == needed@[k2];
                                assert(r@[j] == needed@[k2]);
                            } else {
                                assert(r@[r0.len() as int] == needed@[k2]);
                            }
                        }
                    }
                },
            }
            k = k + 1;
        }
        r
    }

    /// Returns all the `ChunkTerrain` structures that should be in view.
    pub fn get_visible_chunks(&self) -> (r: Vec<&ChunkTerrain>)
        requires
            self.wf(),
        ensures
            r@.len() == self@.in_view.len(),
            forall|i: int|
                0 <= i < r@.len() ==> Some((#[trigger] r@[i])@) == assoc_find(
                    self@.chunks,
                    self@.in_view[i],
                ),
    {
        let mut r: Vec<&ChunkTerrain> = Vec::new();
        let mut i: usize = 0;
        while i < self.positions_of_chunks_in_view.len()
            invariant
                self.wf(),
                0 <= i <= self@.in_view.len(),
                r@.len() == i,
                forall|j: int|
                    0 <= j < i ==> Some((#[trigger] r@[j])@) == assoc_find(
                        self@.chunks,
                        self@.in_view[j],
                    ),
            decreases self@.in_view.len() - i,
        {
            let p = self.positions_of_chunks_in_view[i];
            match self.get_chunk(&p) {
                Some(t) => {
                    r.push(t);
                },
                None => {
                    proof {
                        assert(assoc_has(self@.chunks, self@.in_view[i as int]));
                        assert(false);
                    }
                },
            }
            i = i + 1;
        }
        r
    }

    /// Get the option reference to the chunk at `ChunkPosition`.
    pub fn get_chunk(&self, chunk_pos: &ChunkPosition) -> (r: Option<&ChunkTerrain>)
        ensures
            match r {
                Some(t) => assoc_find(self@.chunks, *chunk_pos) == Some(t@),
                None => assoc_find(self@.chunks, *chunk_pos) is None,
            },
            self.wf() ==> match r {
                Some(t) => t.wf() && t@.chunk == *chunk_pos,
                None => true,
            },
    {
        proof {
            lemma_map_entry_keys(self);
        }
        match assoc_index_of(&self.chunks, chunk_pos) {
            Some(i) => {
                proof {
                    lemma_assoc_at(self@.chunks, *chunk_pos, i as int);
                }
                Some(&self.chunks[i].1)
            },
            None => {
                proof {
                    lemma_assoc_absent(self@.chunks, *chunk_pos);
                }
                None
            },
        }
    }

    /// Get the tile kind at an `AbsolutePosition`: `None` for a chunk that
    /// is legitimately not resident, never an implicit generation.
    pub fn get_tile(&self, position: &AbsolutePosition) -> (r: Option<TileType>)
        requires
            self.wf(),
            position.local.in_range(),
        ensures
            r == match assoc_find(self@.chunks, position.chunk) {
                Some(tv) => Some(tv.tiles[position.local.y as int][position.local.x as int]),
                None => None::<TileType>,
            },
    {
        match self.get_chunk(&position.chunk) {
            Some(chunk) => Some(chunk.get_tile(&position.local)),
            None => None,
        }
    }

    /// Updates chunks in view to be in the square formation around the
    /// player's `ChunkPosition`, generating new chunks where no terrain is
    /// stored.
    fn set_visible_layers(
        &mut self,
        player_chunk: &ChunkPosition,
        generator: &Generator,
        samples: &Vec<(ChunkPosition, Vec<u8>)>,
    )
        requires
            old(self).wf(),
            center_ok(*player_chunk),
            forall|k: int|
                0 <= k < 9 ==> (assoc_has(old(self)@.chunks, #[trigger] window9(*player_chunk)[k])
                    || sample_ok(samples@, window9(*player_chunk)[k])),
        ensures
            final(self).wf(),
            final(self)@.in_view == window9(*player_chunk),
            forall|c: ChunkPosition|
                assoc_has(old(self)@.chunks, c) ==> assoc_find(final(self)@.chunks, c)
                    == assoc_find(old(self)@.chunks, c),
            forall|c: ChunkPosition|
                assoc_has(final(self)@.chunks, c) <==> (assoc_has(old(self)@.chunks, c) || window9(
                    *player_chunk,
                ).contains(c)),
            forall|k: int|
                0 <= k < 9 && !assoc_has(old(self)@.chunks, #[trigger] window9(*player_chunk)[k])
                    ==> generated_ok(final(self)@.chunks, window9(*player_chunk)[k], samples@),
    {
        let ghost w = window9(*player_chunk);
        let ghost old_chunks = self@.chunks;
        proof {
            lemma_window_distinct(*player_chunk);
        }
        let to_generate = self.missing_chunks(player_chunk);
        let needed = window_chunks(player_chunk);

        let ghost n_old = old_chunks.len();
        let mut i: usize = 0;
        while i < to_generate.len()
            invariant
                old(self).wf(),
                old_chunks == old(self)@.chunks,
                keys_unique(old_chunks),
                needed@ == w,
                w.len() == 9,
                samples@.len() >= 0,
                forall|k: int|
                    0 <= k < 9 ==> (assoc_has(old_chunks, #[trigger] w[k]) || sample_ok(
                        samples@,
                        w[k],
                    )),
                forall|j: int|
                    0 <= j < to_generate@.len() ==> (w.contains(#[trigger] to_generate@[j])
                        && !assoc_has(old_chunks, to_generate@[j])),
                forall|k: int|
                    0 <= k < 9 && !assoc_has(old_chunks, #[trigger] w[k]) ==> to_generate@.contains(
                        w[k],
                    ),
                forall|i2: int, j: int|
                    0 <= i2 < j < to_generate@.len() ==> to_generate@[i2] != to_generate@[j],
                0 <= i <= to_generate@.len(),
                self@.chunks.len() == n_old + i,
                self@.chunks.subrange(0, n_old as int) == old_chunks,
                forall|j: int|
                    0 <= j < i ==> (#[trigger] self@.chunks[n_old + j]).0 == to_generate@[j],
                forall|j: int|
                    0 <= j < i ==> {
                        let tv = (#[trigger] self@.chunks[n_old + j]).1;
                        &&& tv.wf()
                        &&& tv.chunk == to_generate@[j]
                        &&& match assoc_find(samples@, to_generate@[j]) {
                            Some(n) => forall|y: int, x: int|
                                0 <= y < CHUNK_SIZE as int && 0 <= x < CHUNK_SIZE as int
                                    ==> #[trigger] tv.tiles[y][x] == terrain_bucket(
                                    n@[y * (CHUNK_SIZE as int) + x],
                                ),
                            None => false,
                        }
                    },
            decreases to_generate@.len() - i,
        {
            let c = to_generate[i];
            proof {
                let k = choose|k: int| 0 <= k < 9 && w[k] == c;
                assert(sample_ok(samples@, c));
            }
            let noise = match find_sample(samples, &c) {
                Some(n) => n,
                None => {
                    proof {
                        assert(false);
                    }
                    vstd::pervasive::unreached()
                },
            };
            let ghost pre = self@.chunks;
            self.gen_chunk(c, generator, noise);
            proof {
                assert(self@.chunks.drop_last() == pre);
                assert(self@.chunks.subrange(0, n_old as int) =~= pre.subrange(0, n_old as int));
                assert forall|j: int| 0 <= j < i + 1 implies (#[trigger] self@.chunks[n_old + j]).0
                    == to_generate@[j] by {
                    if j < i {
                        assert(self@.chunks[n_old + j] == pre[n_old + j]);
                    }
                }
                assert forall|j: int| 0 <= j < i + 1 implies {
                    let tv = (#[trigger] self@.chunks[n_old + j]).1;
                    &&& tv.wf()
                    &&& tv.chunk == to_generate@[j]
                    &&& match assoc_find(samples@, to_generate@[j]) {
                        Some(n) => forall|y: int, x: int|
                            0 <= y < CHUNK_SIZE as int && 0 <= x < CHUNK_SIZE as int
                                ==> #[trigger] tv.tiles[y][x] == terrain_bucket(
                                n@[y * (CHUNK_SIZE as int) + x],
                            ),
                        None => false,
                    }
                } by {
                    if j < i {
                        assert(self@.chunks[n_old + j] == pre[n_old + j]);
                    } else {
                        assert(self@.chunks[n_old + j] == self@.chunks.last());
                    }
                }
            }
            i = i + 1;
        }

        self.positions_of_chunks_in_view = needed;

        proof {
            let newc = self@.chunks;
            let appended = newc.subrange(n_old as int, newc.len() as int);
            assert(newc =~= old_chunks + appended);
            assert forall|j: int| 0 <= j < appended.len() implies (#[trigger] appended[j]).0
                == to_generate@[j] && appended[j].1.wf() && appended[j].1.chunk == appended[j].0 by {
                assert(appended[j] == newc[n_old + j]);
            }
            // Lookups for chunks already stored are unchanged.
            assert forall|c: ChunkPosition| assoc_has(old_chunks, c) implies assoc_find(newc, c)
                == assoc_find(old_chunks, c) by {
                lemma_assoc_append(old_chunks, appended, c);
            }
            // A window chunk missing from the old store is now stored with
            // the bucketed terrain of its sample.
            assert forall|k: int| 0 <= k < 9 && !assoc_has(old_chunks, #[trigger] w[k]) implies
                generated_ok(newc, w[k], samples@) by {
                let c = w[k];
                assert(to_generate@.contains(c));
                let j = choose|j: int| 0 <= j < to_generate@.len() && to_generate@[j] == c;
                assert(appended[j] == newc[n_old + j]);
                assert(appended[j] == self@.chunks[n_old + j]);
                let tv = (self@.chunks[n_old + j]).1;
                assert(tv.wf() && tv.chunk == c);
                assert(appended[j].0 == c);
                assert forall|j2: int| 0 <= j2 < j implies (#[trigger] appended[j2]).0 != c by {}
                lemma_assoc_at(appended, c, j);
                lemma_assoc_append(old_chunks, appended, c);
                assert(assoc_find(newc, c) == Some(tv));
            }
            // Exactly the old chunks and the window chunks are stored now.
            assert forall|c: ChunkPosition| assoc_has(newc, c) <==> (assoc_has(old_chunks, c)
                || w.contains(c)) by {
                lemma_assoc_append(old_chunks, appended, c);
                lemma_assoc_has_exists(old_chunks, c);
                lemma_assoc_has_exists(appended, c);
                lemma_assoc_has_exists(newc, c);
                if assoc_has(appended, c) {
                    let j = choose|j: int|
                        0 <= j < appended.len() && (#[trigger] appended[j]).0 == c;
                    assert(to_generate@[j] == c);
                    assert(w.contains(c));
                }
                if w.contains(c) && !assoc_has(old_chunks, c) {
                    assert(to_generate@.contains(c));
                    let j = choose|j: int|
                        0 <= j < to_generate@.len() && #[trigger] to_generate@[j] == c;
                    assert(appended[j].0 == c);
                }
            }
            // Key uniqueness: old keys were unique, appended keys are the
            // pairwise distinct missing chunks, and the two sets are
            // disjoint.
            assert forall|i1: int, j1: int| 0 <= i1 < j1 < newc.len() implies (
            #[trigger] newc[i1]).0 != (#[trigger] newc[j1]).0 by {
                if i1 < n_old && j1 >= n_old {
                    let c = newc[j1].0;
                    assert(c == to_generate@[j1 - n_old]);
                    assert(!assoc_has(old_chunks, c));
                    lemma_assoc_has_exists(old_chunks, c);
                }
            }
            // Every window chunk is stored, so the new view is covered.
            assert forall|i1: int| 0 <= i1 < self@.in_view.len() implies assoc_has(
                self@.chunks,
                #[trigger] self@.in_view[i1],
            ) by {
                assert(w.contains(w[i1]));
            }
        }
    }
}

impl Default for World {
    fn default() -> (r: Self)
        ensures
            r.wf(),
            r@.in_view == Seq::<ChunkPosition>::empty(),
            r@.chunks == Seq::<(ChunkPosition, ChunkTerrainView)>::empty(),
    {
        let positions_of_chunks_in_view: Vec<ChunkPosition> = Vec::new();
        let chunks: Vec<(ChunkPosition, ChunkTerrain)> = Vec::new();
        let r = Self { positions_of_chunks_in_view, chunks };
        proof {
            assert(r@.chunks =~= Seq::<(ChunkPosition, ChunkTerrainView)>::empty());
        }
        r
    }
}

/// The keys of the mapped view are the keys of the stored pairs.
proof fn lemma_map_entry_keys(w: &World)
    ensures
        w@.chunks.len() == w.chunks_ref()@.len(),
        forall|i: int|
            0 <= i < w@.chunks.len() ==> (#[trigger] w@.chunks[i]).0 == w.chunks_ref()@[i].0
                && w@.chunks[i].1 == w.chunks_ref()@[i].1@,
{
}

impl World {
    /// Spec-level access to the stored pair list, for relating the view to
    /// the executable searches.
    spec fn chunks_ref(&self) -> Vec<(ChunkPosition, ChunkTerrain)> {
        self.chunks
    }
}

/// The nine window chunks around `player_chunk`, in row order.
pub fn window_chunks(player_chunk: &ChunkPosition) -> (r: Vec<ChunkPosition>)
    requires
        center_ok(*player_chunk),
    ensures
        r@ == window9(*player_chunk),
{
    let x = player_chunk.x;
    let y = player_chunk.y;
    let mut r: Vec<ChunkPosition> = Vec::new();
    r.push(ChunkPosition::new(x - 1, y - 1));
    r.push(ChunkPosition::new(x, y - 1));
    r.push(ChunkPosition::new(x + 1, y - 1));
    r.push(ChunkPosition::new(x - 1, y));
    r.push(ChunkPosition::new(x, y));
    r.push(ChunkPosition::new(x + 1, y));
    r.push(ChunkPosition::new(x - 1, y + 1));
    r.push(ChunkPosition::new(x, y + 1));
    r.push(ChunkPosition::new(x + 1, y + 1));
    proof {
        assert(r@ =~= window9(*player_chunk));
    }
    r
}

/// First noise slab stored under chunk `c`, if any.
pub fn find_sample<'a>(samples: &'a Vec<(ChunkPosition, Vec<u8>)>, c: &ChunkPosition) -> (r:
    Option<&'a Vec<u8>>)
    ensures
        match r {
            Some(n) => assoc_find(samples@, *c) == Some(*n),
            None => assoc_find(samples@, *c) is None,
        },
{
    match assoc_index_of(samples, c) {
        Some(i) => {
            proof {
                lemma_assoc_at(samples@, *c, i as int);
            }
            Some(&samples[i].1)
        },
        None => {
            proof {
                lemma_assoc_absent(samples@, *c);
            }
            None
        },
    }
}

} // verus!
