//! Chunk-grid and intra-chunk coordinates, and the normalization step that
//! keeps them canonical.
//!
//! A world address is a [`ChunkPosition`] (unbounded grid of chunks) paired
//! with a [`LocalPosition`] (cell within the chunk, each axis in
//! `[0, CHUNK_SIZE)`).  Single-step movement may push a local coordinate at
//! most one chunk width out of range; [`get_checked_position`] carries or
//! borrows exactly one chunk unit per axis to restore the invariant.

use vstd::prelude::*;

verus! {

/// Width and height of a chunk, in tiles.
pub const CHUNK_SIZE: u16 = 32;

/// Coordinates in the chunk.
#[derive(Debug, Copy, Clone, Eq, PartialEq, Structural)]
pub struct LocalPosition {
    pub x: i16,
    pub y: i16,
}

impl LocalPosition {
    pub fn new(x: i16, y: i16) -> (r: Self)
        ensures
            r.x == x,
            r.y == y,
    {
        Self { x, y }
    }

    pub fn add_tuple(&mut self, to_add: (i16, i16))
        requires
            i16::MIN <= old(self).x + to_add.0 <= i16::MAX,
            i16::MIN <= old(self).y + to_add.1 <= i16::MAX,
        ensures
            final(self).x == old(self).x + to_add.0,
            final(self).y == old(self).y + to_add.1,
    {
        self.x = self.x + to_add.0;
        self.y = self.y + to_add.1;
    }

    /// Whether both axes are inside one chunk.
    pub open spec fn in_range(self) -> bool {
        &&& 0 <= self.x < CHUNK_SIZE as int
        &&& 0 <= self.y < CHUNK_SIZE as int
    }
}

impl Default for LocalPosition {
    fn default() -> (r: Self)
        ensures
            r.x == 0,
            r.y == 0,
    {
        Self { x: 0, y: 0 }
    }
}

/// Coordinates of a chunk on the infinite chunk grid.
#[derive(Debug, Copy, Clone, PartialEq, Eq, Structural, Hash)]
pub struct ChunkPosition {
    pub x: i32,
    pub y: i32,
}

impl ChunkPosition {
    /// Sets the `ChunkPosition` to the given pair without scaling.
    pub fn new(x: i32, y: i32) -> (r: Self)
        ensures
            r.x == x,
            r.y == y,
    {
        Self { x, y }
    }
}

impl Default for ChunkPosition {
    fn default() -> (r: Self)
        ensures
            r.x == 0,
            r.y == 0,
    {
        Self { x: 0, y: 0 }
    }
}

/// Holds both `ChunkPosition` and `LocalPosition`: the canonical world
/// address of one tile.
#[derive(Debug, Copy, Clone, PartialEq, Eq, Structural)]
pub struct AbsolutePosition {
    pub chunk: ChunkPosition,
    pub local: LocalPosition,
}

/// Chunk coordinate after normalizing local coordinate `l` against chunk
/// coordinate `c` on one axis: carry one chunk unit up or down, or keep.
pub open spec fn norm_chunk(c: int, l: int) -> int {
    if l >= CHUNK_SIZE as int {
        c + 1
    } else if l < 0 {
        c - 1
    } else {
        c
    }
}

/// Local coordinate after normalization on one axis.
pub open spec fn norm_local(l: int) -> int {
    if l >= CHUNK_SIZE as int {
        l - CHUNK_SIZE as int
    } else if l < 0 {
        l + CHUNK_SIZE as int
    } else {
        l
    }
}

/// Continuous world coordinate of an address on the x axis:
/// `chunk * CHUNK_SIZE + local`.
pub open spec fn world_x(p: AbsolutePosition) -> int {
    p.chunk.x * (CHUNK_SIZE as int) + p.local.x
}

/// Continuous world coordinate of an address on the y axis.
pub open spec fn world_y(p: AbsolutePosition) -> int {
    p.chunk.y * (CHUNK_SIZE as int) + p.local.y
}

/// Squared Euclidean distance between the world coordinates of two
/// addresses.
pub open spec fn dist_sq(a: AbsolutePosition, b: AbsolutePosition) -> int {
    (world_x(a) - world_x(b)) * (world_x(a) - world_x(b)) + (world_y(a) - world_y(b)) * (world_y(a)
        - world_y(b))
}

impl AbsolutePosition {
    /// Both local axes inside the chunk: the invariant every address
    /// observed outside the normalization routine satisfies.
    pub open spec fn wf(self) -> bool {
        self.local.in_range()
    }

    /// Preconditions under which normalizing `local` against `chunk` stays
    /// within one carry/borrow per axis and within machine bounds.
    pub open spec fn norm_pre(chunk: ChunkPosition, local: LocalPosition) -> bool {
        &&& -(CHUNK_SIZE as int) <= local.x < 2 * (CHUNK_SIZE as int)
        &&& -(CHUNK_SIZE as int) <= local.y < 2 * (CHUNK_SIZE as int)
        &&& local.x >= CHUNK_SIZE as int ==> chunk.x < i32::MAX
        &&& local.x < 0 ==> chunk.x > i32::MIN
        &&& local.y >= CHUNK_SIZE as int ==> chunk.y < i32::MAX
        &&& local.y < 0 ==> chunk.y > i32::MIN
    }

    /// The normalized address for `(chunk, local)`.
    pub open spec fn norm_spec(chunk: ChunkPosition, local: LocalPosition) -> AbsolutePosition {
        AbsolutePosition {
            chunk: ChunkPosition {
                x: norm_chunk(chunk.x as int, local.x as int) as i32,
                y: norm_chunk(chunk.y as int, local.y as int) as i32,
            },
            local: LocalPosition {
                x: norm_local(local.x as int) as i16,
                y: norm_local(local.y as int) as i16,
            },
        }
    }

    /// Address reached by adding `delta` to the local coordinate and
    /// normalizing.
    pub fn add_to_local(&self, delta: (i16, i16)) -> (r: Self)
        requires
            self.wf(),
            -(CHUNK_SIZE as int) <= self.local.x + delta.0 < 2 * (CHUNK_SIZE as int),
            -(CHUNK_SIZE as int) <= self.local.y + delta.1 < 2 * (CHUNK_SIZE as int),
            self.local.x + delta.0 >= CHUNK_SIZE as int ==> self.chunk.x < i32::MAX,
            self.local.x + delta.0 < 0 ==> self.chunk.x > i32::MIN,
            self.local.y + delta.1 >= CHUNK_SIZE as int ==> self.chunk.y < i32::MAX,
            self.local.y + delta.1 < 0 ==> self.chunk.y > i32::MIN,
        ensures
            r == Self::norm_spec(
                self.chunk,
                LocalPosition {
                    x: (self.local.x + delta.0) as i16,
                    y: (self.local.y + delta.1) as i16,
                },
            ),
            r.wf(),
    {
        get_checked_position(
            self.chunk,
            LocalPosition::new(self.local.x + delta.0, self.local.y + delta.1),
        )
    }

    /// Address with the given local coordinate normalized against this
    /// address's chunk.
    pub fn new_local(&self, local: LocalPosition) -> (r: Self)
        requires
            Self::norm_pre(self.chunk, local),
        ensures
            r == Self::norm_spec(self.chunk, local),
            r.wf(),
    {
        get_checked_position(self.chunk, local)
    }
}

/// Normalizes a local coordinate that may be out of range by at most one
/// chunk width per axis: carries or borrows exactly one chunk unit per axis,
/// both axes independently and unconditionally.
///
/// Larger excursions are a programming error upstream and are excluded by
/// precondition rather than looped over.
pub fn get_checked_position(chunk_pos: ChunkPosition, pos: LocalPosition) -> (r: AbsolutePosition)
    requires
        AbsolutePosition::norm_pre(chunk_pos, pos),
    ensures
        r == AbsolutePosition::norm_spec(chunk_pos, pos),
        r.wf(),
        world_x(r) == chunk_pos.x * (CHUNK_SIZE as int) + pos.x,
        world_y(r) == chunk_pos.y * (CHUNK_SIZE as int) + pos.y,
{
    let dimensions = CHUNK_SIZE as i16;
    let mut x = pos.x;
    let mut y = pos.y;
    let mut world_x = chunk_pos.x;
    let mut world_y = chunk_pos.y;
    if x >= dimensions {
        world_x = world_x + 1;
        x = x - dimensions;
    } else if x < 0 {
        world_x = world_x - 1;
        x = x + dimensions;
    }
    if y >= dimensions {
        world_y = world_y + 1;
        y = y - dimensions;
    } else if y < 0 {
        world_y = world_y - 1;
        y = y + dimensions;
    }
    proof {
        lemma_norm_preserves_displacement(chunk_pos.x as int, pos.x as int);
        lemma_norm_preserves_displacement(chunk_pos.y as int, pos.y as int);
    }
    AbsolutePosition { local: LocalPosition { x, y }, chunk: ChunkPosition::new(world_x, world_y) }
}

/// Normalization is range-preserving: an input within one chunk width of
/// bounds comes out strictly inside `[0, CHUNK_SIZE)`.
pub proof fn lemma_norm_in_range(l: int)
    requires
        -(CHUNK_SIZE as int) <= l < 2 * (CHUNK_SIZE as int),
    ensures
        0 <= norm_local(l) < CHUNK_SIZE as int,
{
}

/// Normalization leaves the chunk coordinate consistent with the total
/// displacement: the continuous world coordinate is unchanged.
pub proof fn lemma_norm_preserves_displacement(c: int, l: int)
    ensures
        norm_chunk(c, l) * (CHUNK_SIZE as int) + norm_local(l) == c * (CHUNK_SIZE as int) + l,
{
}

/// Normalization is idempotent: normalizing an already normalized address
/// changes nothing.
pub proof fn lemma_norm_idempotent(c: int, l: int)
    requires
        -(CHUNK_SIZE as int) <= l < 2 * (CHUNK_SIZE as int),
    ensures
        norm_chunk(norm_chunk(c, l), norm_local(l)) == norm_chunk(c, l),
        norm_local(norm_local(l)) == norm_local(l),
{
}

/// Squared Euclidean distance between the world coordinates of two
/// addresses, in exact integer arithmetic.
pub fn distance_squared(first: &AbsolutePosition, second: &AbsolutePosition) -> (r: i128)
    ensures
        r == dist_sq(*first, *second),
{
    proof {
        assert(CHUNK_SIZE as i128 == 32);
    }
    let ax = (first.chunk.x as i128) * (CHUNK_SIZE as i128) + (first.local.x as i128);
    let ay = (first.chunk.y as i128) * (CHUNK_SIZE as i128) + (first.local.y as i128);
    let bx = (second.chunk.x as i128) * (CHUNK_SIZE as i128) + (second.local.x as i128);
    let by = (second.chunk.y as i128) * (CHUNK_SIZE as i128) + (second.local.y as i128);
    let dx = ax - bx;
    let dy = ay - by;
    proof {
        assert(-0x8000_0000_0000i128 <= dx <= 0x8000_0000_0000i128);
        assert(-0x8000_0000_0000i128 <= dy <= 0x8000_0000_0000i128);
        assert(dx * dx <= 0x4000_0000_0000_0000_0000_0000i128 && dx * dx >= 0)
            by (nonlinear_arith)
            requires
                -0x8000_0000_0000i128 <= dx <= 0x8000_0000_0000i128,
        ;
        assert(dy * dy <= 0x4000_0000_0000_0000_0000_0000i128 && dy * dy >= 0)
            by (nonlinear_arith)
            requires
                -0x8000_0000_0000i128 <= dy <= 0x8000_0000_0000i128,
        ;
    }
    dx * dx + dy * dy
}

} // verus!
