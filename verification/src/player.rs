//! The observer: one entity with a pending movement delta and a vision
//! radius.  The delta accumulates key presses within one tick and is
//! consumed once per tick by the movement resolver.

use vstd::prelude::*;

use crate::coords::{get_checked_position, AbsolutePosition, ChunkPosition, LocalPosition,
    CHUNK_SIZE};
use crate::entities::Entity;
use crate::tile_types::TileType;

verus! {

/// The observer: its entity, the pending movement delta, how far it sees,
/// and its score.
#[derive(Debug, Clone, Copy, PartialEq, Eq, Structural)]
pub struct Player {
    pub entity: Entity,
    pub destination: Destination,
    pub vision_range: i16,
    pub score: i64,
}

/// The world address one tick of movement would take the player to:
/// current local coordinate plus the pending delta, normalized.
pub open spec fn future_pos(p: Player) -> AbsolutePosition {
    AbsolutePosition::norm_spec(
        p.entity.chunk_pos,
        LocalPosition {
            x: (p.entity.pos.x + p.destination.x) as i16,
            y: (p.entity.pos.y + p.destination.y) as i16,
        },
    )
}

/// Conditions under which one movement tick stays within the
/// one-chunk-width normalization domain and machine bounds.
pub open spec fn move_pre(p: Player) -> bool {
    &&& p.entity.pos.in_range()
    &&& -(CHUNK_SIZE as int) <= p.destination.x as int <= CHUNK_SIZE as int
    &&& -(CHUNK_SIZE as int) <= p.destination.y as int <= CHUNK_SIZE as int
    &&& i32::MIN < p.entity.chunk_pos.x < i32::MAX
    &&& i32::MIN < p.entity.chunk_pos.y < i32::MAX
}

impl Player {
    /// The starting player: the observer entity at the origin, no pending
    /// delta, vision radius 16, score 0.
    pub open spec fn default_spec() -> Player {
        Player {
            entity: Entity {
                chunk_pos: ChunkPosition { x: 0, y: 0 },
                pos: LocalPosition { x: 0, y: 0 },
                tile: TileType::Pengu,
                removed: false,
            },
            destination: Destination { x: 0, y: 0 },
            vision_range: 16,
            score: 0,
        }
    }

    /// The address the pending delta points at, normalized; the position
    /// the movement resolver tests for a collision.
    pub fn calc_future_pos(&self) -> (r: AbsolutePosition)
        requires
            move_pre(*self),
        ensures
            r == future_pos(*self),
            r.wf(),
    {
        let (dest_x, dest_y) = self.destination.as_tuple();
        get_checked_position(
            self.entity.chunk_pos,
            LocalPosition { x: self.entity.pos.x + dest_x, y: self.entity.pos.y + dest_y },
        )
    }
}

impl Default for Player {
    fn default() -> (r: Self)
        ensures
            r.entity == (Entity {
                chunk_pos: ChunkPosition { x: 0, y: 0 },
                pos: LocalPosition { x: 0, y: 0 },
                tile: TileType::Pengu,
                removed: false,
            }),
            r.destination == (Destination { x: 0, y: 0 }),
            r.vision_range == 16,
            r.score == 0,
            r == Self::default_spec(),
    {
        let mut entity = Entity::default();
        entity.set_tile(TileType::Pengu);
        Self { entity, destination: Destination { x: 0, y: 0 }, vision_range: 16, score: 0 }
    }
}

/// The pending movement delta, accumulated from input until the movement
/// resolver consumes it.
#[derive(Debug, Copy, Clone, PartialEq, Eq, Structural)]
pub struct Destination {
    pub x: i8,
    pub y: i8,
}

impl Destination {
    /// Accumulates one more input step into the pending delta.
    pub fn set_destination(&mut self, right: i8, up: i8)
        requires
            i8::MIN <= old(self).x + right <= i8::MAX,
            i8::MIN <= old(self).y + up <= i8::MAX,
        ensures
            final(self).x == old(self).x + right,
            final(self).y == old(self).y + up,
    {
        self.x = self.x + right;
        self.y = self.y + up;
    }

    pub fn reset_destination(&mut self)
        ensures
            *final(self) == (Destination { x: 0, y: 0 }),
    {
        self.x = 0;
        self.y = 0;
    }

    pub fn as_tuple(&self) -> (r: (i16, i16))
        ensures
            r.0 == self.x as i16,
            r.1 == self.y as i16,
    {
        (self.x as i16, self.y as i16)
    }

    pub fn is_zero(&self) -> (r: bool)
        ensures
            r == (self.x == 0 && self.y == 0),
    {
        self.x == 0 && self.y == 0
    }
}

impl Default for Destination {
    fn default() -> (r: Self)
        ensures
            r == (Destination { x: 0, y: 0 }),
    {
        Self { x: 0, y: 0 }
    }
}

} // verus!
