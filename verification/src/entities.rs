//! Placed objects in the world and the cache that streams them.
//!
//! An [`Entity`] is a mutable placed object: a world address, a tile kind
//! and a removal flag.  [`Entities`] owns the player, the resident entities
//! of the chunks in the active window, and the side store that keeps each
//! evicted chunk's entities for exact later restoration.

use vstd::prelude::*;

use crate::chunk_map::{
    assoc_find, assoc_has, assoc_index_of, assoc_remove, chunk_list_contains, keys_unique,
    lemma_assoc_absent, lemma_assoc_at, lemma_assoc_has_exists, lemma_assoc_remove_props,
};
use crate::chunk_terrain::ChunkTerrain;
use crate::coords::{
    dist_sq, distance_squared, get_checked_position, norm_chunk, norm_local, AbsolutePosition,
    ChunkPosition, LocalPosition, CHUNK_SIZE,
};
use crate::generator::{gen_entities_full, Generator, CHUNK_AREA};
use crate::player::{future_pos, move_pre, Player};
use crate::tile_types::{blocking, pickup, reward, TileType};
use crate::world::World;

verus! {

/// A mutable placed object: world address, tile kind, removal flag.
#[derive(Debug, Clone, Copy, PartialEq, Eq, Structural)]
pub struct Entity {
    pub chunk_pos: ChunkPosition,
    pub pos: LocalPosition,
    pub tile: TileType,
    pub removed: bool,
}

impl Default for Entity {
    fn default() -> (r: Self)
        ensures
            r == (Entity {
                chunk_pos: ChunkPosition { x: 0, y: 0 },
                pos: LocalPosition { x: 0, y: 0 },
                tile: TileType::Debug,
                removed: false,
            }),
    {
        Self {
            chunk_pos: ChunkPosition { x: 0, y: 0 },
            pos: LocalPosition { x: 0, y: 0 },
            tile: TileType::Debug,
            removed: false,
        }
    }
}

impl Entity {
    /// A fresh entity in the default chunk; the cache assigns the real
    /// chunk when it places the entity.
    pub fn new_local(pos: LocalPosition, tile: TileType) -> (r: Self)
        ensures
            r == (Entity { chunk_pos: ChunkPosition { x: 0, y: 0 }, pos, tile, removed: false }),
    {
        Self { chunk_pos: ChunkPosition { x: 0, y: 0 }, pos, tile, removed: false }
    }

    pub fn new(pos: AbsolutePosition, tile: TileType) -> (r: Self)
        ensures
            r == (Entity { chunk_pos: pos.chunk, pos: pos.local, tile, removed: false }),
    {
        Self { chunk_pos: pos.chunk, pos: pos.local, tile, removed: false }
    }

    pub fn set_tile(&mut self, tile: TileType)
        ensures
            *final(self) == (Entity { tile, ..*old(self) }),
    {
        self.tile = tile;
    }

    pub fn set_local_position(&mut self, pos: LocalPosition)
        ensures
            *final(self) == (Entity { pos, ..*old(self) }),
    {
        self.pos = pos;
    }

    /// Moves the entity by `to_add` and normalizes the result.
    pub fn add_to_local_position(&mut self, to_add: (i16, i16))
        requires
            old(self).pos.in_range(),
            -(CHUNK_SIZE as int) <= old(self).pos.x + to_add.0 < 2 * (CHUNK_SIZE as int),
            -(CHUNK_SIZE as int) <= old(self).pos.y + to_add.1 < 2 * (CHUNK_SIZE as int),
            old(self).pos.x + to_add.0 >= CHUNK_SIZE as int ==> old(self).chunk_pos.x < i32::MAX,
            old(self).pos.x + to_add.0 < 0 ==> old(self).chunk_pos.x > i32::MIN,
            old(self).pos.y + to_add.1 >= CHUNK_SIZE as int ==> old(self).chunk_pos.y < i32::MAX,
            old(self).pos.y + to_add.1 < 0 ==> old(self).chunk_pos.y > i32::MIN,
        ensures
            final(self).chunk_pos.x == norm_chunk(
                old(self).chunk_pos.x as int,
                old(self).pos.x + to_add.0,
            ),
            final(self).chunk_pos.y == norm_chunk(
                old(self).chunk_pos.y as int,
                old(self).pos.y + to_add.1,
            ),
            final(self).pos.x == norm_local(old(self).pos.x + to_add.0),
            final(self).pos.y == norm_local(old(self).pos.y + to_add.1),
            final(self).pos.in_range(),
            final(self).tile == old(self).tile,
            final(self).removed == old(self).removed,
    {
        self.pos.add_tuple(to_add);
        let normalized = get_checked_position(self.chunk_pos, self.pos);
        self.set_position(normalized);
    }

    pub fn set_chunk_position(&mut self, chunk_pos: ChunkPosition)
        ensures
            *final(self) == (Entity { chunk_pos, ..*old(self) }),
    {
        self.chunk_pos = chunk_pos;
    }

    pub fn set_position(&mut self, pos: AbsolutePosition)
        ensures
            *final(self) == (Entity { chunk_pos: pos.chunk, pos: pos.local, ..*old(self) }),
    {
        self.set_chunk_position(pos.chunk);
        self.set_local_position(pos.local);
    }

    /// Contact resolution for a non-blocking entity the player moves onto:
    /// a pickup is flagged removed and grants its kind's reward; anything
    /// else is unaffected.
    pub fn collide(&mut self, player: &mut Player)
        requires
            old(player).score + 5 <= i64::MAX,
        ensures
            *final(self) == (Entity {
                removed: old(self).removed || pickup(old(self).tile),
                ..*old(self)
            }),
            *final(player) == (Player {
                score: (old(player).score + reward(old(self).tile)) as i64,
                ..*old(player)
            }),
    {
        if Entity::is_pickup(self).unwrap() {
            self.removed = true;
            if self.tile == TileType::Coin {
                player.score = player.score + 1;
            } else if self.tile == TileType::Chest {
                player.score = player.score + 5;
            }
        }
    }

    pub fn get_absolute_position(&self) -> (r: AbsolutePosition)
        ensures
            r == (AbsolutePosition { chunk: self.chunk_pos, local: self.pos }),
    {
        AbsolutePosition { local: self.pos, chunk: self.chunk_pos }
    }

    /// Whether this entity's tile kind blocks movement; total over the
    /// closed enumeration.
    pub fn is_blocking(entity: &Entity) -> (r: Option<bool>)
        ensures
            r == Some(blocking(entity.tile)),
    {
        match entity.tile {
            TileType::Debug => Some(false),
            TileType::Placeholder => Some(false),
            TileType::WoodenWall => Some(true),
            TileType::GrassFloor => Some(false),
            TileType::Pengu => Some(true),
            TileType::Door => Some(true),
            TileType::Chest => Some(false),
            TileType::Coin => Some(false),
            TileType::Cat => Some(true),
            TileType::StoneFloor => Some(false),
            TileType::Bush => Some(true),
            TileType::GrassStones => Some(false),
            TileType::Pond => Some(true),
            TileType::SandFloor => Some(false),
            TileType::StoneWall => Some(true),
            TileType::StoneEngraving => Some(true),
            TileType::SandStones => Some(false),
            TileType::WhiteFlower => Some(false),
            TileType::MushroomOrange => Some(false),
            TileType::MushroomBrown => Some(false),
            TileType::TreeStomp => Some(true),
            TileType::VioletFlower => Some(false),
            TileType::MushroomRed => Some(false),
        }
    }

    /// Whether this entity's tile kind is consumed on contact.
    pub fn is_pickup(entity: &Entity) -> (r: Option<bool>)
        ensures
            r == Some(pickup(entity.tile)),
    {
        match entity.tile {
            TileType::Chest => Some(true),
            TileType::Coin => Some(true),
            _ => Some(false),
        }
    }
}

/// Whether entity `e` sits exactly at local coordinate `l` of chunk `c`.
pub open spec fn at_pos(e: Entity, c: ChunkPosition, l: LocalPosition) -> bool {
    e.chunk_pos == c && e.pos == l
}

/// Whether some resident entity sits at the address.
pub open spec fn has_at(res: Seq<Entity>, c: ChunkPosition, l: LocalPosition) -> bool {
    exists|i: int| 0 <= i < res.len() && at_pos(#[trigger] res[i], c, l)
}

/// Index of the first entity at the address, in iteration order.
pub open spec fn first_at(res: Seq<Entity>, c: ChunkPosition, l: LocalPosition) -> Option<int>
    decreases res.len(),
{
    if res.len() == 0 {
        None
    } else if at_pos(res[0], c, l) {
        Some(0)
    } else {
        match first_at(res.drop_first(), c, l) {
            Some(i) => Some(i + 1),
            None => None,
        }
    }
}

/// `first_at` returns the position of the first match, or misses exactly
/// when there is no match.
pub proof fn lemma_first_at_props(res: Seq<Entity>, c: ChunkPosition, l: LocalPosition)
    ensures
        match first_at(res, c, l) {
            Some(i) => 0 <= i < res.len() && at_pos(res[i], c, l) && (forall|j: int|
                0 <= j < i ==> !at_pos(#[trigger] res[j], c, l)),
            None => forall|j: int| 0 <= j < res.len() ==> !at_pos(#[trigger] res[j], c, l),
        },
        (first_at(res, c, l) is Some) <==> has_at(res, c, l),
    decreases res.len(),
{
    if res.len() > 0 && !at_pos(res[0], c, l) {
        lemma_first_at_props(res.drop_first(), c, l);
        match first_at(res.drop_first(), c, l) {
            Some(i) => {
                assert(res.drop_first()[i] == res[i + 1]);
                assert forall|j: int| 0 <= j < i + 1 implies !at_pos(#[trigger] res[j], c, l) by {
                    if j > 0 {
                        assert(res[j] == res.drop_first()[j - 1]);
                    }
                }
                assert(has_at(res, c, l));
            },
            None => {
                assert forall|j: int| 0 <= j < res.len() implies !at_pos(
                    #[trigger] res[j],
                    c,
                    l,
                ) by {
                    if j > 0 {
                        assert(res[j] == res.drop_first()[j - 1]);
                    }
                }
            },
        }
    }
}

/// The resident list with the first entity at the address, if any, flagged
/// removed.
pub open spec fn flag_first_at(res: Seq<Entity>, c: ChunkPosition, l: LocalPosition) -> Seq<
    Entity,
> {
    match first_at(res, c, l) {
        Some(i) => res.update(i, Entity { removed: true, ..res[i] }),
        None => res,
    }
}

/// No chest among the residents is within the minimum structure spacing of
/// `p` (squared distance of at most 36).
pub open spec fn chest_far(res: Seq<Entity>, p: AbsolutePosition) -> bool {
    forall|i: int|
        0 <= i < res.len() && (#[trigger] res[i]).tile == TileType::Chest ==> dist_sq(
            p,
            AbsolutePosition { chunk: res[i].chunk_pos, local: res[i].pos },
        ) > 36
}

/// Tile kind and removal flag of the hut blueprint's cell at row `h`,
/// column `w`: a walled square with a chest inside, an engraved front, and
/// already-removed filler entities claiming the floor cells.
pub open spec fn hut_piece(h: int, w: int) -> (TileType, bool) {
    if h == 0 {
        (TileType::StoneWall, false)
    } else if h == 1 {
        if w == 0 || w == 4 {
            (TileType::StoneWall, false)
        } else if w == 2 {
            (TileType::Chest, false)
        } else {
            (TileType::Debug, true)
        }
    } else if h == 2 || h == 3 {
        if w == 0 || w == 4 {
            (TileType::StoneWall, false)
        } else {
            (TileType::Debug, true)
        }
    } else {
        if w == 0 || w == 4 {
            (TileType::StoneWall, false)
        } else if w == 1 || w == 3 {
            (TileType::StoneEngraving, false)
        } else {
            (TileType::Debug, true)
        }
    }
}

/// World address of the blueprint cell at row `h`, column `w`, anchored at
/// `anchor`: the local offset `(w, h)`, normalized.
pub open spec fn hut_cell(anchor: AbsolutePosition, h: int, w: int) -> AbsolutePosition {
    AbsolutePosition::norm_spec(
        anchor.chunk,
        LocalPosition { x: (anchor.local.x + w) as i16, y: (anchor.local.y + h) as i16 },
    )
}

/// Residents after stamping the first `n` blueprint cells (row-major) of a
/// hut anchored at `anchor`: each cell flags the first entity already
/// there, then claims the cell with its own piece.
pub open spec fn stamp_upto(res: Seq<Entity>, anchor: AbsolutePosition, n: int) -> Seq<Entity>
    decreases n,
{
    if n <= 0 {
        res
    } else {
        let prev = stamp_upto(res, anchor, n - 1);
        let k = n - 1;
        let h = k / 5;
        let w = k % 5;
        let p = hut_cell(anchor, h, w);
        let piece = hut_piece(h, w);
        flag_first_at(prev, p.chunk, p.local).push(
            Entity { chunk_pos: p.chunk, pos: p.local, tile: piece.0, removed: piece.1 },
        )
    }
}

/// Residents after the generator's entity `g` for chunk `c` is placed: a
/// placeholder triggers hut stamping unless a chest is already near; any
/// other feature is placed unless its cell is already claimed.
pub open spec fn populate_step(res: Seq<Entity>, c: ChunkPosition, g: Entity) -> Seq<Entity> {
    let gp = AbsolutePosition { chunk: c, local: g.pos };
    if g.tile == TileType::Placeholder {
        if chest_far(res, gp) {
            stamp_upto(res, gp, 25)
        } else {
            res
        }
    } else if has_at(res, c, g.pos) {
        res
    } else {
        res.push(Entity { chunk_pos: c, ..g })
    }
}

/// Residents after the first `n` generated entities for chunk `c` are
/// placed, in generation order.
pub open spec fn populate_upto(res: Seq<Entity>, c: ChunkPosition, gens: Seq<Entity>, n: int) -> Seq<
    Entity,
>
    decreases n,
{
    if n <= 0 {
        res
    } else {
        populate_step(populate_upto(res, c, gens, n - 1), c, gens[n - 1])
    }
}

/// The evicted-entity store with `items` appended to the entry for `c`,
/// which is created at the end if missing.
pub open spec fn store_put(
    s: Seq<(ChunkPosition, Seq<Entity>)>,
    c: ChunkPosition,
    items: Seq<Entity>,
) -> Seq<(ChunkPosition, Seq<Entity>)>
    decreases s.len(),
{
    if s.len() == 0 {
        seq![(c, items)]
    } else if s[0].0 == c {
        seq![(s[0].0, s[0].1 + items)] + s.drop_first()
    } else {
        seq![s[0]] + store_put(s.drop_first(), c, items)
    }
}

/// Positional form of `store_put` when the first entry keyed `c` sits at
/// index `i`.
pub proof fn lemma_store_put_at(
    s: Seq<(ChunkPosition, Seq<Entity>)>,
    c: ChunkPosition,
    items: Seq<Entity>,
    i: int,
)
    requires
        0 <= i < s.len(),
        s[i].0 == c,
        forall|j: int| 0 <= j < i ==> (#[trigger] s[j]).0 != c,
    ensures
        store_put(s, c, items) == s.update(i, (c, s[i].1 + items)),
    decreases s.len(),
{
    if i == 0 {
        assert(store_put(s, c, items) =~= s.update(0, (c, s[0].1 + items)));
    } else {
        lemma_store_put_at(s.drop_first(), c, items, i - 1);
        assert(s.drop_first()[i - 1] == s[i]);
        assert(store_put(s, c, items) =~= s.update(i, (c, s[i].1 + items)));
    }
}

/// `store_put` appends a fresh entry when no entry carries `c`.
pub proof fn lemma_store_put_absent(
    s: Seq<(ChunkPosition, Seq<Entity>)>,
    c: ChunkPosition,
    items: Seq<Entity>,
)
    requires
        forall|j: int| 0 <= j < s.len() ==> (#[trigger] s[j]).0 != c,
    ensures
        store_put(s, c, items) == s.push((c, items)),
    decreases s.len(),
{
    if s.len() == 0 {
        assert(store_put(s, c, items) =~= s.push((c, items)));
    } else {
        lemma_store_put_absent(s.drop_first(), c, items);
        assert(store_put(s, c, items) =~= s.push((c, items)));
    }
}

/// Mathematical content of an [`Entities`] value: the player, the resident
/// entities in iteration order, the loaded chunk list, and the evicted
/// store as a key/value list.
pub ghost struct EntitiesView {
    pub player: Player,
    pub resident: Seq<Entity>,
    pub loaded: Seq<ChunkPosition>,
    pub store: Seq<(ChunkPosition, Seq<Entity>)>,
}

impl EntitiesView {
    /// Structural well-formedness of the cache: store keys unique and
    /// disjoint from the loaded list, loaded chunks listed once, and every
    /// stored entity tagged with the chunk it is stored under.
    pub open spec fn wf(self) -> bool {
        &&& keys_unique(self.store)
        &&& (forall|i: int, j: int|
            0 <= i < j < self.loaded.len() ==> self.loaded[i] != self.loaded[j])
        &&& (forall|i: int|
            0 <= i < self.loaded.len() ==> !assoc_has(self.store, #[trigger] self.loaded[i]))
        &&& (forall|i: int, j: int|
            0 <= i < self.store.len() && 0 <= j < (#[trigger] self.store[i]).1.len() ==> (
            #[trigger] self.store[i].1[j]).chunk_pos == self.store[i].0)
    }
}

/// Entities have the capabilites to interact in the game world.
/// Block view, move, block movement, be playable...
pub struct Entities {
    pub player: Player,
    entities: Vec<Entity>,
    loaded_locations: Vec<ChunkPosition>,
    entities_store: Vec<(ChunkPosition, Vec<Entity>)>,
}

impl View for Entities {
    type V = EntitiesView;

    closed spec fn view(&self) -> EntitiesView {
        EntitiesView {
            player: self.player,
            resident: self.entities@,
            loaded: self.loaded_locations@,
            store: self.entities_store@.map_values(
                |p: (ChunkPosition, Vec<Entity>)| (p.0, p.1@),
            ),
        }
    }
}

impl Default for Entities {
    fn default() -> (r: Self)
        ensures
            r@.player == Player::default_spec(),
            r@.resident == Seq::<Entity>::empty(),
            r@.loaded == Seq::<ChunkPosition>::empty(),
            r@.store == Seq::<(ChunkPosition, Seq<Entity>)>::empty(),
            r@.wf(),
    {
        let r = Self {
            player: Player::default(),
            entities: Vec::new(),
            loaded_locations: Vec::new(),
            entities_store: Vec::new(),
        };
        proof {
            assert(r@.store =~= Seq::<(ChunkPosition, Seq<Entity>)>::empty());
        }
        r
    }
}

impl Entities {
    /// Accumulates a movement intent into the player's pending delta.
    pub fn input(&mut self, dest: (i8, i8))
        requires
            i8::MIN <= old(self)@.player.destination.x + dest.0 <= i8::MAX,
            i8::MIN <= old(self)@.player.destination.y + dest.1 <= i8::MAX,
        ensures
            final(self)@ == (EntitiesView {
                player: Player {
                    destination: crate::player::Destination {
                        x: (old(self)@.player.destination.x + dest.0) as i8,
                        y: (old(self)@.player.destination.y + dest.1) as i8,
                    },
                    ..old(self)@.player
                },
                ..old(self)@
            }),
    {
        self.player.destination.set_destination(dest.0, dest.1);
    }

    /// The resident entities, in iteration order.
    pub fn resident_entities(&self) -> (r: &Vec<Entity>)
        ensures
            r@ == self@.resident,
    {
        &self.entities
    }

    /// The chunks whose entities are currently resident.
    pub fn loaded_list(&self) -> (r: &Vec<ChunkPosition>)
        ensures
            r@ == self@.loaded,
    {
        &self.loaded_locations
    }

    /// The evicted entities stored for a chunk, if that chunk has a store
    /// entry.
    pub fn stored_at(&self, location: &ChunkPosition) -> (r: Option<&Vec<Entity>>)
        ensures
            match r {
                Some(v) => assoc_find(self@.store, *location) == Some(v@),
                None => !assoc_has(self@.store, *location),
            },
    {
        proof {
            lemma_store_view_keys(self);
        }
        match assoc_index_of(&self.entities_store, location) {
            Some(i) => {
                proof {
                    lemma_assoc_at(self@.store, *location, i as int);
                }
                Some(&self.entities_store[i].1)
            },
            None => {
                proof {
                    lemma_assoc_absent(self@.store, *location);
                }
                None
            },
        }
    }

    /// Whether the store holds an entry for the chunk.
    fn store_has_key(&self, location: &ChunkPosition) -> (r: bool)
        ensures
            r == assoc_has(self@.store, *location),
    {
        proof {
            lemma_store_view_keys(self);
            lemma_assoc_has_exists(self@.store, *location);
        }
        match assoc_index_of(&self.entities_store, location) {
            Some(i) => {
                proof {
                    assert(self@.store[i as int].0 == *location);
                }
                true
            },
            None => {
                proof {
                    assert forall|j: int|
                        0 <= j < self@.store.len() implies (#[trigger] self@.store[j]).0
                        != location by {}
                }
                false
            },
        }
    }

    /// Takes a chunk's store entry out, handing back its entities.
    fn store_remove_entry(&mut self, location: &ChunkPosition) -> (r: Option<Vec<Entity>>)
        ensures
            match r {
                Some(v) => assoc_find(old(self)@.store, *location) == Some(v@) && final(self)@
                    == (EntitiesView {
                    store: assoc_remove(old(self)@.store, *location),
                    ..old(self)@
                }),
                None => !assoc_has(old(self)@.store, *location) && final(self)@ == old(self)@,
            },
    {
        proof {
            lemma_store_view_keys(self);
        }
        match assoc_index_of(&self.entities_store, location) {
            Some(i) => {
                proof {
                    lemma_assoc_at(self@.store, *location, i as int);
                }
                let ghost pre = self@.store;
                let entry = self.entities_store.remove(i);
                proof {
                    assert(self@.store =~= pre.remove(i as int));
                }
                Some(entry.1)
            },
            None => {
                proof {
                    lemma_assoc_absent(self@.store, *location);
                }
                None
            },
        }
    }

    /// Appends entities to a chunk's store entry, creating the entry if the
    /// chunk has none.
    fn store_put_entry(&mut self, location: &ChunkPosition, items: Vec<Entity>)
        ensures
            final(self)@ == (EntitiesView {
                store: store_put(old(self)@.store, *location, items@),
                ..old(self)@
            }),
    {
        proof {
            lemma_store_view_keys(self);
        }
        let mut items = items;
        match assoc_index_of(&self.entities_store, location) {
            Some(i) => {
                proof {
                    lemma_store_put_at(self@.store, *location, items@, i as int);
                }
                let ghost pre = self@.store;
                let ghost old_items = items@;
                let entry = self.entities_store.remove(i);
                let key = entry.0;
                let mut stored = entry.1;
                stored.append(&mut items);
                self.entities_store.insert(i, (key, stored));
                proof {
                    assert(self@.store =~= pre.update(i as int, (*location, pre[i as int].1 + old_items)));
                }
            },
            None => {
                proof {
                    lemma_store_put_absent(self@.store, *location, items@);
                }
                let ghost pre = self@.store;
                self.entities_store.push((*location, items));
                proof {
                    assert(self@.store =~= pre.push((*location, items@)));
                }
            },
        }
    }
}

/// World address of a resident entity.
pub open spec fn entity_abs(e: Entity) -> AbsolutePosition {
    AbsolutePosition { chunk: e.chunk_pos, local: e.pos }
}

/// The residents with every entity at the given address dropped.
pub open spec fn remove_at(res: Seq<Entity>, c: ChunkPosition, l: LocalPosition) -> Seq<Entity> {
    res.filter(|e: Entity| !at_pos(e, c, l))
}

/// The residents belonging to chunk `c`.
pub open spec fn residents_of(res: Seq<Entity>, c: ChunkPosition) -> Seq<Entity> {
    res.filter(|e: Entity| e.chunk_pos == c)
}

/// The residents not belonging to chunk `c`.
pub open spec fn residents_not_of(res: Seq<Entity>, c: ChunkPosition) -> Seq<Entity> {
    res.filter(|e: Entity| e.chunk_pos != c)
}

/// The residents that are not flagged removed.
pub open spec fn live(res: Seq<Entity>) -> Seq<Entity> {
    res.filter(|e: Entity| !e.removed)
}

/// The loaded list without chunk `c`.
pub open spec fn loaded_without(loaded: Seq<ChunkPosition>, c: ChunkPosition) -> Seq<
    ChunkPosition,
> {
    loaded.filter(|d: ChunkPosition| d != c)
}

/// Tile kind and removal flag of the hut blueprint cell at row `h`, column
/// `w`.
fn hut_blueprint(h: i16, w: i16) -> (r: (TileType, bool))
    requires
        0 <= h < 5,
        0 <= w < 5,
    ensures
        r == hut_piece(h as int, w as int),
{
    if h == 0 {
        (TileType::StoneWall, false)
    } else if h == 1 {
        if w == 0 || w == 4 {
            (TileType::StoneWall, false)
        } else if w == 2 {
            (TileType::Chest, false)
        } else {
            (TileType::Debug, true)
        }
    } else if h == 2 || h == 3 {
        if w == 0 || w == 4 {
            (TileType::StoneWall, false)
        } else {
            (TileType::Debug, true)
        }
    } else {
        if w == 0 || w == 4 {
            (TileType::StoneWall, false)
        } else if w == 1 || w == 3 {
            (TileType::StoneEngraving, false)
        } else {
            (TileType::Debug, true)
        }
    }
}

impl Entities {
    /// Index of the first resident entity at the address, in iteration
    /// order.
    fn find_entity_index_at(&self, position: &AbsolutePosition) -> (r: Option<usize>)
        ensures
            match r {
                Some(i) => first_at(self@.resident, position.chunk, position.local) == Some(
                    i as int,
                ),
                None => first_at(self@.resident, position.chunk, position.local) is None,
            },
    {
        proof {
            lemma_first_at_props(self@.resident, position.chunk, position.local);
        }
        let mut i: usize = 0;
        while i < self.entities.len()
            invariant
                0 <= i <= self@.resident.len(),
                forall|j: int|
                    0 <= j < i ==> !at_pos(#[trigger] self@.resident[j], position.chunk, position.local),
            decreases self@.resident.len() - i,
        {
            let e = &self.entities[i];
            if e.pos == position.local && e.chunk_pos == position.chunk {
                proof {
                    lemma_first_at_props(self@.resident, position.chunk, position.local);
                }
                return Some(i);
            }
            i = i + 1;
        }
        proof {
            lemma_first_at_props(self@.resident, position.chunk, position.local);
        }
        None
    }

    /// First resident entity at the address, read-only.
    pub fn get_entity_at_pos(&self, position: &AbsolutePosition) -> (r: Option<&Entity>)
        ensures
            match r {
                Some(e) => has_at(self@.resident, position.chunk, position.local) && Some(*e)
                    == match first_at(self@.resident, position.chunk, position.local) {
                    Some(i) => Some(self@.resident[i]),
                    None => None::<Entity>,
                },
                None => !has_at(self@.resident, position.chunk, position.local),
            },
    {
        proof {
            lemma_first_at_props(self@.resident, position.chunk, position.local);
        }
        match self.find_entity_index_at(position) {
            Some(i) => Some(&self.entities[i]),
            None => None,
        }
    }

    /// First resident entity at the address, for mutation in place.
    pub fn get_mut_entity_at_pos(&mut self, position: &AbsolutePosition) -> (r: Option<
        &mut Entity,
    >)
        ensures
            match r {
                Some(e) => {
                    &&& first_at(old(self)@.resident, position.chunk, position.local) is Some
                    &&& *e == old(self)@.resident[first_at(
                        old(self)@.resident,
                        position.chunk,
                        position.local,
                    ).unwrap()]
                    &&& final(self)@ == (EntitiesView {
                        resident: old(self)@.resident.update(
                            first_at(old(self)@.resident, position.chunk, position.local).unwrap(),
                            *final(e),
                        ),
                        ..old(self)@
                    })
                },
                None => !has_at(old(self)@.resident, position.chunk, position.local)
                    && final(self)@ == old(self)@,
            },
    {
        proof {
            lemma_first_at_props(self@.resident, position.chunk, position.local);
        }
        match self.find_entity_index_at(position) {
            Some(i) => Some(&mut self.entities[i]),
            None => None,
        }
    }

    /// Drops every resident entity at the address, immediately.
    pub fn delete_entity_at_location(&mut self, position: &AbsolutePosition)
        ensures
            final(self)@ == (EntitiesView {
                resident: remove_at(old(self)@.resident, position.chunk, position.local),
                ..old(self)@
            }),
    {
        let ghost res0 = self@.resident;
        let mut kept: Vec<Entity> = Vec::new();
        let mut i: usize = 0;
        while i < self.entities.len()
            invariant
                self@.resident == res0,
                0 <= i <= res0.len(),
                kept@ == remove_at(res0.subrange(0, i as int), position.chunk, position.local),
            decreases res0.len() - i,
        {
            let e = self.entities[i];
            proof {
                reveal_with_fuel(Seq::<_>::filter, 2);
                assert(res0.subrange(0, i as int + 1).drop_last() =~= res0.subrange(0, i as int));
                assert(res0.subrange(0, i as int + 1).last() == res0[i as int]);
            }
            if !(e.chunk_pos == position.chunk && e.pos == position.local) {
                kept.push(e);
            }
            i = i + 1;
        }
        proof {
            assert(res0.subrange(0, res0.len() as int) =~= res0);
        }
        self.entities = kept;
    }

    /// Purges residents flagged removed; the store is never touched.
    fn clean_up(&mut self)
        ensures
            final(self)@ == (EntitiesView { resident: live(old(self)@.resident), ..old(self)@ }),
    {
        let ghost res0 = self@.resident;
        let mut kept: Vec<Entity> = Vec::new();
        let mut i: usize = 0;
        while i < self.entities.len()
            invariant
                self@.resident == res0,
                0 <= i <= res0.len(),
                kept@ == live(res0.subrange(0, i as int)),
            decreases res0.len() - i,
        {
            let e = self.entities[i];
            proof {
                reveal_with_fuel(Seq::<_>::filter, 2);
                assert(res0.subrange(0, i as int + 1).drop_last() =~= res0.subrange(0, i as int));
                assert(res0.subrange(0, i as int + 1).last() == res0[i as int]);
            }
            if !e.removed {
                kept.push(e);
            }
            i = i + 1;
        }
        proof {
            assert(res0.subrange(0, res0.len() as int) =~= res0);
        }
        self.entities = kept;
    }

    /// Squared distance to the nearest resident entity of the given kind,
    /// or `None` when none is resident.
    pub fn distance_sq_to_closest(&self, position: &AbsolutePosition, entity_type: TileType) -> (r:
        Option<i128>)
        ensures
            match r {
                Some(m) => (exists|i: int|
                    0 <= i < self@.resident.len() && (#[trigger] self@.resident[i]).tile
                        == entity_type && dist_sq(*position, entity_abs(self@.resident[i])) == m)
                    && (forall|i: int|
                    0 <= i < self@.resident.len() && (#[trigger] self@.resident[i]).tile
                        == entity_type ==> dist_sq(*position, entity_abs(self@.resident[i])) >= m),
                None => forall|i: int|
                    0 <= i < self@.resident.len() ==> (#[trigger] self@.resident[i]).tile
                        != entity_type,
            },
    {
        let mut res: Option<i128> = None;
        let mut i: usize = 0;
        while i < self.entities.len()
            invariant
                0 <= i <= self@.resident.len(),
                match res {
                    Some(m) => (exists|j: int|
                        0 <= j < i && (#[trigger] self@.resident[j]).tile == entity_type && dist_sq(
                            *position,
                            entity_abs(self@.resident[j]),
                        ) == m) && (forall|j: int|
                        0 <= j < i && (#[trigger] self@.resident[j]).tile == entity_type ==> dist_sq(
                            *position,
                            entity_abs(self@.resident[j]),
                        ) >= m),
                    None => forall|j: int|
                        0 <= j < i ==> (#[trigger] self@.resident[j]).tile != entity_type,
                },
            decreases self@.resident.len() - i,
        {
            let e = self.entities[i];
            if e.tile == entity_type {
                let d = distance_squared(position, &e.get_absolute_position());
                res = match res {
                    None => Some(d),
                    Some(m) => if d < m {
                        Some(d)
                    } else {
                        Some(m)
                    },
                };
            }
            i = i + 1;
        }
        res
    }

    /// Places a debug entity at the address.
    pub fn add_debug_entity(&mut self, pos: AbsolutePosition)
        ensures
            final(self)@ == (EntitiesView {
                resident: old(self)@.resident.push(
                    Entity {
                        chunk_pos: pos.chunk,
                        pos: pos.local,
                        tile: TileType::Debug,
                        removed: false,
                    },
                ),
                ..old(self)@
            }),
    {
        self.entities.push(Entity::new(pos, TileType::Debug));
    }

    /// Moves restored entities back into the resident collection.
    fn load_entities(&mut self, entities: Vec<Entity>)
        ensures
            final(self)@ == (EntitiesView {
                resident: old(self)@.resident + entities@,
                ..old(self)@
            }),
    {
        let mut entities = entities;
        self.entities.append(&mut entities);
    }

    /// Stamps the hut blueprint onto the 5x5 cells anchored at
    /// `buttom_left`: any entity already claiming a cell is flagged
    /// removed, and the cell is claimed by the blueprint's piece.  Returns
    /// no entities of its own; the pieces are placed directly.
    pub fn create_hut(&mut self, buttom_left: &AbsolutePosition) -> (r: Vec<Entity>)
        requires
            buttom_left.wf(),
            buttom_left.chunk.x < i32::MAX,
            buttom_left.chunk.y < i32::MAX,
        ensures
            final(self)@ == (EntitiesView {
                resident: stamp_upto(old(self)@.resident, *buttom_left, 25),
                ..old(self)@
            }),
            r@ == Seq::<Entity>::empty(),
    {
        let ghost v0 = self@;
        let res: Vec<Entity> = Vec::new();
        let mut height: i16 = 0;
        while height < 5
            invariant
                buttom_left.wf(),
                buttom_left.chunk.x < i32::MAX,
                buttom_left.chunk.y < i32::MAX,
                0 <= height <= 5,
                self@ == (EntitiesView {
                    resident: stamp_upto(v0.resident, *buttom_left, 5 * height as int),
                    ..v0
                }),
            decreases 5 - height,
        {
            let mut width: i16 = 0;
            while width < 5
                invariant
                    buttom_left.wf(),
                    buttom_left.chunk.x < i32::MAX,
                    buttom_left.chunk.y < i32::MAX,
                    0 <= height < 5,
                    0 <= width <= 5,
                    self@ == (EntitiesView {
                        resident: stamp_upto(
                            v0.resident,
                            *buttom_left,
                            5 * height as int + width as int,
                        ),
                        ..v0
                    }),
                decreases 5 - width,
            {
                let ghost k = 5 * height as int + width as int;
                proof {
                    assert(k / 5 == height as int && k % 5 == width as int) by (nonlinear_arith)
                        requires
                            0 <= (width as int) && (width as int) < 5,
                            0 <= (height as int) && (height as int) < 5,
                            k == 5 * height as int + width as int,
                    ;
                }
                let absolute_position = buttom_left.add_to_local((width, height));
                proof {
                    assert(absolute_position == hut_cell(*buttom_left, height as int, width as int));
                    lemma_first_at_props(
                        self@.resident,
                        absolute_position.chunk,
                        absolute_position.local,
                    );
                }
                if let Some(entity) = self.get_mut_entity_at_pos(&absolute_position) {
                    entity.removed = true;
                }
                let mut base_entity = Entity::default();
                let piece = hut_blueprint(height, width);
                base_entity.set_tile(piece.0);
                base_entity.removed = piece.1;
                base_entity.set_position(absolute_position);
                self.entities.push(base_entity);
                width = width + 1;
            }
            height = height + 1;
        }
        res
    }

    /// Generates the feature entities of a freshly cold chunk and places
    /// them: features on claimed cells are suppressed, and placeholder
    /// markers stamp a hut unless a chest is already within the minimum
    /// spacing.
    fn populate_location(
        &mut self,
        location: ChunkPosition,
        terrain: &ChunkTerrain,
        generator: &Generator,
        noise: &Vec<u8>,
    )
        requires
            terrain.wf(),
            noise@.len() == CHUNK_AREA as int,
            location.x < i32::MAX,
            location.y < i32::MAX,
        ensures
            final(self)@ == (EntitiesView {
                resident: populate_upto(
                    old(self)@.resident,
                    location,
                    gen_entities_full(terrain@.tiles, noise@),
                    gen_entities_full(terrain@.tiles, noise@).len() as int,
                ),
                ..old(self)@
            }),
    {
        let ghost v0 = self@;
        let entities = generator.generate_entities(noise, terrain);
        let ghost gens = entities@;
        let mut idx: usize = 0;
        while idx < entities.len()
            invariant
                entities@ == gens,
                forall|j: int|
                    0 <= j < gens.len() ==> {
                        let e = #[trigger] gens[j];
                        &&& e.pos.in_range()
                        &&& e.chunk_pos == (ChunkPosition { x: 0, y: 0 })
                        &&& !e.removed
                    },
                location.x < i32::MAX,
                location.y < i32::MAX,
                0 <= idx <= gens.len(),
                self@ == (EntitiesView {
                    resident: populate_upto(v0.resident, location, gens, idx as int),
                    ..v0
                }),
            decreases gens.len() - idx,
        {
            let entity = entities[idx];
            let entity_pos = AbsolutePosition { chunk: location, local: entity.pos };
            let ghost pre = self@.resident;
            if entity.tile == TileType::Placeholder {
                let dist_opt = self.distance_sq_to_closest(&entity_pos, TileType::Chest);
                let far = match dist_opt {
                    None => true,
                    Some(d) => d > 36,
                };
                proof {
                    match dist_opt {
                        None => {
                            assert(chest_far(pre, entity_pos));
                        },
                        Some(d) => {
                            if d > 36 {
                                assert(chest_far(pre, entity_pos));
                            } else {
                                let i = choose|i: int|
                                    0 <= i < pre.len() && (#[trigger] pre[i]).tile
                                        == TileType::Chest && dist_sq(entity_pos, entity_abs(pre[i]))
                                        == d;
                                assert(!chest_far(pre, entity_pos));
                            }
                        },
                    }
                }
                if far {
                    let _hut = self.create_hut(&entity_pos);
                }
            } else {
                if self.get_entity_at_pos(&entity_pos).is_some() {
                } else {
                    let mut entity = entity;
                    entity.set_chunk_position(entity_pos.chunk);
                    self.entities.push(entity);
                }
            }
            idx = idx + 1;
        }
    }
}

/// With unique keys, putting under `c` appends to `c`'s entry (creating it
/// if missing), keeps the other entries' lookups, and keeps keys unique.
pub proof fn lemma_store_put_props(
    s: Seq<(ChunkPosition, Seq<Entity>)>,
    c: ChunkPosition,
    items: Seq<Entity>,
)
    requires
        keys_unique(s),
    ensures
        keys_unique(store_put(s, c, items)),
        forall|d: ChunkPosition|
            #[trigger] assoc_find(store_put(s, c, items), d) == if d == c {
                Some(
                    match assoc_find(s, c) {
                        Some(v) => v + items,
                        None => items,
                    },
                )
            } else {
                assoc_find(s, d)
            },
    decreases s.len(),
{
    let r = store_put(s, c, items);
    if s.len() == 0 {
        assert forall|d: ChunkPosition|
            #[trigger] assoc_find(r, d) == (if d == c {
                Some(
                    match assoc_find(s, c) {
                        Some(v) => v + items,
                        None => items,
                    },
                )
            } else {
                assoc_find(s, d)
            }) by {
            assert(r =~= seq![(c, items)]);
            assert(r.len() == 1);
            assert(r[0] == (c, items));
            if d == c {
                assert(assoc_find(r, d) == Some(items));
            } else {
                assert(assoc_find(r, d) == assoc_find(r.drop_first(), d));
                assert(r.drop_first().len() == 0);
            }
        }
    } else if s[0].0 == c {
        assert(r =~= seq![(s[0].0, s[0].1 + items)] + s.drop_first());
        assert forall|d: ChunkPosition|
            #[trigger] assoc_find(r, d) == (if d == c {
                Some(
                    match assoc_find(s, c) {
                        Some(v) => v + items,
                        None => items,
                    },
                )
            } else {
                assoc_find(s, d)
            }) by {
            assert(r.len() == s.len());
            assert(r[0] == (s[0].0, s[0].1 + items));
            assert(r.drop_first() =~= s.drop_first());
        }
        assert forall|i: int, j: int| 0 <= i < j < r.len() implies (#[trigger] r[i]).0 != (
        #[trigger] r[j]).0 by {
            if i > 0 {
                assert(r[i] == s[i]);
            }
            assert(r[j] == s[j]);
        }
    } else {
        assert(keys_unique(s.drop_first()));
        lemma_store_put_props(s.drop_first(), c, items);
        let r2 = store_put(s.drop_first(), c, items);
        assert forall|d: ChunkPosition|
            #[trigger] assoc_find(r, d) == (if d == c {
                Some(
                    match assoc_find(s, c) {
                        Some(v) => v + items,
                        None => items,
                    },
                )
            } else {
                assoc_find(s, d)
            }) by {
            assert(r.len() > 0);
            assert(r[0] == s[0]);
            assert(r.drop_first() =~= r2);
            if s[0].0 == d {
                assert(assoc_find(r, d) == Some(s[0].1));
                assert(assoc_find(s, d) == Some(s[0].1));
            } else {
                assert(assoc_find(r, d) == assoc_find(r2, d));
                assert(assoc_find(s, d) == assoc_find(s.drop_first(), d));
            }
        }
        assert forall|i: int, j: int| 0 <= i < j < r.len() implies (#[trigger] r[i]).0 != (
        #[trigger] r[j]).0 by {
            if i == 0 {
                assert(r[j] == r2[j - 1]);
                let k = r2[j - 1].0;
                lemma_assoc_has_exists(r2, k);
                assert(assoc_has(r2, k));
                if k != c {
                    assert(assoc_find(r2, k) == assoc_find(s.drop_first(), k));
                    lemma_assoc_has_exists(s.drop_first(), k);
                    let m = choose|m: int|
                        0 <= m < s.drop_first().len() && (#[trigger] s.drop_first()[m]).0 == k;
                    assert(s[m + 1].0 == k);
                }
            } else {
                assert(r[i] == r2[i - 1] && r[j] == r2[j - 1]);
            }
        }
    }
}

/// Tiles of the stored terrain for chunk `c` (empty when absent).
pub open spec fn world_tiles(
    chunks: Seq<(ChunkPosition, crate::chunk_terrain::ChunkTerrainView)>,
    c: ChunkPosition,
) -> Seq<Seq<TileType>> {
    match assoc_find(chunks, c) {
        Some(tv) => tv.tiles,
        None => Seq::empty(),
    }
}

/// The noise slab supplied for chunk `c` (empty when absent).
pub open spec fn sample_noise(samples: Seq<(ChunkPosition, Vec<u8>)>, c: ChunkPosition) -> Seq<
    u8,
> {
    match assoc_find(samples, c) {
        Some(n) => n@,
        None => Seq::empty(),
    }
}

/// View of an optional noise slab (empty when absent).
pub open spec fn opt_noise(noise: Option<&Vec<u8>>) -> Seq<u8> {
    match noise {
        Some(n) => n@,
        None => Seq::empty(),
    }
}

/// The cache after loading chunk `c` that was not loaded before: evicted
/// entities are restored exactly when the store holds them; only a true
/// cold miss is populated from the generator.
pub open spec fn load_miss(
    v: EntitiesView,
    c: ChunkPosition,
    tiles: Seq<Seq<TileType>>,
    noise: Seq<u8>,
) -> EntitiesView {
    if assoc_has(v.store, c) {
        EntitiesView {
            resident: v.resident + assoc_find(v.store, c).unwrap(),
            store: assoc_remove(v.store, c),
            loaded: v.loaded.push(c),
            player: v.player,
        }
    } else {
        EntitiesView {
            resident: populate_upto(
                v.resident,
                c,
                gen_entities_full(tiles, noise),
                gen_entities_full(tiles, noise).len() as int,
            ),
            store: v.store,
            loaded: v.loaded.push(c),
            player: v.player,
        }
    }
}

/// The cache after the load step for one active chunk.
pub open spec fn load_one(
    v: EntitiesView,
    c: ChunkPosition,
    chunks: Seq<(ChunkPosition, crate::chunk_terrain::ChunkTerrainView)>,
    samples: Seq<(ChunkPosition, Vec<u8>)>,
) -> EntitiesView {
    if v.loaded.contains(c) {
        v
    } else {
        load_miss(v, c, world_tiles(chunks, c), sample_noise(samples, c))
    }
}

/// The cache after the load steps for the given active chunks, in order.
pub open spec fn load_phase(
    v: EntitiesView,
    actives: Seq<ChunkPosition>,
    chunks: Seq<(ChunkPosition, crate::chunk_terrain::ChunkTerrainView)>,
    samples: Seq<(ChunkPosition, Vec<u8>)>,
) -> EntitiesView
    decreases actives.len(),
{
    if actives.len() == 0 {
        v
    } else {
        load_one(load_phase(v, actives.drop_last(), chunks, samples), actives.last(), chunks, samples)
    }
}

/// The cache after chunk `c` is evicted: its residents move into its store
/// entry and it leaves the loaded list.
pub open spec fn unload_one(v: EntitiesView, c: ChunkPosition) -> EntitiesView {
    EntitiesView {
        resident: residents_not_of(v.resident, c),
        store: store_put(v.store, c, residents_of(v.resident, c)),
        loaded: loaded_without(v.loaded, c),
        player: v.player,
    }
}

/// The cache after the given chunks are evicted, in order.
pub open spec fn unload_phase(v: EntitiesView, targets: Seq<ChunkPosition>) -> EntitiesView
    decreases targets.len(),
{
    if targets.len() == 0 {
        v
    } else {
        unload_one(unload_phase(v, targets.drop_last()), targets.last())
    }
}

/// The loaded chunks that fell out of the active window.
pub open spec fn unload_targets(
    loaded: Seq<ChunkPosition>,
    actives: Seq<ChunkPosition>,
) -> Seq<ChunkPosition> {
    loaded.filter(|d: ChunkPosition| !actives.contains(d))
}

/// Chunks of resident entities outside the active window, one entry per
/// chunk, in first-appearance order.
pub open spec fn stray_chunks(res: Seq<Entity>, actives: Seq<ChunkPosition>) -> Seq<ChunkPosition>
    decreases res.len(),
{
    if res.len() == 0 {
        Seq::empty()
    } else {
        let prev = stray_chunks(res.drop_last(), actives);
        let c = res.last().chunk_pos;
        if !actives.contains(c) && !prev.contains(c) {
            prev.push(c)
        } else {
            prev
        }
    }
}

/// The whole window advance: load every active chunk (restore or
/// populate), evict the loaded chunks that departed, and evict any stray
/// residents that structure stamping left outside the window.
pub open spec fn advance(
    v: EntitiesView,
    actives: Seq<ChunkPosition>,
    chunks: Seq<(ChunkPosition, crate::chunk_terrain::ChunkTerrainView)>,
    samples: Seq<(ChunkPosition, Vec<u8>)>,
) -> EntitiesView {
    let v1 = load_phase(v, actives, chunks, samples);
    let v2 = unload_phase(v1, unload_targets(v1.loaded, actives));
    unload_phase(v2, stray_chunks(v2.resident, actives))
}

impl Entities {
    /// Evicts one chunk: its resident entities move into its store entry
    /// (created on first eviction) and it leaves the loaded list.
    fn unload_entites_from_location(&mut self, location: &ChunkPosition)
        ensures
            final(self)@ == unload_one(old(self)@, *location),
    {
        let ghost v0 = self@;
        let mut entities_to_store: Vec<Entity> = Vec::new();
        let mut kept: Vec<Entity> = Vec::new();
        let mut i: usize = 0;
        while i < self.entities.len()
            invariant
                self@ == v0,
                0 <= i <= v0.resident.len(),
                entities_to_store@ == residents_of(v0.resident.subrange(0, i as int), *location),
                kept@ == residents_not_of(v0.resident.subrange(0, i as int), *location),
            decreases v0.resident.len() - i,
        {
            let e = self.entities[i];
            proof {
                reveal_with_fuel(Seq::<_>::filter, 2);
                assert(v0.resident.subrange(0, i as int + 1).drop_last() =~= v0.resident.subrange(
                    0,
                    i as int,
                ));
                assert(v0.resident.subrange(0, i as int + 1).last() == v0.resident[i as int]);
            }
            if e.chunk_pos == *location {
                entities_to_store.push(e);
            } else {
                kept.push(e);
            }
            i = i + 1;
        }
        proof {
            assert(v0.resident.subrange(0, v0.resident.len() as int) =~= v0.resident);
        }
        self.entities = kept;
        self.store_put_entry(location, entities_to_store);
        let ghost loaded0 = self@.loaded;
        let mut kept_loaded: Vec<ChunkPosition> = Vec::new();
        let mut j: usize = 0;
        while j < self.loaded_locations.len()
            invariant
                self@.loaded == loaded0,
                0 <= j <= loaded0.len(),
                kept_loaded@ == loaded_without(loaded0.subrange(0, j as int), *location),
            decreases loaded0.len() - j,
        {
            let c = self.loaded_locations[j];
            proof {
                reveal_with_fuel(Seq::<_>::filter, 2);
                assert(loaded0.subrange(0, j as int + 1).drop_last() =~= loaded0.subrange(
                    0,
                    j as int,
                ));
                assert(loaded0.subrange(0, j as int + 1).last() == loaded0[j as int]);
            }
            if !(c == *location) {
                kept_loaded.push(c);
            }
            j = j + 1;
        }
        proof {
            assert(loaded0.subrange(0, loaded0.len() as int) =~= loaded0);
        }
        self.loaded_locations = kept_loaded;
    }

    /// Loads one active chunk that is not loaded yet: restores its evicted
    /// entities when the store holds them, else populates it from the
    /// generator with the supplied noise slab.
    fn load_entities_at_location(
        &mut self,
        location: &ChunkPosition,
        chunk_terrain: &ChunkTerrain,
        generator: &Generator,
        noise: Option<&Vec<u8>>,
    )
        requires
            chunk_terrain.wf(),
            !assoc_has(old(self)@.store, *location) ==> match noise {
                Some(n) => n@.len() == CHUNK_AREA as int,
                None => false,
            },
            location.x < i32::MAX,
            location.y < i32::MAX,
        ensures
            final(self)@ == load_miss(
                old(self)@,
                *location,
                chunk_terrain@.tiles,
                opt_noise(noise),
            ),
    {
        if let Some(entities) = self.store_remove_entry(location) {
            self.load_entities(entities);
        } else {
            match noise {
                Some(n) => {
                    self.populate_location(*location, chunk_terrain, generator, n);
                },
                None => {
                    proof {
                        assert(false);
                    }
                },
            }
        }
        self.loaded_locations.push(*location);
    }

    /// The active chunks that are neither loaded nor stored: the chunks the
    /// caller must sample feature noise for before `update`.
    pub fn cold_locations(&self, active: &Vec<ChunkPosition>) -> (r: Vec<ChunkPosition>)
        ensures
            forall|j: int|
                0 <= j < r@.len() ==> (active@.contains(#[trigger] r@[j]) && !self@.loaded.contains(
                    r@[j],
                ) && !assoc_has(self@.store, r@[j])),
            forall|k: int|
                0 <= k < active@.len() && !self@.loaded.contains(#[trigger] active@[k])
                    && !assoc_has(self@.store, active@[k]) ==> r@.contains(active@[k]),
            forall|i: int, j: int| 0 <= i < j < r@.len() ==> r@[i] != r@[j],
    {
        let mut r: Vec<ChunkPosition> = Vec::new();
        let mut k: usize = 0;
        while k < active.len()
            invariant
                0 <= k <= active@.len(),
                forall|j: int|
                    0 <= j < r@.len() ==> (active@.contains(#[trigger] r@[j])
                        && !self@.loaded.contains(r@[j]) && !assoc_has(self@.store, r@[j])),
                forall|k2: int|
                    0 <= k2 < k && !self@.loaded.contains(#[trigger] active@[k2]) && !assoc_has(
                        self@.store,
                        active@[k2],
                    ) ==> r@.contains(active@[k2]),
                forall|i: int, j: int| 0 <= i < j < r@.len() ==> r@[i] != r@[j],
            decreases active@.len() - k,
        {
            let c = active[k];
            proof {
                assert(active@.contains(active@[k as int]));
                lemma_store_view_keys(self);
            }
            if !chunk_list_contains(&self.loaded_locations, &c) && !self.store_has_key(&c)
                && !chunk_list_contains(&r, &c) {
                let ghost r0 = r@;
                r.push(c);
                proof {
                    assert forall|k2: int|
                        0 <= k2 < k + 1 && !self@.loaded.contains(#[trigger] active@[k2])
                            && !assoc_has(self@.store, active@[k2]) implies r@.contains(
                        active@[k2],
                    ) by {
                        if k2 < k {
                            let j = choose|j: int| 0 <= j < r0.len() && r0[j] == active@[k2];
                            assert(r@[j] == active@[k2]);
                        } else {
                            assert(r@[r0.len() as int] == active@[k2]);
                        }
                    }
                }
            }
            k = k + 1;
        }
        r
    }

    /// Advances the active window: every active chunk is loaded (evicted
    /// entities restored exactly when stored, true cold misses populated
    /// from the supplied noise), departed chunks are evicted into the
    /// store, and any residents that structure stamping left outside the
    /// window are evicted too.  After the call the loaded chunks are
    /// exactly the active ones and every resident entity's chunk is
    /// active.
    pub fn advance_window(
        &mut self,
        world: &World,
        generator: &Generator,
        cold_samples: &Vec<(ChunkPosition, Vec<u8>)>,
    )
        requires
            old(self)@.wf(),
            world.wf(),
            forall|k: int|
                0 <= k < world@.in_view.len() ==> (#[trigger] world@.in_view[k]).x < i32::MAX && (
                world@.in_view[k]).y < i32::MAX,
            forall|k: int|
                0 <= k < world@.in_view.len() && !old(self)@.loaded.contains(
                    #[trigger] world@.in_view[k],
                ) && !assoc_has(old(self)@.store, world@.in_view[k]) ==> crate::world::sample_ok(
                    cold_samples@,
                    world@.in_view[k],
                ),
        ensures
            final(self)@ == advance(old(self)@, world@.in_view, world@.chunks, cold_samples@),
            final(self)@.wf(),
            final(self)@.player == old(self)@.player,
            forall|d: ChunkPosition|
                #[trigger] final(self)@.loaded.contains(d) <==> world@.in_view.contains(d),
            forall|i: int|
                0 <= i < final(self)@.resident.len() ==> world@.in_view.contains(
                    (#[trigger] final(self)@.resident[i]).chunk_pos,
                ),
    {
        let ghost v0 = self@;
        let ghost av = world@.in_view;
        let ghost wchunks = world@.chunks;
        let ghost samples = cold_samples@;
        let active = world.chunks_in_view();

        // Load phase: bring every active chunk in.
        let mut i: usize = 0;
        while i < active.len()
            invariant
                v0.wf(),
                world.wf(),
                active@ == av,
                av == world@.in_view,
                wchunks == world@.chunks,
                samples == cold_samples@,
                forall|k: int|
                    0 <= k < av.len() ==> (#[trigger] av[k]).x < i32::MAX && (av[k]).y < i32::MAX,
                forall|k: int|
                    0 <= k < av.len() && !v0.loaded.contains(#[trigger] av[k]) && !assoc_has(
                        v0.store,
                        av[k],
                    ) ==> crate::world::sample_ok(samples, av[k]),
                0 <= i <= av.len(),
                self@ == load_phase(v0, av.subrange(0, i as int), wchunks, samples),
            decreases av.len() - i,
        {
            proof {
                lemma_load_phase_props(v0, av.subrange(0, i as int), wchunks, samples);
                assert(av.subrange(0, i as int + 1).drop_last() =~= av.subrange(0, i as int));
                assert(av.subrange(0, i as int + 1).last() == av[i as int]);
            }
            let loc = active[i];
            if !chunk_list_contains(&self.loaded_locations, &loc) {
                let chunk_terrain = match world.get_chunk(&loc) {
                    Some(t) => t,
                    None => {
                        proof {
                            assert(world@.in_view.contains(av[i as int]));
                            lemma_assoc_has_exists(world@.chunks, av[i as int]);
                            assert(false);
                        }
                        vstd::pervasive::unreached()
                    },
                };
                let noise = crate::world::find_sample(cold_samples, &loc);
                proof {
                    let cur = self@;
                    if !assoc_has(cur.store, loc) {
                        if v0.loaded.contains(loc) {
                            assert(cur.loaded.contains(loc));
                            assert(false);
                        }
                        if assoc_has(v0.store, loc) {
                            assert(!cur.loaded.contains(loc));
                            assert(assoc_has(cur.store, loc));
                            assert(false);
                        }
                        assert(crate::world::sample_ok(samples, loc));
                    }
                }
                self.load_entities_at_location(&loc, chunk_terrain, generator, noise);
                proof {
                    let cur = load_phase(v0, av.subrange(0, i as int), wchunks, samples);
                    assert(world_tiles(wchunks, loc) == chunk_terrain@.tiles);
                    if assoc_has(cur.store, loc) {
                        assert(load_miss(cur, loc, chunk_terrain@.tiles, opt_noise(noise))
                            == load_miss(cur, loc, world_tiles(wchunks, loc), sample_noise(samples, loc)));
                    } else {
                        assert(opt_noise(noise) == sample_noise(samples, loc));
                    }
                    assert(self@ == load_one(cur, loc, wchunks, samples));
                }
            }
            i = i + 1;
        }
        proof {
            assert(av.subrange(0, av.len() as int) =~= av);
        }
        let ghost v1 = self@;
        proof {
            lemma_load_phase_props(v0, av, wchunks, samples);
        }

        // Eviction phase: departed loaded chunks move into the store.
        let mut locations_to_unload: Vec<ChunkPosition> = Vec::new();
        let mut j: usize = 0;
        while j < self.loaded_locations.len()
            invariant
                active@ == av,
                self@ == v1,
                0 <= j <= v1.loaded.len(),
                locations_to_unload@ == unload_targets(v1.loaded.subrange(0, j as int), av),
            decreases v1.loaded.len() - j,
        {
            let c = self.loaded_locations[j];
            proof {
                reveal_with_fuel(Seq::<_>::filter, 2);
                assert(v1.loaded.subrange(0, j as int + 1).drop_last() =~= v1.loaded.subrange(
                    0,
                    j as int,
                ));
                assert(v1.loaded.subrange(0, j as int + 1).last() == v1.loaded[j as int]);
            }
            if !chunk_list_contains(active, &c) {
                locations_to_unload.push(c);
            }
            j = j + 1;
        }
        proof {
            assert(v1.loaded.subrange(0, v1.loaded.len() as int) =~= v1.loaded);
        }
        let ghost targets = locations_to_unload@;
        let mut u: usize = 0;
        while u < locations_to_unload.len()
            invariant
                locations_to_unload@ == targets,
                v1.wf(),
                0 <= u <= targets.len(),
                self@ == unload_phase(v1, targets.subrange(0, u as int)),
            decreases targets.len() - u,
        {
            proof {
                lemma_unload_phase_props(v1, targets.subrange(0, u as int));
                assert(targets.subrange(0, u as int + 1).drop_last() =~= targets.subrange(
                    0,
                    u as int,
                ));
                assert(targets.subrange(0, u as int + 1).last() == targets[u as int]);
            }
            let c = locations_to_unload[u];
            self.unload_entites_from_location(&c);
            u = u + 1;
        }
        proof {
            assert(targets.subrange(0, targets.len() as int) =~= targets);
        }
        let ghost v2 = self@;
        proof {
            lemma_unload_phase_props(v1, targets);
        }

        // Stray phase: structure stamping may have spilled entities into
        // chunks outside the window; evict those too.
        let mut stray: Vec<ChunkPosition> = Vec::new();
        let mut s: usize = 0;
        while s < self.entities.len()
            invariant
                active@ == av,
                self@ == v2,
                0 <= s <= v2.resident.len(),
                stray@ == stray_chunks(v2.resident.subrange(0, s as int), av),
            decreases v2.resident.len() - s,
        {
            let e = self.entities[s];
            proof {
                assert(v2.resident.subrange(0, s as int + 1).drop_last() =~= v2.resident.subrange(
                    0,
                    s as int,
                ));
                assert(v2.resident.subrange(0, s as int + 1).last() == v2.resident[s as int]);
            }
            if !chunk_list_contains(active, &e.chunk_pos) && !chunk_list_contains(
                &stray,
                &e.chunk_pos,
            ) {
                stray.push(e.chunk_pos);
            }
            s = s + 1;
        }
        proof {
            assert(v2.resident.subrange(0, v2.resident.len() as int) =~= v2.resident);
        }
        let ghost strays = stray@;
        let mut u2: usize = 0;
        while u2 < stray.len()
            invariant
                stray@ == strays,
                v2.wf(),
                0 <= u2 <= strays.len(),
                self@ == unload_phase(v2, strays.subrange(0, u2 as int)),
            decreases strays.len() - u2,
        {
            proof {
                lemma_unload_phase_props(v2, strays.subrange(0, u2 as int));
                assert(strays.subrange(0, u2 as int + 1).drop_last() =~= strays.subrange(
                    0,
                    u2 as int,
                ));
                assert(strays.subrange(0, u2 as int + 1).last() == strays[u2 as int]);
            }
            let c = stray[u2];
            self.unload_entites_from_location(&c);
            u2 = u2 + 1;
        }
        proof {
            assert(strays.subrange(0, strays.len() as int) =~= strays);
            lemma_unload_phase_props(v2, strays);
            lemma_unload_targets_props(v1.loaded, av);
            lemma_stray_chunks_props(v2.resident, av);
            let w = unload_phase(v2, strays);
            assert(self@ == w);
            assert(targets == unload_targets(v1.loaded, av));
            assert(strays == stray_chunks(v2.resident, av));
            assert(w == advance(v0, av, wchunks, samples));
            // The loaded chunks are now exactly the active ones.
            assert forall|d: ChunkPosition| #[trigger] w.loaded.contains(d) implies av.contains(
                d,
            ) by {
                assert(v2.loaded.contains(d));
                assert(v1.loaded.contains(d) && !targets.contains(d));
                assert(v0.loaded.contains(d) || av.contains(d));
            }
            assert forall|d: ChunkPosition| av.contains(d) implies #[trigger] w.loaded.contains(
                d,
            ) by {
                assert(v1.loaded.contains(d));
                assert(!targets.contains(d));
                assert(v2.loaded.contains(d));
                assert(!strays.contains(d));
            }
            // Every remaining resident belongs to an active chunk.
            assert forall|i2: int| 0 <= i2 < w.resident.len() implies av.contains(
                (#[trigger] w.resident[i2]).chunk_pos,
            ) by {
                let e = w.resident[i2];
                assert(v2.resident.contains(e) && !strays.contains(e.chunk_pos));
                let m = choose|m: int| 0 <= m < v2.resident.len() && v2.resident[m] == e;
                if !av.contains(e.chunk_pos) {
                    assert(strays.contains(e.chunk_pos));
                }
            }
        }
    }
}

/// The movement/collision resolution of one tick: a zero delta is a no-op;
/// otherwise the first resident entity at the prospective position decides.
/// A blocking entity denies the move; a non-blocking one is collided with
/// (a pickup is flagged removed and grants its reward) and the move
/// happens; an empty cell allows the move unconditionally.  The delta is
/// consumed in every non-zero case.
pub open spec fn tick_move(v: EntitiesView) -> EntitiesView {
    let p = v.player;
    if p.destination.x == 0 && p.destination.y == 0 {
        v
    } else {
        let fp = future_pos(p);
        let moved = Player {
            entity: Entity { chunk_pos: fp.chunk, pos: fp.local, ..p.entity },
            destination: crate::player::Destination { x: 0, y: 0 },
            ..p
        };
        match first_at(v.resident, fp.chunk, fp.local) {
            None => EntitiesView { player: moved, ..v },
            Some(i) => {
                let e = v.resident[i];
                if blocking(e.tile) {
                    EntitiesView {
                        player: Player {
                            destination: crate::player::Destination { x: 0, y: 0 },
                            ..p
                        },
                        ..v
                    }
                } else {
                    EntitiesView {
                        player: Player { score: (moved.score + reward(e.tile)) as i64, ..moved },
                        resident: v.resident.update(
                            i,
                            Entity { removed: e.removed || pickup(e.tile), ..e },
                        ),
                        ..v
                    }
                }
            },
        }
    }
}

/// The cache after the post-collision sweep: flagged residents are purged.
pub open spec fn sweep(v: EntitiesView) -> EntitiesView {
    EntitiesView { resident: live(v.resident), ..v }
}

impl Entities {
    /// One full tick of the entity cache: advance the active window around
    /// the observer (restore, populate, evict), resolve the pending
    /// movement against the residents, and sweep the entities the
    /// collision flagged removed.
    pub fn update(
        &mut self,
        world: &World,
        generator: &Generator,
        cold_samples: &Vec<(ChunkPosition, Vec<u8>)>,
    )
        requires
            old(self)@.wf(),
            world.wf(),
            forall|k: int|
                0 <= k < world@.in_view.len() ==> (#[trigger] world@.in_view[k]).x < i32::MAX && (
                world@.in_view[k]).y < i32::MAX,
            forall|k: int|
                0 <= k < world@.in_view.len() && !old(self)@.loaded.contains(
                    #[trigger] world@.in_view[k],
                ) && !assoc_has(old(self)@.store, world@.in_view[k]) ==> crate::world::sample_ok(
                    cold_samples@,
                    world@.in_view[k],
                ),
            move_pre(old(self)@.player),
            old(self)@.player.score + 5 <= i64::MAX,
        ensures
            final(self)@ == sweep(
                tick_move(advance(old(self)@, world@.in_view, world@.chunks, cold_samples@)),
            ),
            final(self)@.wf(),
            forall|d: ChunkPosition|
                #[trigger] final(self)@.loaded.contains(d) <==> world@.in_view.contains(d),
            forall|i: int|
                0 <= i < final(self)@.resident.len() ==> world@.in_view.contains(
                    (#[trigger] final(self)@.resident[i]).chunk_pos,
                ),
    {
        self.advance_window(world, generator, cold_samples);
        let ghost v1 = self@;
        if !self.player.destination.is_zero() {
            let future_pos = self.player.calc_future_pos();
            match self.find_entity_index_at(&future_pos) {
                Some(i) => {
                    proof {
                        lemma_first_at_props(self@.resident, future_pos.chunk, future_pos.local);
                    }
                    if Entity::is_blocking(&self.entities[i]).unwrap() {
                        // blocked: the move is denied and the delta discarded
                    } else {
                        let mut collider = self.entities[i];
                        collider.collide(&mut self.player);
                        self.entities[i] = collider;
                        let dest = self.player.destination.as_tuple();
                        self.player.entity.add_to_local_position(dest);
                    }
                },
                None => {
                    let dest = self.player.destination.as_tuple();
                    self.player.entity.add_to_local_position(dest);
                },
            }
            self.player.destination.reset_destination();
        }
        proof {
            assert(self@ == tick_move(v1));
        }
        self.clean_up();
        proof {
            let w = tick_move(v1);
            // the collision step touches no chunk assignment and no store
            // entry, and the sweep only filters, so the window invariants
            // carry over
            lemma_filter_element_of(w.resident, |e: Entity| !e.removed);
            assert forall|i: int| 0 <= i < self@.resident.len() implies world@.in_view.contains(
                (#[trigger] self@.resident[i]).chunk_pos,
            ) by {
                let e = self@.resident[i];
                assert(w.resident.contains(e));
                let m = choose|m: int| 0 <= m < w.resident.len() && w.resident[m] == e;
                if v1.player.destination.x == 0 && v1.player.destination.y == 0 {
                } else {
                    let fp = future_pos(v1.player);
                    match first_at(v1.resident, fp.chunk, fp.local) {
                        Some(k) => {
                            assert(w.resident[m].chunk_pos == v1.resident[m].chunk_pos);
                        },
                        None => {},
                    }
                }
            }
        }
    }
}

/// Every element of a filtered sequence comes from the original sequence.
pub proof fn lemma_filter_element_of<A>(s: Seq<A>, pred: spec_fn(A) -> bool)
    ensures
        forall|i: int|
            0 <= i < s.filter(pred).len() ==> s.contains(#[trigger] s.filter(pred)[i]),
    decreases s.len(),
{
    reveal_with_fuel(Seq::<_>::filter, 2);
    if s.len() > 0 {
        lemma_filter_element_of(s.drop_last(), pred);
        assert forall|i: int| 0 <= i < s.filter(pred).len() implies s.contains(
            #[trigger] s.filter(pred)[i],
        ) by {
            let f = s.filter(pred);
            let fd = s.drop_last().filter(pred);
            if i < fd.len() {
                assert(f[i] == fd[i]);
                assert(s.drop_last().contains(fd[i]));
                let j = choose|j: int| 0 <= j < s.drop_last().len() && s.drop_last()[j] == fd[i];
                assert(s[j] == fd[i]);
            } else {
                assert(f[i] == s.last());
                assert(s[s.len() - 1] == s.last());
            }
        }
    }
}

/// Filtering a duplicate-free loaded list keeps it duplicate-free, and a
/// chunk stays exactly when it was there and is not the evicted one.
pub proof fn lemma_loaded_without_props(l: Seq<ChunkPosition>, c: ChunkPosition)
    requires
        forall|i: int, j: int| 0 <= i < j < l.len() ==> l[i] != l[j],
    ensures
        forall|i: int, j: int|
            0 <= i < j < loaded_without(l, c).len() ==> loaded_without(l, c)[i] != loaded_without(
                l,
                c,
            )[j],
        forall|d: ChunkPosition|
            #[trigger] loaded_without(l, c).contains(d) <==> (l.contains(d) && d != c),
    decreases l.len(),
{
    reveal_with_fuel(Seq::<_>::filter, 2);
    lemma_filter_element_of(l, |d: ChunkPosition| d != c);
    if l.len() > 0 {
        assert(forall|i: int, j: int|
            0 <= i < j < l.drop_last().len() ==> l.drop_last()[i] != l.drop_last()[j]);
        lemma_loaded_without_props(l.drop_last(), c);
        let f = loaded_without(l, c);
        let fd = loaded_without(l.drop_last(), c);
        if l.last() != c {
            assert(f == fd.push(l.last()));
            assert(!fd.contains(l.last())) by {
                if fd.contains(l.last()) {
                    assert(l.drop_last().contains(l.last()));
                    let j = choose|j: int|
                        0 <= j < l.drop_last().len() && l.drop_last()[j] == l.last();
                    assert(l[j] == l[l.len() - 1]);
                }
            }
            assert forall|d: ChunkPosition| #[trigger] f.contains(d) implies (l.contains(d) && d
                != c) by {
                let j = choose|j: int| 0 <= j < f.len() && f[j] == d;
                if j < fd.len() {
                    assert(fd.contains(d));
                    let k = choose|k: int|
                        0 <= k < l.drop_last().len() && l.drop_last()[k] == d;
                    assert(l[k] == d);
                } else {
                    assert(l[l.len() - 1] == d);
                }
            }
            assert forall|d: ChunkPosition| l.contains(d) && d != c implies #[trigger] f.contains(
                d,
            ) by {
                let j = choose|j: int| 0 <= j < l.len() && l[j] == d;
                if j < l.len() - 1 {
                    assert(l.drop_last()[j] == d);
                    assert(fd.contains(d));
                    let k = choose|k: int| 0 <= k < fd.len() && fd[k] == d;
                    assert(f[k] == d);
                } else {
                    assert(f[f.len() - 1] == d);
                }
            }
        } else {
            assert(f == fd);
            assert forall|d: ChunkPosition| #[trigger] f.contains(d) implies (l.contains(d) && d
                != c) by {
                let k = choose|k: int| 0 <= k < l.drop_last().len() && l.drop_last()[k] == d;
                assert(l[k] == d);
            }
            assert forall|d: ChunkPosition| l.contains(d) && d != c implies #[trigger] f.contains(
                d,
            ) by {
                let j = choose|j: int| 0 <= j < l.len() && l[j] == d;
                assert(j < l.len() - 1);
                assert(l.drop_last()[j] == d);
            }
        }
    }
}

/// A departed chunk is an unload target exactly when it was loaded and is
/// no longer active.
pub proof fn lemma_unload_targets_props(loaded: Seq<ChunkPosition>, actives: Seq<ChunkPosition>)
    ensures
        forall|d: ChunkPosition|
            #[trigger] unload_targets(loaded, actives).contains(d) <==> (loaded.contains(d)
                && !actives.contains(d)),
    decreases loaded.len(),
{
    reveal_with_fuel(Seq::<_>::filter, 2);
    lemma_filter_element_of(loaded, |d: ChunkPosition| !actives.contains(d));
    let f = unload_targets(loaded, actives);
    assert forall|d: ChunkPosition| #[trigger] f.contains(d) implies (loaded.contains(d)
        && !actives.contains(d)) by {
        let j = choose|j: int| 0 <= j < f.len() && f[j] == d;
        Seq::lemma_filter_pred(loaded, |d: ChunkPosition| !actives.contains(d), j);
    }
    assert forall|d: ChunkPosition| loaded.contains(d) && !actives.contains(d) implies
        #[trigger] f.contains(d) by {
        let j = choose|j: int| 0 <= j < loaded.len() && loaded[j] == d;
        Seq::lemma_filter_contains(loaded, |d: ChunkPosition| !actives.contains(d), j);
    }
}

/// Stray collection is complete and sound: every resident chunk outside
/// the window is listed, only such chunks are listed, and each only once.
pub proof fn lemma_stray_chunks_props(res: Seq<Entity>, actives: Seq<ChunkPosition>)
    ensures
        forall|i: int|
            0 <= i < res.len() && !actives.contains((#[trigger] res[i]).chunk_pos)
                ==> stray_chunks(res, actives).contains(res[i].chunk_pos),
        forall|d: ChunkPosition|
            #[trigger] stray_chunks(res, actives).contains(d) ==> !actives.contains(d),
        forall|d: ChunkPosition|
            #[trigger] stray_chunks(res, actives).contains(d) ==> exists|i: int|
                0 <= i < res.len() && (#[trigger] res[i]).chunk_pos == d,
        forall|i: int, j: int|
            0 <= i < j < stray_chunks(res, actives).len() ==> stray_chunks(res, actives)[i]
                != stray_chunks(res, actives)[j],
    decreases res.len(),
{
    if res.len() > 0 {
        lemma_stray_chunks_props(res.drop_last(), actives);
        let prev = stray_chunks(res.drop_last(), actives);
        let s = stray_chunks(res, actives);
        let c = res.last().chunk_pos;
        assert forall|i: int|
            0 <= i < res.len() && !actives.contains(
                (#[trigger] res[i]).chunk_pos,
            ) implies s.contains(res[i].chunk_pos) by {
            if i < res.len() - 1 {
                assert(res.drop_last()[i] == res[i]);
                assert(prev.contains(res[i].chunk_pos));
                let j = choose|j: int| 0 <= j < prev.len() && prev[j] == res[i].chunk_pos;
                assert(s[j] == res[i].chunk_pos);
            } else {
                if !prev.contains(c) {
                    assert(s[s.len() - 1] == c);
                } else {
                    let j = choose|j: int| 0 <= j < prev.len() && prev[j] == c;
                    assert(s[j] == c);
                }
            }
        }
        assert forall|d: ChunkPosition| #[trigger] s.contains(d) implies !actives.contains(d) by {
            let j = choose|j: int| 0 <= j < s.len() && s[j] == d;
            if j < prev.len() {
                assert(prev.contains(d));
            }
        }
        assert forall|d: ChunkPosition| #[trigger] s.contains(d) implies exists|i: int|
            0 <= i < res.len() && (#[trigger] res[i]).chunk_pos == d by {
            let j = choose|j: int| 0 <= j < s.len() && s[j] == d;
            if j < prev.len() {
                assert(prev.contains(d));
                let i = choose|i: int|
                    0 <= i < res.drop_last().len() && (#[trigger] res.drop_last()[i]).chunk_pos
                        == d;
                assert(res[i].chunk_pos == d);
            } else {
                assert(res[res.len() - 1].chunk_pos == d);
            }
        }
        assert forall|i: int, j: int| 0 <= i < j < s.len() implies s[i] != s[j] by {
            if j < prev.len() {
                assert(s[i] == prev[i] && s[j] == prev[j]);
            } else if s.len() > prev.len() {
                assert(s[i] == prev[i]);
                assert(prev.contains(prev[i]));
            }
        }
    }
}

/// One load step keeps the cache well formed, never touches the player,
/// grows the loaded set by exactly the loaded chunk, and only consumes
/// store entries by restoring them.
pub proof fn lemma_load_one_props(
    v: EntitiesView,
    c: ChunkPosition,
    chunks: Seq<(ChunkPosition, crate::chunk_terrain::ChunkTerrainView)>,
    samples: Seq<(ChunkPosition, Vec<u8>)>,
)
    requires
        v.wf(),
    ensures
        ({
            let w = load_one(v, c, chunks, samples);
            &&& w.wf()
            &&& w.player == v.player
            &&& (forall|d: ChunkPosition|
                #[trigger] w.loaded.contains(d) <==> (v.loaded.contains(d) || d == c))
            &&& (forall|d: ChunkPosition|
                #[trigger] assoc_has(w.store, d) ==> assoc_find(w.store, d) == assoc_find(
                    v.store,
                    d,
                ))
            &&& (forall|d: ChunkPosition|
                assoc_has(v.store, d) && !w.loaded.contains(d) ==> #[trigger] assoc_has(
                    w.store,
                    d,
                ))
        }),
{
    let w = load_one(v, c, chunks, samples);
    if v.loaded.contains(c) {
        assert forall|d: ChunkPosition| #[trigger] w.loaded.contains(d) implies (v.loaded.contains(
            d,
        ) || d == c) by {}
    } else if assoc_has(v.store, c) {
        lemma_assoc_has_exists(v.store, c);
        let i = choose|i: int| 0 <= i < v.store.len() && (#[trigger] v.store[i]).0 == c;
        assert forall|j: int| 0 <= j < i implies (#[trigger] v.store[j]).0 != c by {}
        lemma_assoc_at(v.store, c, i);
        lemma_assoc_remove_props(v.store, c);
        assert(w.store == v.store.remove(i));
        // loaded list stays duplicate-free and disjoint from store keys
        assert forall|k: int, j: int| 0 <= k < j < w.loaded.len() implies w.loaded[k]
            != w.loaded[j] by {
            if j < w.loaded.len() - 1 {
                assert(w.loaded[k] == v.loaded[k] && w.loaded[j] == v.loaded[j]);
            } else {
                assert(w.loaded[k] == v.loaded[k] && w.loaded[j] == c);
                if v.loaded[k] == c {
                    assert(v.loaded.contains(c));
                }
            }
        }
        assert forall|k: int| 0 <= k < w.loaded.len() implies !assoc_has(
            w.store,
            #[trigger] w.loaded[k],
        ) by {
            if k < w.loaded.len() - 1 {
                assert(w.loaded[k] == v.loaded[k]);
                assert(!assoc_has(v.store, v.loaded[k]));
            } else {
                assert(w.loaded[k] == c);
            }
        }
        // stored entities stay tagged with their chunk
        assert forall|k: int, j: int|
            0 <= k < w.store.len() && 0 <= j < (#[trigger] w.store[k]).1.len() implies (
        #[trigger] w.store[k].1[j]).chunk_pos == w.store[k].0 by {
            if k < i {
                assert(w.store[k] == v.store[k]);
            } else {
                assert(w.store[k] == v.store[k + 1]);
            }
        }
        assert forall|d: ChunkPosition|
            assoc_has(v.store, d) && !w.loaded.contains(d) implies #[trigger] assoc_has(
            w.store,
            d,
        ) by {
            assert(w.loaded[w.loaded.len() - 1] == c);
            assert(w.loaded.contains(c));
            assert(d != c);
        }
        assert forall|d: ChunkPosition| #[trigger] w.loaded.contains(d) implies (v.loaded.contains(
            d,
        ) || d == c) by {
            let k = choose|k: int| 0 <= k < w.loaded.len() && w.loaded[k] == d;
            if k < w.loaded.len() - 1 {
                assert(v.loaded[k] == d);
            }
        }
        assert(w.loaded[w.loaded.len() - 1] == c);
        assert forall|d: ChunkPosition| v.loaded.contains(d) || d == c implies
            #[trigger] w.loaded.contains(d) by {
            if v.loaded.contains(d) {
                let k = choose|k: int| 0 <= k < v.loaded.len() && v.loaded[k] == d;
                assert(w.loaded[k] == d);
            } else {
                assert(w.loaded.contains(c));
            }
        }
    } else {
        // cold miss: the store is untouched, the loaded list grows by c
        assert forall|d: ChunkPosition| #[trigger] w.loaded.contains(d) implies (v.loaded.contains(
            d,
        ) || d == c) by {
            let k = choose|k: int| 0 <= k < w.loaded.len() && w.loaded[k] == d;
            if k < w.loaded.len() - 1 {
                assert(v.loaded[k] == d);
            }
        }
        assert(w.loaded[w.loaded.len() - 1] == c);
        assert forall|d: ChunkPosition| v.loaded.contains(d) || d == c implies
            #[trigger] w.loaded.contains(d) by {
            if v.loaded.contains(d) {
                let k = choose|k: int| 0 <= k < v.loaded.len() && v.loaded[k] == d;
                assert(w.loaded[k] == d);
            }
        }
        assert forall|k: int, j: int| 0 <= k < j < w.loaded.len() implies w.loaded[k]
            != w.loaded[j] by {
            if j < w.loaded.len() - 1 {
                assert(w.loaded[k] == v.loaded[k] && w.loaded[j] == v.loaded[j]);
            } else {
                assert(w.loaded[k] == v.loaded[k] && w.loaded[j] == c);
                if v.loaded[k] == c {
                    assert(v.loaded.contains(c));
                }
            }
        }
        assert forall|k: int| 0 <= k < w.loaded.len() implies !assoc_has(
            w.store,
            #[trigger] w.loaded[k],
        ) by {
            if k < w.loaded.len() - 1 {
                assert(w.loaded[k] == v.loaded[k]);
                assert(!assoc_has(v.store, v.loaded[k]));
            }
        }
    }
}

/// The load phase, chunk by chunk, keeps the properties of one load step.
pub proof fn lemma_load_phase_props(
    v: EntitiesView,
    actives: Seq<ChunkPosition>,
    chunks: Seq<(ChunkPosition, crate::chunk_terrain::ChunkTerrainView)>,
    samples: Seq<(ChunkPosition, Vec<u8>)>,
)
    requires
        v.wf(),
    ensures
        ({
            let w = load_phase(v, actives, chunks, samples);
            &&& w.wf()
            &&& w.player == v.player
            &&& (forall|d: ChunkPosition|
                #[trigger] w.loaded.contains(d) <==> (v.loaded.contains(d) || actives.contains(d)))
            &&& (forall|d: ChunkPosition|
                #[trigger] assoc_has(w.store, d) ==> assoc_find(w.store, d) == assoc_find(
                    v.store,
                    d,
                ))
            &&& (forall|d: ChunkPosition|
                assoc_has(v.store, d) && !w.loaded.contains(d) ==> #[trigger] assoc_has(
                    w.store,
                    d,
                ))
        }),
    decreases actives.len(),
{
    if actives.len() > 0 {
        lemma_load_phase_props(v, actives.drop_last(), chunks, samples);
        let w1 = load_phase(v, actives.drop_last(), chunks, samples);
        lemma_load_one_props(w1, actives.last(), chunks, samples);
        let w = load_phase(v, actives, chunks, samples);
        assert forall|d: ChunkPosition| #[trigger] w.loaded.contains(d) implies (v.loaded.contains(
            d,
        ) || actives.contains(d)) by {
            if !v.loaded.contains(d) {
                if w1.loaded.contains(d) {
                    let k = choose|k: int|
                        0 <= k < actives.drop_last().len() && actives.drop_last()[k] == d;
                    assert(actives[k] == d);
                } else {
                    assert(actives[actives.len() - 1] == d);
                }
            }
        }
        assert forall|d: ChunkPosition| v.loaded.contains(d) || actives.contains(d) implies
            #[trigger] w.loaded.contains(d) by {
            if actives.contains(d) && !v.loaded.contains(d) {
                let k = choose|k: int| 0 <= k < actives.len() && actives[k] == d;
                if k < actives.len() - 1 {
                    assert(actives.drop_last()[k] == d);
                    assert(w1.loaded.contains(d));
                }
            }
        }
        assert forall|d: ChunkPosition| #[trigger] assoc_has(w.store, d) implies assoc_find(
            w.store,
            d,
        ) == assoc_find(v.store, d) by {
            assert(assoc_find(w.store, d) == assoc_find(w1.store, d));
            assert(assoc_has(w1.store, d));
        }
        assert forall|d: ChunkPosition|
            assoc_has(v.store, d) && !w.loaded.contains(d) implies #[trigger] assoc_has(
            w.store,
            d,
        ) by {
            assert(!w1.loaded.contains(d));
            assert(assoc_has(w1.store, d));
        }
    }
}

/// One eviction step keeps the cache well formed, never touches the
/// player, removes exactly the evicted chunk from the loaded list, keeps
/// only residents of other chunks, and leaves other store entries alone.
pub proof fn lemma_unload_one_props(v: EntitiesView, c: ChunkPosition)
    requires
        v.wf(),
    ensures
        ({
            let w = unload_one(v, c);
            &&& w.wf()
            &&& w.player == v.player
            &&& (forall|d: ChunkPosition|
                #[trigger] w.loaded.contains(d) <==> (v.loaded.contains(d) && d != c))
            &&& (forall|i: int|
                0 <= i < w.resident.len() ==> v.resident.contains(#[trigger] w.resident[i]) && (
                w.resident[i]).chunk_pos != c)
            &&& (forall|d: ChunkPosition|
                d != c ==> #[trigger] assoc_find(w.store, d) == assoc_find(v.store, d))
            &&& assoc_has(w.store, c)
        }),
{
    let w = unload_one(v, c);
    lemma_store_put_props(v.store, c, residents_of(v.resident, c));
    lemma_loaded_without_props(v.loaded, c);
    lemma_filter_element_of(v.resident, |e: Entity| e.chunk_pos != c);
    assert forall|i: int| 0 <= i < w.resident.len() implies v.resident.contains(
        #[trigger] w.resident[i],
    ) && (w.resident[i]).chunk_pos != c by {
        Seq::lemma_filter_pred(v.resident, |e: Entity| e.chunk_pos != c, i);
    }
    // stored entities stay tagged with their chunk
    assert forall|k: int, j: int|
        0 <= k < w.store.len() && 0 <= j < (#[trigger] w.store[k]).1.len() implies (
    #[trigger] w.store[k].1[j]).chunk_pos == w.store[k].0 by {
        let items = residents_of(v.resident, c);
        assert forall|m: int| 0 <= m < items.len() implies (#[trigger] items[m]).chunk_pos
            == c by {
            Seq::lemma_filter_pred(v.resident, |e: Entity| e.chunk_pos == c, m);
        }
        if assoc_has(v.store, c) {
            lemma_assoc_has_exists(v.store, c);
            let i = choose|i: int| 0 <= i < v.store.len() && (#[trigger] v.store[i]).0 == c;
            assert forall|j2: int| 0 <= j2 < i implies (#[trigger] v.store[j2]).0 != c by {}
            lemma_assoc_at(v.store, c, i);
            lemma_store_put_at(v.store, c, items, i);
            assert(w.store == v.store.update(i, (c, v.store[i].1 + items)));
            if k == i {
                assert(w.store[k].0 == c);
                assert(w.store[k].1 == v.store[i].1 + items);
            } else {
                assert(w.store[k] == v.store[k]);
            }
        } else {
            lemma_assoc_has_exists(v.store, c);
            assert forall|j2: int| 0 <= j2 < v.store.len() implies (#[trigger] v.store[j2]).0
                != c by {
                if v.store[j2].0 == c {
                    assert(assoc_has(v.store, c));
                }
            }
            lemma_store_put_absent(v.store, c, items);
            assert(w.store == v.store.push((c, items)));
            if k < v.store.len() {
                assert(w.store[k] == v.store[k]);
            }
        }
    }
    // loaded chunks other than c keep missing from the store
    assert forall|k: int| 0 <= k < w.loaded.len() implies !assoc_has(
        w.store,
        #[trigger] w.loaded[k],
    ) by {
        assert(w.loaded.contains(w.loaded[k]));
        assert(v.loaded.contains(w.loaded[k]) && w.loaded[k] != c);
        let m = choose|m: int| 0 <= m < v.loaded.len() && v.loaded[m] == w.loaded[k];
        assert(!assoc_has(v.store, v.loaded[m]));
    }
}

/// The eviction phase, chunk by chunk, keeps the properties of one step.
pub proof fn lemma_unload_phase_props(v: EntitiesView, targets: Seq<ChunkPosition>)
    requires
        v.wf(),
    ensures
        ({
            let w = unload_phase(v, targets);
            &&& w.wf()
            &&& w.player == v.player
            &&& (forall|d: ChunkPosition|
                #[trigger] w.loaded.contains(d) <==> (v.loaded.contains(d) && !targets.contains(
                    d,
                )))
            &&& (forall|i: int|
                0 <= i < w.resident.len() ==> v.resident.contains(#[trigger] w.resident[i])
                    && !targets.contains((w.resident[i]).chunk_pos))
            &&& (forall|d: ChunkPosition|
                !targets.contains(d) ==> #[trigger] assoc_find(w.store, d) == assoc_find(
                    v.store,
                    d,
                ))
        }),
    decreases targets.len(),
{
    if targets.len() > 0 {
        lemma_unload_phase_props(v, targets.drop_last());
        let w1 = unload_phase(v, targets.drop_last());
        let t = targets.last();
        lemma_unload_one_props(w1, t);
        let w = unload_phase(v, targets);
        assert forall|d: ChunkPosition| #[trigger] w.loaded.contains(d) implies (v.loaded.contains(
            d,
        ) && !targets.contains(d)) by {
            assert(!targets.drop_last().contains(d) && d != t);
            if targets.contains(d) {
                let k = choose|k: int| 0 <= k < targets.len() && targets[k] == d;
                assert(k < targets.len() - 1);
                assert(targets.drop_last()[k] == d);
            }
        }
        assert forall|d: ChunkPosition| v.loaded.contains(d) && !targets.contains(d) implies
            #[trigger] w.loaded.contains(d) by {
            assert(targets[targets.len() - 1] == t);
            if targets.drop_last().contains(d) {
                let k = choose|k: int|
                    0 <= k < targets.drop_last().len() && targets.drop_last()[k] == d;
                assert(targets[k] == d);
            }
        }
        assert forall|i: int| 0 <= i < w.resident.len() implies v.resident.contains(
            #[trigger] w.resident[i],
        ) && !targets.contains((w.resident[i]).chunk_pos) by {
            let e = w.resident[i];
            assert(w1.resident.contains(e) && e.chunk_pos != t);
            let m = choose|m: int| 0 <= m < w1.resident.len() && w1.resident[m] == e;
            assert(!targets.drop_last().contains(e.chunk_pos));
            if targets.contains(e.chunk_pos) {
                let k = choose|k: int| 0 <= k < targets.len() && targets[k] == e.chunk_pos;
                assert(k < targets.len() - 1);
                assert(targets.drop_last()[k] == e.chunk_pos);
            }
        }
        assert forall|d: ChunkPosition| !targets.contains(d) implies #[trigger] assoc_find(
            w.store,
            d,
        ) == assoc_find(v.store, d) by {
            assert(targets[targets.len() - 1] == t);
            if targets.drop_last().contains(d) {
                let k = choose|k: int|
                    0 <= k < targets.drop_last().len() && targets.drop_last()[k] == d;
                assert(targets[k] == d);
            }
        }
    }
}

/// A filter keeps everything when the predicate holds everywhere.
pub proof fn lemma_filter_all<A>(s: Seq<A>, pred: spec_fn(A) -> bool)
    requires
        forall|i: int| 0 <= i < s.len() ==> pred(#[trigger] s[i]),
    ensures
        s.filter(pred) == s,
    decreases s.len(),
{
    reveal_with_fuel(Seq::<_>::filter, 2);
    if s.len() > 0 {
        assert(forall|i: int| 0 <= i < s.drop_last().len() ==> pred(#[trigger] s.drop_last()[i]));
        lemma_filter_all(s.drop_last(), pred);
        assert(pred(s.last()));
        assert(s.filter(pred) =~= s);
    }
}

/// A filter keeps nothing when the predicate holds nowhere.
pub proof fn lemma_filter_none<A>(s: Seq<A>, pred: spec_fn(A) -> bool)
    requires
        forall|i: int| 0 <= i < s.len() ==> !pred(#[trigger] s[i]),
    ensures
        s.filter(pred) == Seq::<A>::empty(),
    decreases s.len(),
{
    reveal_with_fuel(Seq::<_>::filter, 2);
    if s.len() > 0 {
        assert(forall|i: int|
            0 <= i < s.drop_last().len() ==> !pred(#[trigger] s.drop_last()[i]));
        lemma_filter_none(s.drop_last(), pred);
    }
}

/// The residents of chunk `d` among the residents outside chunk `c` are
/// the residents of `d`, for a different chunk `d`.
pub proof fn lemma_residents_of_not_of(s: Seq<Entity>, c: ChunkPosition, d: ChunkPosition)
    requires
        d != c,
    ensures
        residents_of(residents_not_of(s, c), d) == residents_of(s, d),
    decreases s.len(),
{
    reveal_with_fuel(Seq::<_>::filter, 2);
    if s.len() > 0 {
        lemma_residents_of_not_of(s.drop_last(), c, d);
        let nn = residents_not_of(s, c);
        let nd = residents_not_of(s.drop_last(), c);
        if s.last().chunk_pos != c {
            assert(nn == nd.push(s.last()));
            assert(nn.drop_last() =~= nd);
            assert(nn.last() == s.last());
        }
    }
}

/// The stored entities of chunk `c`, or nothing when no entry exists.
pub open spec fn store_seq(v: EntitiesView, c: ChunkPosition) -> Seq<Entity> {
    match assoc_find(v.store, c) {
        Some(es) => es,
        None => Seq::empty(),
    }
}

/// Everything the cache holds for chunk `c`: its residents, then its
/// stored entities.
pub open spec fn combined_for(v: EntitiesView, c: ChunkPosition) -> Seq<Entity> {
    residents_of(v.resident, c) + store_seq(v, c)
}

/// Whether every active chunk is already loaded or stored: no cold miss,
/// so no generation and no structure stamping can occur.
pub open spec fn no_cold_miss(v: EntitiesView, actives: Seq<ChunkPosition>) -> bool {
    forall|k: int|
        0 <= k < actives.len() ==> (v.loaded.contains(#[trigger] actives[k]) || assoc_has(
            v.store,
            actives[k],
        ))
}

/// Whether every resident entity's chunk is in the loaded list.
pub open spec fn resident_loaded(v: EntitiesView) -> bool {
    forall|i: int|
        0 <= i < v.resident.len() ==> v.loaded.contains((#[trigger] v.resident[i]).chunk_pos)
}

/// One load step of an already loaded or stored chunk moves entities
/// between resident and store without loss or duplication: what the cache
/// holds for every chunk is unchanged.
pub proof fn lemma_load_one_conserves(
    v: EntitiesView,
    c: ChunkPosition,
    chunks: Seq<(ChunkPosition, crate::chunk_terrain::ChunkTerrainView)>,
    samples: Seq<(ChunkPosition, Vec<u8>)>,
)
    requires
        v.wf(),
        v.loaded.contains(c) || assoc_has(v.store, c),
    ensures
        ({
            let w = load_one(v, c, chunks, samples);
            &&& (forall|d: ChunkPosition| #[trigger] combined_for(w, d) == combined_for(v, d))
            &&& (resident_loaded(v) ==> resident_loaded(w))
        }),
{
    let w = load_one(v, c, chunks, samples);
    lemma_load_one_props(v, c, chunks, samples);
    if !v.loaded.contains(c) {
        lemma_assoc_has_exists(v.store, c);
        let i = choose|i: int| 0 <= i < v.store.len() && (#[trigger] v.store[i]).0 == c;
        assert forall|j: int| 0 <= j < i implies (#[trigger] v.store[j]).0 != c by {}
        lemma_assoc_at(v.store, c, i);
        lemma_assoc_remove_props(v.store, c);
        let restored = v.store[i].1;
        assert(forall|j: int|
            0 <= j < restored.len() ==> (#[trigger] restored[j]).chunk_pos == c);
        assert forall|d: ChunkPosition| #[trigger] combined_for(w, d) == combined_for(v, d) by {
            Seq::filter_distributes_over_add(
                v.resident,
                restored,
                |e: Entity| e.chunk_pos == d,
            );
            if d == c {
                lemma_filter_all(restored, |e: Entity| e.chunk_pos == d);
                assert(residents_of(w.resident, d) == residents_of(v.resident, d) + restored);
                assert(store_seq(w, d) =~= Seq::<Entity>::empty());
                assert(combined_for(w, d) =~= combined_for(v, d));
            } else {
                lemma_filter_none(restored, |e: Entity| e.chunk_pos == d);
                assert(residents_of(w.resident, d) =~= residents_of(v.resident, d));
                assert(store_seq(w, d) == store_seq(v, d));
            }
        }
        assert forall|j: int|
            resident_loaded(v) && 0 <= j < w.resident.len() implies w.loaded.contains(
            (#[trigger] w.resident[j]).chunk_pos,
        ) by {
            if j < v.resident.len() {
                assert(w.resident[j] == v.resident[j]);
            } else {
                assert(w.resident[j] == restored[j - v.resident.len()]);
            }
        }
    }
}

/// The load phase of a window with no cold miss conserves, chunk by chunk,
/// everything the cache holds.
pub proof fn lemma_load_phase_conserves(
    v: EntitiesView,
    actives: Seq<ChunkPosition>,
    chunks: Seq<(ChunkPosition, crate::chunk_terrain::ChunkTerrainView)>,
    samples: Seq<(ChunkPosition, Vec<u8>)>,
)
    requires
        v.wf(),
        no_cold_miss(v, actives),
    ensures
        ({
            let w = load_phase(v, actives, chunks, samples);
            &&& (forall|d: ChunkPosition| #[trigger] combined_for(w, d) == combined_for(v, d))
            &&& (resident_loaded(v) ==> resident_loaded(w))
        }),
    decreases actives.len(),
{
    if actives.len() > 0 {
        assert forall|k: int|
            0 <= k < actives.drop_last().len() implies (v.loaded.contains(
            #[trigger] actives.drop_last()[k],
        ) || assoc_has(v.store, actives.drop_last()[k])) by {
            assert(actives.drop_last()[k] == actives[k]);
        }
        lemma_load_phase_conserves(v, actives.drop_last(), chunks, samples);
        lemma_load_phase_props(v, actives.drop_last(), chunks, samples);
        let w1 = load_phase(v, actives.drop_last(), chunks, samples);
        let c = actives.last();
        assert(actives[actives.len() - 1] == c);
        assert(v.loaded.contains(c) || assoc_has(v.store, c));
        if !w1.loaded.contains(c) {
            assert(!v.loaded.contains(c));
            assert(assoc_has(v.store, c));
            assert(assoc_has(w1.store, c));
        }
        lemma_load_one_conserves(w1, c, chunks, samples);
    }
}

/// Evicting a chunk with no store entry moves its residents into a fresh
/// entry: what the cache holds for every chunk is unchanged.
pub proof fn lemma_unload_one_conserves(v: EntitiesView, c: ChunkPosition)
    requires
        v.wf(),
        !assoc_has(v.store, c),
    ensures
        ({
            let w = unload_one(v, c);
            forall|d: ChunkPosition| #[trigger] combined_for(w, d) == combined_for(v, d)
        }),
{
    let w = unload_one(v, c);
    lemma_unload_one_props(v, c);
    lemma_store_put_props(v.store, c, residents_of(v.resident, c));
    assert forall|d: ChunkPosition| #[trigger] combined_for(w, d) == combined_for(v, d) by {
        if d == c {
            assert forall|j: int|
                0 <= j < residents_not_of(v.resident, c).len() implies (#[trigger] residents_not_of(
                v.resident,
                c,
            )[j]).chunk_pos != d by {
                Seq::lemma_filter_pred(v.resident, |e: Entity| e.chunk_pos != c, j);
            }
            lemma_filter_none(residents_not_of(v.resident, c), |e: Entity| e.chunk_pos == d);
            assert(residents_of(w.resident, d) == Seq::<Entity>::empty());
            assert(store_seq(w, d) == residents_of(v.resident, d));
            assert(store_seq(v, d) =~= Seq::<Entity>::empty());
            assert(combined_for(w, d) =~= combined_for(v, d));
        } else {
            lemma_residents_of_not_of(v.resident, c, d);
            assert(store_seq(w, d) == store_seq(v, d));
        }
    }
}

/// The eviction phase over distinct, still-loaded chunks conserves, chunk
/// by chunk, everything the cache holds.
pub proof fn lemma_unload_phase_conserves(v: EntitiesView, targets: Seq<ChunkPosition>)
    requires
        v.wf(),
        forall|k: int| 0 <= k < targets.len() ==> v.loaded.contains(#[trigger] targets[k]),
        forall|i: int, j: int| 0 <= i < j < targets.len() ==> targets[i] != targets[j],
    ensures
        ({
            let w = unload_phase(v, targets);
            forall|d: ChunkPosition| #[trigger] combined_for(w, d) == combined_for(v, d)
        }),
    decreases targets.len(),
{
    if targets.len() > 0 {
        assert forall|k: int| 0 <= k < targets.drop_last().len() implies v.loaded.contains(
            #[trigger] targets.drop_last()[k],
        ) by {
            assert(targets.drop_last()[k] == targets[k]);
        }
        lemma_unload_phase_conserves(v, targets.drop_last());
        lemma_unload_phase_props(v, targets.drop_last());
        let w1 = unload_phase(v, targets.drop_last());
        let c = targets.last();
        assert(targets[targets.len() - 1] == c);
        assert(v.loaded.contains(c));
        assert(!targets.drop_last().contains(c)) by {
            if targets.drop_last().contains(c) {
                let k = choose|k: int|
                    0 <= k < targets.drop_last().len() && targets.drop_last()[k] == c;
                assert(targets[k] == c);
            }
        }
        assert(w1.loaded.contains(c));
        assert(!assoc_has(w1.store, c)) by {
            let m = choose|m: int| 0 <= m < w1.loaded.len() && w1.loaded[m] == c;
        }
        lemma_unload_one_conserves(w1, c);
    }
}

/// Cache conservation: an advance of the window in which every active
/// chunk is already loaded or stored (no cold miss, so nothing is
/// generated) moves entities between the resident collection and the
/// store but keeps, for every chunk, exactly the same entities in the
/// same order: none lost, none duplicated.
pub proof fn lemma_advance_conserves(
    v: EntitiesView,
    actives: Seq<ChunkPosition>,
    chunks: Seq<(ChunkPosition, crate::chunk_terrain::ChunkTerrainView)>,
    samples: Seq<(ChunkPosition, Vec<u8>)>,
)
    requires
        v.wf(),
        resident_loaded(v),
        no_cold_miss(v, actives),
    ensures
        forall|d: ChunkPosition|
            #[trigger] combined_for(advance(v, actives, chunks, samples), d) == combined_for(v, d),
{
    let v1 = load_phase(v, actives, chunks, samples);
    lemma_load_phase_props(v, actives, chunks, samples);
    lemma_load_phase_conserves(v, actives, chunks, samples);
    let targets = unload_targets(v1.loaded, actives);
    lemma_unload_targets_props(v1.loaded, actives);
    assert forall|k: int| 0 <= k < targets.len() implies v1.loaded.contains(
        #[trigger] targets[k],
    ) by {
        assert(targets.contains(targets[k]));
    }
    assert forall|i: int, j: int| 0 <= i < j < targets.len() implies targets[i] != targets[j] by {
        lemma_filter_distinct_pairs(v1.loaded, |d: ChunkPosition| !actives.contains(d), i, j);
    }
    lemma_unload_phase_conserves(v1, targets);
    lemma_unload_phase_props(v1, targets);
    let v2 = unload_phase(v1, targets);
    // with no cold miss nothing was stamped, so no resident is stray
    assert forall|i: int| 0 <= i < v2.resident.len() implies actives.contains(
        (#[trigger] v2.resident[i]).chunk_pos,
    ) by {
        let e = v2.resident[i];
        assert(v1.resident.contains(e) && !targets.contains(e.chunk_pos));
        let m = choose|m: int| 0 <= m < v1.resident.len() && v1.resident[m] == e;
        assert(v1.loaded.contains(e.chunk_pos));
    }
    lemma_stray_chunks_props(v2.resident, actives);
    let strays = stray_chunks(v2.resident, actives);
    assert(strays.len() == 0) by {
        if strays.len() > 0 {
            assert(strays.contains(strays[0]));
        }
    }
    assert(unload_phase(v2, strays) == v2);
}

/// A filtered duplicate-free sequence stays duplicate-free.
pub proof fn lemma_filter_distinct_pairs<A>(s: Seq<A>, pred: spec_fn(A) -> bool, i: int, j: int)
    requires
        forall|i2: int, j2: int| 0 <= i2 < j2 < s.len() ==> s[i2] != s[j2],
        0 <= i < j < s.filter(pred).len(),
    ensures
        s.filter(pred)[i] != s.filter(pred)[j],
    decreases s.len(),
{
    reveal_with_fuel(Seq::<_>::filter, 2);
    if s.len() > 0 {
        let f = s.filter(pred);
        let fd = s.drop_last().filter(pred);
        assert(forall|i2: int, j2: int|
            0 <= i2 < j2 < s.drop_last().len() ==> s.drop_last()[i2] != s.drop_last()[j2]);
        if j < fd.len() {
            lemma_filter_distinct_pairs(s.drop_last(), pred, i, j);
        } else {
            // j points at the appended last element
            assert(f[j] == s.last());
            lemma_filter_element_of(s.drop_last(), pred);
            assert(f[i] == fd[i]);
            assert(s.drop_last().contains(fd[i]));
            let k = choose|k: int| 0 <= k < s.drop_last().len() && s.drop_last()[k] == fd[i];
            assert(s[k] == fd[i]);
            assert(s[s.len() - 1] == s.last());
        }
    }
}

/// No regeneration on revisit: when a stored chunk re-enters the window of
/// an otherwise warm advance, exactly its stored entities become its
/// residents, and its store entry is consumed.
pub proof fn lemma_revisit_restores(
    v: EntitiesView,
    actives: Seq<ChunkPosition>,
    chunks: Seq<(ChunkPosition, crate::chunk_terrain::ChunkTerrainView)>,
    samples: Seq<(ChunkPosition, Vec<u8>)>,
    c: ChunkPosition,
)
    requires
        v.wf(),
        resident_loaded(v),
        no_cold_miss(v, actives),
        actives.contains(c),
        assoc_has(v.store, c),
    ensures
        residents_of(advance(v, actives, chunks, samples).resident, c) == store_seq(v, c),
        !assoc_has(advance(v, actives, chunks, samples).store, c),
{
    let w = advance(v, actives, chunks, samples);
    lemma_advance_conserves(v, actives, chunks, samples);
    lemma_advance_props(v, actives, chunks, samples);
    // c had a store entry, so it was not loaded, so it had no residents
    assert(!v.loaded.contains(c)) by {
        if v.loaded.contains(c) {
            let m = choose|m: int| 0 <= m < v.loaded.len() && v.loaded[m] == c;
        }
    }
    assert forall|i: int| 0 <= i < v.resident.len() implies (#[trigger] v.resident[i]).chunk_pos
        != c by {}
    lemma_filter_none(v.resident, |e: Entity| e.chunk_pos == c);
    assert(residents_of(v.resident, c) == Seq::<Entity>::empty());
    // after the advance c is loaded, so it has no store entry
    assert(w.loaded.contains(c));
    assert(!assoc_has(w.store, c)) by {
        let m = choose|m: int| 0 <= m < w.loaded.len() && w.loaded[m] == c;
    }
    assert(store_seq(w, c) =~= Seq::<Entity>::empty());
    assert(combined_for(w, c) == combined_for(v, c));
    assert(residents_of(w.resident, c) =~= residents_of(w.resident, c) + store_seq(w, c));
    assert(store_seq(v, c) =~= residents_of(v.resident, c) + store_seq(v, c));
}

/// The entity with its removal flag raised.
pub open spec fn flagged(e: Entity) -> Entity {
    Entity { removed: true, ..e }
}

/// Whether the collection holds the entity, at worst with its removal flag
/// raised.
pub open spec fn kept_in(s: Seq<Entity>, e: Entity) -> bool {
    s.contains(e) || s.contains(flagged(e))
}

/// Flagging the first entity at an address never loses an entity: at worst
/// it raises the flag of one copy.
pub proof fn lemma_flag_first_keeps(res: Seq<Entity>, cp: ChunkPosition, l: LocalPosition, e: Entity)
    requires
        kept_in(res, e),
    ensures
        kept_in(flag_first_at(res, cp, l), e),
{
    lemma_first_at_props(res, cp, l);
    match first_at(res, cp, l) {
        None => {},
        Some(i) => {
            let w = flag_first_at(res, cp, l);
            if res.contains(e) {
                let j = choose|j: int| 0 <= j < res.len() && res[j] == e;
                if i == j {
                    assert(w[j] == flagged(e));
                    assert(w.contains(flagged(e)));
                } else {
                    assert(w[j] == e);
                    assert(w.contains(e));
                }
            } else {
                let j = choose|j: int| 0 <= j < res.len() && res[j] == flagged(e);
                if i == j {
                    assert(w[j] == (Entity { removed: true, ..flagged(e) }));
                    assert(w[j] == flagged(e));
                    assert(w.contains(flagged(e)));
                } else {
                    assert(w[j] == flagged(e));
                    assert(w.contains(flagged(e)));
                }
            }
        },
    }
}

/// Stamping a hut never loses an entity: overwritten entities are flagged,
/// not dropped.
pub proof fn lemma_stamp_keeps(res: Seq<Entity>, anchor: AbsolutePosition, n: int, e: Entity)
    requires
        kept_in(res, e),
    ensures
        kept_in(stamp_upto(res, anchor, n), e),
    decreases n,
{
    if n > 0 {
        lemma_stamp_keeps(res, anchor, n - 1, e);
        let prev = stamp_upto(res, anchor, n - 1);
        let k = n - 1;
        let p = hut_cell(anchor, k / 5, k % 5);
        lemma_flag_first_keeps(prev, p.chunk, p.local, e);
        let f = flag_first_at(prev, p.chunk, p.local);
        let w = stamp_upto(res, anchor, n);
        if f.contains(e) {
            let j = choose|j: int| 0 <= j < f.len() && f[j] == e;
            assert(w[j] == e);
            assert(w.contains(e));
        } else {
            let j = choose|j: int| 0 <= j < f.len() && f[j] == flagged(e);
            assert(w[j] == flagged(e));
            assert(w.contains(flagged(e)));
        }
    }
}

/// Populating a chunk never loses an entity already resident.
pub proof fn lemma_populate_keeps(
    res: Seq<Entity>,
    c: ChunkPosition,
    gens: Seq<Entity>,
    n: int,
    e: Entity,
)
    requires
        kept_in(res, e),
    ensures
        kept_in(populate_upto(res, c, gens, n), e),
    decreases n,
{
    if n > 0 {
        lemma_populate_keeps(res, c, gens, n - 1, e);
        let prev = populate_upto(res, c, gens, n - 1);
        let g = gens[n - 1];
        let gp = AbsolutePosition { chunk: c, local: g.pos };
        let w = populate_upto(res, c, gens, n);
        if g.tile == TileType::Placeholder && chest_far(prev, gp) {
            lemma_stamp_keeps(prev, gp, 25, e);
        } else if w == prev {
        } else {
            // a push keeps every element in place
            if prev.contains(e) {
                let j = choose|j: int| 0 <= j < prev.len() && prev[j] == e;
                assert(w[j] == e);
                assert(w.contains(e));
            } else {
                let j = choose|j: int| 0 <= j < prev.len() && prev[j] == flagged(e);
                assert(w[j] == flagged(e));
                assert(w.contains(flagged(e)));
            }
        }
    }
}

/// One load step never loses anything the cache holds for any chunk.
pub proof fn lemma_load_one_keeps(
    v: EntitiesView,
    c: ChunkPosition,
    chunks: Seq<(ChunkPosition, crate::chunk_terrain::ChunkTerrainView)>,
    samples: Seq<(ChunkPosition, Vec<u8>)>,
    d: ChunkPosition,
    e: Entity,
)
    requires
        v.wf(),
        kept_in(combined_for(v, d), e),
    ensures
        kept_in(combined_for(load_one(v, c, chunks, samples), d), e),
{
    let w = load_one(v, c, chunks, samples);
    if v.loaded.contains(c) {
    } else if assoc_has(v.store, c) {
        lemma_load_one_conserves(v, c, chunks, samples);
        assert(combined_for(w, d) == combined_for(v, d));
    } else {
        // cold miss: the store is untouched and the residents only grow or
        // get flagged
        let gens = gen_entities_full(world_tiles(chunks, c), sample_noise(samples, c));
        let res2 = populate_upto(v.resident, c, gens, gens.len() as int);
        assert(w.resident == res2 && w.store == v.store);
        let old_res_d = residents_of(v.resident, d);
        let old_store_d = store_seq(v, d);
        let x = if combined_for(v, d).contains(e) {
            e
        } else {
            flagged(e)
        };
        assert(combined_for(v, d).contains(x));
        let j = choose|j: int|
            0 <= j < combined_for(v, d).len() && combined_for(v, d)[j] == x;
        if j < old_res_d.len() {
            // the entity was resident in chunk d
            assert(old_res_d[j] == x);
            lemma_filter_element_of(v.resident, |e2: Entity| e2.chunk_pos == d);
            assert(v.resident.contains(x));
            Seq::lemma_filter_pred(v.resident, |e2: Entity| e2.chunk_pos == d, j);
            assert(x.chunk_pos == d);
            assert(kept_in(v.resident, e) || kept_in(v.resident, flagged(e)));
            lemma_populate_keeps(v.resident, c, gens, gens.len() as int, x);
            let y = if res2.contains(x) {
                x
            } else {
                flagged(x)
            };
            assert(res2.contains(y));
            assert(y == x || y == flagged(e));
            assert(y.chunk_pos == d);
            let m = choose|m: int| 0 <= m < res2.len() && res2[m] == y;
            Seq::lemma_filter_contains(res2, |e2: Entity| e2.chunk_pos == d, m);
            assert(residents_of(res2, d).contains(y));
            let m2 = choose|m2: int|
                0 <= m2 < residents_of(res2, d).len() && residents_of(res2, d)[m2] == y;
            assert(combined_for(w, d)[m2] == y);
            assert(combined_for(w, d).contains(y));
        } else {
            // the entity was stored; the store entry for d is unchanged
            assert(old_store_d[j - old_res_d.len()] == x);
            assert(store_seq(w, d) == old_store_d);
            let m = residents_of(res2, d).len() + (j - old_res_d.len());
            assert(combined_for(w, d)[m] == x);
            assert(combined_for(w, d).contains(x));
        }
    }
}

/// One eviction step never loses anything the cache holds for any chunk.
pub proof fn lemma_unload_one_keeps(v: EntitiesView, c: ChunkPosition, d: ChunkPosition, e: Entity)
    requires
        v.wf(),
        kept_in(combined_for(v, d), e),
    ensures
        kept_in(combined_for(unload_one(v, c), d), e),
{
    let w = unload_one(v, c);
    lemma_store_put_props(v.store, c, residents_of(v.resident, c));
    let x = if combined_for(v, d).contains(e) {
        e
    } else {
        flagged(e)
    };
    assert(combined_for(v, d).contains(x));
    let j = choose|j: int| 0 <= j < combined_for(v, d).len() && combined_for(v, d)[j] == x;
    let old_res_d = residents_of(v.resident, d);
    if d == c {
        // everything of chunk c ends in its store entry
        let new_entry = store_seq(w, c);
        assert(new_entry == (match assoc_find(v.store, c) {
            Some(v1) => v1 + residents_of(v.resident, c),
            None => residents_of(v.resident, c),
        }));
        if j < old_res_d.len() {
            assert(old_res_d[j] == x);
            let off = new_entry.len() - old_res_d.len();
            assert(new_entry[off + j] == x);
            assert(new_entry.contains(x));
        } else {
            assert(store_seq(v, d)[j - old_res_d.len()] == x);
            assert(assoc_find(v.store, c) is Some);
            assert(new_entry[j - old_res_d.len()] == x);
            assert(new_entry.contains(x));
        }
        let m = choose|m: int| 0 <= m < new_entry.len() && new_entry[m] == x;
        assert(combined_for(w, d)[residents_of(w.resident, d).len() + m] == x);
        assert(combined_for(w, d).contains(x));
    } else {
        lemma_residents_of_not_of(v.resident, c, d);
        assert(residents_of(w.resident, d) == old_res_d);
        assert(store_seq(w, d) == store_seq(v, d));
        assert(combined_for(w, d) == combined_for(v, d));
    }
}

/// No load phase loses anything.
pub proof fn lemma_load_phase_keeps(
    v: EntitiesView,
    actives: Seq<ChunkPosition>,
    chunks: Seq<(ChunkPosition, crate::chunk_terrain::ChunkTerrainView)>,
    samples: Seq<(ChunkPosition, Vec<u8>)>,
    d: ChunkPosition,
    e: Entity,
)
    requires
        v.wf(),
        kept_in(combined_for(v, d), e),
    ensures
        kept_in(combined_for(load_phase(v, actives, chunks, samples), d), e),
    decreases actives.len(),
{
    if actives.len() > 0 {
        lemma_load_phase_keeps(v, actives.drop_last(), chunks, samples, d, e);
        lemma_load_phase_props(v, actives.drop_last(), chunks, samples);
        lemma_load_one_keeps(
            load_phase(v, actives.drop_last(), chunks, samples),
            actives.last(),
            chunks,
            samples,
            d,
            e,
        );
    }
}

/// No eviction phase loses anything.
pub proof fn lemma_unload_phase_keeps(
    v: EntitiesView,
    targets: Seq<ChunkPosition>,
    d: ChunkPosition,
    e: Entity,
)
    requires
        v.wf(),
        kept_in(combined_for(v, d), e),
    ensures
        kept_in(combined_for(unload_phase(v, targets), d), e),
    decreases targets.len(),
{
    if targets.len() > 0 {
        lemma_unload_phase_keeps(v, targets.drop_last(), d, e);
        lemma_unload_phase_props(v, targets.drop_last());
        lemma_unload_one_keeps(unload_phase(v, targets.drop_last()), targets.last(), d, e);
    }
}

/// Cache conservation, general form: an advance of the window never loses
/// an entity.  Everything the cache held for a chunk, resident or stored,
/// is still held for that chunk afterwards - at worst with its removal
/// flag raised by structure stamping, awaiting the explicit sweep.
pub proof fn lemma_advance_loses_nothing(
    v: EntitiesView,
    actives: Seq<ChunkPosition>,
    chunks: Seq<(ChunkPosition, crate::chunk_terrain::ChunkTerrainView)>,
    samples: Seq<(ChunkPosition, Vec<u8>)>,
    d: ChunkPosition,
    e: Entity,
)
    requires
        v.wf(),
        kept_in(combined_for(v, d), e),
    ensures
        kept_in(combined_for(advance(v, actives, chunks, samples), d), e),
{
    let v1 = load_phase(v, actives, chunks, samples);
    lemma_load_phase_keeps(v, actives, chunks, samples, d, e);
    lemma_load_phase_props(v, actives, chunks, samples);
    let targets = unload_targets(v1.loaded, actives);
    let v2 = unload_phase(v1, targets);
    lemma_unload_phase_keeps(v1, targets, d, e);
    lemma_unload_phase_props(v1, targets);
    lemma_unload_phase_keeps(v2, stray_chunks(v2.resident, actives), d, e);
}

/// The whole advance keeps the cache well formed, never touches the
/// player, loads exactly the active chunks, and leaves no resident outside
/// the window.  The result satisfies the conservation law's hypotheses
/// again, so the law carries over any sequence of advances.
pub proof fn lemma_advance_props(
    v: EntitiesView,
    actives: Seq<ChunkPosition>,
    chunks: Seq<(ChunkPosition, crate::chunk_terrain::ChunkTerrainView)>,
    samples: Seq<(ChunkPosition, Vec<u8>)>,
)
    requires
        v.wf(),
    ensures
        ({
            let w = advance(v, actives, chunks, samples);
            &&& w.wf()
            &&& w.player == v.player
            &&& (forall|d: ChunkPosition| #[trigger] w.loaded.contains(d) <==> actives.contains(d))
            &&& (forall|i: int|
                0 <= i < w.resident.len() ==> actives.contains(
                    (#[trigger] w.resident[i]).chunk_pos,
                ))
            &&& resident_loaded(w)
        }),
{
    let v1 = load_phase(v, actives, chunks, samples);
    lemma_load_phase_props(v, actives, chunks, samples);
    let targets = unload_targets(v1.loaded, actives);
    lemma_unload_targets_props(v1.loaded, actives);
    lemma_unload_phase_props(v1, targets);
    let v2 = unload_phase(v1, targets);
    let strays = stray_chunks(v2.resident, actives);
    lemma_stray_chunks_props(v2.resident, actives);
    lemma_unload_phase_props(v2, strays);
    let w = unload_phase(v2, strays);
    assert forall|d: ChunkPosition| #[trigger] w.loaded.contains(d) implies actives.contains(
        d,
    ) by {}
    assert forall|d: ChunkPosition| actives.contains(d) implies #[trigger] w.loaded.contains(
        d,
    ) by {
        assert(v1.loaded.contains(d));
        assert(!targets.contains(d));
        assert(v2.loaded.contains(d));
        assert(!strays.contains(d));
    }
    assert forall|i: int| 0 <= i < w.resident.len() implies actives.contains(
        (#[trigger] w.resident[i]).chunk_pos,
    ) by {
        let e = w.resident[i];
        assert(v2.resident.contains(e) && !strays.contains(e.chunk_pos));
        let m = choose|m: int| 0 <= m < v2.resident.len() && v2.resident[m] == e;
        if !actives.contains(e.chunk_pos) {
            assert(strays.contains(e.chunk_pos));
        }
    }
}

/// Movement resolution: with a pending delta, the first resident entity at
/// the prospective position decides.  A blocking entity denies the move
/// and the position is unchanged; an empty cell or a non-blocking entity
/// allows it; a pickup is flagged removed and grants its reward.  The
/// delta is consumed either way.
pub proof fn lemma_movement_collision(v: EntitiesView)
    requires
        !(v.player.destination.x == 0 && v.player.destination.y == 0),
        v.player.score + 5 <= i64::MAX,
    ensures
        ({
            let fp = future_pos(v.player);
            let w = tick_move(v);
            &&& w.player.destination == (crate::player::Destination { x: 0, y: 0 })
            &&& w.player.vision_range == v.player.vision_range
            &&& match first_at(v.resident, fp.chunk, fp.local) {
                Some(i) => {
                    if blocking(v.resident[i].tile) {
                        w.player.entity == v.player.entity && w.resident == v.resident
                            && w.player.score == v.player.score
                    } else {
                        &&& w.player.entity.chunk_pos == fp.chunk
                        &&& w.player.entity.pos == fp.local
                        &&& w.player.score == v.player.score + reward(v.resident[i].tile)
                        &&& w.resident == v.resident.update(
                            i,
                            Entity {
                                removed: v.resident[i].removed || pickup(v.resident[i].tile),
                                ..v.resident[i]
                            },
                        )
                        &&& (pickup(v.resident[i].tile) ==> w.resident[i].removed)
                    }
                },
                None => w.player.entity.chunk_pos == fp.chunk && w.player.entity.pos == fp.local
                    && w.resident == v.resident && w.player.score == v.player.score,
            }
        }),
{
    lemma_first_at_props(v.resident, future_pos(v.player).chunk, future_pos(v.player).local);
}

/// The keys and values of the mapped store view are those of the stored
/// pairs.
proof fn lemma_store_view_keys(e: &Entities)
    ensures
        e@.store.len() == e.store_ref()@.len(),
        forall|i: int|
            0 <= i < e@.store.len() ==> (#[trigger] e@.store[i]).0 == e.store_ref()@[i].0
                && e@.store[i].1 == e.store_ref()@[i].1@,
{
}

impl Entities {
    /// Spec-level access to the stored pair list, for relating the view to
    /// the executable searches.
    spec fn store_ref(&self) -> Vec<(ChunkPosition, Vec<Entity>)> {
        self.entities_store
    }
}

} // verus!
