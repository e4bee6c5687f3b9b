use kiri_roguelike::coords::{AbsolutePosition, ChunkPosition, LocalPosition};
use kiri_roguelike::entities::{Entities, Entity};
use kiri_roguelike::generator::{Generator, CHUNK_AREA};
use kiri_roguelike::player::Player;
use kiri_roguelike::tile_types::TileType;
use kiri_roguelike::world::World;

/// One full tick with feature-free chunks: the observer moves, nothing is
/// generated besides terrain.
fn step(world: &mut World, ents: &mut Entities, gen: &Generator, center: ChunkPosition) {
    let missing = world.missing_chunks(&center);
    let terrain_samples: Vec<(ChunkPosition, Vec<u8>)> =
        missing.iter().map(|c| (*c, vec![100u8; CHUNK_AREA])).collect();
    world.update(&center, gen, &terrain_samples);
    let active = world.chunks_in_view().clone();
    let cold = ents.cold_locations(&active);
    let cold_samples: Vec<(ChunkPosition, Vec<u8>)> =
        cold.iter().map(|c| (*c, vec![0u8; CHUNK_AREA])).collect();
    ents.update(world, gen, &cold_samples);
}

#[test]
fn movement_across_the_chunk_border() {
    // moving by (1, 0) from local (31, 5) in chunk (0, 0) yields
    // local (0, 5) in chunk (1, 0)
    let gen = Generator::new(0);
    let mut world = World::default();
    let mut ents = Entities::default();
    ents.player.entity.pos = LocalPosition::new(31, 5);
    ents.player.entity.chunk_pos = ChunkPosition::new(0, 0);
    ents.input((1, 0));
    step(&mut world, &mut ents, &gen, ChunkPosition::new(0, 0));
    assert_eq!(ents.player.entity.chunk_pos, ChunkPosition::new(1, 0));
    assert_eq!(ents.player.entity.pos, LocalPosition::new(0, 5));
    assert!(ents.player.destination.is_zero());
}

#[test]
fn calc_future_pos_normalizes() {
    let mut player = Player::default();
    player.entity.pos = LocalPosition::new(31, 5);
    player.destination.set_destination(1, 0);
    let future = player.calc_future_pos();
    assert_eq!(future.chunk, ChunkPosition::new(1, 0));
    assert_eq!(future.local, LocalPosition::new(0, 5));
}

#[test]
fn blocked_movement_is_denied_and_position_unchanged() {
    let gen = Generator::new(0);
    let mut world = World::default();
    let mut ents = Entities::default();
    // a hut's outer wall is blocking; stamp one and walk into it
    let anchor = AbsolutePosition {
        chunk: ChunkPosition::new(0, 0),
        local: LocalPosition::new(10, 10),
    };
    ents.create_hut(&anchor);
    ents.player.entity.pos = LocalPosition::new(9, 10);
    ents.input((1, 0)); // onto the wall at (10, 10)
    step(&mut world, &mut ents, &gen, ChunkPosition::new(0, 0));
    assert_eq!(ents.player.entity.pos, LocalPosition::new(9, 10));
    assert_eq!(ents.player.entity.chunk_pos, ChunkPosition::new(0, 0));
    assert_eq!(ents.player.score, 0);
    assert!(ents.player.destination.is_zero());
}

#[test]
fn pickup_grants_reward_and_is_consumed() {
    let gen = Generator::new(0);
    let mut world = World::default();
    let mut ents = Entities::default();
    let anchor = AbsolutePosition {
        chunk: ChunkPosition::new(0, 0),
        local: LocalPosition::new(10, 10),
    };
    ents.create_hut(&anchor);
    // the chest sits at anchor + (2, 1)
    let chest_pos = AbsolutePosition {
        chunk: ChunkPosition::new(0, 0),
        local: LocalPosition::new(12, 11),
    };
    assert_eq!(
        ents.get_entity_at_pos(&chest_pos).expect("chest stamped").tile,
        TileType::Chest
    );
    ents.player.entity.pos = LocalPosition::new(11, 11);
    ents.input((1, 0)); // onto the chest
    step(&mut world, &mut ents, &gen, ChunkPosition::new(0, 0));
    assert_eq!(ents.player.score, 5);
    assert_eq!(ents.player.entity.pos, LocalPosition::new(12, 11));
    // the consumed pickup was swept from the residents
    assert!(ents.get_entity_at_pos(&chest_pos).is_none());
}

#[test]
fn collide_flags_pickup_and_rewards_by_kind() {
    let mut player = Player::default();
    let mut coin = Entity::new_local(LocalPosition::new(1, 1), TileType::Coin);
    coin.collide(&mut player);
    assert!(coin.removed);
    assert_eq!(player.score, 1);
    let mut chest = Entity::new_local(LocalPosition::new(2, 1), TileType::Chest);
    chest.collide(&mut player);
    assert!(chest.removed);
    assert_eq!(player.score, 6);
    let mut bush = Entity::new_local(LocalPosition::new(3, 1), TileType::Bush);
    bush.collide(&mut player);
    assert!(!bush.removed);
    assert_eq!(player.score, 6);
}

#[test]
fn blocking_and_pickup_tables() {
    let wall = Entity::new_local(LocalPosition::new(0, 0), TileType::StoneWall);
    let coin = Entity::new_local(LocalPosition::new(0, 0), TileType::Coin);
    let floor = Entity::new_local(LocalPosition::new(0, 0), TileType::GrassFloor);
    assert_eq!(Entity::is_blocking(&wall), Some(true));
    assert_eq!(Entity::is_blocking(&coin), Some(false));
    assert_eq!(Entity::is_blocking(&floor), Some(false));
    assert_eq!(Entity::is_pickup(&coin), Some(true));
    assert_eq!(Entity::is_pickup(&wall), Some(false));
}

#[test]
fn hut_blueprint_is_stamped_around_the_anchor() {
    let mut ents = Entities::default();
    let anchor = AbsolutePosition {
        chunk: ChunkPosition::new(0, 0),
        local: LocalPosition::new(10, 10),
    };
    let returned = ents.create_hut(&anchor);
    assert!(returned.is_empty());
    assert_eq!(ents.resident_entities().len(), 25);
    let at = |x: i16, y: i16| AbsolutePosition {
        chunk: ChunkPosition::new(0, 0),
        local: LocalPosition::new(x, y),
    };
    // bottom row is wall, the chest sits above its middle, the top row
    // carries two engravings, and interior cells are removed filler
    assert_eq!(ents.get_entity_at_pos(&at(10, 10)).unwrap().tile, TileType::StoneWall);
    assert_eq!(ents.get_entity_at_pos(&at(14, 10)).unwrap().tile, TileType::StoneWall);
    assert_eq!(ents.get_entity_at_pos(&at(12, 11)).unwrap().tile, TileType::Chest);
    assert_eq!(ents.get_entity_at_pos(&at(11, 14)).unwrap().tile, TileType::StoneEngraving);
    assert_eq!(ents.get_entity_at_pos(&at(13, 14)).unwrap().tile, TileType::StoneEngraving);
    let filler = ents.get_entity_at_pos(&at(11, 11)).unwrap();
    assert_eq!(filler.tile, TileType::Debug);
    assert!(filler.removed);
}

#[test]
fn hut_stamping_crosses_chunk_borders() {
    let mut ents = Entities::default();
    let anchor = AbsolutePosition {
        chunk: ChunkPosition::new(0, 0),
        local: LocalPosition::new(30, 30),
    };
    ents.create_hut(&anchor);
    // the far corner spills into the diagonal neighbour chunk
    let corner = AbsolutePosition {
        chunk: ChunkPosition::new(1, 1),
        local: LocalPosition::new(2, 2),
    };
    let piece = ents.get_entity_at_pos(&corner).expect("spilled piece");
    assert_eq!(piece.tile, TileType::StoneWall);
}

#[test]
fn delete_entity_at_location_removes_immediately() {
    let mut ents = Entities::default();
    let pos = AbsolutePosition {
        chunk: ChunkPosition::new(0, 0),
        local: LocalPosition::new(3, 3),
    };
    ents.add_debug_entity(pos);
    assert!(ents.get_entity_at_pos(&pos).is_some());
    ents.delete_entity_at_location(&pos);
    assert!(ents.get_entity_at_pos(&pos).is_none());
}

#[test]
fn mark_first_entity_removed_in_place() {
    let mut ents = Entities::default();
    let pos = AbsolutePosition {
        chunk: ChunkPosition::new(0, 0),
        local: LocalPosition::new(4, 4),
    };
    ents.add_debug_entity(pos);
    if let Some(e) = ents.get_mut_entity_at_pos(&pos) {
        e.removed = true;
    }
    assert!(ents.get_entity_at_pos(&pos).unwrap().removed);
}

#[test]
fn distance_to_closest_of_a_kind() {
    let mut ents = Entities::default();
    let at = |x: i16, y: i16| AbsolutePosition {
        chunk: ChunkPosition::new(0, 0),
        local: LocalPosition::new(x, y),
    };
    assert_eq!(ents.distance_sq_to_closest(&at(0, 0), TileType::Chest), None);
    ents.create_hut(&at(10, 10));
    // nearest chest to (12, 8) is the one at (12, 11): squared distance 9
    assert_eq!(ents.distance_sq_to_closest(&at(12, 8), TileType::Chest), Some(9));
}
