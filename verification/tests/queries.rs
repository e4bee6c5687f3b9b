use kiri_roguelike::brightness::Brightness;
use kiri_roguelike::coords::{AbsolutePosition, ChunkPosition, LocalPosition};
use kiri_roguelike::entities::Entities;
use kiri_roguelike::player::{Destination, Player};
use kiri_roguelike::world::World;

#[test]
fn absent_chunk_queries_return_absent_not_errors() {
    let world = World::default();
    let nowhere = ChunkPosition::new(100, 100);
    assert!(world.get_chunk(&nowhere).is_none());
    let pos = AbsolutePosition {
        chunk: nowhere,
        local: LocalPosition::new(0, 0),
    };
    assert!(world.get_tile(&pos).is_none());
    assert!(world.chunks_in_view().is_empty());
    assert!(world.get_visible_chunks().is_empty());

    let ents = Entities::default();
    assert!(ents.stored_at(&nowhere).is_none());
    assert!(ents.get_entity_at_pos(&pos).is_none());
    assert!(ents.resident_entities().is_empty());
    assert!(ents.loaded_list().is_empty());
}

#[test]
fn destination_accumulates_and_resets() {
    let mut d = Destination::default();
    assert!(d.is_zero());
    d.set_destination(1, 0);
    d.set_destination(0, -1);
    d.set_destination(1, 0);
    assert_eq!(d.as_tuple(), (2, -1));
    assert!(!d.is_zero());
    d.reset_destination();
    assert!(d.is_zero());
    assert_eq!(d.as_tuple(), (0, 0));
}

#[test]
fn player_defaults() {
    let p = Player::default();
    assert_eq!(p.vision_range, 16);
    assert_eq!(p.score, 0);
    assert_eq!(p.entity.tile, kiri_roguelike::tile_types::TileType::Pengu);
    assert!(p.destination.is_zero());
}

#[test]
fn brightness_levels() {
    assert_eq!(Brightness::default().level(), 255);
    assert_eq!(Brightness::new(17).level(), 17);
}
