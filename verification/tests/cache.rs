use kiri_roguelike::coords::ChunkPosition;
use kiri_roguelike::entities::{Entities, Entity};
use kiri_roguelike::generator::{Generator, CHUNK_AREA};
use kiri_roguelike::world::World;

/// Feature noise with a few coins and nothing else: no placeholders, so no
/// structure stamping disturbs the per-chunk entity sets.
fn coin_noise() -> Vec<u8> {
    let mut noise = vec![0u8; CHUNK_AREA];
    let mut i = 5;
    while i < CHUNK_AREA {
        noise[i] = 254;
        i += 97;
    }
    noise
}

/// One full tick: generate missing terrain, then update the entity cache,
/// with the observer in the given chunk.
fn step(world: &mut World, ents: &mut Entities, gen: &Generator, center: ChunkPosition) {
    let missing = world.missing_chunks(&center);
    let terrain_samples: Vec<(ChunkPosition, Vec<u8>)> =
        missing.iter().map(|c| (*c, vec![100u8; CHUNK_AREA])).collect();
    world.update(&center, gen, &terrain_samples);
    let active = world.chunks_in_view().clone();
    let cold = ents.cold_locations(&active);
    let cold_samples: Vec<(ChunkPosition, Vec<u8>)> =
        cold.iter().map(|c| (*c, coin_noise())).collect();
    ents.update(world, gen, &cold_samples);
}

fn residents_of(ents: &Entities, c: ChunkPosition) -> Vec<Entity> {
    ents.resident_entities().iter().filter(|e| e.chunk_pos == c).cloned().collect()
}

#[test]
fn window_is_exactly_the_nine_neighbours() {
    let gen = Generator::new(1);
    let mut world = World::default();
    let mut ents = Entities::default();
    step(&mut world, &mut ents, &gen, ChunkPosition::new(4, -2));
    let view = world.chunks_in_view();
    assert_eq!(view.len(), 9);
    for dx in -1..=1 {
        for dy in -1..=1 {
            assert!(view.contains(&ChunkPosition::new(4 + dx, -2 + dy)));
        }
    }
    assert!(!view.contains(&ChunkPosition::new(6, -2)));
    // the loaded entity chunks match the window
    let loaded = ents.loaded_list();
    assert_eq!(loaded.len(), 9);
    for c in view.iter() {
        assert!(loaded.contains(c));
    }
    // once generated, nothing in the window is missing any more
    assert!(world.missing_chunks(&ChunkPosition::new(4, -2)).is_empty());
}

#[test]
fn entities_are_generated_for_every_window_chunk() {
    let gen = Generator::new(3);
    let mut world = World::default();
    let mut ents = Entities::default();
    step(&mut world, &mut ents, &gen, ChunkPosition::new(0, 0));
    let per_chunk = coin_noise().iter().filter(|&&n| n == 254).count();
    assert!(per_chunk > 0);
    assert_eq!(ents.resident_entities().len(), 9 * per_chunk);
    for e in ents.resident_entities().iter() {
        assert_eq!(e.tile, kiri_roguelike::tile_types::TileType::Coin);
        assert!(!e.removed);
    }
}

#[test]
fn eviction_moves_entities_to_the_store_unchanged() {
    let gen = Generator::new(9);
    let mut world = World::default();
    let mut ents = Entities::default();
    step(&mut world, &mut ents, &gen, ChunkPosition::new(0, 0));
    let west = ChunkPosition::new(-1, 0);
    let before = residents_of(&ents, west);
    assert!(!before.is_empty());
    assert!(ents.stored_at(&west).is_none());

    // move the observer two chunks east; (-1, 0) leaves the window
    step(&mut world, &mut ents, &gen, ChunkPosition::new(1, 0));
    step(&mut world, &mut ents, &gen, ChunkPosition::new(2, 0));
    assert!(residents_of(&ents, west).is_empty());
    let stored = ents.stored_at(&west).expect("evicted chunk must be stored");
    assert_eq!(*stored, before);
}

#[test]
fn revisit_restores_the_exact_entity_set_without_regeneration() {
    let gen = Generator::new(9);
    let mut world = World::default();
    let mut ents = Entities::default();
    step(&mut world, &mut ents, &gen, ChunkPosition::new(0, 0));
    let west = ChunkPosition::new(-1, 0);
    let before = residents_of(&ents, west);

    step(&mut world, &mut ents, &gen, ChunkPosition::new(1, 0));
    step(&mut world, &mut ents, &gen, ChunkPosition::new(2, 0));
    assert!(ents.stored_at(&west).is_some());

    // walk back; re-entering must restore, not regenerate
    step(&mut world, &mut ents, &gen, ChunkPosition::new(1, 0));
    step(&mut world, &mut ents, &gen, ChunkPosition::new(0, 0));
    let after = residents_of(&ents, west);
    assert_eq!(after, before);
    assert!(ents.stored_at(&west).is_none());
}

#[test]
fn conservation_over_a_walk() {
    let gen = Generator::new(11);
    let mut world = World::default();
    let mut ents = Entities::default();
    step(&mut world, &mut ents, &gen, ChunkPosition::new(0, 0));

    // total per chunk after first generation
    let mut totals: Vec<(ChunkPosition, usize)> = Vec::new();
    for e in ents.resident_entities().iter() {
        match totals.iter_mut().find(|(c, _)| *c == e.chunk_pos) {
            Some((_, n)) => *n += 1,
            None => totals.push((e.chunk_pos, 1)),
        }
    }
    assert_eq!(totals.len(), 9);

    // wander around; no entity of the original chunks may be lost or doubled
    for c in [
        ChunkPosition::new(1, 0),
        ChunkPosition::new(1, 1),
        ChunkPosition::new(0, 1),
        ChunkPosition::new(0, 0),
    ] {
        step(&mut world, &mut ents, &gen, c);
        for (chunk, n) in totals.iter() {
            let resident = residents_of(&ents, *chunk).len();
            let stored = ents.stored_at(chunk).map(|v| v.len()).unwrap_or(0);
            assert_eq!(resident + stored, *n);
            assert!(resident == 0 || stored == 0);
        }
    }
}

#[test]
fn walking_onto_a_generated_coin_scores() {
    let gen = Generator::new(2);
    let mut world = World::default();
    let mut ents = Entities::default();
    step(&mut world, &mut ents, &gen, ChunkPosition::new(0, 0));
    // coin_noise puts a coin in cell (5, 0) of every chunk
    let coin_pos = kiri_roguelike::coords::AbsolutePosition {
        chunk: ChunkPosition::new(0, 0),
        local: kiri_roguelike::coords::LocalPosition::new(5, 0),
    };
    assert!(ents.get_entity_at_pos(&coin_pos).is_some());
    ents.player.entity.pos = kiri_roguelike::coords::LocalPosition::new(4, 0);
    ents.input((1, 0));
    step(&mut world, &mut ents, &gen, ChunkPosition::new(0, 0));
    assert_eq!(ents.player.score, 1);
    assert_eq!(ents.player.entity.pos, kiri_roguelike::coords::LocalPosition::new(5, 0));
    // the coin was consumed and swept
    assert!(ents.get_entity_at_pos(&coin_pos).is_none());
}

#[test]
fn stamping_spill_outside_the_window_is_evicted() {
    let gen = Generator::new(2);
    let mut world = World::default();
    let mut ents = Entities::default();
    step(&mut world, &mut ents, &gen, ChunkPosition::new(0, 0));
    // stamp a hut at the far corner of the window's corner chunk; its
    // upper rows spill into chunk (2, 2), which is outside the window
    let anchor = kiri_roguelike::coords::AbsolutePosition {
        chunk: ChunkPosition::new(1, 1),
        local: kiri_roguelike::coords::LocalPosition::new(30, 30),
    };
    ents.create_hut(&anchor);
    let spill = ChunkPosition::new(2, 2);
    assert!(!residents_of(&ents, spill).is_empty());
    step(&mut world, &mut ents, &gen, ChunkPosition::new(0, 0));
    // after the update no resident belongs to a chunk outside the window
    assert!(residents_of(&ents, spill).is_empty());
    let stored = ents.stored_at(&spill).expect("spill stored for later");
    assert!(stored.iter().all(|e| e.chunk_pos == spill));
    // walking towards it restores the spilled pieces
    step(&mut world, &mut ents, &gen, ChunkPosition::new(1, 1));
    assert!(!residents_of(&ents, spill).is_empty());
    assert!(ents.stored_at(&spill).is_none());
}

#[test]
fn terrain_is_never_regenerated() {
    let gen = Generator::new(5);
    let mut world = World::default();
    let mut ents = Entities::default();
    step(&mut world, &mut ents, &gen, ChunkPosition::new(0, 0));
    let origin = ChunkPosition::new(0, 0);
    let before: Vec<_> = world
        .get_chunk(&origin)
        .expect("origin chunk generated")
        .entries();
    step(&mut world, &mut ents, &gen, ChunkPosition::new(2, 2));
    step(&mut world, &mut ents, &gen, ChunkPosition::new(0, 0));
    let after: Vec<_> = world
        .get_chunk(&origin)
        .expect("origin chunk still stored")
        .entries();
    assert_eq!(before, after);
}
