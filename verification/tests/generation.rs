use kiri_roguelike::chunk_terrain::ChunkTerrain;
use kiri_roguelike::coords::{ChunkPosition, LocalPosition};
use kiri_roguelike::generator::{Generator, CHUNK_AREA};
use kiri_roguelike::tile_types::TileType;

fn terrain_from(noise: &Vec<u8>, chunk: ChunkPosition) -> ChunkTerrain {
    let gen = Generator::new(0);
    let (positions, tile_types) = gen.generate_chunk_terrain(chunk, noise);
    ChunkTerrain::new(chunk, tile_types, positions)
}

#[test]
fn terrain_buckets_are_exhaustive_thresholds() {
    let mut noise = vec![100u8; CHUNK_AREA];
    noise[0] = 0;
    noise[1] = 29;
    noise[2] = 30;
    noise[3] = 239;
    noise[4] = 240;
    noise[5] = 255;
    let gen = Generator::new(0);
    let (_, tiles) = gen.generate_chunk_terrain(ChunkPosition::new(0, 0), &noise);
    assert_eq!(tiles[0][0], TileType::StoneFloor);
    assert_eq!(tiles[0][1], TileType::StoneFloor);
    assert_eq!(tiles[0][2], TileType::GrassFloor);
    assert_eq!(tiles[0][3], TileType::GrassFloor);
    assert_eq!(tiles[0][4], TileType::SandFloor);
    assert_eq!(tiles[0][5], TileType::SandFloor);
    // second row starts at cell index 32
    assert_eq!(tiles[1][0], TileType::GrassFloor);
}

#[test]
fn terrain_positions_grid_holds_cell_coordinates() {
    let noise = vec![50u8; CHUNK_AREA];
    let gen = Generator::new(0);
    let (positions, _) = gen.generate_chunk_terrain(ChunkPosition::new(2, 3), &noise);
    assert_eq!(positions.len(), 32);
    assert_eq!(positions[0][0], LocalPosition::new(0, 0));
    assert_eq!(positions[31][17], LocalPosition::new(17, 31));
}

#[test]
fn grass_features_follow_thresholds() {
    let terrain_noise = vec![100u8; CHUNK_AREA]; // grass everywhere
    let terrain = terrain_from(&terrain_noise, ChunkPosition::new(0, 0));
    let mut feature_noise = vec![0u8; CHUNK_AREA];
    feature_noise[0] = 218; // below every bucket: nothing
    feature_noise[1] = 219; // tree stomp
    feature_noise[2] = 225; // brown mushroom
    feature_noise[3] = 228; // orange mushroom
    feature_noise[4] = 230; // red mushroom
    feature_noise[5] = 234; // violet flower
    feature_noise[6] = 239; // white flower
    feature_noise[7] = 241; // pond
    feature_noise[8] = 244; // grass stones
    feature_noise[9] = 252; // bush
    feature_noise[10] = 253; // coin
    feature_noise[11] = 255; // coin
    let gen = Generator::new(0);
    let entities = gen.generate_entities(&feature_noise, &terrain);
    let kinds: Vec<TileType> = entities.iter().map(|e| e.tile).collect();
    assert_eq!(
        kinds,
        vec![
            TileType::TreeStomp,
            TileType::MushroomBrown,
            TileType::MushroomOrange,
            TileType::MushroomRed,
            TileType::VioletFlower,
            TileType::WhiteFlower,
            TileType::Pond,
            TileType::GrassStones,
            TileType::Bush,
            TileType::Coin,
            TileType::Coin,
        ]
    );
    assert_eq!(entities[0].pos, LocalPosition::new(1, 0));
    assert!(entities.iter().all(|e| !e.removed));
}

#[test]
fn sand_and_stone_features_follow_thresholds() {
    let mut terrain_noise = vec![255u8; CHUNK_AREA]; // sand everywhere...
    for i in 32..64 {
        terrain_noise[i] = 0; // ...except the second row, which is stone
    }
    let terrain = terrain_from(&terrain_noise, ChunkPosition::new(0, 0));
    let mut feature_noise = vec![0u8; CHUNK_AREA];
    feature_noise[0] = 235; // sand stones
    feature_noise[1] = 252; // sand stones
    feature_noise[2] = 253; // coin
    feature_noise[3] = 234; // nothing on sand
    feature_noise[32] = 245; // placeholder on stone
    feature_noise[33] = 250; // placeholder on stone
    feature_noise[34] = 251; // pond on stone
    feature_noise[35] = 253; // coin on stone
    feature_noise[36] = 244; // nothing on stone
    let gen = Generator::new(0);
    let entities = gen.generate_entities(&feature_noise, &terrain);
    let kinds: Vec<TileType> = entities.iter().map(|e| e.tile).collect();
    assert_eq!(
        kinds,
        vec![
            TileType::SandStones,
            TileType::SandStones,
            TileType::Coin,
            TileType::Placeholder,
            TileType::Placeholder,
            TileType::Pond,
            TileType::Coin,
        ]
    );
}

#[test]
fn generation_is_deterministic() {
    let terrain_noise: Vec<u8> = (0..CHUNK_AREA).map(|i| (i % 251) as u8).collect();
    let feature_noise: Vec<u8> = (0..CHUNK_AREA).map(|i| (i * 7 % 256) as u8).collect();
    let gen = Generator::new(42);
    let (p1, t1) = gen.generate_chunk_terrain(ChunkPosition::new(5, -3), &terrain_noise);
    let (p2, t2) = gen.generate_chunk_terrain(ChunkPosition::new(5, -3), &terrain_noise);
    assert_eq!(t1, t2);
    assert_eq!(p1, p2);
    let terrain_a = ChunkTerrain::new(ChunkPosition::new(5, -3), t1, p1);
    let terrain_b = ChunkTerrain::new(ChunkPosition::new(5, -3), t2, p2);
    let e1 = gen.generate_entities(&feature_noise, &terrain_a);
    let e2 = gen.generate_entities(&feature_noise, &terrain_b);
    assert_eq!(e1, e2);
}

#[test]
fn chunk_terrain_lookup_and_entries() {
    let mut noise = vec![100u8; CHUNK_AREA];
    noise[2 * 32 + 9] = 250; // cell (9, 2) is sand
    let terrain = terrain_from(&noise, ChunkPosition::new(1, 1));
    assert_eq!(terrain.get_tile(&LocalPosition::new(9, 2)), TileType::SandFloor);
    assert_eq!(terrain.get_tile(&LocalPosition::new(0, 0)), TileType::GrassFloor);
    let entries = terrain.entries();
    assert_eq!(entries.len(), 1024);
    let (tile0, pos0) = entries[0];
    assert_eq!(tile0, TileType::GrassFloor);
    assert_eq!(pos0.chunk, ChunkPosition::new(1, 1));
    assert_eq!(pos0.local, LocalPosition::new(0, 0));
}
