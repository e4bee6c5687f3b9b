use kiri_roguelike::coords::{
    distance_squared, get_checked_position, AbsolutePosition, ChunkPosition, LocalPosition,
    CHUNK_SIZE,
};

#[test]
fn chunk_size_is_32() {
    assert_eq!(CHUNK_SIZE, 32);
}

#[test]
fn normalize_in_range_is_identity() {
    let r = get_checked_position(ChunkPosition::new(3, -4), LocalPosition::new(0, 31));
    assert_eq!(r.chunk, ChunkPosition::new(3, -4));
    assert_eq!(r.local, LocalPosition::new(0, 31));
}

#[test]
fn normalize_carries_one_chunk_up() {
    // local.x = CHUNK_SIZE and chunk.x = 5 normalizes to local.x = 0, chunk.x = 6
    let r = get_checked_position(ChunkPosition::new(5, 0), LocalPosition::new(32, 7));
    assert_eq!(r.chunk, ChunkPosition::new(6, 0));
    assert_eq!(r.local, LocalPosition::new(0, 7));
}

#[test]
fn normalize_borrows_one_chunk_down() {
    let r = get_checked_position(ChunkPosition::new(0, 0), LocalPosition::new(-1, -32));
    assert_eq!(r.chunk, ChunkPosition::new(-1, -1));
    assert_eq!(r.local, LocalPosition::new(31, 0));
}

#[test]
fn normalize_handles_both_axes_independently() {
    let r = get_checked_position(ChunkPosition::new(2, 2), LocalPosition::new(47, -16));
    assert_eq!(r.chunk, ChunkPosition::new(3, 1));
    assert_eq!(r.local, LocalPosition::new(15, 16));
}

#[test]
fn normalize_is_idempotent() {
    let once = get_checked_position(ChunkPosition::new(9, 9), LocalPosition::new(63, -1));
    let twice = get_checked_position(once.chunk, once.local);
    assert_eq!(once, twice);
}

#[test]
fn normalize_preserves_total_displacement() {
    let chunk = ChunkPosition::new(-7, 11);
    let local = LocalPosition::new(40, -9);
    let r = get_checked_position(chunk, local);
    assert_eq!(
        i64::from(r.chunk.x) * 32 + i64::from(r.local.x),
        i64::from(chunk.x) * 32 + i64::from(local.x)
    );
    assert_eq!(
        i64::from(r.chunk.y) * 32 + i64::from(r.local.y),
        i64::from(chunk.y) * 32 + i64::from(local.y)
    );
}

#[test]
fn add_to_local_crosses_chunk_border() {
    let p = AbsolutePosition {
        chunk: ChunkPosition::new(0, 0),
        local: LocalPosition::new(31, 5),
    };
    let r = p.add_to_local((1, 0));
    assert_eq!(r.chunk, ChunkPosition::new(1, 0));
    assert_eq!(r.local, LocalPosition::new(0, 5));
}

#[test]
fn distance_squared_is_exact() {
    let a = AbsolutePosition {
        chunk: ChunkPosition::new(0, 0),
        local: LocalPosition::new(0, 0),
    };
    let b = AbsolutePosition {
        chunk: ChunkPosition::new(0, 0),
        local: LocalPosition::new(3, 4),
    };
    assert_eq!(distance_squared(&a, &b), 25);
    // one full chunk apart on x: 32 apart in world coordinates
    let c = AbsolutePosition {
        chunk: ChunkPosition::new(1, 0),
        local: LocalPosition::new(0, 0),
    };
    assert_eq!(distance_squared(&a, &c), 32 * 32);
    assert_eq!(distance_squared(&c, &a), 32 * 32);
}
