use terrain_data::AccessError;
use terrain_data::BlockPosition;
use terrain_data::BoundsError;
use terrain_data::ChunkAccessError;
use terrain_data::ChunkError;
use terrain_data::ChunkOverwriteError;
use terrain_data::ChunkPosition;
use terrain_data::World;

#[test]
fn test_get_and_set_world() -> Result<(), AccessError> {
    let mut world: World = World::default();
    let chunk_pos: ChunkPosition = ChunkPosition::new(0, 0);
    world.add_empty_chunk(chunk_pos).unwrap();

    let pos_1: BlockPosition = BlockPosition::new(15, 1, 200);
    let pos_2: BlockPosition = BlockPosition::new(3, 0, 2);

    world.set_is_exposed(pos_1, true)?;
    world.set_is_exposed(pos_1, false)?;
    world.set_is_exposed(pos_2, true)?;

    assert_eq!(world.is_exposed(pos_1)?, false);
    assert_eq!(world.is_exposed(pos_2)?, true);

    Ok(())
}

#[test]
fn world_routes_negative_coordinates() {
    // A write at a negative global position lands in the right chunk
    // and reads back, with wraparound arithmetic.
    let mut world: World = World::default();
    world.add_empty_chunk(ChunkPosition::new(-1, -1)).unwrap();
    let pos: BlockPosition = BlockPosition::new(-1, -16, 7);
    world.set_block(pos, 9).unwrap();
    assert_eq!(world.block(pos).unwrap(), 9);
    assert!(world.chunk_at(ChunkPosition::new(-1, -1)).is_ok());
}

#[test]
fn missing_chunk_is_an_error_not_a_default() {
    let world: World = World::default();
    let pos: BlockPosition = BlockPosition::new(1, 2, 3);
    assert_eq!(
        world.block(pos),
        Err(AccessError::ChunkAccess(ChunkAccessError::ChunkUnloaded(ChunkPosition::new(0, 0))))
    );
}

#[test]
fn world_vertical_bounds_error() {
    let mut world: World = World::default();
    world.add_empty_chunk(ChunkPosition::new(0, 0)).unwrap();
    let below: BlockPosition = BlockPosition::new(3, 4, -1);
    let above: BlockPosition = BlockPosition::new(3, 4, 256);
    assert_eq!(
        world.block(below),
        Err(AccessError::Bounds(BoundsError::OutOfBounds(BlockPosition::new(3, 4, -1))))
    );
    assert_eq!(
        world.set_block(above, 1),
        Err(AccessError::Bounds(BoundsError::OutOfBounds(BlockPosition::new(3, 4, 256))))
    );
}

#[test]
fn add_empty_chunk_twice_fails_and_keeps_contents() {
    // The second insertion at an occupied coordinate fails and the
    // first chunk's contents are untouched.
    let mut world: World = World::default();
    let chunk_pos: ChunkPosition = ChunkPosition::new(2, 3);
    world.add_empty_chunk(chunk_pos).unwrap();
    let pos: BlockPosition = BlockPosition::new(2 * 16 + 5, 3 * 16 + 6, 7);
    world.set_block(pos, 13).unwrap();
    assert_eq!(
        world.add_empty_chunk(chunk_pos),
        Err(ChunkOverwriteError::ChunkAlreadyLoaded(chunk_pos))
    );
    assert_eq!(world.block(pos).unwrap(), 13);
}

#[test]
fn add_default_chunk_reports_chunk_error() {
    let mut world: World = World::default();
    let chunk_pos: ChunkPosition = ChunkPosition::new(4, -2);
    assert_eq!(world.add_default_chunk(chunk_pos), Ok(()));
    assert!(world.is_chunk_at_pos(chunk_pos));
    assert_eq!(world.add_default_chunk(chunk_pos), Err(ChunkError::ChunkAlreadyLoaded));
}

#[test]
fn dirty_marks_owner_and_neighbors_once() {
    // A write marks the owning chunk and exactly its four horizontal
    // neighbours dirty; consume_dirty reports each marked, still-loaded
    // coordinate exactly once and leaves the dirty set empty.
    let mut world: World = World::default();
    let origin: ChunkPosition = ChunkPosition::new(0, 0);
    let east: ChunkPosition = ChunkPosition::new(1, 0);
    world.add_empty_chunk(origin).unwrap();
    world.add_empty_chunk(east).unwrap();

    world.set_block(BlockPosition::new(1, 2, 3), 5).unwrap();
    world.set_block(BlockPosition::new(4, 5, 6), 7).unwrap();

    let dirty = world.consume_dirty();
    assert_eq!(dirty.len(), 2);
    assert!(dirty.contains(&origin));
    assert!(dirty.contains(&east));

    let empty = world.consume_dirty();
    assert_eq!(empty.len(), 0);
}

#[test]
fn consume_dirty_drops_unloaded_coordinates() {
    let mut world: World = World::default();
    let origin: ChunkPosition = ChunkPosition::new(0, 0);
    world.add_empty_chunk(origin).unwrap();
    world.set_block(BlockPosition::new(0, 0, 0), 1).unwrap();
    let _bytes = world.unload_chunk(origin).unwrap();
    let dirty = world.consume_dirty();
    assert_eq!(dirty.len(), 0);
}

#[test]
fn failed_writes_mark_nothing_dirty() {
    let mut world: World = World::default();
    world.add_empty_chunk(ChunkPosition::new(0, 0)).unwrap();
    assert!(world.set_block(BlockPosition::new(0, 0, -1), 1).is_err());
    assert!(world.set_block(BlockPosition::new(100, 0, 0), 1).is_err());
    assert_eq!(world.consume_dirty().len(), 0);
}

#[test]
fn world_light_fields_round_trip() {
    let mut world: World = World::default();
    world.add_empty_chunk(ChunkPosition::new(0, 0)).unwrap();
    let pos: BlockPosition = BlockPosition::new(8, 9, 10);
    world.set_sky_light(pos, 14).unwrap();
    world.set_block_light(pos, 3).unwrap();
    assert_eq!(world.sky_light(pos).unwrap(), 14);
    assert_eq!(world.block_light(pos).unwrap(), 3);
}
