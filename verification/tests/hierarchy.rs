use terrain_data::BlockPosition;
use terrain_data::BoundsError;
use terrain_data::Chunk;
use terrain_data::Subchunk;

#[test]
fn test_get_and_set_subchunk() -> Result<(), BoundsError> {
    let mut subchunk: Subchunk = Subchunk::default();
    let pos_1: BlockPosition = BlockPosition::new(15, 1, 1);
    let pos_2: BlockPosition = BlockPosition::new(3, 0, 2);

    subchunk.set_block(pos_1, 0)?;
    subchunk.set_block(pos_1, 4)?;
    subchunk.set_block(pos_2, 5)?;

    assert_eq!(subchunk.block(pos_1)?, 4);
    assert_eq!(subchunk.block(pos_2)?, 5);

    Ok(())
}

#[test]
fn subchunk_test_set_and_get_block() {
    let mut subchunk: Subchunk = Subchunk::default();
    let pos_1: BlockPosition = BlockPosition::new(15, 1, 1);
    let pos_2: BlockPosition = BlockPosition::new(3, 0, 2);

    subchunk.set_block(pos_1, 0).unwrap();
    subchunk.set_block(pos_1, 4).unwrap();
    subchunk.set_block(pos_2, 5).unwrap();

    assert_eq!(subchunk.block(pos_1).unwrap(), 4);
    assert_eq!(subchunk.block(pos_2).unwrap(), 5);
}

#[test]
fn test_get_and_set_chunk() -> Result<(), BoundsError> {
    let mut chunk: Chunk = Chunk::default();
    let pos_1: BlockPosition = BlockPosition::new(15, 1, 200);
    let pos_2: BlockPosition = BlockPosition::new(3, 0, 2);

    chunk.set_block(pos_1, 0)?;
    chunk.set_block(pos_1, 4)?;
    chunk.set_block(pos_2, 5)?;

    assert_eq!(chunk.block(pos_1)?, 4);
    assert_eq!(chunk.block(pos_2)?, 5);

    Ok(())
}

#[test]
fn chunk_test_set_and_get_block() {
    let mut chunk: Chunk = Chunk::default();
    let pos_1: BlockPosition = BlockPosition::new(15, 1, 21);
    let pos_2: BlockPosition = BlockPosition::new(3, 0, 2);

    let _ = chunk.set_block(pos_1, 2);
    let _ = chunk.set_block(pos_1, 1);
    let _ = chunk.set_block(pos_2, 3);

    assert_eq!(chunk.block(pos_1).unwrap(), 1);
    assert_eq!(chunk.block(pos_2).unwrap(), 3);
}

#[test]
fn overwrite_wins_at_local_position() {
    // Setting a block type twice at the same local position leaves the
    // later value.
    let mut chunk: Chunk = Chunk::default();
    let pos: BlockPosition = BlockPosition::new(15, 1, 21);
    chunk.set_block(pos, 7).unwrap();
    chunk.set_block(pos, 9).unwrap();
    assert_eq!(chunk.block(pos).unwrap(), 9);
}

#[test]
fn default_write_leaves_chunk_empty() {
    // A default write into an otherwise-empty chunk allocates nothing.
    let mut chunk: Chunk = Chunk::default();
    assert!(chunk.is_empty());
    chunk.set_block(BlockPosition::new(3, 0, 2), 0).unwrap();
    assert!(chunk.is_empty());
}

#[test]
fn overwrite_to_default_reclaims() {
    // A non-default write then an overwrite back to default leaves
    // subchunk and chunk empty and absent again.
    let mut subchunk: Subchunk = Subchunk::default();
    let pos: BlockPosition = BlockPosition::new(4, 5, 6);
    subchunk.set_block(pos, 11).unwrap();
    assert!(!subchunk.is_empty());
    subchunk.set_block(pos, 0).unwrap();
    assert!(subchunk.is_empty());

    let mut chunk: Chunk = Chunk::default();
    let cpos: BlockPosition = BlockPosition::new(4, 5, 77);
    chunk.set_block(cpos, 11).unwrap();
    assert!(!chunk.is_empty());
    chunk.set_block(cpos, 0).unwrap();
    assert!(chunk.is_empty());
}

#[test]
fn vertical_bounds_are_errors_not_panics() {
    // A vertical coordinate outside [0, 256) is a bounds error from
    // both read and write, never a panic and never clamped.
    let mut chunk: Chunk = Chunk::default();
    let below: BlockPosition = BlockPosition::new(0, 0, -1);
    let above: BlockPosition = BlockPosition::new(0, 0, 256);
    assert_eq!(chunk.block(below), Err(BoundsError::OutOfBounds(below)));
    assert_eq!(chunk.block(above), Err(BoundsError::OutOfBounds(above)));
    assert_eq!(chunk.set_block(below, 1), Err(BoundsError::OutOfBounds(below)));
    assert_eq!(chunk.set_block(above, 1), Err(BoundsError::OutOfBounds(above)));
    assert!(chunk.is_empty());
}

#[test]
fn horizontal_bounds_are_errors() {
    let mut subchunk: Subchunk = Subchunk::default();
    let outside: BlockPosition = BlockPosition::new(16, 0, 0);
    assert_eq!(subchunk.block(outside), Err(BoundsError::OutOfBounds(outside)));
    assert_eq!(subchunk.set_block(outside, 1), Err(BoundsError::OutOfBounds(outside)));
}

#[test]
fn all_fields_are_independent() {
    let mut chunk: Chunk = Chunk::default();
    let pos: BlockPosition = BlockPosition::new(1, 2, 3);
    chunk.set_block(pos, 5).unwrap();
    chunk.set_sky_light(pos, 12).unwrap();
    chunk.set_block_light(pos, 9).unwrap();
    chunk.set_is_exposed(pos, true).unwrap();
    assert_eq!(chunk.block(pos).unwrap(), 5);
    assert_eq!(chunk.sky_light(pos).unwrap(), 12);
    assert_eq!(chunk.block_light(pos).unwrap(), 9);
    assert_eq!(chunk.is_exposed(pos).unwrap(), true);
    let other: BlockPosition = BlockPosition::new(1, 2, 4);
    assert_eq!(chunk.block(other).unwrap(), 0);
    assert_eq!(chunk.sky_light(other).unwrap(), 0);
    assert_eq!(chunk.block_light(other).unwrap(), 0);
    assert_eq!(chunk.is_exposed(other).unwrap(), false);
}

#[test]
fn full_byte_values_round_trip() {
    // The integer fields store a full byte losslessly.
    let mut subchunk: Subchunk = Subchunk::default();
    let pos: BlockPosition = BlockPosition::new(0, 0, 0);
    subchunk.set_block(pos, 255).unwrap();
    assert_eq!(subchunk.block(pos).unwrap(), 255);
    subchunk.set_sky_light(pos, 200).unwrap();
    assert_eq!(subchunk.sky_light(pos).unwrap(), 200);
}
