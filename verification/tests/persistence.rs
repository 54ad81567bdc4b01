use terrain_data::decode_chunk;
use terrain_data::AccessError;
use terrain_data::ChunkAccessError;
use terrain_data::ChunkOverwriteError;
use terrain_data::ChunkStoreError;
use terrain_data::encode_chunk;
use terrain_data::BlockPosition;
use terrain_data::Chunk;
use terrain_data::ChunkPosition;
use terrain_data::DecodeError;
use terrain_data::World;

#[test]
fn test_save_load_chunk() {
    let mut world: World = World::default();
    let chunk_pos: ChunkPosition = ChunkPosition::new(0, 0);
    let pos: BlockPosition = BlockPosition::new(1, 2, 3);

    world.add_empty_chunk(chunk_pos).unwrap();
    world.set_block(pos, 3).unwrap();

    let bytes = world.unload_chunk(chunk_pos).unwrap();

    assert!(world.block(pos).is_err());

    world.load_chunk(chunk_pos, &bytes).unwrap();

    let block: u8 = world.block(pos).unwrap();
    assert!(block == 3);
}

#[test]
fn round_trip_reproduces_every_field() {
    // Unload then load at the same coordinate reproduces identical
    // get-results for every field at every position that was set, and
    // default values everywhere else.
    let mut world: World = World::default();
    let chunk_pos: ChunkPosition = ChunkPosition::new(-2, 5);
    world.add_empty_chunk(chunk_pos).unwrap();

    let base: BlockPosition = World::chunk_to_block_pos(chunk_pos);
    let p1: BlockPosition = BlockPosition::new(base.x + 15, base.y + 1, 21);
    let p2: BlockPosition = BlockPosition::new(base.x + 3, base.y, 2);
    let p3: BlockPosition = BlockPosition::new(base.x, base.y + 7, 255);
    world.set_block(p1, 9).unwrap();
    world.set_sky_light(p2, 12).unwrap();
    world.set_block_light(p2, 4).unwrap();
    world.set_is_exposed(p3, true).unwrap();

    let bytes = world.unload_chunk(chunk_pos).unwrap();
    world.load_chunk(chunk_pos, &bytes).unwrap();

    assert_eq!(world.block(p1).unwrap(), 9);
    assert_eq!(world.sky_light(p2).unwrap(), 12);
    assert_eq!(world.block_light(p2).unwrap(), 4);
    assert_eq!(world.is_exposed(p3).unwrap(), true);
    assert_eq!(world.block(p2).unwrap(), 0);
    assert_eq!(world.sky_light(p1).unwrap(), 0);
    assert_eq!(world.is_exposed(p1).unwrap(), false);
}

#[test]
fn chunk_codec_round_trip_direct() {
    let mut chunk: Chunk = Chunk::default();
    chunk.set_block(BlockPosition::new(0, 0, 0), 1).unwrap();
    chunk.set_block(BlockPosition::new(15, 15, 255), 255).unwrap();
    chunk.set_is_exposed(BlockPosition::new(7, 8, 100), true).unwrap();
    let bytes = encode_chunk(&chunk);
    let back = decode_chunk(&bytes).unwrap();
    assert_eq!(back.block(BlockPosition::new(0, 0, 0)).unwrap(), 1);
    assert_eq!(back.block(BlockPosition::new(15, 15, 255)).unwrap(), 255);
    assert_eq!(back.is_exposed(BlockPosition::new(7, 8, 100)).unwrap(), true);
    assert_eq!(back.block(BlockPosition::new(1, 1, 1)).unwrap(), 0);
}

#[test]
fn empty_chunk_encodes_to_sixteen_absent_tags() {
    let chunk: Chunk = Chunk::default();
    let bytes = encode_chunk(&chunk);
    assert_eq!(bytes, vec![0u8; 16]);
    let back = decode_chunk(&bytes).unwrap();
    assert!(back.is_empty());
}

#[test]
fn truncated_stream_is_rejected() {
    let bytes: Vec<u8> = Vec::new();
    assert!(matches!(decode_chunk(&bytes), Err(DecodeError::Truncated)));

    let mut chunk: Chunk = Chunk::default();
    chunk.set_block(BlockPosition::new(0, 0, 0), 1).unwrap();
    let mut encoded = encode_chunk(&chunk);
    encoded.pop();
    assert!(decode_chunk(&encoded).is_err());
}

#[test]
fn bad_tag_is_rejected() {
    let bytes: Vec<u8> = vec![2u8];
    assert!(matches!(decode_chunk(&bytes), Err(DecodeError::Malformed)));
}

#[test]
fn trailing_bytes_are_rejected() {
    let chunk: Chunk = Chunk::default();
    let mut bytes = encode_chunk(&chunk);
    bytes.push(0);
    assert!(matches!(decode_chunk(&bytes), Err(DecodeError::Malformed)));
}

#[test]
fn uniformly_default_section_is_rejected() {
    // A stream claiming a resident block-type section whose values are
    // all default is no canonical encoding: the encoder never writes
    // one.
    let mut bytes: Vec<u8> = Vec::new();
    bytes.push(1);
    bytes.push(1);
    // The block-type field packs eight bits per value: 512 words.
    for _ in 0..512 * 8 {
        bytes.push(0);
    }
    assert!(matches!(decode_chunk(&bytes), Err(DecodeError::Malformed)));
}

#[test]
fn unload_missing_chunk_fails() {
    let mut world: World = World::default();
    assert!(matches!(
        world.unload_chunk(ChunkPosition::new(9, 9)),
        Err(ChunkStoreError::Access(AccessError::ChunkAccess(ChunkAccessError::ChunkUnloaded(p))))
            if p == ChunkPosition::new(9, 9)
    ));
}

#[test]
fn load_over_resident_chunk_fails() {
    let mut world: World = World::default();
    let chunk_pos: ChunkPosition = ChunkPosition::new(0, 0);
    world.add_empty_chunk(chunk_pos).unwrap();
    let bytes = encode_chunk(&Chunk::default());
    assert!(matches!(
        world.load_chunk(chunk_pos, &bytes),
        Err(ChunkStoreError::ChunkOverwrite(ChunkOverwriteError::ChunkAlreadyLoaded(p)))
            if p == chunk_pos
    ));
}
