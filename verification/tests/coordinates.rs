use terrain_data::block_offsets;
use terrain_data::block_to_chunk_pos;
use terrain_data::chunk_offsets;
use terrain_data::chunk_to_block_pos;
use terrain_data::global_to_local_pos;
use terrain_data::local_to_subchunk_pos;
use terrain_data::subchunk_index;
use terrain_data::BlockPosition;
use terrain_data::ChunkPosition;
use terrain_data::World;

#[test]
fn euclid_division_tiles_across_origin() {
    assert_eq!(block_to_chunk_pos(BlockPosition::new(0, 0, 0)), ChunkPosition::new(0, 0));
    assert_eq!(block_to_chunk_pos(BlockPosition::new(15, 15, 0)), ChunkPosition::new(0, 0));
    assert_eq!(block_to_chunk_pos(BlockPosition::new(16, 31, 0)), ChunkPosition::new(1, 1));
    assert_eq!(block_to_chunk_pos(BlockPosition::new(-1, -16, 0)), ChunkPosition::new(-1, -1));
    assert_eq!(block_to_chunk_pos(BlockPosition::new(-17, -33, 0)), ChunkPosition::new(-2, -3));
}

#[test]
fn local_remainder_is_always_in_range() {
    let l = global_to_local_pos(BlockPosition::new(-1, -17, 42));
    assert_eq!(l, BlockPosition::new(15, 15, 42));
    let l2 = global_to_local_pos(BlockPosition::new(33, 16, -3));
    assert_eq!(l2, BlockPosition::new(1, 0, -3));
}

#[test]
fn origin_plus_local_reconstructs_position() {
    // The coordinate inverse law on a handful of positions, negative
    // ones included.
    let samples = vec![
        BlockPosition::new(0, 0, 0),
        BlockPosition::new(15, 1, 200),
        BlockPosition::new(-1, -17, 5),
        BlockPosition::new(-2048, 1023, 255),
        BlockPosition::new(2147483647, -2147483648, 0),
    ];
    let mut i = 0;
    while i < samples.len() {
        let p = samples[i];
        let cp = block_to_chunk_pos(p);
        let l = global_to_local_pos(p);
        let origin = chunk_to_block_pos(cp);
        assert_eq!(origin.x + l.x, p.x);
        assert_eq!(origin.y + l.y, p.y);
        assert!(0 <= l.x && l.x < 16);
        assert!(0 <= l.y && l.y < 16);
        assert_eq!(l.z, p.z);
        i += 1;
    }
}

#[test]
fn chunk_origin_is_scaled_corner() {
    assert_eq!(chunk_to_block_pos(ChunkPosition::new(-1, 2)), BlockPosition::new(-16, 32, 0));
}

#[test]
fn subchunk_reduction() {
    assert_eq!(subchunk_index(0), Some(0));
    assert_eq!(subchunk_index(21), Some(1));
    assert_eq!(subchunk_index(255), Some(15));
    assert_eq!(subchunk_index(-1), None);
    assert_eq!(subchunk_index(256), None);
    assert_eq!(
        local_to_subchunk_pos(BlockPosition::new(3, 4, 21)),
        BlockPosition::new(3, 4, 5)
    );
}

#[test]
fn four_chunk_neighbors() {
    let r = chunk_offsets(ChunkPosition::new(5, -3));
    assert_eq!(r.len(), 4);
    assert_eq!(r[0], ChunkPosition::new(4, -3));
    assert_eq!(r[1], ChunkPosition::new(6, -3));
    assert_eq!(r[2], ChunkPosition::new(5, -4));
    assert_eq!(r[3], ChunkPosition::new(5, -2));
}

#[test]
fn block_neighbors_filter_vertical() {
    let mid = block_offsets(BlockPosition::new(3, 4, 5));
    assert_eq!(mid.len(), 6);

    let bottom = block_offsets(BlockPosition::new(3, 4, 0));
    assert_eq!(bottom.len(), 5);
    assert!(!bottom.contains(&BlockPosition::new(3, 4, -1)));

    let top = block_offsets(BlockPosition::new(3, 4, 255));
    assert_eq!(top.len(), 5);
    assert!(!top.contains(&BlockPosition::new(3, 4, 256)));
}

#[test]
fn square_of_radius_zero_is_one_position() {
    let r = World::positions_in_square(ChunkPosition::new(7, 8), 0);
    assert_eq!(r.len(), 1);
    assert_eq!(r[0], ChunkPosition::new(7, 8));
}

#[test]
fn square_of_radius_one_is_nine_positions() {
    let r = World::positions_in_square(ChunkPosition::new(0, 0), 1);
    assert_eq!(r.len(), 9);
    let mut dx = -1;
    while dx <= 1 {
        let mut dy = -1;
        while dy <= 1 {
            assert!(r.contains(&ChunkPosition::new(dx, dy)));
            dy += 1;
        }
        dx += 1;
    }
    assert!(!r.contains(&ChunkPosition::new(2, 0)));
}

#[test]
fn chunk_coords_enumerates_the_volume() {
    let r = World::chunk_coords();
    assert_eq!(r.len(), 16 * 16 * 256);
    assert_eq!(r[0], BlockPosition::new(0, 0, 0));
    assert_eq!(r[1], BlockPosition::new(0, 0, 1));
    assert_eq!(r[256], BlockPosition::new(0, 1, 0));
    assert_eq!(r[4096], BlockPosition::new(1, 0, 0));
    assert_eq!(r[16 * 16 * 256 - 1], BlockPosition::new(15, 15, 255));
}

#[test]
fn global_coords_cover_each_chunk() {
    let cps = vec![ChunkPosition::new(0, 0), ChunkPosition::new(-1, 0)];
    let r = World::global_coords_in_chunks(&cps);
    assert_eq!(r.len(), 2 * 16 * 16 * 256);
    assert_eq!(r[0], BlockPosition::new(0, 0, 0));
    assert_eq!(r[16 * 16 * 256], BlockPosition::new(-16, 0, 0));
    assert_eq!(r[2 * 16 * 16 * 256 - 1], BlockPosition::new(-1, 15, 255));
}

#[test]
fn world_coordinate_delegates_agree() {
    let p = BlockPosition::new(-33, 47, 12);
    assert_eq!(World::block_to_chunk_pos(p), block_to_chunk_pos(p));
    assert_eq!(World::global_to_local_pos(p), global_to_local_pos(p));
    let cp = ChunkPosition::new(-3, 2);
    assert_eq!(World::chunk_to_block_pos(cp), chunk_to_block_pos(cp));
    assert_eq!(World::chunk_offsets(cp), chunk_offsets(cp));
    assert_eq!(World::block_offsets(p), block_offsets(p));
}
