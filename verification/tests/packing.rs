use terrain_data::BlockPosition;
use terrain_data::BoundsError;
use terrain_data::Section;
use terrain_data::SECTION_VOLUME;

#[test]
fn new_section_is_all_default() {
    let s = Section::new(4);
    assert!(s.is_empty());
    assert_eq!(s.item(BlockPosition::new(0, 0, 0)).unwrap(), 0);
    assert_eq!(s.item(BlockPosition::new(15, 15, 15)).unwrap(), 0);
    assert_eq!(s.bits(), 4);
    assert_eq!(SECTION_VOLUME, 4096);
}

#[test]
fn packed_values_read_back_at_every_width() {
    let mut width: u64 = 1;
    while width <= 8 {
        let mut s = Section::new(width);
        let max_value: u64 = (1u64 << width) - 1;
        let a = BlockPosition::new(0, 0, 0);
        let b = BlockPosition::new(15, 15, 15);
        let c = BlockPosition::new(7, 3, 11);
        s.set_item(a, max_value).unwrap();
        s.set_item(b, 1).unwrap();
        s.set_item(c, max_value).unwrap();
        assert_eq!(s.item(a).unwrap(), max_value);
        assert_eq!(s.item(b).unwrap(), 1);
        assert_eq!(s.item(c).unwrap(), max_value);
        assert_eq!(s.item(BlockPosition::new(7, 3, 12)).unwrap(), 0);
        assert!(!s.is_empty());
        width += 1;
    }
}

#[test]
fn neighbouring_slots_do_not_bleed() {
    // Adjacent linear indices share a word: writing one slot leaves the
    // others untouched.
    let mut s = Section::new(5);
    let mut z = 0;
    while z < 16 {
        s.set_item(BlockPosition::new(0, 0, z), (z as u64) % 32).unwrap();
        z += 1;
    }
    let mut z2 = 0;
    while z2 < 16 {
        assert_eq!(s.item(BlockPosition::new(0, 0, z2)).unwrap(), (z2 as u64) % 32);
        z2 += 1;
    }
}

#[test]
fn section_reclaims_to_empty() {
    let mut s = Section::new(8);
    let p = BlockPosition::new(9, 9, 9);
    s.set_item(p, 200).unwrap();
    assert!(!s.is_empty());
    s.set_item(p, 0).unwrap();
    assert!(s.is_empty());
}

#[test]
fn section_positions_outside_volume_error() {
    let mut s = Section::new(2);
    let outside = BlockPosition::new(0, 16, 0);
    assert_eq!(s.item(outside), Err(BoundsError::OutOfBounds(outside)));
    assert_eq!(s.set_item(outside, 1), Err(BoundsError::OutOfBounds(outside)));
}
