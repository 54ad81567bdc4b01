use terrain_data::block_definition;
use terrain_data::Block;
use terrain_data::FieldType;

#[test]
fn block_flags_round_trip() {
    let b = Block::new(true, false, true, false, true);
    assert!(b.is_hoverable());
    assert!(!b.is_visible());
    assert!(b.is_breakable());
    assert!(!b.is_collidable());
    assert!(b.is_replaceable());

    let all = Block::new(true, true, true, true, true);
    assert!(all.is_hoverable() && all.is_visible() && all.is_breakable());
    assert!(all.is_collidable() && all.is_replaceable());

    let none = Block::new(false, false, false, false, false);
    assert!(!none.is_hoverable() && !none.is_visible() && !none.is_breakable());
    assert!(!none.is_collidable() && !none.is_replaceable());
}

#[test]
fn missing_block_is_visible_and_collidable_only() {
    let m = Block::missing();
    assert!(!m.is_hoverable());
    assert!(m.is_visible());
    assert!(!m.is_breakable());
    assert!(m.is_collidable());
    assert!(!m.is_replaceable());
    assert_eq!(Block::default(), m);
}

#[test]
fn unknown_tag_maps_to_missing() {
    let table = vec![
        Block::new(false, false, false, false, true),
        Block::new(true, true, true, true, false),
    ];
    assert_eq!(block_definition(&table, 0), table[0]);
    assert_eq!(block_definition(&table, 1), table[1]);
    assert_eq!(block_definition(&table, 2), Block::missing());
    assert_eq!(block_definition(&table, 255), Block::missing());
}

#[test]
fn field_value_codec() {
    assert_eq!(<u8 as FieldType>::to_u64(200), 200);
    assert_eq!(<u8 as FieldType>::from_u64(200), 200);
    assert_eq!(<u8 as FieldType>::from_u64(511), 255);
    assert_eq!(<bool as FieldType>::to_u64(true), 1);
    assert_eq!(<bool as FieldType>::to_u64(false), 0);
    assert_eq!(<bool as FieldType>::from_u64(0), false);
    assert_eq!(<bool as FieldType>::from_u64(1), true);
    assert_eq!(<bool as FieldType>::from_u64(7), true);
}
