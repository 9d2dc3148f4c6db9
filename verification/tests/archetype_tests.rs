use archetype_ecs::archetype::{Archetype, ArchetypeSignature, ComponentColumn};
use archetype_ecs::entity::EntityId;
use slotmap::KeyData;
use std::any::TypeId;

fn entity(n: u64) -> EntityId {
    EntityId::from(KeyData::from_ffi((1u64 << 32) | n))
}

#[test]
fn test_archetype_creation() {
    let sig: ArchetypeSignature = vec![TypeId::of::<i32>(), TypeId::of::<f32>()];
    let arch = Archetype::new(sig.clone());
    assert_eq!(arch.signature(), &sig);
    assert_eq!(arch.len(), 0);
}

#[test]
fn rows_are_allocated_at_the_end_and_swap_removed() {
    let mut arch = Archetype::new(vec![TypeId::of::<u16>()]);
    arch.register_component::<u16>();
    assert!(arch.has_column(TypeId::of::<u16>()));
    assert!(!arch.has_column(TypeId::of::<u8>()));
    assert_eq!(arch.column_index(TypeId::of::<u16>()), Some(0));
    for n in 0..3u64 {
        let row = arch.allocate_row(entity(n), 7 + n as u32);
        assert_eq!(row, n as usize);
        let col = arch.get_column_mut(TypeId::of::<u16>()).unwrap();
        col.write_item(row, &[n as u8, 0xAA]);
    }
    assert_eq!(arch.len(), 3);
    let col = arch.get_column(TypeId::of::<u16>()).unwrap();
    assert_eq!(col.len(), 3);
    assert_eq!(col.get_added_tick(2), Some(9));
    assert!(col.added_since(8));

    // Removing row 0 moves the last row into its place.
    let moved = arch.remove_row(0);
    assert_eq!(moved, Some(entity(2)));
    assert_eq!(arch.entities(), &[entity(2), entity(1)]);
    let col = arch.get_column_by_index(0).unwrap();
    assert_eq!(col.len(), 2);
    assert_eq!(col.get_item(0), Some(&[2u8, 0xAA][..]));
    assert_eq!(col.get_item(1), Some(&[1u8, 0xAA][..]));
    assert_eq!(col.get_item(2), None);
    assert_eq!(col.get_added_tick(0), Some(9));

    // Removing the last row swaps nothing in.
    assert_eq!(arch.remove_row(1), None);
    assert_eq!(arch.entities(), &[entity(2)]);
    assert!(!arch.is_empty());
}

#[test]
fn registering_twice_keeps_one_column() {
    let mut arch = Archetype::new(vec![]);
    arch.register_component::<u32>();
    arch.register_component::<u32>();
    arch.register_component::<u8>();
    assert_eq!(arch.get_column_by_index(0).unwrap().get_item_size(), 4);
    assert_eq!(arch.get_column_by_index(1).unwrap().get_item_size(), 1);
    assert!(arch.get_column_by_index(2).is_none());
    assert!(arch.get_column(TypeId::of::<u64>()).is_none());
    assert!(!arch.columns_initialized());
    arch.mark_columns_initialized();
    assert!(arch.columns_initialized());
}

#[test]
fn chunks_cover_rows_in_order() {
    let mut arch = Archetype::new(vec![]);
    for n in 0..5u64 {
        arch.allocate_row(entity(n), 0);
    }
    let chunks = arch.chunks(2);
    let ranges: Vec<_> = chunks.iter().map(|c| c.entity_range.clone()).collect();
    assert_eq!(ranges, vec![0..2, 2..4, 4..5]);
    assert_eq!(arch.chunks(0).len(), 5);
    assert_eq!(arch.chunks(10).len(), 1);
    let empty = Archetype::new(vec![]);
    assert!(empty.chunks(4).is_empty());
}

#[test]
fn write_item_grows_with_zeros() {
    let mut col = ComponentColumn::new::<u16>();
    col.write_item(2, &[5, 6]);
    assert_eq!(col.len(), 3);
    assert_eq!(col.get_item(0), Some(&[0u8, 0][..]));
    assert_eq!(col.get_item(2), Some(&[5u8, 6][..]));
    col.write_item(0, &[1, 2]);
    assert_eq!(col.get_item(0), Some(&[1u8, 2][..]));
    assert_eq!(col.len(), 3);
}

#[test]
fn reserving_changes_nothing_visible() {
    let mut arch = Archetype::new(vec![]);
    arch.register_component::<u64>();
    arch.allocate_row(entity(1), 3);
    arch.reserve_rows(1_000_000);
    arch.reserve_rows(0);
    assert_eq!(arch.len(), 1);
    assert_eq!(arch.get_column_by_index(0).unwrap().get_changed_tick(0), Some(3));
}

#[test]
fn allocating_then_removing_the_last_row_restores_the_rows() {
    let mut arch = Archetype::new(vec![]);
    arch.allocate_row(entity(1), 0);
    arch.allocate_row(entity(2), 0);
    let row = arch.allocate_row(entity(3), 0);
    assert_eq!(arch.remove_row(row), None);
    assert_eq!(arch.entities(), &[entity(1), entity(2)]);
}
