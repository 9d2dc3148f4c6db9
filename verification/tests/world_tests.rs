use archetype_ecs::error::EcsError;
use archetype_ecs::world::World;
use std::any::TypeId;

fn pos(x: u8) -> (TypeId, usize, Vec<u8>) {
    (TypeId::of::<u16>(), 2, vec![x, 0])
}

fn vel(x: u8) -> (TypeId, usize, Vec<u8>) {
    (TypeId::of::<u32>(), 4, vec![x, 1, 2, 3])
}

#[test]
fn spawn_places_entities_in_rows_by_signature() {
    let mut world = World::new();
    let a = world.spawn_raw(vec![pos(1)]);
    let b = world.spawn_raw(vec![pos(2), vel(9)]);
    let c = world.spawn_raw(vec![pos(3)]);
    assert_eq!(world.entity_count(), 3);
    assert_eq!(world.archetype_count(), 3);
    let la = world.get_entity_location(a).unwrap();
    let lc = world.get_entity_location(c).unwrap();
    assert_eq!(la.archetype_id, lc.archetype_id);
    assert_eq!((la.archetype_row, lc.archetype_row), (0, 1));
    let lb = world.get_entity_location(b).unwrap();
    let arch = world.get_archetype(lb.archetype_id).unwrap();
    assert_eq!(arch.entities(), &[b]);
    let col = arch.get_column(TypeId::of::<u32>()).unwrap();
    assert_eq!(col.get_item(0), Some(&[9u8, 1, 2, 3][..]));
    assert!(world.is_alive(a) && world.entity_exists(b));
}

#[test]
fn despawn_moves_the_last_row_and_counts_recycling() {
    let mut world = World::default();
    let a = world.spawn_raw(vec![pos(1)]);
    let b = world.spawn_raw(vec![pos(2)]);
    let c = world.spawn_raw(vec![pos(3)]);
    assert!(world.despawn(a).is_ok());
    assert!(!world.is_alive(a));
    assert_eq!(world.get_entity_location(a), None);
    assert!(matches!(world.despawn(a), Err(EcsError::EntityNotFound)));
    assert_eq!(world.recycled_entity_count(), 1);
    let lc = world.get_entity_location(c).unwrap();
    assert_eq!(lc.archetype_row, 0);
    let arch = world.get_archetype(lc.archetype_id).unwrap();
    assert_eq!(arch.entities(), &[c, b]);
    assert_eq!(arch.get_column_by_index(0).unwrap().get_item(0), Some(&[3u8, 0][..]));
    world.spawn_raw(vec![pos(4)]);
    assert_eq!(world.recycled_entity_count(), 0);
    assert_eq!(world.entity_count(), 3);
}

#[test]
fn adding_and_removing_components_moves_the_entity() {
    let mut world = World::new();
    let a = world.spawn_raw(vec![pos(1)]);
    let b = world.spawn_raw(vec![pos(2)]);
    assert!(world.add_component_raw(a, TypeId::of::<u32>(), 4, vec![7, 7, 7, 7]).is_ok());
    let la = world.get_entity_location(a).unwrap();
    let arch = world.get_archetype(la.archetype_id).unwrap();
    assert_eq!(arch.get_column(TypeId::of::<u16>()).unwrap().get_item(la.archetype_row), Some(&[1u8, 0][..]));
    assert_eq!(arch.get_column(TypeId::of::<u32>()).unwrap().get_item(la.archetype_row), Some(&[7u8, 7, 7, 7][..]));
    // b was swapped into a's old row
    let lb = world.get_entity_location(b).unwrap();
    assert_eq!(lb.archetype_row, 0);
    // overwrite in place
    assert!(world.add_component_raw(a, TypeId::of::<u32>(), 4, vec![8, 8, 8, 8]).is_ok());
    let la2 = world.get_entity_location(a).unwrap();
    assert_eq!(la2, la);
    // remove it again: back to the first archetype
    assert!(world.remove_component_raw(a, TypeId::of::<u32>()).is_ok());
    let la3 = world.get_entity_location(a).unwrap();
    assert_eq!(la3.archetype_id, lb.archetype_id);
    let arch = world.get_archetype(la3.archetype_id).unwrap();
    assert_eq!(arch.get_column(TypeId::of::<u16>()).unwrap().get_item(la3.archetype_row), Some(&[1u8, 0][..]));
    assert!(matches!(world.remove_component_raw(a, TypeId::of::<u32>()), Err(EcsError::ComponentNotFound)));
    world.despawn(b).unwrap();
    assert!(matches!(world.add_component_raw(b, TypeId::of::<u8>(), 1, vec![1]), Err(EcsError::EntityNotFound)));
    assert!(matches!(world.remove_component_raw(b, TypeId::of::<u8>()), Err(EcsError::EntityNotFound)));
}

#[test]
fn world_tick_advances() {
    let mut world = World::new();
    assert_eq!(world.tick(), 1);
    world.increment_tick();
    assert_eq!(world.tick(), 2);
    assert_eq!(world.archetypes().len(), 1);
    assert!(world.archetypes()[0].signature().is_empty());
}

#[test]
fn spawn_batch_spawns_each_bundle_or_refuses_huge_batches() {
    let mut world = World::new();
    let ids = world.spawn_batch_raw(vec![vec![pos(1), vel(2)], vec![pos(3), vel(4)]]).unwrap();
    assert_eq!(ids.len(), 2);
    assert_eq!(world.entity_count(), 2);
    let l0 = world.get_entity_location(ids[0]).unwrap();
    let l1 = world.get_entity_location(ids[1]).unwrap();
    assert_eq!(l0.archetype_id, l1.archetype_id);
    let arch = world.get_archetype(l1.archetype_id).unwrap();
    assert_eq!(arch.get_column(TypeId::of::<u16>()).unwrap().get_item(l1.archetype_row), Some(&[3u8, 0][..]));
    assert!(world.spawn_batch_raw(Vec::new()).unwrap().is_empty());
    assert_eq!(world.recycled_entity_count(), 0);
}

#[test]
fn clear_removes_every_entity() {
    let mut world = World::new();
    let a = world.spawn_raw(vec![pos(1)]);
    world.despawn(a).unwrap();
    let b = world.spawn_raw(vec![vel(1)]);
    world.clear();
    assert_eq!(world.entity_count(), 0);
    assert!(!world.is_alive(b));
    assert_eq!(world.archetype_count(), 1);
    assert_eq!(world.recycled_entity_count(), 0);
    let c = world.spawn_raw(vec![]);
    assert_eq!(world.get_entity_location(c).unwrap().archetype_id, 0);
}

#[test]
fn raw_component_reads_follow_the_entity() {
    let mut world = World::new();
    let a = world.spawn_raw(vec![pos(1), vel(5)]);
    let b = world.spawn_raw(vec![pos(2)]);
    assert_eq!(world.get_component_raw(a, TypeId::of::<u32>()), Some(&[5u8, 1, 2, 3][..]));
    assert_eq!(world.get_component_raw(b, TypeId::of::<u16>()), Some(&[2u8, 0][..]));
    assert_eq!(world.get_component_raw(b, TypeId::of::<u32>()), None);
    assert!(world.has_component(a, TypeId::of::<u16>()));
    assert!(!world.has_component(b, TypeId::of::<u32>()));
    assert!(world.despawn(a).is_ok());
    assert!(!world.has_component(a, TypeId::of::<u16>()));
    assert_eq!(world.get_component_raw(a, TypeId::of::<u16>()), None);
}

fn ticks_of(world: &World, e: archetype_ecs::entity::EntityId, t: TypeId) -> (Option<u32>, Option<u32>) {
    let l = world.get_entity_location(e).unwrap();
    let col = world.get_archetype(l.archetype_id).unwrap().get_column(t).unwrap();
    (col.get_added_tick(l.archetype_row), col.get_changed_tick(l.archetype_row))
}

#[test]
fn new_and_moved_rows_take_the_current_tick() {
    let mut world = World::new();
    let a = world.spawn_raw(vec![pos(1)]);
    world.increment_tick();
    let b = world.spawn_raw(vec![pos(2)]);
    assert_eq!(ticks_of(&world, a, TypeId::of::<u16>()), (Some(1), Some(1)));
    assert_eq!(ticks_of(&world, b, TypeId::of::<u16>()), (Some(2), Some(2)));
    world.increment_tick();
    assert!(world.add_component_raw(a, TypeId::of::<u16>(), 2, vec![9, 9]).is_ok());
    assert_eq!(ticks_of(&world, a, TypeId::of::<u16>()), (Some(1), Some(1)));
    assert!(world.add_component_raw(a, TypeId::of::<u32>(), 4, vec![1, 2, 3, 4]).is_ok());
    assert_eq!(ticks_of(&world, a, TypeId::of::<u16>()), (Some(3), Some(3)));
    assert_eq!(ticks_of(&world, a, TypeId::of::<u32>()), (Some(3), Some(3)));
    assert_eq!(ticks_of(&world, b, TypeId::of::<u16>()), (Some(2), Some(2)));
    world.increment_tick();
    assert!(world.remove_component_raw(a, TypeId::of::<u32>()).is_ok());
    assert_eq!(ticks_of(&world, a, TypeId::of::<u16>()), (Some(4), Some(4)));
    let ids = world.spawn_batch_raw(vec![vec![pos(5)], vec![pos(6)]]).unwrap();
    assert_eq!(ticks_of(&world, ids[1], TypeId::of::<u16>()), (Some(4), Some(4)));
    assert_eq!(ticks_of(&world, b, TypeId::of::<u16>()), (Some(2), Some(2)));
}
