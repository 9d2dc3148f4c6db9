use archetype_ecs::query::{CachedQueryResult, QueryCursor, QuerySignature, TickFilter};
use archetype_ecs::world::World;
use std::any::TypeId;

fn a_item() -> (TypeId, usize, Vec<u8>) {
    (TypeId::of::<u16>(), 2, vec![1, 0])
}

fn b_item() -> (TypeId, usize, Vec<u8>) {
    (TypeId::of::<u32>(), 4, vec![2, 0, 0, 0])
}

fn signature(required: &[TypeId], excluded: &[TypeId]) -> QuerySignature {
    let mut sig = QuerySignature::new();
    sig.required.extend_from_slice(required);
    sig.excluded.extend_from_slice(excluded);
    sig
}

fn rows(world: &World, sig: QuerySignature, filters: Vec<TickFilter>, since: u32) -> Vec<(usize, usize)> {
    let cache = CachedQueryResult::new(sig.clone(), world.archetypes());
    let mut cursor = QueryCursor::new(sig, cache.matches, filters, since);
    let mut out = Vec::new();
    while let Some(hit) = cursor.next_row(world) {
        out.push(hit);
    }
    assert_eq!(cursor.next_row(world), None);
    out
}

#[test]
fn test_query_state_creation() {
    let world = World::new();
    let cache = CachedQueryResult::new(signature(&[TypeId::of::<i32>()], &[]), world.archetypes());
    assert_eq!(cache.matches.len(), 0);
}

#[test]
fn test_incremental_update() {
    let mut world = World::new();
    let sig = signature(&[TypeId::of::<i32>()], &[]);
    let mut cache = CachedQueryResult::new(sig.clone(), world.archetypes());
    let initial_count = cache.matches.len();
    world.spawn_raw(vec![(TypeId::of::<i32>(), 4, vec![10, 0, 0, 0])]);
    cache.update(world.archetypes());
    let mut cursor = QueryCursor::new(sig, cache.matches.clone(), Vec::new(), 0);
    let mut count = 0;
    while cursor.next_row(&world).is_some() {
        count += 1;
    }
    assert_eq!(count, 1);
    assert!(cache.matches.len() > initial_count);
}

#[test]
fn test_query_filters() {
    let mut world = World::new();
    let a = TypeId::of::<u16>();
    let b = TypeId::of::<u32>();
    world.spawn_raw(vec![a_item(), b_item()]);
    world.spawn_raw(vec![a_item()]);
    world.spawn_raw(vec![b_item()]);
    assert_eq!(rows(&world, signature(&[a, b], &[]), Vec::new(), 0).len(), 1);
    assert_eq!(rows(&world, signature(&[a], &[b]), Vec::new(), 0).len(), 1);
}

#[test]
fn test_change_detection() {
    let mut world = World::new();
    let data = TypeId::of::<i32>();
    world.spawn_raw(vec![(data, 4, vec![1, 0, 0, 0])]);
    world.increment_tick();
    assert_eq!(world.tick(), 2);
    let sig = signature(&[data], &[]);
    assert_eq!(rows(&world, sig.clone(), vec![TickFilter::Changed(data)], 0).len(), 1);
    assert_eq!(rows(&world, sig, vec![TickFilter::Changed(data)], 2).len(), 0);
}

#[test]
fn cursor_walks_archetypes_in_list_order_and_rows_in_order() {
    let mut world = World::new();
    let a = TypeId::of::<u16>();
    let b = TypeId::of::<u32>();
    world.spawn_raw(vec![a_item()]);
    world.spawn_raw(vec![a_item(), b_item()]);
    world.spawn_raw(vec![a_item()]);
    let sig = signature(&[a], &[]);
    let first = world.get_entity_location(world.get_archetype(1).unwrap().entities()[0]).unwrap();
    assert_eq!(first.archetype_id, 1);
    assert_eq!(rows(&world, sig.clone(), Vec::new(), 0), vec![(1, 0), (1, 1), (2, 0)]);
    let mut cursor = QueryCursor::new(sig, vec![2, 1, 7], Vec::new(), 0);
    assert_eq!(cursor.next_row(&world), Some((2, 0)));
    assert_eq!(cursor.next_row(&world), Some((1, 0)));
    assert_eq!(cursor.next_row(&world), Some((1, 1)));
    assert_eq!(cursor.next_row(&world), None);
}

#[test]
fn added_filter_keeps_only_rows_added_after_the_tick() {
    let mut world = World::new();
    let a = TypeId::of::<u16>();
    world.spawn_raw(vec![a_item()]);
    world.increment_tick();
    world.increment_tick();
    world.spawn_raw(vec![a_item()]);
    let sig = signature(&[a], &[]);
    assert_eq!(rows(&world, sig.clone(), vec![TickFilter::Added(a)], 1), vec![(1, 1)]);
    assert_eq!(rows(&world, sig.clone(), vec![TickFilter::Added(a)], 0), vec![(1, 0), (1, 1)]);
    assert_eq!(rows(&world, sig, vec![TickFilter::Added(a)], 3), vec![]);
}

#[test]
fn filter_on_a_missing_column_skips_the_archetype() {
    let mut world = World::new();
    let a = TypeId::of::<u16>();
    world.spawn_raw(vec![a_item()]);
    let sig = signature(&[a], &[]);
    assert_eq!(rows(&world, sig, vec![TickFilter::Changed(TypeId::of::<u64>())], 0), vec![]);
}

#[test]
fn query_writes_mark_rows_and_component_access_marks_the_column() {
    let mut world = World::new();
    let data = TypeId::of::<i32>();
    let e = world.spawn_raw(vec![(data, 4, vec![1, 0, 0, 0])]);
    world.increment_tick();
    world.increment_tick();
    let tick = world.tick();
    world.set_changed_tick(1, 0, data, tick);
    let col = world.get_archetype(1).unwrap().get_column(data).unwrap();
    assert_eq!(col.get_changed_tick(0), Some(3));
    assert!(!col.changed_since(2));
    let sig = signature(&[data], &[]);
    assert_eq!(rows(&world, sig.clone(), vec![TickFilter::Changed(data)], 2), vec![]);
    assert!(world.mark_component_changed(e, data));
    assert_eq!(rows(&world, sig, vec![TickFilter::Changed(data)], 2), vec![(1, 0)]);
    assert!(!world.mark_component_changed(e, TypeId::of::<u64>()));
    world.set_changed_tick(9, 0, data, 7);
    assert_eq!(world.get_archetype(1).unwrap().get_column(data).unwrap().get_changed_tick(0), Some(3));
}
