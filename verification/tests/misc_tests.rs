use archetype_ecs::archetype::ComponentColumn;
use archetype_ecs::assets::{AssetHandle, WeakAssetHandle, Asset};
use archetype_ecs::entity::EntityId;
use archetype_ecs::event::{EntityEvent, EventQueue};
use archetype_ecs::simd::{chunk_bounds, chunk_size, chunks};
use archetype_ecs::time::FixedTime;
use std::time::Duration;

#[test]
fn test_chunk_sizes() {
    assert_eq!(chunk_size::<f32>(), 8); // 4 bytes * 8 = 32 bytes
    assert_eq!(chunk_size::<f64>(), 4); // 8 bytes * 4 = 32 bytes
    assert_eq!(chunk_size::<u8>(), 32); // 1 byte * 32 = 32 bytes
    assert_eq!(chunk_size::<u32>(), 8); // 4 bytes * 8 = 32 bytes
    assert_eq!(chunk_size::<()>(), 1); // ZST
}

#[test]
fn chunks_are_exact() {
    let mut data = [0u32; 20];
    assert_eq!(chunks(&mut data).count(), 2);
    assert_eq!(chunk_size::<[u8; 3]>(), 1);
}

fn entity(n: u64) -> EntityId {
    EntityId::from(slotmap::KeyData::from_ffi(n))
}

#[test]
fn test_event_queue_push_pop() {
    let mut queue = EventQueue::new();
    let id = entity(1);

    queue.push(EntityEvent::Spawned(id));
    assert!(!queue.is_empty());

    let event = queue.pop();
    assert!(event.is_some());
    assert!(queue.is_empty());
}

#[test]
fn test_event_entity_id() {
    let id = entity(1);
    let event = EntityEvent::Spawned(id);
    assert_eq!(event.entity_id(), id);
}

#[test]
fn full_queue_drops_new_events_and_keeps_order() {
    let mut queue = EventQueue::with_capacity(2);
    queue.push(EntityEvent::Spawned(entity(1)));
    queue.push(EntityEvent::Despawned(entity(3)));
    queue.push(EntityEvent::Spawned(entity(5)));
    assert_eq!(queue.len(), 2);
    assert_eq!(queue.pop().unwrap().event_type(), "Spawned");
    assert_eq!(queue.pop().unwrap().entity_id(), entity(3));
    assert!(queue.pop().is_none());
    let custom = EntityEvent::Custom("Boom".to_string(), entity(1), vec![]);
    assert_eq!(custom.event_type(), "Boom");
    queue.push(custom);
    queue.clear();
    assert_eq!(queue.len(), 0);
}

fn fixed_time_at(hz: u32) -> FixedTime {
    FixedTime::from_duration(Duration::from_secs_f32(1.0 / hz as f32))
}

#[test]
fn test_fixed_time_60hz() {
    let mut fixed = fixed_time_at(60);

    // 16.67ms frame (60 FPS)
    let steps = fixed.tick(Duration::from_millis(16));
    assert_eq!(steps, 0); // Not quite a full step yet

    // Another frame
    let steps = fixed.tick(Duration::from_millis(17));
    assert_eq!(steps, 1); // Now we have enough
}

#[test]
fn test_fixed_time_slow_frame() {
    let mut fixed = fixed_time_at(60);

    // 33ms frame (30 FPS) - should run 2 fixed steps
    let steps = fixed.tick(Duration::from_millis(33));
    assert_eq!(steps, 1); // First step
}

#[test]
fn fixed_time_counts_whole_steps() {
    let mut fixed = FixedTime::from_duration(Duration::from_millis(10));
    assert_eq!(fixed.tick(Duration::from_millis(25)), 2);
    assert_eq!(fixed.overstep(), Duration::from_millis(5));
    assert_eq!(fixed.tick(Duration::from_millis(5)), 1);
    assert_eq!(fixed.overstep(), Duration::ZERO);
    assert_eq!(fixed.timestep(), Duration::from_millis(10));
    let mut raw = FixedTime::from_nanos(3);
    assert_eq!(raw.tick_nanos(10), 3);
    assert_eq!(raw.tick_nanos(2), 1);
}

#[test]
fn column_ticks() {
    let mut col = ComponentColumn::new::<u64>();
    assert_eq!(col.get_item_size(), 8);
    assert_eq!(col.len(), 0);
    assert!(col.is_empty());
    assert!(!col.changed_since(0));
    assert!(!col.added_since(0));
    col.mark_changed(0, 5);
    assert!(!col.changed_since(0));
    assert_eq!(col.get_changed_tick(0), None);
    assert_eq!(col.get_added_tick(0), None);
    col.set_changed_tick(0, 5);
    let empty = col.clone_empty();
    assert_eq!(empty.get_item_size(), 8);
    assert_eq!(ComponentColumn::new::<()>().len(), 0);
}

struct Blob(#[allow(dead_code)] [u8; 16]);
impl Asset for Blob {}

#[test]
fn asset_handles_keep_ids() {
    let h: AssetHandle<Blob> = AssetHandle::new(4, 2);
    assert_eq!(h.id(), 4);
    assert_eq!(h.generation(), 2);
    let copy = h.clone();
    assert_eq!(copy.id(), h.id());
    let w: WeakAssetHandle<Blob> = WeakAssetHandle::new(9);
    assert_eq!(w.id(), 9);
    assert_eq!(Blob([0; 16]).memory_size(), 16);
}

#[test]
fn chunks_are_the_whole_chunk_ranges() {
    let mut data: Vec<u32> = (0..19).collect();
    let bounds = chunk_bounds(data.len(), chunk_size::<u32>());
    assert_eq!(bounds, vec![(0, 8), (8, 16)]);
    let got: Vec<Vec<u32>> = chunks(&mut data).map(|c| c.to_vec()).collect();
    let want: Vec<Vec<u32>> = bounds.iter().map(|&(a, b)| (a as u32..b as u32).collect()).collect();
    assert_eq!(got, want);
    assert!(chunk_bounds(3, 4).is_empty());
    assert_eq!(chunk_bounds(8, 1).len(), 8);
}
