use archetype_ecs::error::EcsError;
use archetype_ecs::resources::asset_types::{DataResource, TextureResource};
use archetype_ecs::resources::handle::{GenerationTracker, Handle};
use archetype_ecs::resources::pool::MemoryPool;
use archetype_ecs::resources::resource::{Resource, ResourceStats};

#[test]
fn test_texture_resource() {
    let texture =
        TextureResource::new("test.png".to_string(), 256, 256, vec![0u8; 256 * 256 * 4]);
    assert_eq!(texture.get_type_name(), "Texture");
    assert_eq!(texture.width(), 256);
    assert_eq!(texture.height(), 256);
    assert!(texture.is_valid());
}

#[test]
fn test_data_resource() {
    let data = DataResource::new("test.bin".to_string(), vec![1, 2, 3, 4]);
    assert_eq!(data.get_size(), 4);
    assert_eq!(data.data(), &[1, 2, 3, 4]);
}

#[test]
fn test_handle_creation() {
    let handle: Handle<DataResource> = Handle::new(42, 1);
    assert_eq!(handle.id(), 42);
    assert_eq!(handle.generation(), 1);
}

#[test]
fn test_generation_tracker() {
    let mut tracker = GenerationTracker::new(10);
    let id = tracker.allocate();
    assert_eq!(tracker.get_generation(id), 0);

    tracker.deallocate(id);
    assert_eq!(tracker.get_generation(id), 1);
}

#[test]
fn test_handle_validation() {
    let handle: Handle<DataResource> = Handle::new(5, 2);
    assert!(handle.is_valid_generation(2));
    assert!(!handle.is_valid_generation(3));
}

#[test]
fn test_memory_pool_allocation() {
    let mut pool = MemoryPool::new(1000);
    assert_eq!(pool.get_available(), 1000);

    pool.allocate("texture", 500).unwrap();
    assert_eq!(pool.get_available(), 500);
    assert_eq!(pool.get_allocation("texture"), 500);
}

#[test]
fn test_memory_pool_overflow() {
    let mut pool = MemoryPool::new(100);
    assert!(pool.allocate("big", 150).is_err());
}

#[test]
fn test_memory_pool_deallocation() {
    let mut pool = MemoryPool::new(1000);
    pool.allocate("texture", 500).unwrap();
    pool.deallocate("texture", 500).unwrap();
    assert_eq!(pool.get_used(), 0);
}

#[test]
fn pool_errors_name_their_cause() {
    let mut pool = MemoryPool::new(100);
    assert!(matches!(pool.allocate("big", 150), Err(EcsError::ResourceMemoryOverflow(_))));
    pool.allocate("a", 40).unwrap();
    pool.allocate("a", 10).unwrap();
    assert_eq!(pool.get_allocation("a"), 50);
    assert!(matches!(pool.deallocate("a", 60), Err(EcsError::ResourceDeallocError(_))));
    assert!(matches!(pool.deallocate("b", 1), Err(EcsError::ResourceNotFound(_))));
    pool.deallocate("a", 20).unwrap();
    assert_eq!(pool.get_allocation("a"), 30);
    assert_eq!(pool.get_used(), 30);
    pool.deallocate("a", 30).unwrap();
    assert!(matches!(pool.deallocate("a", 0), Err(EcsError::ResourceNotFound(_))));
    pool.allocate("c", 70).unwrap();
    pool.clear();
    assert_eq!(pool.get_used(), 0);
    assert_eq!(pool.get_available(), 100);
    assert_eq!(pool.get_allocation("c"), 0);
}

#[test]
fn tracker_hands_out_ids_in_order_and_reuses_freed_ones() {
    let mut tracker = GenerationTracker::new(3);
    assert_eq!(tracker.allocate(), 0);
    assert_eq!(tracker.allocate(), 1);
    tracker.deallocate(0);
    assert_eq!(tracker.allocate(), 0);
    assert_eq!(tracker.get_generation(0), 1);
    assert_eq!(tracker.allocate(), 2);
    assert_eq!(tracker.allocate(), 0);
    tracker.deallocate(99);
    assert_eq!(tracker.get_generation(99), 0);
}

#[test]
fn unloading_empties_the_resource() {
    let mut texture = TextureResource::new("t.png".to_string(), 2, 2, vec![1, 2, 3]);
    assert_eq!(texture.get_path(), "t.png");
    assert_eq!(texture.get_size(), 3);
    texture.unload().unwrap();
    assert!(!texture.is_valid());
    let mut data = DataResource::new("d.bin".to_string(), vec![9]);
    data.data_mut().push(8);
    assert_eq!(data.data(), &[9, 8]);
    assert_eq!(data.get_type_name(), "Data");
    data.reload().unwrap();
    assert_eq!(data.get_size(), 2);
    let stats = ResourceStats::new();
    assert_eq!(stats.cache_hits, 0);
}

#[test]
fn pool_errors_carry_their_messages() {
    let mut pool = MemoryPool::new(100);
    pool.allocate("a", 40).unwrap();
    match pool.allocate("big", 75) {
        Err(EcsError::ResourceMemoryOverflow(m)) => assert_eq!(m, "Memory pool overflow: 40 + 75 > 100"),
        other => panic!("unexpected {other:?}"),
    }
    match pool.deallocate("a", 41) {
        Err(EcsError::ResourceDeallocError(m)) => assert_eq!(m, "Deallocating more than allocated for a"),
        other => panic!("unexpected {other:?}"),
    }
    match pool.deallocate("zz", 1) {
        Err(EcsError::ResourceNotFound(m)) => assert_eq!(m, "No allocation found for: zz"),
        other => panic!("unexpected {other:?}"),
    }
}

#[test]
fn allocate_then_deallocate_restores_the_pool() {
    let mut pool = MemoryPool::new(1000);
    pool.allocate("a", 100).unwrap();
    pool.allocate("b", 50).unwrap();
    pool.allocate("a", 25).unwrap();
    assert_eq!(pool.get_allocation("a"), 125);
    pool.deallocate("a", 25).unwrap();
    assert_eq!(pool.get_allocation("a"), 100);
    assert_eq!(pool.get_used(), 150);
    pool.allocate("c", 10).unwrap();
    pool.deallocate("c", 10).unwrap();
    assert_eq!(pool.get_allocation("c"), 0);
    assert_eq!(pool.get_used(), 150);
    assert_eq!(pool.get_available(), 850);
}
