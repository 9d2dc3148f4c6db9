use archetype_ecs::entity::EntityId;
use archetype_ecs::event::EntityEvent;
use archetype_ecs::observer::StatisticsObserver;
use std::any::TypeId;

fn entity(n: u64) -> EntityId {
    EntityId::from(slotmap::KeyData::from_ffi(n))
}

#[test]
fn statistics_observer_counts_each_kind() {
    let mut stats = StatisticsObserver::default();
    stats.on_event(&EntityEvent::Spawned(entity(1))).unwrap();
    stats.on_event(&EntityEvent::Spawned(entity(2))).unwrap();
    stats.on_event(&EntityEvent::Despawned(entity(1))).unwrap();
    stats.on_event(&EntityEvent::ComponentAdded(entity(2), TypeId::of::<u8>())).unwrap();
    stats.on_event(&EntityEvent::ComponentRemoved(entity(2), TypeId::of::<u8>())).unwrap();
    stats.on_event(&EntityEvent::Custom("x".to_string(), entity(2), vec![1])).unwrap();
    assert_eq!(stats.spawned_count, 2);
    assert_eq!(stats.despawned_count, 1);
    assert_eq!(stats.component_additions, 1);
    assert_eq!(stats.component_removals, 1);
    assert_eq!(stats.name(), "StatisticsObserver");
    stats.reset();
    assert_eq!(stats.spawned_count, 0);
    assert_eq!(stats.component_removals, 0);
}
