use archetype_ecs::system::{ComponentId, SystemAccess, SystemId};

#[test]
fn test_system_access_conflicts() {
    let mut access1 = SystemAccess::empty();
    access1.writes.push(ComponentId::of::<i32>());

    let mut access2 = SystemAccess::empty();
    access2.writes.push(ComponentId::of::<i32>());

    assert!(access1.conflicts_with(&access2));
}

#[test]
fn test_system_access_no_conflicts() {
    let mut access1 = SystemAccess::empty();
    access1.reads.push(ComponentId::of::<i32>());

    let mut access2 = SystemAccess::empty();
    access2.reads.push(ComponentId::of::<i32>());

    assert!(!access1.conflicts_with(&access2));
}

#[test]
fn read_write_conflict_is_symmetric() {
    let reader = SystemAccess::new().read::<u32>();
    let writer = SystemAccess::new().write::<u32>();
    assert!(reader.conflicts_with(&writer));
    assert!(writer.conflicts_with(&reader));
    assert!(!reader.can_run_parallel(&writer));
    let other = SystemAccess::new().write::<u64>();
    assert!(reader.can_run_parallel(&other));
}

#[test]
fn resources_count_as_reads_and_writes() {
    let a = SystemAccess::new().resource::<String>();
    let b = SystemAccess::new().resource_mut::<String>();
    assert_eq!(a.reads, vec![ComponentId::of::<String>()]);
    assert_eq!(b.writes, vec![ComponentId::of::<String>()]);
    assert!(a.conflicts_with(&b));
}

#[test]
fn merge_keeps_order_and_drops_repeats() {
    let a = SystemAccess::new().read::<u8>().read::<u16>().write::<u32>();
    let b = SystemAccess::new().read::<u16>().read::<u64>().write::<u32>().write::<i8>();
    let m = a.merge(&b);
    assert_eq!(
        m.reads,
        vec![ComponentId::of::<u8>(), ComponentId::of::<u16>(), ComponentId::of::<u64>()]
    );
    assert_eq!(m.writes, vec![ComponentId::of::<u32>(), ComponentId::of::<i8>()]);
}

#[test]
fn component_ids_distinguish_types() {
    assert_eq!(ComponentId::of::<i32>(), ComponentId::of::<i32>());
    assert_ne!(ComponentId::of::<i32>(), ComponentId::of::<u32>());
    let id: ComponentId = std::any::TypeId::of::<i32>().into();
    assert_eq!(id, ComponentId::of::<i32>());
    assert_eq!(SystemId(3), SystemId(3));
}
