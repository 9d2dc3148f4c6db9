use archetype_ecs::error::{EcsError, SpawnError};
use std::any::TypeId;

#[test]
fn error_messages_match_their_variants() {
    assert_eq!(EcsError::EntityNotFound.message(), "Entity not found");
    assert_eq!(EcsError::SystemCycleDetected.message(), "System dependency cycle detected");
    assert_eq!(EcsError::CommandError("bad".to_string()).message(), "Command error: bad");
    assert_eq!(
        EcsError::BatchTooLarge.message(),
        "Batch size too large (max 10,000,000)"
    );
    assert_eq!(EcsError::IoError("disk".to_string()).message(), "IO error: disk");
    assert!(EcsError::ResourceAlreadyExists(TypeId::of::<u8>())
        .message()
        .starts_with("Resource already exists: "));
}

#[test]
fn spawn_error_messages_print_counts_in_decimal() {
    let e = SpawnError::EntityCapacityExhausted { attempted: 1205, capacity: 1000 };
    assert_eq!(
        e.message(),
        "Entity capacity exhausted: attempted to spawn 1205, max is 1000"
    );
    let e = SpawnError::ArchetypeCreationFailed { component_count: 0, reason: "empty".to_string() };
    assert_eq!(e.message(), "Failed to create archetype for 0 components: empty");
    let wrapped: EcsError = SpawnError::ComponentRegistrationFailed("dup".to_string()).into();
    assert_eq!(wrapped.message(), "Spawn error: Failed to register component: dup");
}
