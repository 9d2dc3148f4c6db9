use archetype_ecs::builtin::transform::Children as TransformChildren;
use archetype_ecs::entity::EntityId;
use archetype_ecs::hierarchy::{Children, Parent, TransformChanged};
use archetype_ecs::hierarchy_system::HierarchyUpdateSystem;

fn entity(n: u64) -> EntityId {
    EntityId::from(slotmap::KeyData::from_ffi(n))
}

#[test]
fn test_children_management() {
    let id1 = entity((1 << 32) | 0);
    let id2 = entity((1 << 32) | 1);

    let mut children = Children::new();
    children.add_child(id1);
    assert!(children.contains(id1));
    assert_eq!(children.len(), 1);

    children.add_child(id2);
    assert_eq!(children.len(), 2);

    children.remove_child(id1);
    assert!(!children.contains(id1));
    assert_eq!(children.len(), 1);
}

#[test]
fn test_children_no_duplicates() {
    let id = entity((1 << 32) | 0);

    let mut children = Children::new();
    children.add_child(id);
    children.add_child(id); // Add same child twice
    assert_eq!(children.len(), 1); // Should still be 1
}

#[test]
fn test_transform_changed() {
    let mut changed = TransformChanged::new(false);
    assert!(!changed.is_changed());

    changed.mark_changed();
    assert!(changed.is_changed());

    changed.clear();
    assert!(!changed.is_changed());
}

#[test]
fn test_children() {
    let mut children = TransformChildren::new();
    let entity = EntityId::from(slotmap::KeyData::from_ffi(1));

    children.add(entity);
    assert_eq!(children.entities.len(), 1);

    children.remove(entity);
    assert_eq!(children.entities.len(), 0);
}

#[test]
fn children_keep_insertion_order() {
    let (a, b, c) = (entity(1), entity(3), entity(5));
    let mut children = Children::default();
    children.add_child(a);
    children.add_child(b);
    children.add_child(c);
    assert!(children.remove_child(b));
    assert!(!children.remove_child(b));
    assert_eq!(children.get_children(), vec![a, c]);
    assert_eq!(children.iter().copied().collect::<Vec<_>>(), vec![a, c]);
    children.clear();
    assert!(children.is_empty());
}

#[test]
fn parent_holds_its_entity() {
    let p = Parent::new(entity(7));
    assert_eq!(p.entity_id(), entity(7));
}

#[test]
fn transform_children_remove_drops_every_copy() {
    let (a, b) = (entity(1), entity(3));
    let mut children = TransformChildren::with_children(vec![a, b, a]);
    children.add(b);
    assert_eq!(children.entities, vec![a, b, a]);
    children.remove(a);
    assert_eq!(children.entities, vec![b]);
}

#[test]
fn test_hierarchy_system_creation() {
    let system = archetype_ecs::hierarchy_system::HierarchyUpdateSystem::new();
    assert_eq!(system.name(), "HierarchyUpdateSystem");
}

#[test]
fn update_plan_walks_children_lists_from_each_root() {
    let (r, a, b, c, d, e, orphan, r2) =
        (entity(1), entity(2), entity(3), entity(4), entity(5), entity(6), entity(7), entity(8));
    let entities = vec![(r, false), (a, true), (b, true), (c, true), (e, true), (orphan, true), (r2, false)];
    let children = vec![(a, vec![c]), (r, vec![a, b, d]), (b, vec![e])];
    let plan = HierarchyUpdateSystem::update_plan(&entities, &children);
    assert_eq!(
        plan,
        vec![(r, None), (a, Some(0)), (b, Some(0)), (e, Some(2)), (c, Some(1)), (r2, None)]
    );
}

#[test]
fn update_plan_without_roots_is_empty() {
    let (a, b) = (entity(1), entity(2));
    let plan = HierarchyUpdateSystem::update_plan(&[(a, true)], &[(b, vec![a])]);
    assert!(plan.is_empty());
}

struct LocalTransformStandIn;
struct GlobalTransformStandIn;

#[test]
fn test_hierarchy_system_access() {
    let system = HierarchyUpdateSystem::new();
    let access = system.accesses::<LocalTransformStandIn, GlobalTransformStandIn>();

    // Should read LocalTransform, Parent, Children
    assert_eq!(access.reads.len(), 3);
    // Should write GlobalTransform
    assert_eq!(access.writes.len(), 1);
}
