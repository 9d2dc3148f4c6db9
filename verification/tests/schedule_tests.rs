use archetype_ecs::error::EcsError;
use archetype_ecs::schedule::{group_into_stages, plan_stages, Stage, SystemGraph, SystemNode};
use archetype_ecs::system::{SystemAccess, SystemId};

#[test]
fn test_stage_creation() {
    let stage = Stage::new();
    assert_eq!(stage.systems.len(), 0);
}

#[test]
fn built_graph_links_conflicting_pairs_forward() {
    let accesses = vec![
        SystemAccess::new().write::<u32>(),
        SystemAccess::new().read::<u32>(),
        SystemAccess::new().read::<u64>(),
        SystemAccess::new().write::<u64>(),
    ];
    let g = SystemGraph::build(&accesses);
    assert_eq!(g.nodes.len(), 4);
    assert_eq!(g.edges[0], vec![SystemId(1)]);
    assert_eq!(g.edges[2], vec![SystemId(3)]);
    assert!(g.edges[1].is_empty());
    assert_eq!(g.reverse_edges[1], vec![SystemId(0)]);
    assert_eq!(g.reverse_edges[3], vec![SystemId(2)]);
}

#[test]
fn topological_sort_follows_readiness() {
    let accesses = vec![
        SystemAccess::new().write::<u32>(),
        SystemAccess::new().read::<u32>(),
        SystemAccess::new().read::<u64>(),
        SystemAccess::new().write::<u64>(),
    ];
    let g = SystemGraph::build(&accesses);
    let order = g.topological_sort().unwrap();
    assert_eq!(order, vec![SystemId(0), SystemId(2), SystemId(1), SystemId(3)]);
}

#[test]
fn cycle_is_detected() {
    let nodes = vec![
        SystemNode { id: SystemId(0), access: SystemAccess::new() },
        SystemNode { id: SystemId(1), access: SystemAccess::new() },
    ];
    let g = SystemGraph {
        nodes,
        edges: vec![vec![SystemId(1)], vec![SystemId(0)]],
        reverse_edges: vec![vec![SystemId(1)], vec![SystemId(0)]],
    };
    assert!(matches!(g.topological_sort(), Err(EcsError::SystemCycleDetected)));
}

#[test]
fn stage_rejects_conflicting_system() {
    let accesses = vec![
        SystemAccess::new().write::<u32>(),
        SystemAccess::new().read::<u32>(),
        SystemAccess::new().read::<u64>(),
    ];
    let g = SystemGraph::build(&accesses);
    let mut stage = Stage::default();
    assert!(stage.try_add(SystemId(0), &accesses[0], &g));
    assert!(!stage.try_add(SystemId(1), &accesses[1], &g));
    assert!(stage.try_add(SystemId(2), &accesses[2], &g));
    assert_eq!(stage.systems, vec![SystemId(0), SystemId(2)]);
}

#[test]
fn greedy_grouping_opens_a_stage_at_each_conflict() {
    let accesses = vec![
        SystemAccess::new().write::<u32>(),
        SystemAccess::new().read::<u64>(),
        SystemAccess::new().read::<u32>(),
        SystemAccess::new().write::<u64>(),
    ];
    let g = SystemGraph::build(&accesses);
    let sorted = vec![SystemId(0), SystemId(1), SystemId(2), SystemId(3)];
    let stages = group_into_stages(&g, &sorted);
    assert_eq!(stages.len(), 2);
    assert_eq!(stages[0].systems, vec![SystemId(0), SystemId(1)]);
    assert_eq!(stages[1].systems, vec![SystemId(2), SystemId(3)]);
}

#[test]
fn plan_of_independent_systems_is_one_stage() {
    let accesses = vec![
        SystemAccess::new().read::<u32>(),
        SystemAccess::new().read::<u32>(),
        SystemAccess::new().write::<u8>(),
    ];
    let (graph, stages) = plan_stages(&accesses).unwrap();
    assert_eq!(graph.nodes.len(), 3);
    assert_eq!(stages.len(), 1);
    assert_eq!(stages[0].systems, vec![SystemId(0), SystemId(1), SystemId(2)]);
}

#[test]
fn plan_of_empty_schedule_has_no_stage() {
    let (graph, stages) = plan_stages(&[]).unwrap();
    assert!(graph.nodes.is_empty());
    assert!(stages.is_empty());
}

#[test]
fn topological_sort_follows_kahn_order() {
    struct A;
    struct B;
    let accesses = vec![
        SystemAccess::empty().write::<A>(),
        SystemAccess::empty().write::<B>(),
        SystemAccess::empty().read::<B>(),
        SystemAccess::empty().read::<A>(),
    ];
    let graph = SystemGraph::build(&accesses);
    let order: Vec<u32> = graph.topological_sort().unwrap().iter().map(|id| id.0).collect();
    assert_eq!(order, vec![0, 1, 3, 2]);
    let (_, stages) = plan_stages(&accesses).unwrap();
    let grouped: Vec<Vec<u32>> = stages.iter().map(|s| s.systems.iter().map(|id| id.0).collect()).collect();
    assert_eq!(grouped, vec![vec![0, 1], vec![3, 2]]);
}
