use archetype_ecs::dependency::DependencyGraph;
use archetype_ecs::system::{ComponentId, SystemAccess};

#[test]
fn test_no_conflicts_parallel() {
    let access1 = SystemAccess {
        reads: vec![ComponentId::of::<i32>()],
        writes: vec![],
    };
    let access2 = SystemAccess {
        reads: vec![ComponentId::of::<f32>()],
        writes: vec![],
    };

    let graph = DependencyGraph::new(vec![access1, access2]);
    assert_eq!(graph.stage_count(), 1, "Should execute in parallel");
}

#[test]
fn test_write_conflict_sequential() {
    let access1 = SystemAccess {
        reads: vec![ComponentId::of::<i32>()],
        writes: vec![ComponentId::of::<f32>()],
    };
    let access2 = SystemAccess {
        reads: vec![ComponentId::of::<f32>()],
        writes: vec![],
    };

    let graph = DependencyGraph::new(vec![access1, access2]);
    assert_eq!(graph.stage_count(), 2, "Should execute sequentially");
}

#[test]
fn test_critical_path_identification() {
    // Create a chain: A -> B -> C
    let access_a = SystemAccess {
        reads: vec![],
        writes: vec![ComponentId::of::<i32>()],
    };
    let access_b = SystemAccess {
        reads: vec![ComponentId::of::<i32>()],
        writes: vec![ComponentId::of::<f32>()],
    };
    let access_c = SystemAccess {
        reads: vec![ComponentId::of::<f32>()],
        writes: vec![],
    };

    let graph = DependencyGraph::new(vec![access_a, access_b, access_c]);

    assert!(!graph.critical_path().is_empty());
    assert_eq!(graph.stage_count(), 3, "Should have 3 sequential stages");
}

#[test]
fn test_complex_dependency_graph() {
    // System 0: writes A
    // System 1: writes B (parallel with 0)
    // System 2: reads A, writes C (depends on 0)
    // System 3: reads B, writes D (depends on 1)
    // System 4: reads C, D (depends on 2 and 3)
    let accesses = vec![
        SystemAccess {
            reads: vec![],
            writes: vec![ComponentId::of::<i32>()],
        },
        SystemAccess {
            reads: vec![],
            writes: vec![ComponentId::of::<f32>()],
        },
        SystemAccess {
            reads: vec![ComponentId::of::<i32>()],
            writes: vec![ComponentId::of::<i64>()],
        },
        SystemAccess {
            reads: vec![ComponentId::of::<f32>()],
            writes: vec![ComponentId::of::<f64>()],
        },
        SystemAccess {
            reads: vec![ComponentId::of::<i64>(), ComponentId::of::<f64>()],
            writes: vec![],
        },
    ];

    let graph = DependencyGraph::new(accesses);

    assert!(
        graph.stage_count() <= 3,
        "Should optimize to 3 or fewer stages"
    );

    let first_stage = &graph.stages()[0];
    assert!(first_stage.system_indices.contains(&0) || first_stage.system_indices.contains(&1));
}

#[test]
fn complex_graph_stages_are_levels() {
    let accesses = vec![
        SystemAccess { reads: vec![], writes: vec![ComponentId::of::<i32>()] },
        SystemAccess { reads: vec![], writes: vec![ComponentId::of::<f32>()] },
        SystemAccess { reads: vec![ComponentId::of::<i32>()], writes: vec![ComponentId::of::<i64>()] },
        SystemAccess { reads: vec![ComponentId::of::<f32>()], writes: vec![ComponentId::of::<f64>()] },
        SystemAccess { reads: vec![ComponentId::of::<i64>(), ComponentId::of::<f64>()], writes: vec![] },
    ];
    let graph = DependencyGraph::new(accesses);
    assert_eq!(graph.stage_count(), 3);
    let mut s0 = graph.stages()[0].system_indices.clone();
    s0.sort();
    assert_eq!(s0, vec![0, 1]);
    let mut s1 = graph.stages()[1].system_indices.clone();
    s1.sort();
    assert_eq!(s1, vec![2, 3]);
    assert_eq!(graph.stages()[2].system_indices, vec![4]);
    for (k, stage) in graph.stages().iter().enumerate() {
        assert_eq!(stage.depth, k);
    }
    // The path ends at system 4 and steps back to the first system each one depends on.
    assert_eq!(graph.critical_path(), &[0, 2, 4]);
    assert!(graph.is_critical(2));
    assert!(!graph.is_critical(3));
}

#[test]
fn empty_graph_has_no_stages() {
    let graph = DependencyGraph::new(vec![]);
    assert_eq!(graph.stage_count(), 0);
    assert!(graph.critical_path().is_empty());
}

#[test]
fn chain_critical_path_covers_every_system() {
    let graph = DependencyGraph::new(vec![
        SystemAccess { reads: vec![], writes: vec![ComponentId::of::<i32>()] },
        SystemAccess { reads: vec![ComponentId::of::<i32>()], writes: vec![ComponentId::of::<f32>()] },
        SystemAccess { reads: vec![ComponentId::of::<f32>()], writes: vec![] },
    ]);
    assert_eq!(graph.critical_path(), &[0, 1, 2]);
}

#[test]
fn independent_systems_share_one_stage_and_path_is_system_zero() {
    let graph = DependencyGraph::new(vec![
        SystemAccess { reads: vec![ComponentId::of::<i32>()], writes: vec![] },
        SystemAccess { reads: vec![ComponentId::of::<i32>()], writes: vec![] },
        SystemAccess { reads: vec![ComponentId::of::<u8>()], writes: vec![] },
    ]);
    assert_eq!(graph.stage_count(), 1);
    assert_eq!(graph.stages()[0].system_indices, vec![0, 1, 2]);
    assert_eq!(graph.critical_path(), &[0]);
}

#[test]
fn critical_path_is_a_longest_chain() {
    let accesses = vec![
        SystemAccess::new().write::<u8>(),
        SystemAccess::new().write::<u16>(),
        SystemAccess::new().read::<u16>().write::<u32>(),
        SystemAccess::new().read::<u8>().read::<u32>(),
    ];
    let graph = DependencyGraph::new(accesses);
    assert_eq!(graph.stage_count(), 3);
    assert_eq!(graph.critical_path(), &[1, 2, 3]);
}

#[test]
fn stages_list_systems_in_kahn_order() {
    struct A;
    struct B;
    let accesses = vec![
        SystemAccess::empty().write::<A>(),
        SystemAccess::empty().write::<B>(),
        SystemAccess::empty().read::<B>(),
        SystemAccess::empty().read::<A>(),
    ];
    let graph = DependencyGraph::new(accesses);
    assert_eq!(graph.stage_count(), 2);
    assert_eq!(graph.stages()[0].system_indices, vec![0, 1]);
    assert_eq!(graph.stages()[1].system_indices, vec![3, 2]);
}
