use aedificium::base_map::BaseMap;
use aedificium::dfs::{twins_patterns, DfsSolver};
use aedificium::plan::PlanStep;
use fxhash::FxHashMap as HashMap;

#[test]
fn test_dfs_solver_single_layer() {
    let mut base_connections = HashMap::default();
    base_connections.insert((0, 0), 1);
    base_connections.insert((0, 1), 2);
    base_connections.insert((1, 0), 2);
    base_connections.insert((1, 1), 0);
    base_connections.insert((2, 0), 0);
    base_connections.insert((2, 1), 1);

    let base_map = BaseMap {
        num_rooms: 3,
        starting_room: 0,
        connections: base_connections,
    };

    let full_plan = vec![
        PlanStep::Move(0),
        PlanStep::ChangeLabel(3),
        PlanStep::Move(0),
        PlanStep::Move(0),
    ];

    let observed_labels = vec![0, 1, 3, 2, 0];

    let mut solver = DfsSolver::new(base_map, full_plan, observed_labels, 1).unwrap();
    let result = solver.solve();

    assert!(
        result.is_ok(),
        "Should find a valid solution for single layer"
    );
    let map = result.unwrap();

    assert_eq!(map.starting_room, 0);
    println!("✓ Single layer test passed!");
}

#[test]
fn test_single_layer_complex_path() {
    let mut base_connections = HashMap::default();
    base_connections.insert((0, 0), 1);
    base_connections.insert((1, 0), 2);
    base_connections.insert((2, 0), 3);
    base_connections.insert((3, 0), 4);
    base_connections.insert((4, 0), 0);
    base_connections.insert((0, 1), 4);
    base_connections.insert((1, 1), 0);
    base_connections.insert((2, 1), 1);
    base_connections.insert((3, 1), 2);
    base_connections.insert((4, 1), 3);

    let base_map = BaseMap {
        num_rooms: 5,
        starting_room: 0,
        connections: base_connections,
    };

    let full_plan = vec![
        PlanStep::Move(0),
        PlanStep::Move(0),
        PlanStep::Move(0),
        PlanStep::Move(0),
        PlanStep::Move(0),
        PlanStep::ChangeLabel(3),
        PlanStep::Move(1),
        PlanStep::Move(1),
    ];

    let observed_labels = vec![0, 1, 2, 3, 0, 0, 3, 0, 3];

    let mut solver = DfsSolver::new(base_map, full_plan, observed_labels, 1).unwrap();
    let result = solver.solve();

    assert!(result.is_ok(), "Should find solution for ring structure");
    println!("✓ Single layer ring test passed!");
}

#[test]
fn test_single_layer_all_doors() {
    let mut base_connections = HashMap::default();
    base_connections.insert((0, 0), 1);
    base_connections.insert((0, 1), 2);
    base_connections.insert((0, 2), 3);
    base_connections.insert((0, 3), 4);
    base_connections.insert((0, 4), 1);
    base_connections.insert((0, 5), 2);
    base_connections.insert((1, 0), 0);
    base_connections.insert((2, 0), 0);
    base_connections.insert((3, 0), 0);
    base_connections.insert((4, 0), 0);
    base_connections.insert((1, 4), 0);
    base_connections.insert((2, 5), 0);

    let base_map = BaseMap {
        num_rooms: 5,
        starting_room: 0,
        connections: base_connections,
    };

    let full_plan = vec![
        PlanStep::Move(0),
        PlanStep::Move(0),
        PlanStep::Move(1),
        PlanStep::Move(0),
        PlanStep::Move(2),
        PlanStep::Move(0),
        PlanStep::Move(3),
        PlanStep::Move(0),
        PlanStep::Move(4),
        PlanStep::Move(4),
        PlanStep::Move(5),
    ];

    let observed_labels = vec![0, 1, 0, 2, 0, 3, 0, 0, 0, 1, 0, 2];

    let mut solver = DfsSolver::new(base_map, full_plan, observed_labels, 1).unwrap();
    let result = solver.solve();

    assert!(result.is_ok(), "Should handle all doors");
    println!("✓ Single layer all doors test passed!");
}

#[test]
fn test_single_layer_label_changes() {
    let mut base_connections = HashMap::default();
    base_connections.insert((0, 0), 1);
    base_connections.insert((1, 0), 2);
    base_connections.insert((2, 0), 0);

    let base_map = BaseMap {
        num_rooms: 3,
        starting_room: 0,
        connections: base_connections,
    };

    let full_plan = vec![
        PlanStep::ChangeLabel(2),
        PlanStep::ChangeLabel(3),
        PlanStep::Move(0),
        PlanStep::ChangeLabel(0),
        PlanStep::ChangeLabel(1),
        PlanStep::ChangeLabel(2),
        PlanStep::Move(0),
        PlanStep::ChangeLabel(3),
        PlanStep::Move(0),
        PlanStep::ChangeLabel(0),
    ];

    let observed_labels = vec![0, 2, 3, 1, 0, 1, 2, 2, 3, 3, 0];

    let mut solver = DfsSolver::new(base_map, full_plan, observed_labels, 1).unwrap();
    let result = solver.solve();

    assert!(result.is_ok(), "Should handle multiple label changes");
    println!("✓ Single layer label changes test passed!");
}

#[test]
fn test_single_layer_ambiguous_labels() {
    let mut base_connections = HashMap::default();
    base_connections.insert((0, 0), 1);
    base_connections.insert((1, 0), 2);
    base_connections.insert((2, 0), 3);
    base_connections.insert((3, 0), 4);
    base_connections.insert((4, 0), 5);
    base_connections.insert((5, 0), 0);

    let base_map = BaseMap {
        num_rooms: 6,
        starting_room: 0,
        connections: base_connections,
    };

    let full_plan = vec![
        PlanStep::Move(0),
        PlanStep::Move(0),
        PlanStep::Move(0),
        PlanStep::Move(0),
        PlanStep::ChangeLabel(2),
        PlanStep::Move(0),
        PlanStep::Move(0),
    ];

    let observed_labels = vec![0, 1, 2, 3, 0, 2, 1, 0];

    let mut solver = DfsSolver::new(base_map, full_plan, observed_labels, 1).unwrap();
    let result = solver.solve();

    assert!(result.is_ok(), "Should handle ambiguous labels correctly");

    assert_eq!(solver.full_assignment[0], 0);
    assert_eq!(solver.full_assignment[1], 1);
    assert_eq!(solver.full_assignment[2], 2);
    assert_eq!(solver.full_assignment[3], 3);
    assert_eq!(solver.full_assignment[4], 4);
    assert_eq!(solver.full_assignment[5], 4);
    assert_eq!(solver.full_assignment[6], 5);
    assert_eq!(solver.full_assignment[7], 0);

    println!("✓ Single layer ambiguous labels test passed!");
}

#[test]
fn test_dfs_solver_2layers_with_swap() {
    let mut base_connections = HashMap::default();
    base_connections.insert((0, 0), 1);
    base_connections.insert((0, 1), 2);
    base_connections.insert((1, 0), 2);
    base_connections.insert((1, 1), 0);
    base_connections.insert((2, 0), 0);
    base_connections.insert((2, 1), 1);

    let base_map = BaseMap {
        num_rooms: 3,
        starting_room: 0,
        connections: base_connections,
    };

    let full_plan = vec![
        PlanStep::ChangeLabel(2),
        PlanStep::Move(0),
        PlanStep::ChangeLabel(3),
        PlanStep::Move(0),
        PlanStep::ChangeLabel(1),
    ];

    let observed_labels = vec![0, 2, 1, 3, 2, 1];

    let mut solver = DfsSolver::new(base_map, full_plan, observed_labels, 2).unwrap();
    let result = solver.solve();

    assert!(
        result.is_ok(),
        "Should find a valid solution with 2 layers"
    );
    let map = result.unwrap();

    assert_eq!(map.starting_room, 0);

    let visited_layer2 = solver.full_assignment.iter().any(|&x| x >= 3);
    println!("Full assignment: {:?}", solver.full_assignment);
    println!("Visited layer 2: {}", visited_layer2);

    println!("✓ 2-layer with swap test passed!");
}

#[test]
fn test_dfs_solver_3layers() {
    let mut base_connections = HashMap::default();
    base_connections.insert((0, 0), 1);
    base_connections.insert((0, 1), 2);
    base_connections.insert((1, 0), 2);
    base_connections.insert((1, 1), 0);
    base_connections.insert((2, 0), 0);
    base_connections.insert((2, 1), 1);

    let base_map = BaseMap {
        num_rooms: 3,
        starting_room: 0,
        connections: base_connections,
    };

    let full_plan = vec![
        PlanStep::ChangeLabel(3),
        PlanStep::Move(0),
        PlanStep::ChangeLabel(2),
        PlanStep::Move(0),
        PlanStep::ChangeLabel(0),
        PlanStep::Move(0),
    ];

    let observed_labels = vec![0, 3, 1, 2, 2, 0, 0];

    let mut solver = DfsSolver::new(base_map, full_plan, observed_labels, 3).unwrap();
    let result = solver.solve();

    if result.is_ok() {
        let map = result.unwrap();
        assert_eq!(map.starting_room, 0);

        let layer1_visits = solver
            .full_assignment
            .iter()
            .filter(|&&x| x >= 0 && x < 3)
            .count();
        let layer2_visits = solver
            .full_assignment
            .iter()
            .filter(|&&x| x >= 3 && x < 6)
            .count();
        let layer3_visits = solver.full_assignment.iter().filter(|&&x| x >= 6).count();

        println!("Full assignment: {:?}", solver.full_assignment);
        println!("Layer 1 visits: {}", layer1_visits);
        println!("Layer 2 visits: {}", layer2_visits);
        println!("Layer 3 visits: {}", layer3_visits);

        println!("✓ 3-layer test passed!");
    } else {
        println!("3-layer test: No solution found (expected for some patterns)");
    }
}

#[test]
fn test_twins_patterns() {
    let patterns1 = twins_patterns(1, 0, 1, 3);
    assert_eq!(patterns1.len(), 1);
    assert_eq!(patterns1[0], vec![(0, 1)]);

    let patterns2 = twins_patterns(2, 0, 1, 3);
    assert_eq!(patterns2.len(), 2);
    assert!(patterns2.contains(&vec![(0, 1), (3, 4)]));
    assert!(patterns2.contains(&vec![(0, 4), (3, 1)]));

    let patterns3 = twins_patterns(3, 0, 1, 2);
    assert_eq!(patterns3.len(), 6);

    println!("✓ twins_patterns test passed!");
}

#[test]
fn test_room_labels_initialization() {
    let mut base_connections = HashMap::default();
    base_connections.insert((0, 0), 1);

    let base_map = BaseMap {
        num_rooms: 5,
        starting_room: 0,
        connections: base_connections,
    };

    let solver = DfsSolver::new(base_map, vec![], vec![0], 2).unwrap();

    assert_eq!(solver.current_labels[0], 0);
    assert_eq!(solver.current_labels[1], 1);
    assert_eq!(solver.current_labels[2], 2);
    assert_eq!(solver.current_labels[3], 3);
    assert_eq!(solver.current_labels[4], 0);
    assert_eq!(solver.current_labels[5], 0);
    assert_eq!(solver.current_labels[6], 1);
    assert_eq!(solver.current_labels[7], 2);
    assert_eq!(solver.current_labels[8], 3);
    assert_eq!(solver.current_labels[9], 0);

    println!("✓ Room labels initialization test passed!");
}
