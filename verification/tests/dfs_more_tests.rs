use aedificium::base_map::BaseMap;
use aedificium::dfs::{twins_patterns, DfsSolver};
use aedificium::error::SolveError;
use aedificium::plan::{parse_full_plan, PlanStep};
use fxhash::FxHashMap;

fn ring(num_rooms: usize) -> BaseMap {
    let mut connections = FxHashMap::default();
    for room in 0..num_rooms {
        connections.insert((room, 0), (room + 1) % num_rooms);
        connections.insert((room, 1), (room + num_rooms - 1) % num_rooms);
    }
    BaseMap {
        num_rooms,
        starting_room: 0,
        connections,
    }
}

fn assert_paired_both_ways(solver: &DfsSolver, total: usize) {
    assert_eq!(solver.connections.len(), total * 6);
    for room in 0..total {
        for door in 0..6 {
            let partner = solver.connections[&(room, door)];
            assert!(partner.0 < total && partner.1 < 6);
            assert_eq!(solver.connections[&partner], (room, door));
        }
    }
}

#[test]
fn ring_of_three_is_found_as_it_is() {
    let (steps, doors) = parse_full_plan("00000").unwrap();
    assert_eq!(doors, "00000");
    let mut solver = DfsSolver::new(ring(3), steps, vec![0, 1, 2, 0, 1, 2], 1).unwrap();
    let map = solver.solve().unwrap();
    assert_eq!(solver.full_assignment, vec![0, 1, 2, 0, 1, 2]);
    assert_eq!(map.rooms, vec![0, 1, 2]);
    assert_eq!(map.starting_room, 0);
    assert_eq!(solver.connections[&(0, 0)], (1, 1));
    assert_eq!(solver.connections[&(1, 0)], (2, 1));
    assert_eq!(solver.connections[&(2, 0)], (0, 1));
    for room in 0..3 {
        for door in 2..6 {
            assert_eq!(solver.connections[&(room, door)], (room, door));
        }
    }
    assert_paired_both_ways(&solver, 3);
    assert_eq!(map.connections.len(), 15);
    let listed: Vec<((usize, usize), (usize, usize))> = map
        .connections
        .iter()
        .map(|c| ((c.from.room, c.from.door), (c.to.room, c.to.door)))
        .collect();
    assert_eq!(listed[0], ((0, 0), (1, 1)));
    assert_eq!(listed[1], ((0, 1), (2, 0)));
    assert_eq!(listed[2], ((0, 2), (0, 2)));
    assert!(listed.contains(&((1, 0), (2, 1))));
    for (from, to) in &listed {
        assert!(from <= to);
        assert_eq!(solver.connections[from], *to);
    }
    let mut sorted = listed.clone();
    sorted.sort();
    assert_eq!(listed, sorted);
}

#[test]
fn straight_pattern_comes_first_where_both_layers_show_the_label() {
    let (steps, _) = parse_full_plan("[2]0[3]0[1]").unwrap();
    let mut base = FxHashMap::default();
    base.insert((0, 0), 1);
    base.insert((0, 1), 2);
    base.insert((1, 0), 2);
    base.insert((1, 1), 0);
    base.insert((2, 0), 0);
    base.insert((2, 1), 1);
    let base_map = BaseMap {
        num_rooms: 3,
        starting_room: 0,
        connections: base,
    };
    let mut solver = DfsSolver::new(base_map, steps, vec![0, 2, 1, 3, 2, 1], 2).unwrap();
    assert!(solver.solve().is_ok());
    assert_eq!(solver.full_assignment, vec![0, 0, 1, 1, 2, 2]);
    assert_eq!(solver.connections[&(0, 0)], (1, 1));
    assert_eq!(solver.connections[&(3, 0)], (4, 1));
    assert_paired_both_ways(&solver, 6);
}

#[test]
fn swap_is_taken_where_the_straight_pattern_shows_the_wrong_label() {
    // Room 0 gets label 3; after a round through the ring the label seen is
    // 0 again, so the round ended in the other copy of room 0.
    let (steps, _) = parse_full_plan("[3]000").unwrap();
    let mut solver = DfsSolver::new(ring(3), steps, vec![0, 3, 1, 2, 0], 2).unwrap();
    let map = solver.solve().unwrap();
    assert_eq!(solver.full_assignment, vec![0, 0, 1, 2, 3]);
    assert_eq!(solver.connections[&(2, 0)], (3, 1));
    assert_eq!(solver.connections[&(3, 1)], (2, 0));
    assert_eq!(solver.connections[&(5, 0)], (0, 1));
    assert_eq!(solver.connections[&(0, 1)], (5, 0));
    assert_eq!(solver.current_labels, vec![3, 1, 2, 0, 1, 2]);
    assert_eq!(map.rooms, vec![0, 1, 2, 0, 1, 2]);
    assert_paired_both_ways(&solver, 6);
}

#[test]
fn three_layers_are_paired_both_ways() {
    let (steps, _) = parse_full_plan("[3]000[2]000").unwrap();
    let mut solver =
        DfsSolver::new(ring(3), steps, vec![0, 3, 1, 2, 0, 2, 1, 2, 0], 3).unwrap();
    let map = solver.solve().unwrap();
    assert_eq!(solver.full_assignment, vec![0, 0, 1, 2, 3, 3, 4, 5, 6]);
    assert_eq!(map.rooms, vec![0, 1, 2, 0, 1, 2, 0, 1, 2]);
    assert_paired_both_ways(&solver, 9);
}

#[test]
fn empty_plan_gives_self_loops_only() {
    let base = BaseMap {
        num_rooms: 2,
        starting_room: 0,
        connections: FxHashMap::default(),
    };
    let mut solver = DfsSolver::new(base, vec![], vec![0], 1).unwrap();
    let map = solver.solve().unwrap();
    assert_eq!(solver.full_assignment, vec![0]);
    assert_eq!(map.connections.len(), 12);
    for connection in &map.connections {
        assert_eq!(connection.from, connection.to);
    }
}

#[test]
fn wrong_label_at_the_start_is_no_solution() {
    let mut solver = DfsSolver::new(ring(3), vec![], vec![1], 1).unwrap();
    assert!(matches!(solver.solve(), Err(SolveError::DFSNoSolution)));
    assert_eq!(solver.full_assignment, vec![0]);
}

#[test]
fn dead_end_puts_everything_back() {
    let steps = vec![PlanStep::Move(0), PlanStep::ChangeLabel(3), PlanStep::Move(0)];
    let mut solver = DfsSolver::new(ring(3), steps, vec![0, 1, 3, 1], 2).unwrap();
    let sets = solver.remaining_base_doors.clone();
    assert!(matches!(solver.solve(), Err(SolveError::DFSNoSolution)));
    assert!(solver.connections.is_empty());
    assert_eq!(solver.current_labels, vec![0, 1, 2, 0, 1, 2]);
    assert_eq!(solver.full_assignment, vec![-1, -1, -1, -1]);
    assert_eq!(solver.remaining_base_doors, sets);
}

#[test]
fn door_that_the_base_map_lacks_stops_the_search() {
    let mut connections = FxHashMap::default();
    connections.insert((0, 0), 1);
    let base = BaseMap {
        num_rooms: 2,
        starting_room: 0,
        connections,
    };
    let steps = vec![PlanStep::Move(0), PlanStep::Move(3)];
    let mut solver = DfsSolver::new(base, steps, vec![0, 1, 0], 1).unwrap();
    assert!(matches!(
        solver.solve(),
        Err(SolveError::BaseMapInconsistent)
    ));
    assert!(solver.connections.is_empty());
}

#[test]
fn new_tells_each_refusal_apart_for_the_search() {
    let steps = vec![PlanStep::Move(0)];
    assert!(matches!(
        DfsSolver::new(ring(3), steps.clone(), vec![0], 1),
        Err(SolveError::ObservationLengthMismatch)
    ));
    assert!(matches!(
        DfsSolver::new(ring(3), steps.clone(), vec![0, 1], 0),
        Err(SolveError::OutOfRange)
    ));
    assert!(matches!(
        DfsSolver::new(ring(3), steps.clone(), vec![0, 1], 4),
        Err(SolveError::OutOfRange)
    ));
    let none = BaseMap {
        num_rooms: 0,
        starting_room: 0,
        connections: FxHashMap::default(),
    };
    assert!(matches!(
        DfsSolver::new(none, steps.clone(), vec![0, 1], 1),
        Err(SolveError::OutOfRange)
    ));
    for bad in [((3, 0), 0), ((0, 6), 0), ((0, 0), 3)] {
        let mut connections = FxHashMap::default();
        connections.insert(bad.0, bad.1);
        let base = BaseMap {
            num_rooms: 3,
            starting_room: 0,
            connections,
        };
        assert!(matches!(
            DfsSolver::new(base, steps.clone(), vec![0, 1], 1),
            Err(SolveError::BaseMapInconsistent)
        ));
    }
}

#[test]
fn new_starts_with_the_first_observation_only() {
    let solver = DfsSolver::new(ring(3), vec![PlanStep::Move(0); 3], vec![0; 4], 2).unwrap();
    assert_eq!(solver.full_assignment, vec![0, -1, -1, -1]);
    assert!(solver.connections.is_empty());
    assert!(solver.remaining_base_doors[0][1].contains(0));
    assert!(solver.remaining_base_doors[0][2].contains(1));
    assert!(!solver.remaining_base_doors[0][1].contains(1));
    assert_eq!(solver.remaining_base_doors[0][0].count_ones(..), 0);
}

#[test]
fn commit_then_disconnect_restores_pairing_and_door_sets() {
    let mut solver = DfsSolver::new(ring(3), vec![], vec![0], 3).unwrap();
    let patterns = twins_patterns(3, 0, 1, 3);
    for pattern in &patterns {
        let pairing = solver.connections.clone();
        let sets = solver.remaining_base_doors.clone();
        assert!(solver.connect_twins(pattern, 0, 1));
        assert_eq!(solver.connections.len(), 6);
        for (from, to) in pattern {
            assert_eq!(solver.connections[&(*from, 0)], (*to, 1));
            assert_eq!(solver.connections[&(*to, 1)], (*from, 0));
        }
        assert!(!solver.remaining_base_doors[0][1].contains(0));
        assert!(!solver.remaining_base_doors[1][0].contains(1));
        solver.disconnect_twins(pattern, 0, 1);
        assert_eq!(solver.connections, pairing);
        assert_eq!(solver.remaining_base_doors, sets);
    }
}

#[test]
fn commit_fails_where_an_end_is_taken() {
    let mut solver = DfsSolver::new(ring(3), vec![], vec![0], 2).unwrap();
    let patterns = twins_patterns(2, 0, 1, 3);
    assert!(solver.connect_twins(&patterns[0], 0, 1));
    let pairing = solver.connections.clone();
    let sets = solver.remaining_base_doors.clone();
    assert!(!solver.connect_twins(&patterns[1], 0, 1));
    assert!(!solver.connect_twins(&patterns[0], 0, 1));
    assert_eq!(solver.connections, pairing);
    assert_eq!(solver.remaining_base_doors, sets);
}

#[test]
fn commit_fails_where_a_door_would_get_two_partners() {
    let mut connections = FxHashMap::default();
    connections.insert((0, 0), 0);
    let base = BaseMap {
        num_rooms: 1,
        starting_room: 0,
        connections,
    };
    let mut solver = DfsSolver::new(base, vec![], vec![0], 3).unwrap();
    let patterns = twins_patterns(3, 0, 0, 1);
    // Layers in the order 1, 2, 0: door 0 of room 0 would be paired with
    // door 0 of room 1 and with door 0 of room 2.
    assert_eq!(patterns[3], vec![(0, 1), (1, 2), (2, 0)]);
    assert!(!solver.connect_twins(&patterns[3], 0, 0));
    assert!(solver.connections.is_empty());
    // Layers in the order 1, 0, 2 pair rooms 0 and 1 with each other and
    // room 2 with itself.
    assert_eq!(patterns[2], vec![(0, 1), (1, 0), (2, 2)]);
    assert!(solver.connect_twins(&patterns[2], 0, 0));
    assert_eq!(solver.connections[&(0, 0)], (1, 0));
    assert_eq!(solver.connections[&(1, 0)], (0, 0));
    assert_eq!(solver.connections[&(2, 0)], (2, 0));
}

#[test]
fn returning_door_is_the_lowest_that_leads_back_or_else_the_lowest_spare() {
    let mut connections = FxHashMap::default();
    connections.insert((0, 0), 1);
    connections.insert((1, 2), 0);
    connections.insert((1, 4), 0);
    connections.insert((1, 0), 1);
    let base = BaseMap {
        num_rooms: 2,
        starting_room: 0,
        connections,
    };
    let mut solver = DfsSolver::new(base, vec![], vec![0], 1).unwrap();
    assert_eq!(solver.get_new_door_of_to_room(0, 1), Some(2));
    assert!(solver.connect_twins(&vec![(0, 1)], 0, 2));
    assert_eq!(solver.get_new_door_of_to_room(0, 1), Some(4));
    // No door of room 0 leads to room 0: the lowest door of room 0 that the
    // base map does not use and that is not paired is door 1.
    assert_eq!(solver.get_new_door_of_to_room(0, 0), Some(1));
}

#[test]
fn twin_patterns_follow_the_orders_of_the_layers() {
    assert_eq!(
        twins_patterns(2, 0, 1, 3),
        vec![vec![(0, 1), (3, 4)], vec![(0, 4), (3, 1)]]
    );
    assert_eq!(
        twins_patterns(2, 4, 2, 3),
        vec![vec![(4, 2), (1, 5)], vec![(4, 5), (1, 2)]]
    );
    assert_eq!(
        twins_patterns(3, 0, 1, 2),
        vec![
            vec![(0, 1), (2, 3), (4, 5)],
            vec![(0, 1), (2, 5), (4, 3)],
            vec![(0, 3), (2, 1), (4, 5)],
            vec![(0, 3), (2, 5), (4, 1)],
            vec![(0, 5), (2, 1), (4, 3)],
            vec![(0, 5), (2, 3), (4, 1)],
        ]
    );
    assert_eq!(twins_patterns(1, 2, 0, 3), vec![vec![(2, 0)]]);
}
