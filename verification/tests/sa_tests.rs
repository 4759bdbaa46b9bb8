use aedificium::error::SolveError;
use aedificium::sa::SimulatedAnnealingSolver;
use aedificium::sa_model::{MAX_DOORS, MAX_ROOMS};

fn overfull_solver() -> SimulatedAnnealingSolver {
    // Room 0 leaves through each of its six doors to room 4 and comes back
    // through door 0 of room 4; at the end it also reaches itself by door 0.
    let plan = "0010203040500";
    let results = "00000000000000";
    let mut solver = SimulatedAnnealingSolver::new(plan, results, 8).unwrap();
    assert!(solver.assign(vec![0, 4, 0, 4, 0, 4, 0, 4, 0, 4, 0, 4, 0, 0]));
    solver
}

#[test]
fn ring_trace_costs_nothing() {
    let solver = SimulatedAnnealingSolver::new("01201201201", "012012012012", 3).unwrap();
    assert_eq!(solver.assignment, vec![0, 1, 2, 0, 1, 2, 0, 1, 2, 0, 1, 2]);
    assert_eq!(solver.cost(), 0);
    assert!(solver.is_valid_assignment());
}

#[test]
fn as_many_observations_as_doors_is_a_mismatch() {
    let made = SimulatedAnnealingSolver::new("012012012012", "012012012012", 3);
    assert!(matches!(made, Err(SolveError::ObservationLengthMismatch)));
}

#[test]
fn new_tells_each_refusal_apart() {
    assert!(matches!(
        SimulatedAnnealingSolver::new("01x", "0123", 4),
        Err(SolveError::MalformedPlan)
    ));
    assert!(matches!(
        SimulatedAnnealingSolver::new("016", "0123", 4),
        Err(SolveError::MalformedPlan)
    ));
    assert!(matches!(
        SimulatedAnnealingSolver::new("01", "014", 4),
        Err(SolveError::MalformedPlan)
    ));
    assert!(matches!(
        SimulatedAnnealingSolver::new("01", "01", 4),
        Err(SolveError::ObservationLengthMismatch)
    ));
    assert!(matches!(
        SimulatedAnnealingSolver::new("01", "012", 0),
        Err(SolveError::OutOfRange)
    ));
    assert!(matches!(
        SimulatedAnnealingSolver::new("01", "012", 31),
        Err(SolveError::OutOfRange)
    ));
    assert!(matches!(
        SimulatedAnnealingSolver::new("01", "013", 3),
        Err(SolveError::OutOfRange)
    ));
    assert!(matches!(
        SimulatedAnnealingSolver::new("01", "101", 4),
        Err(SolveError::OutOfRange)
    ));
    assert!(SimulatedAnnealingSolver::new("01", "013", 4).is_ok());
}

#[test]
fn one_room_costs_nothing() {
    let solver = SimulatedAnnealingSolver::new("012345", "0000000", 1).unwrap();
    assert_eq!(solver.cost(), 0);
    assert_eq!(solver.assignment, vec![0; 7]);
    assert!(solver.is_valid_assignment());
    assert_eq!(solver.filled_in_future[0], 6);
}

#[test]
fn empty_plan_is_one_observation() {
    let solver = SimulatedAnnealingSolver::new("", "0", 3).unwrap();
    assert_eq!(solver.cost(), 0);
    assert_eq!(solver.assignment, vec![0]);
}

#[test]
fn seventh_door_costs_one() {
    let solver = overfull_solver();
    assert_eq!(solver.filled_in_future[0], 7);
    assert_eq!(solver.filled_in_future[4], 6);
    assert_eq!(solver.kasikari_count[0][4], 5);
    assert_eq!(solver.kasikari_count[4][0], -5);
    assert_eq!(solver.kasikari_count[0][0], 0);
    assert_eq!(solver.graph[0][0][4], 1);
    assert_eq!(solver.graph[4][0][0], 6);
    assert_eq!(solver.graph[0][0][0], 1);
    assert_eq!(solver.cost(), 1);
    assert!(!solver.is_valid_assignment());
}

#[test]
fn tables_have_their_full_size() {
    let solver = overfull_solver();
    assert_eq!(solver.graph.len(), MAX_ROOMS);
    assert_eq!(solver.graph[0].len(), MAX_DOORS);
    assert_eq!(solver.graph[0][0].len(), MAX_ROOMS);
    assert_eq!(solver.filled_in_future.len(), MAX_ROOMS);
    assert_eq!(solver.kasikari_count.len(), MAX_ROOMS);
}

#[test]
fn move_then_revert_restores_everything() {
    let mut solver = overfull_solver();
    let cost = solver.cost();
    let graph = solver.graph.clone();
    let filled = solver.filled_in_future.clone();
    let kasikari = solver.kasikari_count.clone();
    let assignment = solver.assignment.clone();
    for obs_idx in 1..solver.assignment.len() {
        let old_room = solver.assignment[obs_idx];
        let new_room = if old_room == 0 { 4 } else { 0 };
        solver.update_point(obs_idx, new_room);
        assert_eq!(solver.assignment[obs_idx], new_room);
        solver.update_point(obs_idx, old_room);
        assert_eq!(solver.cost(), cost);
        assert_eq!(solver.graph, graph);
        assert_eq!(solver.filled_in_future, filled);
        assert_eq!(solver.kasikari_count, kasikari);
        assert_eq!(solver.assignment, assignment);
    }
}

#[test]
fn move_agrees_with_recomputation() {
    let mut solver = overfull_solver();
    for obs_idx in 1..solver.assignment.len() {
        let old_room = solver.assignment[obs_idx];
        let new_room = if old_room == 0 { 4 } else { 0 };
        solver.update_point(obs_idx, new_room);
        let cost = solver.cost();
        let graph = solver.graph.clone();
        let filled = solver.filled_in_future.clone();
        let kasikari = solver.kasikari_count.clone();
        solver.recalculate_cost();
        assert_eq!(solver.cost(), cost);
        assert_eq!(solver.graph, graph);
        assert_eq!(solver.filled_in_future, filled);
        assert_eq!(solver.kasikari_count, kasikari);
    }
}

#[test]
fn move_to_the_same_room_changes_nothing() {
    let mut solver = overfull_solver();
    let assignment = solver.assignment.clone();
    solver.update_point(3, 4);
    assert_eq!(solver.assignment, assignment);
    assert_eq!(solver.cost(), 1);
}

#[test]
fn zero_cost_does_not_make_doors_lead_to_one_room() {
    let mut solver = SimulatedAnnealingSolver::new("000", "0000", 5).unwrap();
    assert!(solver.assign(vec![0, 0, 4, 0]));
    assert_eq!(solver.cost(), 0);
    assert!(!solver.is_valid_assignment());
}

#[test]
fn assign_takes_only_rooms_with_the_right_label() {
    let mut solver = SimulatedAnnealingSolver::new("00", "010", 6).unwrap();
    let before = solver.assignment.clone();
    assert!(!solver.assign(vec![0, 1]));
    assert!(!solver.assign(vec![4, 1, 0]));
    assert!(!solver.assign(vec![0, 2, 0]));
    assert!(!solver.assign(vec![0, 9, 0]));
    assert_eq!(solver.assignment, before);
    assert!(solver.assign(vec![0, 5, 4]));
    assert_eq!(solver.assignment, vec![0, 5, 4]);
}

#[test]
fn random_assignments_keep_labels_and_the_first_room() {
    let mut solver =
        SimulatedAnnealingSolver::new("0123450123", "01230123012", 12).unwrap();
    for round in 0..50 {
        if round % 2 == 0 {
            solver.randomize();
        } else {
            solver.kick(3, 5);
        }
        assert_eq!(solver.assignment[0], 0);
        for i in 0..solver.assignment.len() {
            assert!(solver.assignment[i] < 12);
            assert_eq!(solver.assignment[i] % 4, solver.observed_labels[i]);
        }
        let cost = solver.cost();
        solver.recalculate_cost();
        assert_eq!(solver.cost(), cost);
    }
}

#[test]
fn kick_with_no_odds_keeps_the_assignment() {
    let mut solver =
        SimulatedAnnealingSolver::new("0123450123", "01230123012", 12).unwrap();
    solver.randomize();
    let before = solver.assignment.clone();
    solver.kick(0, 20);
    assert_eq!(solver.assignment, before);
}

#[test]
fn proposals_are_moves_that_may_be_made() {
    let mut solver =
        SimulatedAnnealingSolver::new("0123450123", "01230123012", 12).unwrap();
    for _ in 0..200 {
        let (obs_idx, room) = solver.propose();
        assert!(obs_idx >= 1 && obs_idx < solver.assignment.len());
        assert!(room < 12);
        assert_eq!(room % 4, solver.observed_labels[obs_idx]);
        solver.update_point(obs_idx, room);
    }
    let cost = solver.cost();
    solver.recalculate_cost();
    assert_eq!(solver.cost(), cost);
}

#[test]
fn base_map_holds_the_doors_of_the_trace() {
    let solver = SimulatedAnnealingSolver::new("01201201201", "012012012012", 3).unwrap();
    let base = solver.build_base_map();
    assert_eq!(base.num_rooms, 3);
    assert_eq!(base.starting_room, 0);
    assert_eq!(base.connections.len(), 3);
    assert_eq!(base.connections[&(0, 0)], 1);
    assert_eq!(base.connections[&(1, 1)], 2);
    assert_eq!(base.connections[&(2, 2)], 0);
}

#[test]
fn inequalities_are_counted_in_the_cost() {
    // Position 0 shows label 0 and sees label 1 behind door 0; positions 2
    // and 3 show label 0 and see label 0 behind door 0.
    let mut solver = SimulatedAnnealingSolver::new("0000", "01000", 5).unwrap();
    assert_eq!(solver.known_inequalities, vec![(0, 2), (0, 3)]);
    assert_eq!(solver.known_inequalities_by_obs_idx[0], vec![2, 3]);
    assert_eq!(solver.known_inequalities_by_obs_idx[2], vec![0]);
    assert_eq!(solver.cost(), 2);
    solver.update_point(2, 4);
    assert_eq!(solver.cost(), 1);
    solver.update_point(3, 4);
    assert_eq!(solver.cost(), 0);
}

#[test]
fn rooms_drawn_are_taken_and_the_others_stay() {
    let mut solver = SimulatedAnnealingSolver::new("00", "010", 6).unwrap();
    assert_eq!(solver.assignment, vec![0, 1, 0]);
    assert!(solver.redraw(&vec![Some(4), Some(5), None]));
    assert_eq!(solver.assignment, vec![0, 5, 0]);
    assert!(solver.redraw(&vec![None, None, Some(4)]));
    assert_eq!(solver.assignment, vec![0, 5, 4]);
    assert!(solver.redraw(&vec![]));
    assert_eq!(solver.assignment, vec![0, 5, 4]);
    assert!(solver.redraw(&vec![None, Some(1), Some(0), Some(3)]));
    assert_eq!(solver.assignment, vec![0, 1, 0]);
    let cost = solver.cost();
    solver.recalculate_cost();
    assert_eq!(solver.cost(), cost);
}

#[test]
fn a_room_with_the_wrong_label_is_not_taken() {
    let mut solver = SimulatedAnnealingSolver::new("00", "010", 6).unwrap();
    assert!(solver.redraw(&vec![None, Some(5), Some(4)]));
    assert!(!solver.redraw(&vec![None, Some(1), Some(2)]));
    assert!(!solver.redraw(&vec![None, Some(9)]));
    assert_eq!(solver.assignment, vec![0, 5, 4]);
}

#[test]
fn four_rooms_at_most_leave_nothing_to_the_draws() {
    let mut solver = SimulatedAnnealingSolver::new("01201201201", "012012012012", 3).unwrap();
    let steps = vec![
        aedificium::plan::PlanStep::Move(0),
        aedificium::plan::PlanStep::Move(1),
    ];
    let found = solver.solve(|| false, |_rise, _cooled| false, &steps, &vec![0, 1, 2], 1);
    assert_eq!(found, Some(vec![0, 1, 2, 0, 1, 2, 0, 1, 2, 0, 1, 2]));
    assert_eq!(solver.cost(), 0);
    for _ in 0..20 {
        solver.kick(3, 5);
        solver.randomize();
        assert_eq!(solver.assignment, vec![0, 1, 2, 0, 1, 2, 0, 1, 2, 0, 1, 2]);
    }
}
