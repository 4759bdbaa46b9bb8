use aedificium::api::FullMap;
use aedificium::plan::{parse_full_plan, PlanStep};
use aedificium::sa::SimulatedAnnealingSolver;
use rand::rngs::StdRng;
use std::cell::RefCell;
use rand::{Rng, SeedableRng};
use std::collections::HashMap;

/// A hidden library: the label of every room and the partner of every door.
struct World {
    labels: Vec<usize>,
    partner: HashMap<(usize, usize), (usize, usize)>,
}

impl World {
    fn new(labels: Vec<usize>, pairs: &[((usize, usize), (usize, usize))]) -> World {
        let mut partner = HashMap::new();
        for (a, b) in pairs {
            assert!(partner.insert(*a, *b).is_none());
            if a != b {
                assert!(partner.insert(*b, *a).is_none());
            }
        }
        for room in 0..labels.len() {
            for door in 0..6 {
                partner.entry((room, door)).or_insert((room, door));
            }
        }
        World { labels, partner }
    }

    fn of_map(map: &FullMap) -> World {
        let mut partner = HashMap::new();
        for connection in &map.connections {
            let from = (connection.from.room, connection.from.door);
            let to = (connection.to.room, connection.to.door);
            assert!(partner.insert(from, to).is_none());
            if from != to {
                assert!(partner.insert(to, from).is_none());
            }
        }
        assert_eq!(partner.len(), map.rooms.len() * 6);
        assert_eq!(map.starting_room, 0);
        World {
            labels: map.rooms.clone(),
            partner,
        }
    }

    fn explore(&self, steps: &[PlanStep]) -> Vec<usize> {
        let mut labels = self.labels.clone();
        let mut room = 0;
        let mut seen = vec![labels[room]];
        for step in steps {
            match step {
                PlanStep::Move(door) => room = self.partner[&(room, *door)].0,
                PlanStep::ChangeLabel(label) => labels[room] = *label,
            }
            seen.push(labels[room]);
        }
        seen
    }

    fn rooms_visited(&self, steps: &[PlanStep]) -> Vec<usize> {
        let mut room = 0;
        let mut visited = vec![room];
        for step in steps {
            if let PlanStep::Move(door) = step {
                room = self.partner[&(room, *door)].0;
            }
            visited.push(room);
        }
        visited
    }

    /// A plan that takes every door of every room at least once.
    fn covering_plan(&self, extra: usize, rng: &mut StdRng) -> String {
        let mut taken = std::collections::HashSet::new();
        let mut room = 0;
        let mut plan = String::new();
        while taken.len() < self.labels.len() * 6 {
            let path = self.path_to_untaken(room, &taken);
            for door in path {
                taken.insert((room, door));
                plan.push(std::char::from_digit(door as u32, 10).unwrap());
                room = self.partner[&(room, door)].0;
            }
        }
        for _ in 0..extra {
            plan.push(std::char::from_digit(rng.gen_range(0..6), 10).unwrap());
        }
        plan
    }

    fn path_to_untaken(
        &self,
        start: usize,
        taken: &std::collections::HashSet<(usize, usize)>,
    ) -> Vec<usize> {
        let mut queue = std::collections::VecDeque::new();
        let mut reached = vec![false; self.labels.len()];
        queue.push_back((start, Vec::new()));
        reached[start] = true;
        while let Some((room, path)) = queue.pop_front() {
            for door in 0..6 {
                let mut longer = path.clone();
                longer.push(door);
                if !taken.contains(&(room, door)) {
                    return longer;
                }
                let next = self.partner[&(room, door)].0;
                if !reached[next] {
                    reached[next] = true;
                    queue.push_back((next, longer));
                }
            }
        }
        panic!("every door is taken");
    }

    /// Whether no walk from the starting rooms tells the two worlds apart.
    fn same_as(&self, other: &World) -> bool {
        let mut twin: HashMap<usize, usize> = HashMap::new();
        let mut open = vec![(0usize, 0usize)];
        twin.insert(0, 0);
        while let Some((mine, theirs)) = open.pop() {
            if self.labels[mine] != other.labels[theirs] {
                return false;
            }
            for door in 0..6 {
                let my_next = self.partner[&(mine, door)].0;
                let their_next = other.partner[&(theirs, door)].0;
                match twin.get(&my_next) {
                    Some(known) => {
                        if *known != their_next {
                            return false;
                        }
                    }
                    None => {
                        twin.insert(my_next, their_next);
                        open.push((my_next, their_next));
                    }
                }
            }
        }
        true
    }
}

fn with_label_writes(simple_plan: &str, rng: &mut StdRng) -> String {
    let mut plan = String::new();
    for door in simple_plan.chars() {
        plan.push_str(&format!("[{}]", rng.gen_range(0..4)));
        plan.push(door);
    }
    plan
}

fn text_of(labels: &[usize]) -> String {
    labels.iter().map(|l| format!("{}", l)).collect()
}

fn doors_only(plan: &str) -> Vec<PlanStep> {
    parse_full_plan(plan).unwrap().0
}

/// Anneals until the assignment costs nothing and lifts to a map.
fn reconstruct(
    simple_plan: &str,
    simple_results: &[usize],
    labelled_plan: &str,
    labelled_results: &[usize],
    num_rooms: usize,
    layers: usize,
    seed: u64,
) -> Option<FullMap> {
    let (steps, doors) = parse_full_plan(labelled_plan).unwrap();
    assert_eq!(doors, simple_plan);
    let labelled = labelled_results.to_vec();
    let mut solver =
        SimulatedAnnealingSolver::new(simple_plan, &text_of(simple_results), num_rooms).unwrap();
    let rng = RefCell::new(StdRng::seed_from_u64(seed));
    let found = solver.solve(
        || false,
        |rise, cooled| {
            let temperature = (100.0 * 0.99999f64.powi(cooled as i32)).max(0.01);
            rng.borrow_mut().gen::<f64>() < (-(rise as f64) / temperature).exp()
        },
        &steps,
        &labelled,
        layers,
    );
    let assignment = found?;
    assert_eq!(assignment, solver.assignment);
    assert_eq!(solver.cost(), 0);
    assert!(solver.is_valid_assignment());
    Some(solver.lift_to_layers(steps, labelled, layers).unwrap())
}

#[test]
fn three_rooms_are_reconstructed_from_their_traces() {
    let mut rng = StdRng::seed_from_u64(2025);
    let world = World::new(
        vec![0, 1, 2],
        &[
            ((0, 0), (1, 3)),
            ((0, 1), (2, 2)),
            ((0, 2), (0, 5)),
            ((1, 0), (2, 0)),
            ((1, 1), (1, 2)),
            ((1, 4), (2, 5)),
            ((0, 3), (1, 5)),
        ],
    );
    let simple_plan = world.covering_plan(18, &mut rng);
    let labelled_plan = with_label_writes(&simple_plan, &mut rng);
    let simple_results = world.explore(&doors_only(&simple_plan));
    let labelled_results = world.explore(&doors_only(&labelled_plan));
    let map = reconstruct(
        &simple_plan,
        &simple_results,
        &labelled_plan,
        &labelled_results,
        3,
        1,
        2025,
    )
    .unwrap();
    assert_eq!(map.rooms, vec![0, 1, 2]);
    let guess = World::of_map(&map);
    assert_eq!(guess.explore(&doors_only(&simple_plan)), simple_results);
    assert_eq!(guess.explore(&doors_only(&labelled_plan)), labelled_results);
    assert!(world.same_as(&guess));
}

#[test]
fn six_rooms_with_two_of_each_label_are_reconstructed() {
    let mut rng = StdRng::seed_from_u64(7);
    let world = World::new(
        vec![0, 1, 2, 3, 0, 1],
        &[
            ((0, 0), (1, 0)),
            ((1, 1), (2, 0)),
            ((2, 1), (3, 0)),
            ((3, 1), (4, 0)),
            ((4, 1), (5, 0)),
            ((5, 1), (0, 1)),
            ((0, 2), (4, 2)),
            ((1, 2), (5, 2)),
        ],
    );
    let simple_plan = world.covering_plan(36, &mut rng);
    let labelled_plan = with_label_writes(&simple_plan, &mut rng);
    let simple_results = world.explore(&doors_only(&simple_plan));
    let labelled_results = world.explore(&doors_only(&labelled_plan));
    let mut solver =
        SimulatedAnnealingSolver::new(&simple_plan, &text_of(&simple_results), 6).unwrap();
    // The assignment that the annealing is after: the rooms that were
    // visited.
    assert!(solver.assign(world.rooms_visited(&doors_only(&simple_plan))));
    assert_eq!(solver.cost(), 0);
    assert!(solver.is_valid_assignment());
    let map = solver
        .lift_to_layers(doors_only(&labelled_plan), labelled_results.clone(), 1)
        .unwrap();
    assert_eq!(map.rooms, vec![0, 1, 2, 3, 0, 1]);
    let guess = World::of_map(&map);
    assert_eq!(guess.explore(&doors_only(&simple_plan)), simple_results);
    assert_eq!(guess.explore(&doors_only(&labelled_plan)), labelled_results);
    assert!(world.same_as(&guess));
}

#[test]
fn a_stopped_run_finds_nothing() {
    let mut solver =
        SimulatedAnnealingSolver::new("0123450123", "01230123012", 12).unwrap();
    let steps = doors_only("0123450123");
    let labels = vec![0, 1, 2, 3, 0, 1, 2, 3, 0, 1, 2];
    let found = solver.solve(|| true, |_rise, _cooled| false, &steps, &labels, 1);
    assert!(found.is_none());
    assert_eq!(solver.assignment[0], 0);
    for i in 0..solver.assignment.len() {
        assert_eq!(solver.assignment[i] % 4, solver.observed_labels[i]);
    }
    let cost = solver.cost();
    solver.recalculate_cost();
    assert_eq!(solver.cost(), cost);
}

#[test]
fn annealing_steps_keep_cost_and_tables_in_line() {
    let mut rng = StdRng::seed_from_u64(3);
    let world = World::new(
        vec![0, 1, 2, 3, 0, 1],
        &[
            ((0, 0), (1, 0)),
            ((1, 1), (2, 0)),
            ((2, 1), (3, 0)),
            ((3, 1), (4, 0)),
            ((4, 1), (5, 0)),
            ((5, 1), (0, 1)),
        ],
    );
    let simple_plan = world.covering_plan(36, &mut rng);
    let simple_results = world.explore(&doors_only(&simple_plan));
    let mut solver =
        SimulatedAnnealingSolver::new(&simple_plan, &text_of(&simple_results), 6).unwrap();
    solver.randomize();
    let mut temperature: f64 = 100.0;
    for i in 0..200_000usize {
        let cost_before = solver.cost();
        assert!(cost_before >= 0);
        let (obs_idx, new_room) = solver.propose();
        let old_room = solver.assignment[obs_idx];
        solver.update_point(obs_idx, new_room);
        let cost_delta = solver.cost() - cost_before;
        if !(cost_delta < 0 || rng.gen::<f64>() < (-(cost_delta as f64) / temperature).exp()) {
            solver.update_point(obs_idx, old_room);
            assert_eq!(solver.cost(), cost_before);
        }
        temperature = (temperature * 0.9999).max(0.01);
        if i % 20_000 == 0 {
            let cost = solver.cost();
            let graph = solver.graph.clone();
            let filled = solver.filled_in_future.clone();
            let kasikari = solver.kasikari_count.clone();
            solver.recalculate_cost();
            assert_eq!(solver.cost(), cost);
            assert_eq!(solver.graph, graph);
            assert_eq!(solver.filled_in_future, filled);
            assert_eq!(solver.kasikari_count, kasikari);
        }
    }
}

#[test]
fn two_layers_are_told_apart_by_the_labels_written() {
    let mut rng = StdRng::seed_from_u64(11);
    // Two copies of a ring of three rooms; the edge from room 2 back to room
    // 0 changes the layer.
    let world = World::new(
        vec![0, 1, 2, 0, 1, 2],
        &[
            ((0, 0), (1, 1)),
            ((3, 0), (4, 1)),
            ((1, 0), (2, 1)),
            ((4, 0), (5, 1)),
            ((2, 0), (3, 1)),
            ((5, 0), (0, 1)),
        ],
    );
    let simple_plan = world.covering_plan(18, &mut rng);
    let labelled_plan = with_label_writes(&simple_plan, &mut rng);
    let simple_results = world.explore(&doors_only(&simple_plan));
    let labelled_results = world.explore(&doors_only(&labelled_plan));
    let map = reconstruct(
        &simple_plan,
        &simple_results,
        &labelled_plan,
        &labelled_results,
        3,
        2,
        11,
    )
    .unwrap();
    assert_eq!(map.rooms, vec![0, 1, 2, 0, 1, 2]);
    let guess = World::of_map(&map);
    assert_eq!(guess.explore(&doors_only(&simple_plan)), simple_results);
    assert_eq!(guess.explore(&doors_only(&labelled_plan)), labelled_results);
}
