use aedificium::base_map::BaseMap;
use aedificium::error::SolveError;
use fxhash::FxHashMap;

fn base_map(num_rooms: usize, entries: &[((usize, usize), usize)]) -> BaseMap {
    let mut connections = FxHashMap::default();
    for (key, to) in entries {
        connections.insert(*key, *to);
    }
    BaseMap {
        num_rooms,
        starting_room: 0,
        connections,
    }
}

#[test]
fn doors_back_are_added_at_the_lowest_free_doors() {
    // Room 0 has two doors to room 1, room 1 has none back; room 2 has one
    // door to room 1.
    let partial = base_map(3, &[((0, 0), 1), ((0, 3), 1), ((2, 0), 1)]);
    let full = partial.fill_missing_connections();
    assert_eq!(full.num_rooms, 3);
    assert_eq!(full.starting_room, 0);
    assert_eq!(full.connections.len(), 18);
    assert_eq!(full.connections[&(0, 0)], 1);
    assert_eq!(full.connections[&(0, 3)], 1);
    assert_eq!(full.connections[&(2, 0)], 1);
    assert_eq!(full.connections[&(1, 0)], 0);
    assert_eq!(full.connections[&(1, 1)], 0);
    assert_eq!(full.connections[&(1, 2)], 2);
    for door in 3..6 {
        assert_eq!(full.connections[&(1, door)], 1);
    }
    for door in [1, 2, 4, 5] {
        assert_eq!(full.connections[&(0, door)], 0);
    }
    for door in 1..6 {
        assert_eq!(full.connections[&(2, door)], 2);
    }
}

#[test]
fn a_room_without_free_doors_stays_in_debt() {
    let mut entries = Vec::new();
    for door in 0..6 {
        entries.push(((0, door), 1));
        entries.push(((1, door), 1));
    }
    let partial = base_map(2, &entries);
    let full = partial.fill_missing_connections();
    assert_eq!(full.connections, partial.connections);
    assert!(matches!(
        full.build_bidirectional_door_map(),
        Err(SolveError::BaseMapInconsistent)
    ));
    assert!(matches!(
        partial.to_submission_map(),
        Err(SolveError::BaseMapInconsistent)
    ));
}

#[test]
fn doors_are_paired_both_ways() {
    let partial = base_map(3, &[((0, 0), 1), ((0, 3), 1), ((2, 0), 1)]);
    let full = partial.fill_missing_connections();
    for _ in 0..20 {
        let pairs = full.build_bidirectional_door_map().unwrap();
        assert_eq!(pairs.len(), 18);
        for room in 0..3 {
            for door in 0..6 {
                let partner = pairs[&(room, door)];
                assert_eq!(partner.0, full.connections[&(room, door)]);
                assert_eq!(pairs[&partner], (room, door));
            }
        }
    }
}

#[test]
fn submission_lists_each_pair_once() {
    let partial = base_map(3, &[((0, 0), 1), ((0, 3), 1), ((2, 0), 1)]);
    let map = partial.to_submission_map().unwrap();
    assert_eq!(map.rooms, vec![0, 1, 2]);
    assert_eq!(map.starting_room, 0);
    let mut seen = std::collections::HashSet::new();
    for connection in &map.connections {
        assert!(seen.insert((connection.from.room, connection.from.door)));
        if connection.from != connection.to {
            assert!(seen.insert((connection.to.room, connection.to.door)));
        }
        assert!(connection.from.room < 3 && connection.from.door < 6);
        assert!(connection.to.room < 3 && connection.to.door < 6);
    }
    assert_eq!(seen.len(), 18);
}

#[test]
fn one_room_pairs_its_doors_among_themselves() {
    let full = base_map(1, &[]).fill_missing_connections();
    for door in 0..6 {
        assert_eq!(full.connections[&(0, door)], 0);
    }
    for _ in 0..20 {
        let map = base_map(1, &[]).to_submission_map().unwrap();
        assert_eq!(map.rooms, vec![0]);
        let mut doors = Vec::new();
        for connection in &map.connections {
            assert_eq!(connection.from.room, 0);
            assert_eq!(connection.to.room, 0);
            assert!(connection.from.door <= connection.to.door);
            doors.push(connection.from.door);
            if connection.from.door != connection.to.door {
                doors.push(connection.to.door);
            }
        }
        doors.sort();
        assert_eq!(doors, vec![0, 1, 2, 3, 4, 5]);
    }
}

#[test]
fn labels_go_round_every_four_rooms() {
    let map = base_map(6, &[]).to_submission_map().unwrap();
    assert_eq!(map.rooms, vec![0, 1, 2, 3, 0, 1]);
}

#[test]
fn connections_are_listed_door_by_door() {
    let partial = base_map(3, &[((2, 0), 1), ((0, 3), 1), ((0, 0), 2)]);
    assert_eq!(
        partial.print_connections(),
        vec![((0, 0), 2), ((0, 3), 1), ((2, 0), 1)]
    );
    assert!(base_map(2, &[]).print_connections().is_empty());
}
