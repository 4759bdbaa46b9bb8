use aedificium::signature::{find_signatures_ineqs, index_by_observation};

#[test]
fn equal_doors_with_different_labels_tell_two_positions_apart() {
    let ineqs = find_signatures_ineqs(&vec![0, 1, 1, 0], &vec![0, 1, 2, 0, 2]);
    assert_eq!(ineqs, vec![(0, 3)]);
}

#[test]
fn positions_with_different_labels_are_not_compared() {
    let ineqs = find_signatures_ineqs(&vec![0, 1, 1, 0], &vec![0, 1, 2, 1, 0]);
    assert!(ineqs.is_empty());
}

#[test]
fn longer_signatures_are_found_too() {
    // Positions 0 and 3 agree on two doors and one label, then differ.
    let doors = vec![0, 1, 2, 0, 1, 2];
    let labels = vec![0, 1, 2, 0, 1, 3, 0];
    let ineqs = find_signatures_ineqs(&doors, &labels);
    assert_eq!(ineqs, vec![(0, 3), (1, 4)]);
}

#[test]
fn each_pair_is_listed_once_in_order() {
    let doors = vec![0, 0, 0, 0, 0, 0];
    let labels = vec![0, 0, 0, 0, 0, 0, 1];
    let ineqs = find_signatures_ineqs(&doors, &labels);
    let mut sorted = ineqs.clone();
    sorted.sort();
    sorted.dedup();
    assert_eq!(ineqs, sorted);
    for p in 0..6 {
        for q in (p + 1)..6 {
            assert!(ineqs.contains(&(p, q)));
        }
    }
    assert_eq!(ineqs.len(), 15);
}

#[test]
fn empty_plan_gives_no_inequality() {
    assert!(find_signatures_ineqs(&vec![], &vec![0]).is_empty());
}

#[test]
fn index_lists_both_ends_of_each_pair() {
    let by_obs = index_by_observation(&vec![(0, 3), (1, 3), (0, 2)], 4);
    assert_eq!(by_obs, vec![vec![3, 2], vec![3], vec![0], vec![0, 1]]);
}
