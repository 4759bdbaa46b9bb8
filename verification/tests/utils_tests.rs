use aedificium::greedy::{greedy_solver, identify};
use aedificium::tour::{parse_query_result, Graph, LayerPathResult};
use aedificium::utils::{
    all_actions, all_doors, all_marks, get_ith_label, number_text, query_result_to_string, Action,
};

#[test]
fn doors_come_before_marks() {
    assert_eq!(all_doors().len(), 6);
    assert_eq!(all_marks().len(), 4);
    let actions = all_actions();
    assert_eq!(actions.len(), 10);
    for door in 0..6 {
        assert_eq!(actions[door], Action::Door(door));
    }
    for mark in 0..4 {
        assert_eq!(actions[6 + mark], Action::Mark(mark));
    }
}

#[test]
fn actions_are_written_as_the_oracle_reads_them() {
    assert_eq!(Action::Door(4).to_string(), "4");
    assert_eq!(Action::Mark(2).to_string(), "[2]");
    assert_eq!(Action::Door(12).to_string(), "12");
    let actions = vec![Action::Mark(0), Action::Door(5), Action::Mark(3), Action::Door(1)];
    assert_eq!(Action::vec_to_str(&actions), "[0]5[3]1");
    assert_eq!(Action::vec_to_str(&[]), "");
}

#[test]
fn digits_are_read_as_doors() {
    let actions = Action::from_string(&"0512".to_string());
    assert_eq!(
        actions,
        vec![Action::Door(0), Action::Door(5), Action::Door(1), Action::Door(2)]
    );
}

#[test]
fn labels_are_read_and_written_digit_by_digit() {
    let text = "3021".to_string();
    assert_eq!(get_ith_label(&text, 0), 3);
    assert_eq!(get_ith_label(&text, 3), 1);
    assert_eq!(query_result_to_string(&vec![3, 0, 2, 1]), "3021");
    assert_eq!(query_result_to_string(&vec![10, 0, 207]), "100207");
    assert_eq!(query_result_to_string(&vec![]), "");
}

#[test]
fn moves_of_a_tour_name_room_door_and_label() {
    let graph = Graph {
        labels: vec![0, 1],
        doors: vec![vec![1, 0, 0, 0, 0, 0], vec![0, 1, 1, 1, 1, 1]],
    };
    let actions = vec![
        Action::Mark(3),
        Action::Door(0),
        Action::Door(1),
        Action::Mark(2),
        Action::Door(0),
    ];
    let result = vec![0, 3, 1, 1, 2, 3];
    let moves = parse_query_result(&graph, &actions, &result);
    assert_eq!(
        moves,
        vec![
            LayerPathResult {
                room_id_on_plane: 0,
                door_id: 0,
                target_label: 1
            },
            LayerPathResult {
                room_id_on_plane: 1,
                door_id: 1,
                target_label: 1
            },
            LayerPathResult {
                room_id_on_plane: 1,
                door_id: 0,
                target_label: 3
            },
        ]
    );
}

#[test]
fn greedy_frame_identifies_nothing_yet() {
    assert!(greedy_solver(5).is_empty());
    assert!(identify(5, "1111111").is_empty());
}

#[test]
fn numbers_are_written_in_decimal() {
    assert_eq!(number_text(0), "0");
    assert_eq!(number_text(7), "7");
    assert_eq!(number_text(10), "10");
    assert_eq!(number_text(4096), "4096");
    assert_eq!(number_text(usize::MAX), format!("{}", usize::MAX));
}
