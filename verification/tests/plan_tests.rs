use aedificium::error::SolveError;
use aedificium::plan::{parse_digits, parse_full_plan, plan_text, PlanStep};

#[test]
fn parses_moves_and_label_writes() {
    let (steps, doors) = parse_full_plan("[2]0[3]0[1]").unwrap();
    assert_eq!(
        steps,
        vec![
            PlanStep::ChangeLabel(2),
            PlanStep::Move(0),
            PlanStep::ChangeLabel(3),
            PlanStep::Move(0),
            PlanStep::ChangeLabel(1),
        ]
    );
    assert_eq!(doors, "00");
}

#[test]
fn rejects_what_is_no_token() {
    assert_eq!(parse_full_plan("01x"), Err(SolveError::MalformedPlan));
    assert_eq!(parse_full_plan("0[1"), Err(SolveError::MalformedPlan));
    assert_eq!(parse_full_plan("[4]"), Err(SolveError::MalformedPlan));
    assert_eq!(parse_full_plan("6"), Err(SolveError::MalformedPlan));
    assert_eq!(parse_full_plan("[1)"), Err(SolveError::MalformedPlan));
}

#[test]
fn empty_plan_has_no_steps() {
    let (steps, doors) = parse_full_plan("").unwrap();
    assert!(steps.is_empty());
    assert_eq!(doors, "");
}

#[test]
fn what_is_written_reads_back() {
    let steps = vec![
        PlanStep::ChangeLabel(3),
        PlanStep::Move(5),
        PlanStep::Move(0),
        PlanStep::ChangeLabel(0),
        PlanStep::Move(2),
    ];
    let text = plan_text(&steps).unwrap();
    assert_eq!(text, "[3]50[0]2");
    let (read, doors) = parse_full_plan(&text).unwrap();
    assert_eq!(read, steps);
    assert_eq!(doors, "502");
    assert_eq!(plan_text(&vec![]).unwrap(), "");
}

#[test]
fn steps_out_of_range_are_not_written() {
    assert_eq!(
        plan_text(&vec![PlanStep::Move(0), PlanStep::Move(6)]),
        Err(SolveError::MalformedPlan)
    );
    assert_eq!(
        plan_text(&vec![PlanStep::ChangeLabel(4)]),
        Err(SolveError::MalformedPlan)
    );
}

#[test]
fn digits_are_read_up_to_a_limit() {
    assert_eq!(parse_digits("0123", 4), Some(vec![0, 1, 2, 3]));
    assert_eq!(parse_digits("0124", 4), None);
    assert_eq!(parse_digits("012345", 6), Some(vec![0, 1, 2, 3, 4, 5]));
    assert_eq!(parse_digits("01 2", 6), None);
    assert_eq!(parse_digits("", 6), Some(vec![]));
}
