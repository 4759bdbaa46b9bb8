use aedificium::api::ExploreResponse;
use aedificium::error::SolveError;
use aedificium::plan::PlanStep;
use aedificium::trace::TraceModel;

fn response(results: Vec<Vec<usize>>) -> ExploreResponse {
    ExploreResponse {
        results,
        query_count: 3,
    }
}

#[test]
fn traces_are_aligned_with_their_plans() {
    let answer = response(vec![vec![0, 1, 2], vec![0, 3, 1, 0, 2]]);
    let model = TraceModel::new("[3]0[0]1", &answer).unwrap();
    assert_eq!(model.simple_plan, "01");
    assert_eq!(model.simple_results, vec![0, 1, 2]);
    assert_eq!(
        model.full_plan,
        vec![
            PlanStep::ChangeLabel(3),
            PlanStep::Move(0),
            PlanStep::ChangeLabel(0),
            PlanStep::Move(1),
        ]
    );
    assert_eq!(model.labelled_results, vec![0, 3, 1, 0, 2]);
}

#[test]
fn traces_of_the_wrong_length_are_refused() {
    for results in [
        vec![vec![0, 1, 2]],
        vec![vec![0, 1], vec![0, 3, 1, 0, 2]],
        vec![vec![0, 1, 2], vec![0, 3, 1, 0]],
        vec![vec![0, 1, 2], vec![0, 3, 1, 0, 2], vec![0]],
    ] {
        let refused = TraceModel::new("[3]0[0]1", &response(results));
        assert!(matches!(
            refused,
            Err(SolveError::ObservationLengthMismatch)
        ));
    }
}

#[test]
fn a_malformed_plan_is_refused_before_its_traces_are_read() {
    let refused = TraceModel::new("[3]0[0", &response(vec![]));
    assert!(matches!(refused, Err(SolveError::MalformedPlan)));
}

#[test]
fn an_empty_plan_has_the_first_observation_only() {
    let model = TraceModel::new("", &response(vec![vec![0], vec![0]])).unwrap();
    assert_eq!(model.simple_plan, "");
    assert!(model.full_plan.is_empty());
}
