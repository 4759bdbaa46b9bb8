//! The two traces of one attempt: a doors-only plan and the same doors with
//! a label written before each, each with the labels that the oracle saw.

use crate::api::ExploreResponse;
use crate::error::SolveError;
use crate::plan::{doors_only, parse_full_plan, steps_from, PlanStep};
use vstd::prelude::*;

verus! {

/// The plans of one attempt and what was observed along them, aligned: one
/// observation per step and one more for the start.
#[derive(Debug)]
pub struct TraceModel {
    /// The doors of both plans, as text.
    pub simple_plan: String,
    /// The labels seen along the doors-only plan.
    pub simple_results: Vec<usize>,
    /// The steps of the labelled plan.
    pub full_plan: Vec<PlanStep>,
    /// The labels seen along the labelled plan.
    pub labelled_results: Vec<usize>,
}

/// What keeps the answer to an exploration from being the traces of a
/// labelled plan and its doors, if anything does.
pub open spec fn trace_refusal(plan: Seq<char>, results: Seq<Vec<usize>>) -> Option<SolveError> {
    match steps_from(plan, 0) {
        None => Some(SolveError::MalformedPlan),
        Some(steps) => if results.len() != 2 || results[0].len() != doors_only(steps).len() + 1
            || results[1].len() != steps.len() + 1 {
            Some(SolveError::ObservationLengthMismatch)
        } else {
            None
        },
    }
}

impl TraceModel {
    /// Every plan has one observation per step and one more.
    pub open spec fn wf(&self) -> bool {
        &&& self.simple_results.len() == self.simple_plan@.len() + 1
        &&& self.labelled_results.len() == self.full_plan.len() + 1
        &&& self.simple_plan@ == doors_only(self.full_plan@)
    }

    /// Reads a labelled plan and the answer to the exploration of its doors
    /// alone, first, and of the plan itself, second.
    pub fn new(labelled_plan: &str, response: &ExploreResponse) -> (r: Result<
        TraceModel,
        SolveError,
    >)
        ensures
            match r {
                Ok(model) => {
                    &&& trace_refusal(labelled_plan@, response.results@) is None
                    &&& model.wf()
                    &&& steps_from(labelled_plan@, 0) == Some(model.full_plan@)
                    &&& model.simple_results@ == response.results[0]@
                    &&& model.labelled_results@ == response.results[1]@
                },
                Err(e) => trace_refusal(labelled_plan@, response.results@) == Some(e),
            },
    {
        let (full_plan, simple_plan) = match parse_full_plan(labelled_plan) {
            Ok(parsed) => parsed,
            Err(e) => {
                return Err(e);
            },
        };
        let doors = simple_plan.as_str().unicode_len();
        let steps = full_plan.len();
        if response.results.len() != 2 {
            return Err(SolveError::ObservationLengthMismatch);
        }
        let simple_len = response.results[0].len();
        let labelled_len = response.results[1].len();
        if doors == usize::MAX || simple_len != doors + 1 || steps == usize::MAX || labelled_len
            != steps + 1 {
            return Err(SolveError::ObservationLengthMismatch);
        }
        let simple_results = copy_labels(&response.results[0]);
        let labelled_results = copy_labels(&response.results[1]);
        Ok(TraceModel { simple_plan, simple_results, full_plan, labelled_results })
    }
}

/// Copies a list of labels.
fn copy_labels(v: &Vec<usize>) -> (copy: Vec<usize>)
    ensures
        copy@ == v@,
{
    let mut copy: Vec<usize> = Vec::new();
    let mut i: usize = 0;
    while i < v.len()
        invariant
            i <= v.len(),
            copy@ == v@.take(i as int),
        decreases v.len() - i,
    {
        copy.push(v[i]);
        proof {
            assert(v@.take(i + 1) =~= v@.take(i as int).push(v[i as int]));
        }
        i = i + 1;
    }
    proof {
        assert(v@.take(v.len() as int) =~= v@);
    }
    copy
}

} // verus!
