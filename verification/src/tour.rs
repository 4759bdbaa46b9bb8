//! Reading the answer to a tour of a known graph.

use crate::utils::Action;
use vstd::prelude::*;

verus! {

/// A graph of rooms whose doors are known: `doors[i][j]` is the room that
/// door `j` of room `i` leads to.
pub struct Graph {
    pub labels: Vec<usize>,
    pub doors: Vec<Vec<usize>>,
}

/// One move of a tour: the room it leaves, the door it takes and the label
/// seen behind the door.
#[derive(Clone, Copy, Debug, PartialEq, Eq, Structural)]
pub struct LayerPathResult {
    pub room_id_on_plane: usize,
    pub door_id: usize,
    pub target_label: usize,
}

impl Graph {
    /// Every room has six doors, and every door leads to a room.
    pub open spec fn wf(&self) -> bool {
        &&& self.doors.len() >= 1
        &&& forall|r: int| 0 <= r < self.doors.len() ==> (#[trigger] self.doors[r]).len() == 6
        &&& forall|r: int, d: int|
            0 <= r < self.doors.len() && 0 <= d < 6 ==> #[trigger] self.doors[r][d]
                < self.doors.len()
    }
}

/// The room in which a tour from room 0 stands after its first `n` actions.
pub open spec fn room_after(graph: Graph, actions: Seq<Action>, n: int) -> usize
    decreases n,
{
    if n <= 0 {
        0
    } else {
        let before = room_after(graph, actions, n - 1);
        match actions[n - 1] {
            Action::Door(d) => graph.doors[before as int][d as int],
            Action::Mark(_) => before,
        }
    }
}

/// The moves among the first `n` actions of a tour from room 0, each with
/// the room it leaves and the label seen after it.
pub open spec fn moves_of(graph: Graph, actions: Seq<Action>, result: Seq<usize>, n: int) -> Seq<
    LayerPathResult,
>
    decreases n,
{
    if n <= 0 {
        Seq::empty()
    } else {
        let before = moves_of(graph, actions, result, n - 1);
        match actions[n - 1] {
            Action::Door(d) => before.push(
                LayerPathResult {
                    room_id_on_plane: room_after(graph, actions, n - 1),
                    door_id: d,
                    target_label: result[n],
                },
            ),
            Action::Mark(_) => before,
        }
    }
}

/// Whether every door that a list of actions presses is one of the six.
pub open spec fn doors_exist(actions: Seq<Action>) -> bool {
    forall|i: int|
        0 <= i < actions.len() ==> (#[trigger] actions[i] matches Action::Door(d) ==> d < 6)
}

/// Lists the moves of a tour from room 0 through a known graph: for each
/// door pressed, the room it was pressed in, the door, and the label seen
/// behind it.
pub fn parse_query_result(graph: &Graph, actions: &Vec<Action>, result: &Vec<usize>) -> (res: Vec<
    LayerPathResult,
>)
    requires
        graph.wf(),
        doors_exist(actions@),
        result.len() == actions.len() + 1,
    ensures
        res@ == moves_of(*graph, actions@, result@, actions.len() as int),
{
    let mut res: Vec<LayerPathResult> = Vec::new();
    let mut current_room: usize = 0;
    let mut i: usize = 0;
    while i < actions.len()
        invariant
            i <= actions.len(),
            graph.wf(),
            doors_exist(actions@),
            result.len() == actions.len() + 1,
            current_room == room_after(*graph, actions@, i as int),
            current_room < graph.doors.len(),
            res@ == moves_of(*graph, actions@, result@, i as int),
        decreases actions.len() - i,
    {
        match actions[i] {
            Action::Door(door) => {
                res.push(
                    LayerPathResult {
                        room_id_on_plane: current_room,
                        door_id: door,
                        target_label: result[i + 1],
                    },
                );
                current_room = graph.doors[current_room][door];
            },
            Action::Mark(_mark) => {},
        }
        i = i + 1;
    }
    res
}

} // verus!
