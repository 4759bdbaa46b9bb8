//! What is exchanged with the oracle: selections, explorations and guesses.

use vstd::prelude::*;

verus! {

/// One door of one room.
#[derive(Clone, Copy, Debug, PartialEq, Eq, Hash, Structural)]
pub struct RoomAndDoor {
    pub room: usize,
    pub door: usize,
}

/// A pairing of two doors; the list of a map names each pairing once.
#[derive(Clone, Copy, Debug, PartialEq, Eq, Structural)]
pub struct Connection {
    pub from: RoomAndDoor,
    pub to: RoomAndDoor,
}

/// A candidate map in the form the oracle judges.
#[derive(Debug)]
pub struct FullMap {
    pub rooms: Vec<usize>,
    pub starting_room: usize,
    pub connections: Vec<Connection>,
}

/// Body of a `/select` request.
#[derive(Debug)]
pub struct SelectRequest {
    pub id: String,
    pub problem_name: String,
}

/// Answer to a `/select` request.
#[derive(Debug)]
pub struct SelectResponse {
    pub problem_name: String,
}

/// Body of an `/explore` request.
#[derive(Debug)]
pub struct ExploreRequest {
    pub id: String,
    pub plans: Vec<String>,
}

/// Answer to an `/explore` request: one label trace per plan.
#[derive(Debug)]
pub struct ExploreResponse {
    pub results: Vec<Vec<usize>>,
    pub query_count: i32,
}

/// Body of a `/guess` request.
#[derive(Debug)]
pub struct GuessRequest {
    pub id: String,
    pub map: FullMap,
}

/// Answer to a `/guess` request.
#[derive(Clone, Copy, Debug)]
pub struct GuessResponse {
    pub correct: bool,
}

} // verus!
