//! Telling rooms apart by a signature query: the frame of a greedy solver.

use crate::utils::Action;
use std::collections::HashMap;
use vstd::prelude::*;

verus! {

/// What is known of one room: its label, a route that leads to it from the
/// start, and the labels seen along the signature query from there.
#[derive(Debug)]
pub struct Identity {
    pub label: usize,
    pub route: Vec<Action>,
    pub signature: String,
}

/// The door table of `n` rooms as far as the greedy solver has filled it:
/// so far it identifies no room and hands out an empty table.
pub fn greedy_solver(n: usize) -> (table: Vec<Vec<usize>>)
    ensures
        table@ == Seq::<Vec<usize>>::empty(),
{
    Vec::new()
}

/// The rooms told apart so far, by signature: none before the first step of
/// the identification.
pub fn identify(n: usize, signature_query: &str) -> (identities: HashMap<String, Identity>)
    ensures
        identities@ == Map::<String, Identity>::empty(),
{
    HashMap::new()
}

} // verus!
