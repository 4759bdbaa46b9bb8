//! Reconstruction of a hidden library of rooms from label traces.
//!
//! Every room carries a two-bit label and six doors, and every door is paired
//! with exactly one door. An explorer walks plans, sequences of door presses
//! and label overwrites, and sees the label of the room after every step.
//!
//! A doors-only trace is first folded onto a fixed number of base rooms: the
//! plans and their traces are read ([`plan`], [`trace`]), pairs of
//! observations that cannot be one room are derived ([`signature`]), and
//! simulated annealing looks for an assignment of observations to rooms that
//! costs nothing ([`sa`], with the mathematics of the cost in [`sa_model`]).
//! The assignment gives a base structure ([`base_map`]). A second trace, with
//! label overwrites, is then used to lift the base structure to one, two or
//! three layers by a depth-first search ([`dfs`], with the search as a
//! mathematical function in [`dfs_model`]), and the result is put into the
//! form in which it is submitted ([`submission`], [`api`]).
//!
//! [`outside`] holds the contracts that are taken on trust. [`utils`],
//! [`tour`] and [`greedy`] hold the actions of an explorer and helpers for
//! solvers that work on a known graph.

pub mod api;
pub mod base_map;
pub mod dfs;
pub mod dfs_model;
pub mod error;
pub mod greedy;
pub mod outside;
pub mod plan;
pub mod sa;
pub mod sa_model;
pub mod signature;
pub mod submission;
pub mod tour;
pub mod trace;
pub mod utils;
