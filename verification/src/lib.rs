//! Topological summaries of agent learning trajectories: the combinatorial core.
//!
//! Filtration values (distances, births, deaths, scores) are carried here as
//! order keys: unsigned integers whose order is the order of the values they
//! stand for. Every comparison, sort, merge and count of the persistence
//! pipeline is done on these keys and verified; arithmetic on the values
//! themselves is done by the caller.

pub mod belief;
pub mod order;
pub mod linkage;
pub mod persistence;
pub mod betti;
pub mod birth_death;
pub mod phase;
pub mod robustness;
pub mod complexity;
pub mod falsification;
pub mod comparison;
pub mod matrix;
