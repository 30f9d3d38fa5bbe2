//! Route search for trucks that serve container pickup and delivery requests, with fuel,
//! time windows and a depot where empty containers are loaded and unloaded. The routes of
//! each truck are searched with dominance pruning, and the routes of all trucks are combined
//! into the shortest known combination that serves every request exactly once.

pub mod data;
pub mod format;
pub mod solver;
