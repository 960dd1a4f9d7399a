//! Simulation of a set-associative LRU cache over memory access traces.
pub mod lru;
pub mod syntax;
pub mod expansion;
pub mod trace;
pub mod simulation;
pub mod simulation_result;
pub mod access_trace;
