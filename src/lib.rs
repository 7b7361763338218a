//! Weighted finite-state transducers: semirings, vector FSTs, transition
//! mappers, lazy composition and label reachability.
pub mod cache;
pub mod compose;
pub mod compose_filter;
pub mod converter;
pub mod determinize;
pub mod fst;
pub mod interval_set;
pub mod label_reachable;
pub mod lazy_fst;
pub mod mapper;
pub mod matcher;
pub mod reachability;
pub mod semiring;
pub mod state_table;
