//! Preemptive resource-constrained project scheduling: project networks,
//! their unit-duration expansion, serial schedule generation and the
//! neighbourhood searches built on it.

pub mod model;
pub mod rn_resource;
pub mod rn_resource_usage;
pub mod activity;
pub mod error;
pub mod text;
pub mod utils;
pub mod instance;
pub mod random_rcpsp;
pub mod expansion;
pub mod project;
pub mod validate;
pub mod schedule;
pub mod walk;
pub mod rng;
pub mod state;
pub mod tabu_mv;
pub mod tabu_search;
pub mod simulated_annealing;
pub mod laws;
pub mod chart;
pub mod sa_state;
