//! Planning the scanning of books from libraries within a fixed number of days.
//!
//! A [`ScanningTask`] holds the books, the libraries and the number of days;
//! [`input`] reads one from text. The [`planner`] signs libraries up one
//! after another, each time the one to which a scorer of the caller's gives
//! the highest priority, and chooses the books that each of them scans;
//! [`planning`] holds the steps of a run, [`model`] says what a run arrives
//! at, and [`greedy`] is the planner with a plain scorer of its own. A
//! [`planner::ScanningPlan`] can be validated and scored on its own, and
//! [`output`] writes it as text. [`laws`] holds what is proved of all plans.

pub mod capacity;
pub mod copies;
pub mod greedy;
pub mod input;
pub mod laws;
pub mod model;
pub mod order;
pub mod output;
pub mod pending;
pub mod plan;
pub mod planner;
pub mod planning;
pub mod task;

pub use crate::task::{BookRef, Library, ScanningTask};
