//! Soundness checking for functions that contain unsafe code.
//!
//! A program is handed over as a table of functions with control-flow graphs.
//! Functions that wrap unsafe blocks are walked path by path and every call
//! to a guarded API is held against the safety contracts the API declares;
//! functions that are unsafe as a whole are asked which contracts their call
//! chains exercise.
//!
//! * `program`, `facts`, `catalog`: what is analysed and against what.
//! * `graph`, `resolver`: reachability, and which functions each call may
//!   invoke.
//! * `order`, `walk`, `summary`, `inter_record`, `visitor`: the walk over one
//!   body, what calls contribute to it, the cache of those contributions, and
//!   the outcome of each guarded call.
//! * `annotation`: the contracts that a call chain exercises.
//! * `driver`, `report`: the run over a whole program and what it says.
//! * `laws`, `coverage`, `provenance`: what holds of every run.

pub mod annotation;
pub mod catalog;
pub mod coverage;
pub mod driver;
pub mod facts;
pub mod graph;
pub mod inter_record;
pub mod laws;
pub mod order;
pub mod program;
pub mod provenance;
pub mod report;
pub mod resolver;
pub mod summary;
pub mod visitor;
pub mod walk;

pub use driver::{CheckLevel, SenryxCheck};
