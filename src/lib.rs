//! Data model and analysis core of a local code-review assistant: review
//! modes, the scanned repository model, dependency-cycle detection, review
//! context assembly and the pipeline state machine.

pub mod text;
pub mod review_mode;
pub mod repository;
pub mod graph;
pub mod ranking;
pub mod context;
pub mod state;
