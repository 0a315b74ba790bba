//! Verified core of a workflow engine for chains of computational jobs:
//! dependency graphs, task state bookkeeping, scheduling decisions and the
//! text handling around batch schedulers.
pub mod castep;
pub mod cycle;
pub mod cli;
pub mod command;
pub mod dag;
pub mod error;
pub mod executor;
pub mod monitoring;
pub mod pipeline;
pub mod process;
pub mod queued;
pub mod run;
pub mod scheduler;
pub mod schema;
pub mod state;
pub mod task;
pub mod text;
pub mod workflow;

pub use error::WorkflowError;
