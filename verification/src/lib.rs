//! A task runner for cargo: the AtAt metadata format, task metadata,
//! task ordering and the environment that tasks are run in.

pub mod at_at;
pub mod cargo_task_util;
pub mod env_loader;
pub mod env_vars;
pub mod exec;
pub mod order;
pub mod semver;
pub mod task;
pub mod text;
