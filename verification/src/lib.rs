//! Hierarchical task orchestration: a forest of milestones, tasks and
//! subtasks with dependency edges, lifecycle state and coupled
//! version-control state, with machine-checked contracts.

pub mod id;
pub mod types;
pub mod order;
pub mod model;
pub mod vcs;
pub mod error;
pub mod store;
pub mod graph;
pub mod task_service;
pub mod readiness;
pub mod workflow;
pub mod context;
pub mod commands;
pub mod laws;
