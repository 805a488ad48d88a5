//! A declarative task-chain orchestrator.
//!
//! Chains of shell tasks are declared in a catalog together with their
//! prerequisites, parameter matrices and layered settings.  The library
//! orders the requested chains into stages, renders every task into a fully
//! resolved execution plan, and decides, event by event, how a plan is run.

pub mod args;
pub mod catalog;
pub mod engine;
pub mod env;
pub mod error;
pub mod graph;
pub mod matrix;
pub mod model;
pub mod outside;
pub mod plan;
pub mod render;
pub mod text;

pub use engine::ExecEngine;
pub use model::Config;
