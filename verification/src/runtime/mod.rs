//! The parts of the running program and what passes between them.

pub mod app_state;
pub mod commands;
pub mod pipeline;
pub mod program;
pub mod scheduler;
