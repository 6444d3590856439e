//! The window of the program.

pub mod app;
pub mod commands;
pub mod state;
