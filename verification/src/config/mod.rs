//! The settings of the program.

pub mod defaults;
pub mod settings;
