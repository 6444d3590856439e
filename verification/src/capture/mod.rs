//! Pictures of the window in front.

pub mod capturer;
