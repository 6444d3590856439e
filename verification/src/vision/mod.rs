//! What is seen on the screen, and what is drawn over it.

pub mod blur;
pub mod cover;
pub mod detection;
pub mod geometry;
pub mod preprocessing;
pub mod suppression;
