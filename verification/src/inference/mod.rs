//! From the network's output to detections.

pub mod detector;
pub mod yolo;
