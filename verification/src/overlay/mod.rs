//! The overlay that shows the covers.

pub mod compositor;
pub mod overlay_window;
pub mod shm;
pub mod wl_overlay;
