//! What the program needs of the system it runs on.

pub mod capabilities;
pub mod capture;
pub mod hotkey;
pub mod hotkeys;
pub mod outputs;
pub mod portal;
pub mod process;
pub mod registry;
pub mod shortcut;
pub mod startup;
pub mod system;
pub mod tray;
pub mod windows;
