pub mod capture;
pub mod channel;
pub mod config;
pub mod inference;
pub mod numeric;
pub mod overlay;
pub mod path;
pub mod platform;
pub mod ranking;
pub mod runtime;
pub mod single;
pub mod systray;
pub mod text;
pub mod ui;
pub mod vision;
