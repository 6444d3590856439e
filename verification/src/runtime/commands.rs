//! What the parts of the program tell each other.

use vstd::prelude::*;

use crate::config::settings::PordaConfig;
use crate::single::Single;
use crate::vision::detection::{CoverRect, DetectionState};

verus! {

/// What is wanted of the program.
#[derive(Debug)]
pub enum UiCommand {
    SaveSettings,
    LoadSettings(PordaConfig),
    RestoreDefaults,
    Activate,
    Deactivate,
    ToggleActivation,
    ApplySettings(PordaConfig),
    Terminate,
    TakeScreenshot,
    RefreshHotkeys,
    RefreshOverlay,
    ConfigureGlobalShortcut,
}

/// What happened in the program.
#[derive(Debug)]
pub enum CoreEvent {
    DetectionStateChange(DetectionState),
    CpuUsageUpdate(Single),
    CoversUpdated(Vec<CoverRect>),
    ScreenshotTaken(String),
    Error(String),
    ConfigSaved,
    ConfigLoaded(PordaConfig),
    Terminated,
}

} // verus!
