//! What the program is doing.

use vstd::prelude::*;

use crate::config::settings;
use crate::config::settings::PordaConfig;
use crate::single::Single;
use crate::vision::detection::{CoverMode, CoverRect, Detection, DetectionState};
use crate::vision::geometry::{ColorRgb, ScreenRect};

verus! {

/// What the program is doing. Times are in milliseconds of some clock.
#[derive(Debug, Clone)]
pub struct AppState {
    pub config: PordaConfig,
    pub detection_state: DetectionState,
    pub is_active: bool,
    pub last_detections: Vec<Detection>,
    pub covers: Vec<CoverRect>,
    pub window_rects: Vec<ScreenRect>,
    pub last_detection_time: Option<u64>,
    pub cpu_usage: Single,
}

/// The state before anything happened: detection is off.
pub open spec fn fresh(s: AppState, config: PordaConfig) -> bool {
    &&& s.config == config
    &&& s.detection_state == DetectionState::Sleep
    &&& !s.is_active
    &&& s.last_detections@.len() == 0
    &&& s.covers@.len() == 0
    &&& s.window_rects@.len() == 0
    &&& s.last_detection_time is None
    &&& s.cpu_usage == Single { bits: 0 }
}

/// How things are covered by the settings.
pub open spec fn cover_mode(overlay: settings::OverlayConfig) -> CoverMode {
    if overlay.is_blur {
        CoverMode::Blur
    } else if overlay.is_solid_color {
        CoverMode::SolidColor
    } else {
        CoverMode::BackgroundColor
    }
}

impl AppState {
    /// Detection is on, and the processor is not too busy for it.
    pub open spec fn runs(self) -> bool {
        &&& self.is_active
        &&& !(self.config.performance.is_allow_max_cpu_limit && self.cpu_usage.spec_gt(
            Single::of_int(self.config.performance.max_cpu_limit as int),
        ))
    }

    pub fn new(config: PordaConfig) -> (r: Self)
        ensures
            fresh(r, config),
    {
        AppState {
            config,
            detection_state: DetectionState::Sleep,
            is_active: false,
            last_detections: Vec::new(),
            covers: Vec::new(),
            window_rects: Vec::new(),
            last_detection_time: None,
            cpu_usage: Single { bits: 0 },
        }
    }

    pub fn confidence_threshold(&self) -> (r: Single)
        ensures
            r == settings::percentage(self.config.detection.accuracy),
    {
        self.config.confidence_threshold()
    }

    pub fn target_classes(&self) -> (r: Vec<i32>)
        ensures
            r@ == settings::classes(
                self.config.detection.is_detect_male,
                self.config.detection.is_detect_female,
            ),
    {
        self.config.target_classes()
    }

    pub fn cover_mode(&self) -> (r: CoverMode)
        ensures
            r == cover_mode(self.config.overlay),
    {
        if self.config.overlay.is_blur {
            CoverMode::Blur
        } else if self.config.overlay.is_solid_color {
            CoverMode::SolidColor
        } else {
            CoverMode::BackgroundColor
        }
    }

    pub fn solid_color(&self) -> (r: ColorRgb)
        ensures
            r == self.config.overlay.rgb_color,
    {
        self.config.overlay.rgb_color
    }

    /// Whether to look at the screen now.
    pub fn should_run_detection(&self) -> (r: bool)
        ensures
            r == self.runs(),
    {
        if !self.is_active {
            return false;
        }
        let limit = Single::from_u64(self.config.performance.max_cpu_limit as u64);
        !(self.config.performance.is_allow_max_cpu_limit && self.cpu_usage.gt(limit))
    }

    pub fn detection_interval_ms(&self) -> (r: u64)
        ensures
            r == self.config.detection.active_timeout_ms,
    {
        self.config.detection.active_timeout_ms
    }

    /// The screen was looked at: detection stays on until it is turned off.
    pub fn update_detection_state(&mut self, has_detections: bool, now: u64)
        ensures
            *final(self) == (AppState {
                detection_state: if old(self).is_active {
                    DetectionState::Active
                } else {
                    DetectionState::Sleep
                },
                last_detection_time: if old(self).is_active && has_detections {
                    Some(now)
                } else {
                    old(self).last_detection_time
                },
                ..*old(self)
            }),
    {
        if !self.is_active {
            self.detection_state = DetectionState::Sleep;
            return;
        }
        self.detection_state = DetectionState::Active;
        if has_detections {
            self.last_detection_time = Some(now);
        }
    }
}

/// A program that has just been started does not look at the screen.
pub proof fn law_starts_off(s: AppState, config: PordaConfig)
    requires
        fresh(s, config),
    ensures
        !s.runs(),
{
}

/// Blurring comes before a plain colour, and a plain colour before that of the background.
pub proof fn law_cover_mode(overlay: settings::OverlayConfig)
    ensures
        (cover_mode(overlay) is Blur) == overlay.is_blur,
        (cover_mode(overlay) is SolidColor) == (!overlay.is_blur && overlay.is_solid_color),
        (cover_mode(overlay) is BackgroundColor) == (!overlay.is_blur && !overlay.is_solid_color),
{
}

} // verus!
