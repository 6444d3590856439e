//! From the screen to the covers: what is done in each turn.

use std::sync::mpsc::Sender;

use vstd::prelude::*;

use crate::channel;
use crate::config::settings;
use crate::overlay::compositor::{copy_covers, OverlayCapability};
use crate::overlay::wl_overlay::{OverlayConfig, UNIT_SCALE};
use crate::platform::outputs;
use crate::platform::outputs::{get_primary_output, Output, OutputInfo};
use crate::runtime::app_state;
use crate::runtime::app_state::AppState;
use crate::runtime::commands::CoreEvent;
use crate::single::Single;
use crate::text;
use crate::vision::cover;
use crate::vision::cover::covers_for_detections;
use crate::vision::detection::{Cover, CoverRect, Detection, DetectionState, FrameData};

verus! {

/// The pause of the turns without a look at the screen, in milliseconds.
pub const IDLE_MS: u64 = 200;

/// The same where single windows are looked at.
pub const WINDOW_IDLE_MS: u64 = 500;

/// Which detector to use.
#[derive(Debug, Clone, Copy, PartialEq, Eq, Structural)]
pub enum DetectorChoice {
    /// The stand-in.
    Mock,
    /// The network in the model, and the stand-in where it cannot be loaded.
    Model,
}

/// Chooses the detector: the stand-in if it is asked for or there is no model.
pub fn choose_detector(mock_wanted: bool, model_exists: bool) -> (r: DetectorChoice)
    ensures
        r == if !mock_wanted && model_exists {
            DetectorChoice::Model
        } else {
            DetectorChoice::Mock
        },
{
    if mock_wanted {
        DetectorChoice::Mock
    } else if model_exists {
        DetectorChoice::Model
    } else {
        DetectorChoice::Mock
    }
}

/// The size of the overlay for an output. A smaller height than the overlay needs is corrected.
pub open spec fn overlay_size(o: Option<Output>) -> (u32, u32) {
    match o {
        Some(o) => if o.geometry.width == 1920 && o.geometry.height == 1080 {
            (1920, 1200)
        } else {
            (o.geometry.width, o.geometry.height)
        },
        None => (1920, 1200),
    }
}

/// What the overlay is set to for an output.
pub open spec fn overlay_for(o: Option<Output>, config: OverlayConfig) -> bool {
    &&& (config.width, config.height) == overlay_size(o)
    &&& config.scale == match o {
        Some(o) => o.scale_factor,
        None => UNIT_SCALE,
    }
    &&& text::maybe(config.output_name) == match o {
        Some(o) => Some(o.name),
        None => None,
    }
}

/// The overlay for the primary output.
pub fn overlay_config(list: &Vec<OutputInfo>) -> (r: OverlayConfig)
    ensures
        overlay_for(outputs::primary(outputs::outputs(list@)), r),
{
    match get_primary_output(list) {
        Some(o) => {
            let (width, height): (u32, u32) = if o.geometry.width == 1920 && o.geometry.height
                == 1080 {
                (1920, 1200)
            } else {
                (o.geometry.width, o.geometry.height)
            };
            OverlayConfig {
                width,
                height,
                scale: o.scale_factor,
                output_name: Some(o.name),
            }
        },
        None => OverlayConfig { width: 1920, height: 1200, scale: UNIT_SCALE, output_name: None },
    }
}

/// Whether the covers can be shown by the compositor; else they are only kept.
pub fn shows_covers(capability: &OverlayCapability) -> (r: bool)
    ensures
        r == (*capability is Supported),
{
    match capability {
        OverlayCapability::Supported => true,
        OverlayCapability::Unsupported(_) => false,
    }
}

/// What to do in a turn.
#[derive(Debug, Clone, Copy, PartialEq, Eq, Structural)]
pub enum Step {
    /// Nothing more: the pipeline was stopped.
    Stop,
    /// A pause in milliseconds; covers from before are taken away first if `clear` holds.
    Idle { clear: bool, pause_ms: u64 },
    /// A look at the screen, and a pause in milliseconds after it.
    Look { pause_ms: u64 },
}

/// Nothing is left of what was found before.
pub open spec fn cleared(before: AppState, after: AppState) -> bool {
    &&& after.last_detections@.len() == 0
    &&& after.covers@.len() == 0
    &&& after.detection_state == DetectionState::Sleep
    &&& after == (AppState {
        last_detections: after.last_detections,
        covers: after.covers,
        detection_state: DetectionState::Sleep,
        ..before
    })
}

/// There are covers or detections from before.
pub open spec fn has_stale(s: AppState) -> bool {
    s.covers@.len() > 0 || s.last_detections@.len() > 0
}

/// What the detector is asked for.
#[derive(Debug)]
pub struct DetectionRequest {
    pub confidence_threshold: Single,
    pub nms_threshold: Single,
    pub target_classes: Vec<i32>,
    pub network_width: u32,
    pub network_height: u32,
}

/// The way from the screen to the covers.
pub struct Pipeline {
    pub event_tx: Sender<CoreEvent>,
    pub running: bool,
}

impl Pipeline {
    pub fn new(event_tx: Sender<CoreEvent>) -> (r: Self)
        ensures
            r.event_tx == event_tx,
            !r.running,
    {
        Pipeline { event_tx, running: false }
    }

    pub fn start(&mut self)
        ensures
            *final(self) == (Pipeline { running: true, ..*old(self) }),
    {
        self.running = true;
    }

    pub fn stop(&mut self)
        ensures
            *final(self) == (Pipeline { running: false, ..*old(self) }),
    {
        self.running = false;
    }

    pub fn is_running(&self) -> (r: bool)
        ensures
            r == self.running,
    {
        self.running
    }

    /// What to do in the next turn. `forced` says that the screen is looked at even if detection
    /// is off; `idle_ms` is the pause without a look. While detection is off the screen is not
    /// looked at, and what was found before is forgotten.
    pub fn next_step(&self, state: &mut AppState, forced: bool, idle_ms: u64) -> (r: Step)
        ensures
            r == if !self.running {
                Step::Stop
            } else if old(state).runs() || forced {
                Step::Look { pause_ms: old(state).config.detection.active_timeout_ms }
            } else {
                Step::Idle { clear: has_stale(*old(state)), pause_ms: idle_ms }
            },
            if r matches Step::Idle { clear, .. } && clear {
                cleared(*old(state), *final(state))
            } else {
                *final(state) == *old(state)
            },
    {
        if !self.running {
            return Step::Stop;
        }
        if state.should_run_detection() || forced {
            return Step::Look { pause_ms: state.detection_interval_ms() };
        }
        let clear = state.covers.len() > 0 || state.last_detections.len() > 0;
        if clear {
            state.covers.clear();
            state.last_detections.clear();
            state.detection_state = DetectionState::Sleep;
        }
        Step::Idle { clear, pause_ms: idle_ms }
    }

    /// Tells that the covers changed.
    pub fn covers_updated(&self, covers: Vec<CoverRect>) -> (r: bool)
        ensures
            channel::handed(self.event_tx, CoreEvent::CoversUpdated(covers), r),
    {
        channel::send(&self.event_tx, CoreEvent::CoversUpdated(covers)).is_ok()
    }
}

/// What to ask the detector for.
pub fn detection_request(state: &AppState) -> (r: DetectionRequest)
    ensures
        r.confidence_threshold == settings::percentage(state.config.detection.accuracy),
        r.nms_threshold == state.config.detection.nms_threshold,
        r.target_classes@ == settings::classes(
            state.config.detection.is_detect_male,
            state.config.detection.is_detect_female,
        ),
        r.network_width == state.config.detection.network_width,
        r.network_height == state.config.detection.network_height,
{
    DetectionRequest {
        confidence_threshold: state.confidence_threshold(),
        nms_threshold: state.config.detection.nms_threshold,
        target_classes: state.target_classes(),
        network_width: state.config.detection.network_width,
        network_height: state.config.detection.network_height,
    }
}

/// The covers for what was found in a picture, as the settings want them.
pub open spec fn wanted_covers(
    state: AppState,
    detections: Seq<Detection>,
    frame: FrameData,
) -> Seq<Cover> {
    cover::covers_of(
        detections,
        frame,
        app_state::cover_mode(state.config.overlay),
        state.config.overlay.rgb_color,
        state.window_rects@,
    )
}

pub fn covers_for_state(state: &AppState, detections: &[Detection], frame: &FrameData) -> (r: Vec<
    CoverRect,
>)
    ensures
        cover::values(r@) == wanted_covers(*state, detections@, *frame),
{
    covers_for_detections(
        detections,
        frame,
        state.cover_mode(),
        state.solid_color(),
        &state.window_rects,
    )
}

/// What was found at a time is remembered.
pub open spec fn recorded(
    before: AppState,
    after: AppState,
    detections: Seq<Detection>,
    now: u64,
) -> bool {
    &&& after.last_detections@ == detections
    &&& after == (AppState {
        last_detections: after.last_detections,
        detection_state: if before.is_active {
            DetectionState::Active
        } else {
            DetectionState::Sleep
        },
        last_detection_time: if before.is_active && detections.len() > 0 {
            Some(now)
        } else {
            before.last_detection_time
        },
        ..before
    })
}

/// Remembers what was found.
pub fn record_detections(state: &mut AppState, detections: &[Detection], now: u64)
    ensures
        recorded(*old(state), *final(state), detections@, now),
{
    let mut copy: Vec<Detection> = Vec::new();
    let mut i: usize = 0;
    while i < detections.len()
        invariant
            i <= detections@.len(),
            copy@ == detections@.take(i as int),
        decreases detections.len() - i,
    {
        copy.push(detections[i]);
        assert(copy@ =~= detections@.take(i + 1));
        i = i + 1;
    }
    assert(copy@ =~= detections@);
    state.last_detections = copy;
    state.update_detection_state(detections.len() > 0, now);
}

/// What follows a look at the screen: what the detector found, if it did not fail, is remembered,
/// and the covers for it are to be shown. After a failure everything stays as it was.
pub fn looked(
    state: &mut AppState,
    found: Option<&[Detection]>,
    frame: &FrameData,
    now: u64,
) -> (r: Option<Vec<CoverRect>>)
    ensures
        match found {
            Some(detections) => {
                &&& r matches Some(covers)
                &&& cover::values(covers@) == wanted_covers(*old(state), detections@, *frame)
                &&& recorded(*old(state), *final(state), detections@, now)
            },
            None => r is None && *final(state) == *old(state),
        },
{
    match found {
        Some(detections) => {
            let covers = covers_for_state(state, detections, frame);
            record_detections(state, detections, now);
            Some(covers)
        },
        None => None,
    }
}

/// Remembers the covers that are shown.
pub fn record_covers(state: &mut AppState, covers: &[CoverRect])
    ensures
        cover::values(final(state).covers@) == cover::values(covers@),
        *final(state) == (AppState { covers: final(state).covers, ..*old(state) }),
{
    state.covers = copy_covers(covers);
}

/// With detection off and nothing that forces a look, the screen is never looked at.
pub proof fn law_off_means_no_look(state: AppState)
    requires
        !state.is_active,
    ensures
        !state.runs(),
{
}

/// What is cleared stays cleared: the next idle turn has nothing to take away.
pub proof fn law_cleared_once(before: AppState, after: AppState)
    requires
        cleared(before, after),
    ensures
        !has_stale(after),
{
}

/// The overlay is never smaller than the output that it lies over; but for the one size that is
/// corrected, it has the size of the output.
pub proof fn law_overlay_size(o: Output)
    ensures
        ({
            let (w, h) = overlay_size(Some(o));
            let g = o.geometry;
            &&& w == g.width
            &&& h >= g.height
            &&& h != g.height ==> g.width == 1920 && g.height == 1080 && h == 1200
            &&& !(w == 1920 && h == 1080)
        }),
{
}

/// What was found is remembered as it is; the time moves on only while looking and where something
/// was found, and the settings, the covers and the windows stay.
pub proof fn law_recorded(before: AppState, after: AppState, detections: Seq<Detection>, now: u64)
    requires
        recorded(before, after, detections, now),
    ensures
        after.last_detections@ == detections,
        after.config == before.config,
        after.covers == before.covers,
        after.window_rects == before.window_rects,
        after.cpu_usage == before.cpu_usage,
        after.is_active == before.is_active,
        (after.detection_state is Active) == before.is_active,
        (after.detection_state is Sleep) == !before.is_active,
        before.is_active && detections.len() > 0 ==> after.last_detection_time == Some(now),
        !(before.is_active && detections.len() > 0) ==> after.last_detection_time
            == before.last_detection_time,
{
}

} // verus!
