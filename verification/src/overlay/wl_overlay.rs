//! The overlay on a Wayland layer surface: what it decides between the calls to the compositor.

use std::sync::mpsc::Sender;

use vstd::prelude::*;

use crate::channel;
use crate::overlay::compositor::{copy_covers, OverlayCapability, OverlayError, OverlayRenderer};
use crate::overlay::overlay_window::OverlayCommand;
use crate::text::{concat, push_decimal, same};
use crate::vision::cover;
use crate::vision::detection::{Cover, CoverRect, FrameData};
use crate::vision::geometry;
use crate::vision::geometry::{half_of, ColorRgb, ScreenRect};

verus! {

/// The bits of the number one in double precision.
pub const UNIT_SCALE: u64 = 0x3ff0_0000_0000_0000;

/// The size of the overlay. The scale is kept by its bits.
#[derive(Debug)]
pub struct OverlayConfig {
    pub width: u32,
    pub height: u32,
    pub scale: u64,
    pub output_name: Option<String>,
}

impl Default for OverlayConfig {
    fn default() -> (r: Self)
        ensures
            r.width == 1920,
            r.height == 1200,
            r.scale == UNIT_SCALE,
            r.output_name is None,
    {
        OverlayConfig { width: 1920, height: 1200, scale: UNIT_SCALE, output_name: None }
    }
}

impl Clone for OverlayConfig {
    fn clone(&self) -> (r: Self)
        ensures
            r == *self,
    {
        OverlayConfig {
            width: self.width,
            height: self.height,
            scale: self.scale,
            output_name: match &self.output_name {
                Some(name) => Some(name.clone()),
                None => None,
            },
        }
    }
}

/// A red rectangle of 300 times 200 pixels in the middle of the overlay.
pub open spec fn test_cover(width: u32, height: u32) -> Cover {
    Cover::solid(
        ScreenRect {
            x: (geometry::half(width) - 150) as i32,
            y: (geometry::half(height) - 100) as i32,
            width: 300,
            height: 200,
        },
        ColorRgb { r: 255, g: 0, b: 0 },
    )
}

pub fn test_rect(width: u32, height: u32) -> (r: CoverRect)
    ensures
        r@ == test_cover(width, height),
{
    CoverRect::new_solid(
        ScreenRect::new(half_of(width) - 150, half_of(height) - 100, 300, 200),
        ColorRgb::new(255, 0, 0),
    )
}

/// What a string looks like when it is printed for a programmer: in quotation marks, with
/// special characters escaped.
pub uninterp spec fn debug_text(s: Seq<char>) -> Seq<char>;

/// The `Debug` formatting of a string by the standard library: a function of its characters.
#[verifier::external_body]
fn debug_of(s: &str) -> (r: String)
    ensures
        r@ == debug_text(s@),
{
    format!("{:?}", s)
}

/// A capability as it is printed for a programmer.
pub open spec fn capability_text(c: OverlayCapability) -> Seq<char> {
    match c {
        OverlayCapability::Supported => "Supported"@,
        OverlayCapability::Unsupported(s) => "Unsupported("@ + debug_text(s@) + ")"@,
    }
}

fn text_of_capability(c: &OverlayCapability) -> (r: String)
    ensures
        r@ == capability_text(*c),
{
    match c {
        OverlayCapability::Supported => "Supported".to_owned(),
        OverlayCapability::Unsupported(s) => {
            let inner = debug_of(s.as_str());
            concat(concat("Unsupported(", inner.as_str()).as_str(), ")")
        },
    }
}

/// The side of the overlay that the rest of the program holds: commands go to the thread that
/// draws.
pub struct WaylandOverlay {
    pub tx: Sender<OverlayCommand>,
    pub capability: OverlayCapability,
    pub solid_color: ColorRgb,
}

impl WaylandOverlay {
    /// The handle on a drawing thread that listens at the other end of `tx`. Without the
    /// capability there is no such thread.
    pub fn new(
        tx: Sender<OverlayCommand>,
        capability: OverlayCapability,
        solid_color: ColorRgb,
    ) -> (r: Self)
        ensures
            r.tx == tx,
            r.capability == capability,
            r.solid_color == solid_color,
    {
        WaylandOverlay { tx, capability, solid_color }
    }

    /// The same with a red test rectangle to begin with. Whether the rectangle was taken is not
    /// reported.
    pub fn with_test_rect(
        tx: Sender<OverlayCommand>,
        capability: OverlayCapability,
        config: &OverlayConfig,
    ) -> (r: Self)
        ensures
            r.tx == tx,
            r.capability == capability,
            r.solid_color == (ColorRgb { r: 255, g: 0, b: 0 }),
            capability is Supported ==> exists|covers: Vec<CoverRect>, taken: bool|
                cover::values(covers@) == seq![test_cover(config.width, config.height)]
                    && #[trigger] channel::handed(tx, OverlayCommand::UpdateCovers(covers), taken),
    {
        let overlay = WaylandOverlay::new(tx, capability, ColorRgb::new(255, 0, 0));
        if overlay.capability.is_supported() {
            let mut covers: Vec<CoverRect> = Vec::new();
            covers.push(test_rect(config.width, config.height));
            assert(cover::values(covers@) =~= seq![test_cover(config.width, config.height)]);
            let ghost sent = covers;
            let taken = channel::send(&overlay.tx, OverlayCommand::UpdateCovers(covers));
            assert(channel::handed(tx, OverlayCommand::UpdateCovers(sent), taken is Ok));
        }
        overlay
    }

    pub open spec fn same_handle(self, other: Self) -> bool {
        self.tx == other.tx && self.capability == other.capability && self.solid_color
            == other.solid_color
    }
}

impl OverlayRenderer for WaylandOverlay {
    fn capability(&self) -> (r: OverlayCapability)
        ensures
            r == self.capability,
    {
        self.capability.clone()
    }

    fn initialize(&mut self, monitors: &[ScreenRect]) -> (r: Result<(), OverlayError>)
        ensures
            r is Ok,
            final(self).same_handle(*old(self)),
    {
        self.set_geometry(monitors)
    }

    /// Hands copies of the covers to the drawing thread. Without the capability nothing is
    /// handed over and the error says so.
    fn update_covers(&mut self, covers: &[CoverRect], frame: &FrameData) -> (r: Result<
        (),
        OverlayError,
    >)
        ensures
            final(self).same_handle(*old(self)),
            if old(self).capability is Supported {
                &&& exists|sent: Vec<CoverRect>|
                    cover::values(sent@) == cover::values(covers@) && #[trigger] channel::handed(
                        old(self).tx,
                        OverlayCommand::UpdateCovers(sent),
                        r is Ok,
                    )
                &&& r is Err ==> r->Err_0 is RenderFailed
            } else {
                r matches Err(OverlayError::Unsupported(text)) && text@ == capability_text(
                    old(self).capability,
                )
            },
    {
        if !self.capability.is_supported() {
            return Err(OverlayError::Unsupported(text_of_capability(&self.capability)));
        }
        let copies = copy_covers(covers);
        let ghost sent = copies;
        let taken = channel::send(&self.tx, OverlayCommand::UpdateCovers(copies));
        let r: Result<(), OverlayError> = match taken {
            Ok(()) => Ok(()),
            Err(e) => Err(OverlayError::RenderFailed(e)),
        };
        assert(channel::handed(old(self).tx, OverlayCommand::UpdateCovers(sent), r is Ok));
        r
    }

    fn clear(&mut self) -> (r: Result<(), OverlayError>)
        ensures
            final(self).same_handle(*old(self)),
            channel::handed(old(self).tx, OverlayCommand::Clear, r is Ok),
            r is Err ==> r->Err_0 is RenderFailed,
    {
        match channel::send(&self.tx, OverlayCommand::Clear) {
            Ok(()) => Ok(()),
            Err(e) => Err(OverlayError::RenderFailed(e)),
        }
    }

    fn set_geometry(&mut self, monitors: &[ScreenRect]) -> (r: Result<(), OverlayError>)
        ensures
            r is Ok,
            final(self).same_handle(*old(self)),
    {
        Ok(())
    }

    /// Tells the drawing thread to stop; it is no error if it already has.
    fn shutdown(&mut self) -> (r: Result<(), OverlayError>)
        ensures
            r is Ok,
            final(self).same_handle(*old(self)),
            exists|taken: bool| #[trigger]
                channel::handed(old(self).tx, OverlayCommand::Shutdown, taken),
    {
        let taken = channel::send(&self.tx, OverlayCommand::Shutdown);
        assert(channel::handed(old(self).tx, OverlayCommand::Shutdown, taken is Ok));
        Ok(())
    }
}

/// The interfaces of a compositor that the overlay binds.
#[derive(Debug, Clone, Copy, PartialEq, Eq, Structural)]
pub enum Global {
    Compositor,
    Shm,
    Output,
    LayerShell,
}

/// The interface behind a name that the compositor advertises, and the highest version of it
/// that the overlay knows.
pub open spec fn known_global(interface: Seq<char>) -> Option<(Global, u32)> {
    if interface == "wl_compositor"@ {
        Some((Global::Compositor, 6))
    } else if interface == "wl_shm"@ {
        Some((Global::Shm, 1))
    } else if interface == "wl_output"@ {
        Some((Global::Output, 4))
    } else if interface == "zwlr_layer_shell_v1"@ {
        Some((Global::LayerShell, 4))
    } else {
        None
    }
}

/// Which interface to bind, and in which version: the one that is advertised, or the highest
/// one that the overlay knows.
pub fn binding(interface: &str, version: u32) -> (r: Option<(Global, u32)>)
    ensures
        r == (match known_global(interface@) {
            Some((global, highest)) => Some(
                (
                    global,
                    if version < highest {
                        version
                    } else {
                        highest
                    },
                ),
            ),
            None => None,
        }),
{
    let known: Option<(Global, u32)> = if same(interface, "wl_compositor") {
        Some((Global::Compositor, 6))
    } else if same(interface, "wl_shm") {
        Some((Global::Shm, 1))
    } else if same(interface, "wl_output") {
        Some((Global::Output, 4))
    } else if same(interface, "zwlr_layer_shell_v1") {
        Some((Global::LayerShell, 4))
    } else {
        None
    };
    match known {
        Some((global, highest)) => Some(
            (
                global,
                if version < highest {
                    version
                } else {
                    highest
                },
            ),
        ),
        None => None,
    }
}

/// What the registry of a compositor has shown.
#[derive(Debug, Clone, Copy, PartialEq, Eq, Structural)]
pub struct RegistryState {
    pub has_compositor: bool,
    pub has_layer_shell: bool,
    pub has_shm: bool,
    pub outputs: u64,
}

impl RegistryState {
    pub fn new() -> (r: Self)
        ensures
            r == (RegistryState {
                has_compositor: false,
                has_layer_shell: false,
                has_shm: false,
                outputs: 0,
            }),
    {
        RegistryState { has_compositor: false, has_layer_shell: false, has_shm: false, outputs: 0 }
    }

    /// Takes note of an advertised interface, and says what to bind of it.
    pub fn note(&mut self, interface: &str, version: u32) -> (r: Option<(Global, u32)>)
        requires
            old(self).outputs < u64::MAX,
        ensures
            final(self).has_compositor == (old(self).has_compositor || interface@
                == "wl_compositor"@),
            final(self).has_layer_shell == (old(self).has_layer_shell || interface@
                == "zwlr_layer_shell_v1"@),
            final(self).has_shm == (old(self).has_shm || interface@ == "wl_shm"@),
            final(self).outputs == old(self).outputs + (if interface@ == "wl_output"@ {
                1int
            } else {
                0
            }),
            r == (if interface@ == "wl_compositor"@ {
                Some(
                    (
                        Global::Compositor,
                        if version < 6 {
                            version
                        } else {
                            6
                        },
                    ),
                )
            } else if interface@ == "wl_output"@ {
                Some(
                    (
                        Global::Output,
                        if version < 4 {
                            version
                        } else {
                            4
                        },
                    ),
                )
            } else {
                None
            }),
    {
        proof {
            lemma_interfaces_differ();
        }
        match binding(interface, version) {
            Some((Global::Compositor, v)) => {
                self.has_compositor = true;
                Some((Global::Compositor, v))
            },
            Some((Global::LayerShell, _)) => {
                self.has_layer_shell = true;
                None
            },
            Some((Global::Shm, _)) => {
                self.has_shm = true;
                None
            },
            Some((Global::Output, v)) => {
                self.outputs = self.outputs + 1;
                Some((Global::Output, v))
            },
            None => None,
        }
    }

    /// Whether an overlay is possible.
    pub fn capability(&self) -> (r: OverlayCapability)
        ensures
            match r {
                OverlayCapability::Supported => self.has_layer_shell && self.has_compositor,
                OverlayCapability::Unsupported(s) => {
                    if !self.has_layer_shell {
                        s@ == "zwlr_layer_shell_v1 not advertised by compositor"@
                    } else {
                        !self.has_compositor && s@ == "wl_compositor not advertised"@
                    }
                },
            },
    {
        if !self.has_layer_shell {
            return OverlayCapability::Unsupported(
                "zwlr_layer_shell_v1 not advertised by compositor".to_owned(),
            );
        }
        if !self.has_compositor {
            return OverlayCapability::Unsupported("wl_compositor not advertised".to_owned());
        }
        OverlayCapability::Supported
    }
}

proof fn lemma_interfaces_differ()
    ensures
        "wl_compositor"@ != "wl_shm"@,
        "wl_compositor"@ != "wl_output"@,
        "wl_compositor"@ != "zwlr_layer_shell_v1"@,
        "wl_shm"@ != "wl_output"@,
        "wl_shm"@ != "zwlr_layer_shell_v1"@,
        "wl_output"@ != "zwlr_layer_shell_v1"@,
{
    reveal_strlit("wl_compositor");
    reveal_strlit("wl_shm");
    reveal_strlit("wl_output");
    reveal_strlit("zwlr_layer_shell_v1");
    assert("wl_compositor"@.len() == 13);
    assert("wl_shm"@.len() == 6);
    assert("wl_output"@.len() == 9);
    assert("zwlr_layer_shell_v1"@.len() == 19);
}

/// The overlay is not possible because there is no compositor to talk to.
pub fn no_connection(reason: &str) -> (r: OverlayCapability)
    ensures
        r matches OverlayCapability::Unsupported(s) && s@
            == "Failed to connect to Wayland display: "@ + reason@,
{
    OverlayCapability::Unsupported(concat("Failed to connect to Wayland display: ", reason))
}

/// A monitor as the compositor describes it.
#[derive(Debug)]
pub struct OutputState {
    pub name: String,
    pub geometry: ScreenRect,
    pub scale: i32,
}

/// What a compositor tells of a monitor.
#[derive(Debug, Clone, Copy, PartialEq, Eq, Structural)]
pub enum OutputEvent {
    Geometry { x: i32, y: i32 },
    Mode { width: i32, height: i32 },
    Scale { factor: i32 },
}

/// A signed size as an unsigned one, by its bits.
pub open spec fn as_unsigned(n: i32) -> int {
    if n >= 0 {
        n as int
    } else {
        n + 0x1_0000_0000
    }
}

fn unsigned_size(n: i32) -> (r: u32)
    ensures
        r == as_unsigned(n),
{
    if n >= 0 {
        n as u32
    } else {
        (n as i64 + 0x1_0000_0000) as u32
    }
}

impl OutputState {
    /// A monitor about which nothing is known yet but its number.
    pub fn new(number: u32) -> (r: Self)
        ensures
            r.name@ == "output-"@ + crate::text::decimal(number as nat),
            r.geometry == (ScreenRect { x: 0, y: 0, width: 1920, height: 1080 }),
            r.scale == 1,
    {
        let mut name = "output-".to_owned();
        push_decimal(&mut name, number as u64);
        OutputState { name, geometry: ScreenRect::new(0, 0, 1920, 1080), scale: 1 }
    }

    pub fn handle(&mut self, event: OutputEvent)
        ensures
            final(self).name == old(self).name,
            match event {
                OutputEvent::Geometry { x, y } => {
                    &&& final(self).geometry == (ScreenRect { x, y, ..old(self).geometry })
                    &&& final(self).scale == old(self).scale
                },
                OutputEvent::Mode { width, height } => {
                    &&& final(self).geometry == (ScreenRect {
                        width: as_unsigned(width) as u32,
                        height: as_unsigned(height) as u32,
                        ..old(self).geometry
                    })
                    &&& final(self).scale == old(self).scale
                },
                OutputEvent::Scale { factor } => {
                    &&& final(self).geometry == old(self).geometry
                    &&& final(self).scale == factor
                },
            },
    {
        match event {
            OutputEvent::Geometry { x, y } => {
                self.geometry.x = x;
                self.geometry.y = y;
            },
            OutputEvent::Mode { width, height } => {
                self.geometry.width = unsigned_size(width);
                self.geometry.height = unsigned_size(height);
            },
            OutputEvent::Scale { factor } => {
                self.scale = factor;
            },
        }
    }
}

/// What stops the drawing thread before it has drawn anything.
#[derive(Debug, Clone, Copy, PartialEq, Eq, Structural)]
pub enum SetupFailure {
    NoLayerShell,
    NoCompositor,
}

/// Whether the drawing thread has what it needs to set up its surface.
pub fn setup_failure(has_layer_shell: bool, has_compositor: bool) -> (r: Option<SetupFailure>)
    ensures
        r == (if !has_layer_shell {
            Some(SetupFailure::NoLayerShell)
        } else if !has_compositor {
            Some(SetupFailure::NoCompositor)
        } else {
            None
        }),
{
    if !has_layer_shell {
        Some(SetupFailure::NoLayerShell)
    } else if !has_compositor {
        Some(SetupFailure::NoCompositor)
    } else {
        None
    }
}

/// What the drawing thread does next.
#[derive(Debug, Clone, Copy, PartialEq, Eq, Structural)]
pub enum OverlayStep {
    Close,
    Redraw,
    Wait,
}

/// The state of the drawing thread.
#[derive(Debug)]
pub struct OverlayState {
    pub width: u32,
    pub height: u32,
    pub pending_covers: Vec<CoverRect>,
    pub solid_color: ColorRgb,
    pub needs_redraw: bool,
    pub should_close: bool,
    pub configured_size: Option<(u32, u32)>,
    pub frame_count: u64,
}

/// The state by value.
#[verifier::ext_equal]
pub struct OverlayView {
    pub width: u32,
    pub height: u32,
    pub covers: Seq<Cover>,
    pub solid_color: ColorRgb,
    pub needs_redraw: bool,
    pub should_close: bool,
    pub configured_size: Option<(u32, u32)>,
    pub frame_count: u64,
}

impl View for OverlayState {
    type V = OverlayView;

    open spec fn view(&self) -> OverlayView {
        OverlayView {
            width: self.width,
            height: self.height,
            covers: cover::values(self.pending_covers@),
            solid_color: self.solid_color,
            needs_redraw: self.needs_redraw,
            should_close: self.should_close,
            configured_size: self.configured_size,
            frame_count: self.frame_count,
        }
    }
}

impl OverlayState {
    pub fn new(config: &OverlayConfig, solid_color: ColorRgb) -> (r: Self)
        ensures
            r@ == (OverlayView {
                width: config.width,
                height: config.height,
                covers: Seq::empty(),
                solid_color,
                needs_redraw: false,
                should_close: false,
                configured_size: None,
                frame_count: 0,
            }),
    {
        let r = OverlayState {
            width: config.width,
            height: config.height,
            pending_covers: Vec::new(),
            solid_color,
            needs_redraw: false,
            should_close: false,
            configured_size: None,
            frame_count: 0,
        };
        assert(cover::values(r.pending_covers@) =~= Seq::empty());
        r
    }

    /// The compositor has given the surface a size.
    pub fn configure(&mut self, width: u32, height: u32)
        ensures
            final(self)@ == (OverlayView {
                configured_size: Some((width, height)),
                needs_redraw: true,
                ..old(self)@
            }),
    {
        self.configured_size = Some((width, height));
        self.needs_redraw = true;
    }

    /// The compositor has closed the surface.
    pub fn close(&mut self)
        ensures
            final(self)@ == (OverlayView { should_close: true, ..old(self)@ }),
    {
        self.should_close = true;
    }

    /// Takes over the size of the first monitor, where it is known and differs. The result is
    /// the size that the surface must be given.
    pub fn correct_size(&mut self, output: Option<ScreenRect>) -> (r: Option<(u32, u32)>)
        ensures
            match output {
                Some(g) => {
                    if g.width > 0 && g.height > 0 && (g.width != old(self).width || g.height
                        != old(self).height) {
                        &&& r == Some((g.width, g.height))
                        &&& final(self)@ == (OverlayView {
                            width: g.width,
                            height: g.height,
                            ..old(self)@
                        })
                    } else {
                        r is None && final(self)@ == old(self)@
                    }
                },
                None => r is None && final(self)@ == old(self)@,
            },
    {
        match output {
            Some(g) => {
                if g.width > 0 && g.height > 0 && (g.width != self.width || g.height
                    != self.height) {
                    self.width = g.width;
                    self.height = g.height;
                    Some((g.width, g.height))
                } else {
                    None
                }
            },
            None => None,
        }
    }

    /// The surface is ready and must be drawn for the first time, with a test rectangle where
    /// one is asked for.
    pub fn start(&mut self, with_test_rect: bool)
        ensures
            final(self)@ == (if with_test_rect {
                OverlayView {
                    covers: seq![test_cover(old(self).width, old(self).height)],
                    solid_color: ColorRgb { r: 255, g: 0, b: 0 },
                    needs_redraw: true,
                    ..old(self)@
                }
            } else {
                OverlayView { needs_redraw: true, ..old(self)@ }
            }),
    {
        self.needs_redraw = true;
        if with_test_rect {
            let mut covers: Vec<CoverRect> = Vec::new();
            covers.push(test_rect(self.width, self.height));
            assert(cover::values(covers@) =~= seq![test_cover(self.width, self.height)]);
            self.pending_covers = covers;
            self.solid_color = ColorRgb::new(255, 0, 0);
        }
    }

    /// Carries out a command, and says whether the thread goes on.
    pub fn handle(&mut self, cmd: OverlayCommand) -> (goes_on: bool)
        ensures
            goes_on == !(cmd is Shutdown),
            final(self)@ == (match cmd {
                OverlayCommand::UpdateCovers(covers) => OverlayView {
                    covers: cover::values(covers@),
                    needs_redraw: true,
                    ..old(self)@
                },
                OverlayCommand::Clear => OverlayView {
                    covers: Seq::empty(),
                    needs_redraw: true,
                    ..old(self)@
                },
                OverlayCommand::Shutdown => old(self)@,
            }),
    {
        match cmd {
            OverlayCommand::UpdateCovers(covers) => {
                self.pending_covers = covers;
                self.needs_redraw = true;
                true
            },
            OverlayCommand::Clear => {
                self.pending_covers.clear();
                self.needs_redraw = true;
                assert(cover::values(self.pending_covers@) =~= Seq::empty());
                true
            },
            OverlayCommand::Shutdown => false,
        }
    }

    /// What comes next, once all commands are carried out and all events are handled.
    pub fn next_step(&self) -> (r: OverlayStep)
        ensures
            r == (if self.should_close {
                OverlayStep::Close
            } else if self.needs_redraw {
                OverlayStep::Redraw
            } else {
                OverlayStep::Wait
            }),
    {
        if self.should_close {
            OverlayStep::Close
        } else if self.needs_redraw {
            OverlayStep::Redraw
        } else {
            OverlayStep::Wait
        }
    }

    /// The covers have been drawn, or could not be. Only a drawn frame is counted.
    pub fn drawn(&mut self, success: bool)
        requires
            old(self).frame_count < u64::MAX,
        ensures
            final(self)@ == (OverlayView {
                needs_redraw: false,
                frame_count: if success {
                    (old(self).frame_count + 1) as u64
                } else {
                    old(self).frame_count
                },
                ..old(self)@
            }),
    {
        if success {
            self.frame_count = self.frame_count + 1;
        }
        self.needs_redraw = false;
    }
}

/// The covers after some commands, from the first to the last.
pub open spec fn after_commands(state: OverlayView, cmds: Seq<OverlayCommand>) -> OverlayView
    decreases cmds.len(),
{
    if cmds.len() == 0 {
        state
    } else {
        let before = after_commands(state, cmds.drop_last());
        match cmds.last() {
            OverlayCommand::UpdateCovers(covers) => OverlayView {
                covers: cover::values(covers@),
                needs_redraw: true,
                ..before
            },
            OverlayCommand::Clear => OverlayView {
                covers: Seq::empty(),
                needs_redraw: true,
                ..before
            },
            OverlayCommand::Shutdown => before,
        }
    }
}

/// Of several updates in a row, only the last one is shown.
pub proof fn law_latest_covers_win(
    state: OverlayView,
    cmds: Seq<OverlayCommand>,
    covers: Vec<CoverRect>,
)
    ensures
        after_commands(state, cmds.push(OverlayCommand::UpdateCovers(covers))).covers
            == cover::values(covers@),
        after_commands(state, cmds.push(OverlayCommand::UpdateCovers(covers))).needs_redraw,
{
    let all = cmds.push(OverlayCommand::UpdateCovers(covers));
    assert(all.drop_last() =~= cmds);
}

/// The colour of the first cover, or red where it has none.
pub open spec fn first_color(covers: Seq<Cover>) -> ColorRgb {
    if covers.len() > 0 && covers[0].resolved_color is Some {
        covers[0].resolved_color->0
    } else {
        ColorRgb { r: 255, g: 0, b: 0 }
    }
}

pub fn color_of_first(covers: &[CoverRect]) -> (r: ColorRgb)
    ensures
        r == first_color(cover::values(covers@)),
{
    if covers.len() > 0 {
        match covers[0].resolved_color {
            Some(c) => c,
            None => ColorRgb::new(255, 0, 0),
        }
    } else {
        ColorRgb::new(255, 0, 0)
    }
}

/// The corners of a cover: left upper, right upper, right lower, left lower.
pub open spec fn corners(rect: ScreenRect) -> Seq<i64> {
    seq![
        rect.x as i64,
        rect.y as i64,
        rect.right_edge() as i64,
        rect.y as i64,
        rect.right_edge() as i64,
        rect.bottom_edge() as i64,
        rect.x as i64,
        rect.bottom_edge() as i64,
    ]
}

/// The two triangles of the cover with number `i`, by the numbers of their corners. The
/// numbers start again at zero after 65536 corners.
pub open spec fn triangles(i: int) -> Seq<u16> {
    let base = i * 4 % 0x1_0000;
    seq![
        base as u16,
        (base + 1) as u16,
        (base + 2) as u16,
        base as u16,
        (base + 2) as u16,
        (base + 3) as u16,
    ]
}

pub open spec fn all_corners(covers: Seq<Cover>) -> Seq<i64>
    decreases covers.len(),
{
    if covers.len() == 0 {
        Seq::empty()
    } else {
        all_corners(covers.drop_last()) + corners(covers.last().screen_rect)
    }
}

pub open spec fn all_triangles(n: nat) -> Seq<u16>
    decreases n,
{
    if n == 0 {
        Seq::empty()
    } else {
        all_triangles((n - 1) as nat) + triangles(n - 1)
    }
}

/// The corners of all covers, two numbers to each, and the triangles between them.
pub fn quads(covers: &[CoverRect]) -> (r: (Vec<i64>, Vec<u16>))
    ensures
        r.0@ == all_corners(cover::values(covers@)),
        r.1@ == all_triangles(covers@.len()),
{
    let mut vertices: Vec<i64> = Vec::new();
    let mut indices: Vec<u16> = Vec::new();
    let ghost all = cover::values(covers@);
    let mut base: u16 = 0;
    let mut i: usize = 0;
    while i < covers.len()
        invariant
            i <= covers.len(),
            all == cover::values(covers@),
            vertices@ == all_corners(all.take(i as int)),
            indices@ == all_triangles(i as nat),
            base == i * 4 % 0x1_0000,
        decreases covers.len() - i,
    {
        assert(all.take(i + 1).drop_last() =~= all.take(i as int));
        let rect = &covers[i].screen_rect;
        let (x0, y0): (i64, i64) = (rect.x as i64, rect.y as i64);
        let (x1, y1): (i64, i64) = (rect.wide_right(), rect.wide_bottom());
        let ghost before = vertices@;
        let ghost earlier = indices@;
        vertices.push(x0);
        vertices.push(y0);
        vertices.push(x1);
        vertices.push(y0);
        vertices.push(x1);
        vertices.push(y1);
        vertices.push(x0);
        vertices.push(y1);
        assert(vertices@ =~= before + corners(*rect));
        assert(base % 4 == 0);
        indices.push(base);
        indices.push(base + 1);
        indices.push(base + 2);
        indices.push(base);
        indices.push(base + 2);
        indices.push(base + 3);
        assert(indices@ =~= earlier + triangles(i as int));
        base = if base == 65532 {
            0
        } else {
            base + 4
        };
        i = i + 1;
    }
    assert(all.take(i as int) =~= all);
    (vertices, indices)
}

/// The place of the corner with the number that stands at `k` in a list of triangles.
pub open spec fn corner_at(vertices: Seq<i64>, indices: Seq<u16>, k: int) -> (int, int) {
    (vertices[2 * indices[k]] as int, vertices[2 * indices[k] + 1] as int)
}

/// A point lies on the line through two others or to the right of it, as seen on a screen from
/// the first.
pub open spec fn beside(a: (int, int), b: (int, int), px: int, py: int) -> bool {
    (b.0 - a.0) * (py - a.1) - (b.1 - a.1) * (px - a.0) >= 0
}

/// A point lies in the triangle with number `t`.
pub open spec fn in_triangle(
    vertices: Seq<i64>,
    indices: Seq<u16>,
    t: int,
    px: int,
    py: int,
) -> bool {
    let a = corner_at(vertices, indices, 3 * t);
    let b = corner_at(vertices, indices, 3 * t + 1);
    let c = corner_at(vertices, indices, 3 * t + 2);
    beside(a, b, px, py) && beside(b, c, px, py) && beside(c, a, px, py)
}

proof fn lemma_corners_at(covers: Seq<Cover>, i: int)
    requires
        0 <= i < covers.len(),
    ensures
        all_corners(covers).len() == 8 * covers.len(),
        all_corners(covers).subrange(8 * i, 8 * i + 8) == corners(covers[i].screen_rect),
    decreases covers.len(),
{
    let before = covers.drop_last();
    if before.len() > 0 {
        lemma_corners_at(before, if i < before.len() {
            i
        } else {
            0
        });
    } else {
        assert(all_corners(before).len() == 0);
    }
    let all = all_corners(covers);
    if i < before.len() {
        assert(all.subrange(8 * i, 8 * i + 8) =~= all_corners(before).subrange(8 * i, 8 * i + 8));
    } else {
        assert(all.subrange(8 * i, 8 * i + 8) =~= corners(covers[i].screen_rect));
    }
}

proof fn lemma_triangles_at(n: nat, i: int)
    requires
        0 <= i < n,
    ensures
        all_triangles(n).len() == 6 * n,
        all_triangles(n).subrange(6 * i, 6 * i + 6) == triangles(i),
    decreases n,
{
    let m = (n - 1) as nat;
    if m > 0 {
        lemma_triangles_at(m, if i < m {
            i
        } else {
            0
        });
    } else {
        assert(all_triangles(m).len() == 0);
    }
    let all = all_triangles(n);
    if i < m {
        assert(all.subrange(6 * i, 6 * i + 6) =~= all_triangles(m).subrange(6 * i, 6 * i + 6));
    } else {
        assert(all.subrange(6 * i, 6 * i + 6) =~= triangles(i));
    }
}

proof fn lemma_two_triangles(x: int, y: int, r: int, b: int, px: int, py: int)
    requires
        x < r,
        y < b,
    ensures
        ({
            let (p, q, s, t) = ((x, y), (r, y), (r, b), (x, b));
            (beside(p, q, px, py) && beside(q, s, px, py) && beside(s, p, px, py)) || (beside(
                p,
                s,
                px,
                py,
            ) && beside(s, t, px, py) && beside(t, p, px, py))
        }) == (x <= px <= r && y <= py <= b),
{
    let (w, h) = (r - x, b - y);
    let (u, v) = (px - x, py - y);
    assert((w * v >= 0) == (v >= 0)) by (nonlinear_arith)
        requires
            w > 0,
    ;
    assert((h * u >= 0) == (u >= 0)) by (nonlinear_arith)
        requires
            h > 0,
    ;
    assert(h * (w - u) == h * w - h * u) by (nonlinear_arith);
    assert(w * (h - v) == h * w - w * v) by (nonlinear_arith);
    assert((h * (w - u) >= 0) == (w - u >= 0)) by (nonlinear_arith)
        requires
            h > 0,
    ;
    assert((w * (h - v) >= 0) == (h - v >= 0)) by (nonlinear_arith)
        requires
            w > 0,
    ;
    let (p, q, s, t) = ((x, y), (r, y), (r, b), (x, b));
    assert(beside(p, q, px, py) == (w * v >= 0)) by (nonlinear_arith)
        requires
            w == r - x,
            v == py - y,
            p == (x, y),
            q == (r, y),
    ;
    assert(beside(q, s, px, py) == (h * (w - u) >= 0)) by (nonlinear_arith)
        requires
            w == r - x,
            h == b - y,
            u == px - x,
            q == (r, y),
            s == (r, b),
    ;
    assert(beside(s, p, px, py) == (h * u - w * v >= 0)) by (nonlinear_arith)
        requires
            w == r - x,
            h == b - y,
            u == px - x,
            v == py - y,
            s == (r, b),
            p == (x, y),
    ;
    assert(beside(p, s, px, py) == (w * v - h * u >= 0)) by (nonlinear_arith)
        requires
            w == r - x,
            h == b - y,
            u == px - x,
            v == py - y,
            s == (r, b),
            p == (x, y),
    ;
    assert(beside(s, t, px, py) == (w * (h - v) >= 0)) by (nonlinear_arith)
        requires
            w == r - x,
            h == b - y,
            v == py - y,
            s == (r, b),
            t == (x, b),
    ;
    assert(beside(t, p, px, py) == (h * u >= 0)) by (nonlinear_arith)
        requires
            h == b - y,
            u == px - x,
            t == (x, b),
            p == (x, y),
    ;
}

/// The two triangles of a cover fill its rectangle and nothing besides, as long as the numbers of
/// the corners have not started again.
pub proof fn law_quad_fills(covers: Seq<Cover>, i: int, px: int, py: int)
    requires
        0 <= i < covers.len(),
        i < 0x4000,
        0 < covers[i].screen_rect.width < 0x8000_0000,
        0 < covers[i].screen_rect.height < 0x8000_0000,
    ensures
        ({
            let (vertices, indices) = (all_corners(covers), all_triangles(covers.len()));
            let rect = covers[i].screen_rect;
            (in_triangle(vertices, indices, 2 * i, px, py) || in_triangle(
                vertices,
                indices,
                2 * i + 1,
                px,
                py,
            )) == (rect.x <= px <= rect.x + rect.width && rect.y <= py <= rect.y + rect.height)
        }),
{
    let (vertices, indices) = (all_corners(covers), all_triangles(covers.len()));
    let rect = covers[i].screen_rect;
    lemma_corners_at(covers, i);
    lemma_triangles_at(covers.len(), i);
    let own = vertices.subrange(8 * i, 8 * i + 8);
    let tri = indices.subrange(6 * i, 6 * i + 6);
    assert forall|k: int| 0 <= k < 6 implies #[trigger] indices[6 * i + k] == tri[k] by {}
    assert forall|k: int| 0 <= k < 8 implies #[trigger] vertices[8 * i + k] == own[k] by {}
    let (x, y) = (rect.x as int, rect.y as int);
    let (r, b) = (x + rect.width, y + rect.height);
    assert(i * 4 % 0x1_0000 == 4 * i);
    assert(indices[6 * i] == 4 * i);
    assert(indices[6 * i + 1] == 4 * i + 1);
    assert(indices[6 * i + 2] == 4 * i + 2);
    assert(indices[6 * i + 3] == 4 * i);
    assert(indices[6 * i + 4] == 4 * i + 2);
    assert(indices[6 * i + 5] == 4 * i + 3);
    assert(vertices[8 * i + 0] == x && vertices[8 * i + 1] == y);
    assert(vertices[8 * i + 2] == r && vertices[8 * i + 3] == y);
    assert(vertices[8 * i + 4] == r && vertices[8 * i + 5] == b);
    assert(vertices[8 * i + 6] == x && vertices[8 * i + 7] == b);
    assert(corner_at(vertices, indices, 3 * (2 * i)) == (x, y));
    assert(corner_at(vertices, indices, 3 * (2 * i) + 1) == (r, y));
    assert(corner_at(vertices, indices, 3 * (2 * i) + 2) == (r, b));
    assert(corner_at(vertices, indices, 3 * (2 * i + 1)) == (x, y));
    assert(corner_at(vertices, indices, 3 * (2 * i + 1) + 1) == (r, b));
    assert(corner_at(vertices, indices, 3 * (2 * i + 1) + 2) == (x, b));
    lemma_two_triangles(x, y, r, b, px, py);
}

/// The cover for a trial lies in the middle, to the pixel that halving may cost, and is red.
pub proof fn law_test_cover_middle(width: u32, height: u32)
    requires
        300 <= width < 0x8000_0000,
        200 <= height < 0x8000_0000,
    ensures
        ({
            let c = test_cover(width, height);
            let (left, above) = (c.screen_rect.x as int, c.screen_rect.y as int);
            let right = width - left - c.screen_rect.width;
            let below = height - above - c.screen_rect.height;
            &&& 0 <= left <= right <= left + 1
            &&& 0 <= above <= below <= above + 1
            &&& c.screen_rect.width == 300
            &&& c.screen_rect.height == 200
            &&& c.resolved_color == Some(ColorRgb { r: 255, g: 0, b: 0 })
        }),
{
}

} // verus!
