//! A picture of the window in front, unless that window is left alone.

use vstd::prelude::*;

use crate::config::settings;
use crate::platform::process;
use crate::platform::process::WindowHandle;
use crate::platform::windows;
use crate::platform::windows::WindowInfo;
use crate::text;
use crate::text::{concat, contains, lowercase, push_decimal};
use crate::vision::detection::FrameData;
use crate::vision::geometry::ScreenRect;

verus! {

/// Why there is no picture of a window.
#[derive(Debug)]
pub enum CaptureError {
    Unsupported,
    Failed(String),
    NoForegroundWindow,
    WindowTooSmall { width: u32, height: u32 },
}

impl CaptureError {
    pub open spec fn text(&self) -> Seq<char> {
        match self {
            CaptureError::Unsupported => "Platform not supported"@,
            CaptureError::Failed(e) => "Capture failed: "@ + e@,
            CaptureError::NoForegroundWindow => "No foreground window"@,
            CaptureError::WindowTooSmall { width, height } => "Window too small: "@ + text::decimal(
                *width as nat,
            ) + "x"@ + text::decimal(*height as nat),
        }
    }

    /// The error in words.
    pub fn message(&self) -> (r: String)
        ensures
            r@ == self.text(),
    {
        match self {
            CaptureError::Unsupported => "Platform not supported".to_owned(),
            CaptureError::Failed(e) => concat("Capture failed: ", e.as_str()),
            CaptureError::NoForegroundWindow => "No foreground window".to_owned(),
            CaptureError::WindowTooSmall { width, height } => {
                let mut t = "Window too small: ".to_owned();
                push_decimal(&mut t, *width as u64);
                let mut t = concat(t.as_str(), "x");
                push_decimal(&mut t, *height as u64);
                t
            },
        }
    }
}

/// A picture of a window.
#[derive(Debug)]
pub struct CapturedFrame {
    pub frame: FrameData,
    pub window_rect: ScreenRect,
    pub hwnd: WindowHandle,
    pub process_name: String,
    pub window_title: String,
}

/// Something that takes pictures of the window in front.
pub trait ScreenCapturer: Send + Sync {
    fn capture_foreground(
        &self,
        only: &[String],
        except: &[String],
        always_skip: &[(String, String)],
    ) -> Result<CapturedFrame, CaptureError>;
}

/// Some pair of texts is held by the name of a process and the title of its window.
pub open spec fn holds_pair(
    process: Seq<char>,
    title: Seq<char>,
    skip: Seq<(Seq<char>, Seq<char>)>,
) -> bool {
    exists|i: int|
        0 <= i < skip.len() && text::holds(process, (#[trigger] skip[i]).0) && text::holds(
            title,
            skip[i].1,
        )
}

/// A window is left alone if its process and title hold one of the pairs that are always skipped,
/// if some processes are asked for and it is none of them, or if its process is left out.
pub open spec fn skips(
    process: Seq<char>,
    title: Seq<char>,
    skip: Seq<(Seq<char>, Seq<char>)>,
    only: Seq<Seq<char>>,
    except: Seq<Seq<char>>,
) -> bool {
    ||| holds_pair(process, title, skip)
    ||| only.len() > 0 && !windows::holds_any(process, only)
    ||| windows::holds_any(process, except)
}

/// The pairs of a list in small letters.
pub open spec fn pairs_lowercased(v: Seq<(Seq<char>, Seq<char>)>) -> Seq<(Seq<char>, Seq<char>)> {
    v.map_values(
        |p: (Seq<char>, Seq<char>)| (text::lowercased(p.0), text::lowercased(p.1)),
    )
}

fn contains_pair(process: &str, title: &str, skip: &Vec<(String, String)>) -> (r: bool)
    ensures
        r == holds_pair(process@, title@, settings::pairs(skip@)),
{
    let ghost all = settings::pairs(skip@);
    let mut i: usize = 0;
    while i < skip.len()
        invariant
            i <= skip@.len(),
            all == settings::pairs(skip@),
            forall|k: int|
                0 <= k < i ==> !(text::holds(process@, (#[trigger] all[k]).0) && text::holds(
                    title@,
                    all[k].1,
                )),
        decreases skip.len() - i,
    {
        assert(all[i as int] == (skip@[i as int].0@, skip@[i as int].1@));
        if contains(process, skip[i].0.as_str()) && contains(title, skip[i].1.as_str()) {
            return true;
        }
        i = i + 1;
    }
    false
}

/// Whether a window is left alone, all texts being in small letters already.
pub fn should_skip_lowered(
    process: &str,
    title: &str,
    skip: &Vec<(String, String)>,
    only: &Vec<String>,
    except: &Vec<String>,
) -> (r: bool)
    ensures
        r == skips(
            process@,
            title@,
            settings::pairs(skip@),
            settings::texts(only@),
            settings::texts(except@),
        ),
{
    let none: Vec<String> = Vec::new();
    assert(settings::texts(none@) =~= Seq::empty());
    contains_pair(process, title, skip) || windows::should_skip_lowered(
        process,
        &none,
        only,
        except,
    )
}

fn lowercase_pairs(v: &[(String, String)]) -> (r: Vec<(String, String)>)
    ensures
        settings::pairs(r@) == pairs_lowercased(settings::pairs(v@)),
{
    let mut r: Vec<(String, String)> = Vec::new();
    let mut i: usize = 0;
    while i < v.len()
        invariant
            i <= v@.len(),
            r@.len() == i,
            forall|k: int|
                0 <= k < i ==> (#[trigger] r@[k]).0@ == text::lowercased(v@[k].0@) && r@[k].1@
                    == text::lowercased(v@[k].1@),
        decreases v.len() - i,
    {
        r.push((lowercase(v[i].0.as_str()), lowercase(v[i].1.as_str())));
        i = i + 1;
    }
    assert(settings::pairs(r@) =~= pairs_lowercased(settings::pairs(v@)));
    r
}

/// Whether a window is left alone. The case of letters does not matter.
pub fn should_skip_window(
    process_name: &str,
    window_title: &str,
    only: &[String],
    except: &[String],
    always_skip: &[(String, String)],
) -> (r: bool)
    ensures
        r == skips(
            text::lowercased(process_name@),
            text::lowercased(window_title@),
            pairs_lowercased(settings::pairs(always_skip@)),
            windows::all_lowercased(settings::texts(only@)),
            windows::all_lowercased(settings::texts(except@)),
        ),
{
    let process = lowercase(process_name);
    let title = lowercase(window_title);
    let skip = lowercase_pairs(always_skip);
    let wanted = windows::lowercase_all(only);
    let unwanted = windows::lowercase_all(except);
    should_skip_lowered(process.as_str(), title.as_str(), &skip, &wanted, &unwanted)
}

/// The window in front.
#[derive(Debug)]
pub struct Foreground {
    pub hwnd: WindowHandle,
    pub process_name: String,
    pub window_title: String,
    pub visible: bool,
    pub minimized: bool,
    pub client_rect: Option<ScreenRect>,
}

/// Why no picture is taken of a window that is or is not left alone.
pub open spec fn refusal(window: Foreground, skipped: bool, r: CaptureError) -> bool {
    if skipped {
        r matches CaptureError::Failed(t) && t@ == "Window filtered out"@
    } else if !window.visible {
        r matches CaptureError::Failed(t) && t@ == "Window not visible"@
    } else if window.minimized {
        r matches CaptureError::Failed(t) && t@ == "Window minimized"@
    } else {
        match window.client_rect {
            None => r matches CaptureError::Failed(t) && t@ == "Failed to get client rect"@,
            Some(rect) => (rect.width < 650 || rect.height < 400) && r
                == (CaptureError::WindowTooSmall { width: rect.width, height: rect.height }),
        }
    }
}

/// A picture can be taken of a window: it is not left alone, can be seen, and is large enough.
pub open spec fn capturable(window: Foreground, skipped: bool) -> bool {
    &&& !skipped
    &&& window.visible
    &&& !window.minimized
    &&& window.client_rect matches Some(rect) && rect.width >= 650 && rect.height >= 400
}

/// Whether a picture can be taken of the window in front, and where that window is.
pub fn check_window(window: &Foreground, skipped: bool) -> (r: Result<ScreenRect, CaptureError>)
    ensures
        r is Ok <==> capturable(*window, skipped),
        r matches Ok(rect) ==> window.client_rect == Some(rect),
        r matches Err(e) ==> refusal(*window, skipped, e),
{
    if skipped {
        return Err(CaptureError::Failed("Window filtered out".to_owned()));
    }
    if !window.visible {
        return Err(CaptureError::Failed("Window not visible".to_owned()));
    }
    if window.minimized {
        return Err(CaptureError::Failed("Window minimized".to_owned()));
    }
    match window.client_rect {
        None => Err(CaptureError::Failed("Failed to get client rect".to_owned())),
        Some(rect) => {
            if rect.width < 650 || rect.height < 400 {
                Err(CaptureError::WindowTooSmall { width: rect.width, height: rect.height })
            } else {
                Ok(rect)
            }
        },
    }
}

/// What is given for a window of which a picture was to be taken.
pub fn captured(window: Foreground, rect: ScreenRect, frame: Option<FrameData>) -> (r: Result<
    CapturedFrame,
    CaptureError,
>)
    ensures
        match frame {
            Some(f) => r == Ok::<_, CaptureError>(
                CapturedFrame {
                    frame: f,
                    window_rect: rect,
                    hwnd: window.hwnd,
                    process_name: window.process_name,
                    window_title: window.window_title,
                },
            ),
            None => r matches Err(CaptureError::Failed(t)) && t@ == "Failed to capture window"@,
        },
{
    match frame {
        Some(frame) => Ok(
            CapturedFrame {
                frame,
                window_rect: rect,
                hwnd: window.hwnd,
                process_name: window.process_name,
                window_title: window.window_title,
            },
        ),
        None => Err(CaptureError::Failed("Failed to capture window".to_owned())),
    }
}

/// Takes pictures of the window in front out of a list of windows.
#[derive(Debug)]
pub struct PlatformCapturer {
    pub windows: Vec<WindowInfo>,
}

/// The text, or the empty one.
pub open spec fn or_empty(t: Option<Seq<char>>) -> Seq<char> {
    match t {
        Some(t) => t,
        None => Seq::empty(),
    }
}

fn text_or_empty(t: Option<String>) -> (r: String)
    ensures
        r@ == or_empty(text::maybe(t)),
{
    match t {
        Some(t) => t,
        None => String::new(),
    }
}

impl PlatformCapturer {
    /// A capturer that knows of no windows.
    pub fn new() -> (r: Self)
        ensures
            r.windows@.len() == 0,
    {
        PlatformCapturer { windows: Vec::new() }
    }

    /// What is known of the window in front.
    pub fn foreground(&self) -> (r: Option<Foreground>)
        ensures
            match windows::foreground(windows::windows(self.windows@)) {
                Some(w) => {
                    let named = process::window_with(
                        windows::windows(self.windows@),
                        process::handle(w),
                    );
                    &&& r matches Some(f)
                    &&& f.hwnd == process::handle(w)
                    &&& f.process_name@ == named->0.app_id
                    &&& f.window_title@ == named->0.title
                    &&& f.visible
                    &&& !f.minimized
                    &&& f.client_rect is None
                },
                None => r is None,
            },
    {
        match process::get_foreground_window(&self.windows) {
            Some(hwnd) => {
                proof {
                    lemma_found(windows::windows(self.windows@));
                }
                Some(
                    Foreground {
                        hwnd,
                        process_name: text_or_empty(
                            process::get_window_process_name(&self.windows, hwnd),
                        ),
                        window_title: text_or_empty(
                            process::get_window_title(&self.windows, hwnd),
                        ),
                        visible: process::is_window_visible(hwnd),
                        minimized: process::is_window_minimized(hwnd),
                        client_rect: process::get_client_rect(hwnd),
                    },
                )
            },
            None => None,
        }
    }
}

/// The window in front is found by its handle.
proof fn lemma_found(ws: Seq<windows::Window>)
    requires
        windows::foreground(ws) is Some,
    ensures
        process::window_with(ws, process::handle(windows::foreground(ws)->0)) is Some,
    decreases ws.len(),
{
    if !ws.first().focused {
        lemma_found(ws.drop_first());
    }
}

impl Default for PlatformCapturer {
    fn default() -> (r: Self)
        ensures
            r.windows@.len() == 0,
    {
        PlatformCapturer::new()
    }
}

impl ScreenCapturer for PlatformCapturer {
    fn capture_foreground(
        &self,
        only: &[String],
        except: &[String],
        always_skip: &[(String, String)],
    ) -> (r: Result<CapturedFrame, CaptureError>)
        ensures
            r is Err,
            match windows::foreground(windows::windows(self.windows@)) {
                Some(w) => {
                    let named = process::window_with(
                        windows::windows(self.windows@),
                        process::handle(w),
                    )->0;
                    r matches Err(CaptureError::Failed(t)) && t@ == if skips(
                        text::lowercased(named.app_id),
                        text::lowercased(named.title),
                        pairs_lowercased(settings::pairs(always_skip@)),
                        windows::all_lowercased(settings::texts(only@)),
                        windows::all_lowercased(settings::texts(except@)),
                    ) {
                        "Window filtered out"@
                    } else {
                        "Failed to get client rect"@
                    }
                },
                None => r matches Err(CaptureError::NoForegroundWindow),
            },
    {
        let window = match self.foreground() {
            Some(window) => window,
            None => {
                return Err(CaptureError::NoForegroundWindow);
            },
        };
        let skipped = should_skip_window(
            window.process_name.as_str(),
            window.window_title.as_str(),
            only,
            except,
            always_skip,
        );
        match check_window(&window, skipped) {
            Ok(rect) => {
                let frame = process::capture_window(window.hwnd);
                captured(window, rect, frame)
            },
            Err(e) => Err(e),
        }
    }
}

/// Every window either has its picture taken or is refused, never both; one that is refused for
/// its size is narrower than 650 pixels or lower than 400.
pub proof fn law_taken_or_refused(window: Foreground, skipped: bool, r: CaptureError)
    requires
        refusal(window, skipped, r),
    ensures
        !capturable(window, skipped),
        r matches CaptureError::WindowTooSmall { width, height } ==> {
            &&& !skipped
            &&& window.visible
            &&& !window.minimized
            &&& width < 650 || height < 400
            &&& window.client_rect is Some
            &&& window.client_rect->0.width == width
            &&& window.client_rect->0.height == height
        },
{
}

/// A window is left alone for a pair only where both its process and its title hold theirs; with
/// some processes asked for, only those are not left alone.
pub proof fn law_window_left_alone(
    process: Seq<char>,
    title: Seq<char>,
    skip: Seq<(Seq<char>, Seq<char>)>,
    only: Seq<Seq<char>>,
    except: Seq<Seq<char>>,
)
    ensures
        (exists|i: int|
            0 <= i < skip.len() && text::holds(process, (#[trigger] skip[i]).0) && text::holds(
                title,
                skip[i].1,
            )) ==> skips(process, title, skip, only, except),
        (exists|i: int| 0 <= i < except.len() && text::holds(process, #[trigger] except[i]))
            ==> skips(process, title, skip, only, except),
        only.len() > 0 && (forall|i: int|
            0 <= i < only.len() ==> !text::holds(process, #[trigger] only[i])) ==> skips(
            process,
            title,
            skip,
            only,
            except,
        ),
        (forall|i: int|
            0 <= i < skip.len() ==> !text::holds(process, (#[trigger] skip[i]).0) || !text::holds(
                title,
                skip[i].1,
            )) && (forall|i: int|
            0 <= i < except.len() ==> !text::holds(process, #[trigger] except[i])) && (only.len()
            == 0 || exists|i: int| 0 <= i < only.len() && text::holds(process, #[trigger] only[i]))
            ==> !skips(process, title, skip, only, except),
{
}

} // verus!
