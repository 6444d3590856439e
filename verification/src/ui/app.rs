//! The life of the window: shown, hidden, woken, ended. Closing it hides it.

use vstd::prelude::*;

use crate::ui::state::UiState;

verus! {

/// How to bring the window back.
#[derive(Debug, Clone, Copy, PartialEq, Eq, Structural)]
pub enum ShowStep {
    /// Wake the thread of the window, which shows it again.
    Unpark,
    /// Ask the running window loop to show it.
    Invoke,
    /// There is nothing to bring back.
    Nothing,
}

/// What is known of the window from other threads.
#[derive(Debug, Clone, Copy, PartialEq, Eq, Structural)]
pub struct Lifecycle {
    pub has_window: bool,
    pub has_thread: bool,
    pub quit: bool,
    pub parked: bool,
}

impl Lifecycle {
    pub fn new() -> (r: Self)
        ensures
            r == (Lifecycle { has_window: false, has_thread: false, quit: false, parked: false }),
    {
        Lifecycle { has_window: false, has_thread: false, quit: false, parked: false }
    }

    /// The window is made, in a thread of its own.
    pub fn started(&mut self)
        ensures
            *final(self) == (Lifecycle {
                has_window: true,
                has_thread: true,
                quit: false,
                ..*old(self)
            }),
    {
        self.has_window = true;
        self.has_thread = true;
        self.quit = false;
    }

    /// The first step to bring the window back. A thread that sleeps must be woken: asking the loop
    /// would not do.
    pub fn request_show_window(&self) -> (r: ShowStep)
        ensures
            r == if self.parked && self.has_thread {
                ShowStep::Unpark
            } else if self.has_window {
                ShowStep::Invoke
            } else if self.has_thread {
                ShowStep::Unpark
            } else {
                ShowStep::Nothing
            },
    {
        if self.parked && self.has_thread {
            return ShowStep::Unpark;
        }
        if self.has_window {
            return ShowStep::Invoke;
        }
        self.after_failed_invoke()
    }

    /// The step after asking the loop failed.
    pub fn after_failed_invoke(&self) -> (r: ShowStep)
        ensures
            r == if self.has_thread {
                ShowStep::Unpark
            } else {
                ShowStep::Nothing
            },
    {
        if self.has_thread {
            ShowStep::Unpark
        } else {
            ShowStep::Nothing
        }
    }

    /// The program is to end; the result says whether there is a thread to be woken for it.
    pub fn request_quit(&mut self) -> (r: bool)
        ensures
            *final(self) == (Lifecycle { quit: true, ..*old(self) }),
            r == old(self).has_thread,
    {
        self.quit = true;
        self.has_thread
    }

    /// The window loop returned: either the program ends, or the window was hidden and its thread
    /// is to sleep. The result says whether it sleeps.
    pub fn loop_ended(&mut self) -> (r: bool)
        ensures
            r == !old(self).quit,
            *final(self) == (Lifecycle { parked: old(self).parked || !old(self).quit, ..*old(self) }),
    {
        if self.quit {
            return false;
        }
        self.parked = true;
        true
    }

    /// The thread of the window was woken. The result says whether the window is shown again.
    pub fn woken(&mut self) -> (r: bool)
        ensures
            r == !old(self).quit,
            *final(self) == (Lifecycle { parked: false, ..*old(self) }),
    {
        self.parked = false;
        !self.quit
    }
}

/// What the fields of the window hold.
#[derive(Debug)]
pub struct UiValues {
    pub is_blur: bool,
    pub is_bg_color: bool,
    pub is_solid_color: bool,
    pub accuracy: i32,
    pub network_width: i32,
    pub network_height: i32,
    pub active_timeout: i32,
    pub sleep_timeout: i32,
    pub keep_running_seconds: i32,
    pub is_detect_male: bool,
    pub is_detect_female: bool,
    pub is_all_windows: bool,
    pub is_include_window: bool,
    pub is_exclude_window: bool,
    pub auto_startup: bool,
    pub is_priority_realtime: bool,
    pub is_allow_max_cpu_limit: bool,
    pub max_cpu_limit: i32,
    pub toggle_key: String,
}

/// The fields of a window hold what its state says. Numbers lose their high bits.
pub open spec fn fields_show(v: UiValues, u: UiState) -> bool {
    &&& v.is_blur == u.is_blur
    &&& v.is_bg_color == u.is_bg_color
    &&& v.is_solid_color == u.is_solid_color
    &&& v.accuracy == u.accuracy as i32
    &&& v.network_width == u.network_width as i32
    &&& v.network_height == u.network_height as i32
    &&& v.active_timeout == u.active_timeout_ms as i32
    &&& v.sleep_timeout == u.sleep_timeout_ms as i32
    &&& v.keep_running_seconds == u.keep_running_seconds as i32
    &&& v.is_detect_male == u.is_detect_male
    &&& v.is_detect_female == u.is_detect_female
    &&& v.is_all_windows == u.is_all_windows
    &&& v.is_include_window == u.is_include_window
    &&& v.is_exclude_window == u.is_exclude_window
    &&& v.auto_startup == u.auto_startup
    &&& v.is_priority_realtime == u.is_priority_realtime
    &&& v.is_allow_max_cpu_limit == u.is_allow_max_cpu_limit
    &&& v.max_cpu_limit == u.max_cpu_limit as i32
    &&& v.toggle_key@ == u.toggle_key@
}

/// The state of a window after its fields are read. Numbers lose their high bits; the rest of the
/// state stays.
pub open spec fn fields_read(v: UiValues, before: UiState, after: UiState) -> bool {
    &&& after.toggle_key@ == v.toggle_key@
    &&& after == (UiState {
        is_blur: v.is_blur,
        is_bg_color: v.is_bg_color,
        is_solid_color: v.is_solid_color,
        accuracy: v.accuracy as u8,
        network_width: v.network_width as u32,
        network_height: v.network_height as u32,
        active_timeout_ms: v.active_timeout as u64,
        sleep_timeout_ms: v.sleep_timeout as u64,
        keep_running_seconds: v.keep_running_seconds as u64,
        is_detect_male: v.is_detect_male,
        is_detect_female: v.is_detect_female,
        is_all_windows: v.is_all_windows,
        is_include_window: v.is_include_window,
        is_exclude_window: v.is_exclude_window,
        auto_startup: v.auto_startup,
        is_priority_realtime: v.is_priority_realtime,
        is_allow_max_cpu_limit: v.is_allow_max_cpu_limit,
        max_cpu_limit: v.max_cpu_limit as u8,
        toggle_key: after.toggle_key,
        ..before
    })
}

fn narrow(n: u64) -> (r: i32)
    ensures
        r == n as i32,
{
    #[verifier::truncate]
    (n as i32)
}

fn narrow_small(n: u32) -> (r: i32)
    ensures
        r == n as i32,
{
    #[verifier::truncate]
    (n as i32)
}

fn as_byte(n: i32) -> (r: u8)
    ensures
        r == n as u8,
{
    #[verifier::truncate]
    (n as u8)
}

fn as_word(n: i32) -> (r: u32)
    ensures
        r == n as u32,
{
    #[verifier::truncate]
    (n as u32)
}

fn as_long(n: i32) -> (r: u64)
    ensures
        r == n as u64,
{
    #[verifier::truncate]
    (n as u64)
}

/// What to put into the fields of a window.
pub fn ui_values(u: &UiState) -> (r: UiValues)
    ensures
        fields_show(r, *u),
{
    UiValues {
        is_blur: u.is_blur,
        is_bg_color: u.is_bg_color,
        is_solid_color: u.is_solid_color,
        accuracy: u.accuracy as i32,
        network_width: narrow_small(u.network_width),
        network_height: narrow_small(u.network_height),
        active_timeout: narrow(u.active_timeout_ms),
        sleep_timeout: narrow(u.sleep_timeout_ms),
        keep_running_seconds: narrow(u.keep_running_seconds),
        is_detect_male: u.is_detect_male,
        is_detect_female: u.is_detect_female,
        is_all_windows: u.is_all_windows,
        is_include_window: u.is_include_window,
        is_exclude_window: u.is_exclude_window,
        auto_startup: u.auto_startup,
        is_priority_realtime: u.is_priority_realtime,
        is_allow_max_cpu_limit: u.is_allow_max_cpu_limit,
        max_cpu_limit: u.max_cpu_limit as i32,
        toggle_key: u.toggle_key.clone(),
    }
}

/// Reads the fields of a window into its state.
pub fn sync_ui_to_state(u: &mut UiState, v: UiValues)
    ensures
        fields_read(v, *old(u), *final(u)),
{
    u.is_blur = v.is_blur;
    u.is_bg_color = v.is_bg_color;
    u.is_solid_color = v.is_solid_color;
    u.accuracy = as_byte(v.accuracy);
    u.network_width = as_word(v.network_width);
    u.network_height = as_word(v.network_height);
    u.active_timeout_ms = as_long(v.active_timeout);
    u.sleep_timeout_ms = as_long(v.sleep_timeout);
    u.keep_running_seconds = as_long(v.keep_running_seconds);
    u.is_detect_male = v.is_detect_male;
    u.is_detect_female = v.is_detect_female;
    u.is_all_windows = v.is_all_windows;
    u.is_include_window = v.is_include_window;
    u.is_exclude_window = v.is_exclude_window;
    u.auto_startup = v.auto_startup;
    u.is_priority_realtime = v.is_priority_realtime;
    u.is_allow_max_cpu_limit = v.is_allow_max_cpu_limit;
    u.max_cpu_limit = as_byte(v.max_cpu_limit);
    u.toggle_key = v.toggle_key;
}

/// Another page of the window was chosen.
pub fn navigate(u: &mut UiState, page: i32)
    ensures
        *final(u) == (UiState { current_page: page as usize, ..*old(u) }),
{
    #[verifier::truncate]
    let page: usize = page as usize;
    u.current_page = page;
}

/// What the fields show is read back unchanged, where the numbers fit into the fields.
pub proof fn law_fields_round_trip(u: UiState, v: UiValues, after: UiState)
    requires
        u.network_width <= i32::MAX,
        u.network_height <= i32::MAX,
        u.active_timeout_ms <= i32::MAX,
        u.sleep_timeout_ms <= i32::MAX,
        u.keep_running_seconds <= i32::MAX,
        fields_show(v, u),
        fields_read(v, u, after),
    ensures
        after == (UiState { toggle_key: after.toggle_key, ..u }),
        after.toggle_key@ == u.toggle_key@,
{
}

} // verus!
