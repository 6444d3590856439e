//! What is set to begin with, and where the settings lie.

use vstd::prelude::*;

use crate::config::settings;
use crate::config::settings::{
    DetectionConfig, HotkeyConfig, OverlayConfig, PerformanceConfig, PordaConfig, StartupConfig,
    WindowConfig,
};
use crate::path;
use crate::path::{borrowed, from_text, join_text};
use crate::single::Single;
use crate::vision::geometry::ColorRgb;

verus! {

/// The bits of 0.1.
pub const DEFAULT_NMS_BITS: u32 = 0x3dcc_cccd;

pub open spec fn default_detection(d: DetectionConfig) -> bool {
    &&& d.accuracy == 25
    &&& d.network_width == 544
    &&& d.network_height == 320
    &&& d.engine@ == "CPU Engine"@
    &&& d.hardware_accelerated
    &&& !d.is_detect_male
    &&& d.is_detect_female
    &&& d.active_timeout_ms == 65
    &&& d.sleep_timeout_ms == 500
    &&& d.keep_running_seconds == 10
    &&& d.nms_threshold.bits == DEFAULT_NMS_BITS
}

impl Default for DetectionConfig {
    fn default() -> (r: Self)
        ensures
            default_detection(r),
    {
        DetectionConfig {
            accuracy: 25,
            network_width: 544,
            network_height: 320,
            engine: "CPU Engine".to_owned(),
            hardware_accelerated: true,
            is_detect_male: false,
            is_detect_female: true,
            active_timeout_ms: 65,
            sleep_timeout_ms: 500,
            keep_running_seconds: 10,
            nms_threshold: Single { bits: DEFAULT_NMS_BITS },
        }
    }
}

pub open spec fn default_overlay() -> OverlayConfig {
    OverlayConfig {
        is_blur: true,
        is_bg_color: false,
        is_solid_color: false,
        rgb_color: ColorRgb { r: 0, g: 0, b: 255 },
    }
}

impl Default for OverlayConfig {
    fn default() -> (r: Self)
        ensures
            r == default_overlay(),
    {
        OverlayConfig {
            is_blur: true,
            is_bg_color: false,
            is_solid_color: false,
            rgb_color: ColorRgb::new(0, 0, 255),
        }
    }
}

impl Default for HotkeyConfig {
    fn default() -> (r: Self)
        ensures
            r.toggle_key@ == "F2"@,
    {
        HotkeyConfig { toggle_key: "F2".to_owned() }
    }
}

pub open spec fn default_performance() -> PerformanceConfig {
    PerformanceConfig {
        is_priority_realtime: false,
        is_allow_max_cpu_limit: false,
        max_cpu_limit: 90,
        average_reading_interval: 30,
    }
}

impl Default for PerformanceConfig {
    fn default() -> (r: Self)
        ensures
            r == default_performance(),
    {
        PerformanceConfig {
            is_priority_realtime: false,
            is_allow_max_cpu_limit: false,
            max_cpu_limit: 90,
            average_reading_interval: 30,
        }
    }
}

/// The programs whose windows are looked at.
pub open spec fn default_included() -> Seq<Seq<char>> {
    seq![
        "chrome.exe"@,
        "msedge.exe"@,
        "brave.exe"@,
        "firefox.exe"@,
        "opera.exe"@,
        "PotPlayerMini64.exe"@,
        "vlc.exe"@,
    ]
}

/// The programs whose windows are not looked at.
pub open spec fn default_excluded() -> Seq<Seq<char>> {
    seq!["explorer.exe"@, "cmd.exe"@, "winword.exe"@, "pordaai.exe"@]
}

/// The parts of the desktop that are never looked at.
pub open spec fn default_skipped() -> Seq<(Seq<char>, Seq<char>)> {
    seq![
        ("explorer.exe"@, "Progman"@),
        ("explorer.exe"@, "WorkerW"@),
        ("explorer.exe"@, "Shell_TrayWnd"@),
        ("explorer.exe"@, "LauncherTipWnd"@),
        ("explorer.exe"@, "SystemTray_Main"@),
        ("explorer.exe"@, "NotifyIconOverflowWindow"@),
        ("ShellExperienceHost.exe"@, "Shell_TrayWnd"@),
        ("ShellExperienceHost.exe"@, "Windows.UI.Core.CoreWindow"@),
        ("SearchApp.exe"@, "Windows.UI.Core.CoreWindow"@),
    ]
}

pub open spec fn default_windows(w: WindowConfig) -> bool {
    &&& !w.is_all_windows
    &&& w.is_include_window
    &&& !w.is_exclude_window
    &&& settings::texts(w.include_windows@) == default_included()
    &&& settings::texts(w.exclude_windows@) == default_excluded()
    &&& settings::pairs(w.always_skip_windows@) == default_skipped()
}

fn pair(a: &str, b: &str) -> (r: (String, String))
    ensures
        r.0@ == a@,
        r.1@ == b@,
{
    (a.to_owned(), b.to_owned())
}

/// The windows that are never looked at.
pub fn always_skipped() -> (r: Vec<(String, String)>)
    ensures
        settings::pairs(r@) == default_skipped(),
{
    let mut r: Vec<(String, String)> = Vec::new();
    r.push(pair("explorer.exe", "Progman"));
    r.push(pair("explorer.exe", "WorkerW"));
    r.push(pair("explorer.exe", "Shell_TrayWnd"));
    r.push(pair("explorer.exe", "LauncherTipWnd"));
    r.push(pair("explorer.exe", "SystemTray_Main"));
    r.push(pair("explorer.exe", "NotifyIconOverflowWindow"));
    r.push(pair("ShellExperienceHost.exe", "Shell_TrayWnd"));
    r.push(pair("ShellExperienceHost.exe", "Windows.UI.Core.CoreWindow"));
    r.push(pair("SearchApp.exe", "Windows.UI.Core.CoreWindow"));
    assert(settings::pairs(r@) =~= default_skipped());
    r
}

impl Default for WindowConfig {
    fn default() -> (r: Self)
        ensures
            default_windows(r),
    {
        let mut included: Vec<String> = Vec::new();
        included.push("chrome.exe".to_owned());
        included.push("msedge.exe".to_owned());
        included.push("brave.exe".to_owned());
        included.push("firefox.exe".to_owned());
        included.push("opera.exe".to_owned());
        included.push("PotPlayerMini64.exe".to_owned());
        included.push("vlc.exe".to_owned());
        assert(settings::texts(included@) =~= default_included());
        let mut excluded: Vec<String> = Vec::new();
        excluded.push("explorer.exe".to_owned());
        excluded.push("cmd.exe".to_owned());
        excluded.push("winword.exe".to_owned());
        excluded.push("pordaai.exe".to_owned());
        assert(settings::texts(excluded@) =~= default_excluded());
        WindowConfig {
            is_all_windows: false,
            is_include_window: true,
            is_exclude_window: false,
            include_windows: included,
            exclude_windows: excluded,
            always_skip_windows: always_skipped(),
        }
    }
}

impl Default for StartupConfig {
    fn default() -> (r: Self)
        ensures
            r.auto_startup,
    {
        StartupConfig { auto_startup: true }
    }
}

pub open spec fn default_config(c: PordaConfig) -> bool {
    &&& default_detection(c.detection)
    &&& c.overlay == default_overlay()
    &&& c.hotkeys.toggle_key@ == "F2"@
    &&& c.performance == default_performance()
    &&& default_windows(c.windows)
    &&& c.startup.auto_startup
}

impl Default for PordaConfig {
    fn default() -> (r: Self)
        ensures
            default_config(r),
    {
        PordaConfig {
            detection: DetectionConfig::default(),
            overlay: OverlayConfig::default(),
            hotkeys: HotkeyConfig::default(),
            performance: PerformanceConfig::default(),
            windows: WindowConfig::default(),
            startup: StartupConfig::default(),
        }
    }
}

/// The directory of the program's data: in the home directory, or where the program was
/// started if there is none.
pub open spec fn data_dir(home: Option<Seq<u8>>) -> Seq<u8> {
    match home {
        Some(h) => path::joined(h, path::of_text("PordaAi"@)),
        None => path::of_text("PordaAi"@),
    }
}

/// An entry of the directory of the program's data.
pub open spec fn data_entry(home: Option<Seq<u8>>, name: Seq<char>) -> Seq<u8> {
    path::joined(data_dir(home), path::of_text(name))
}

pub fn app_data_dir_in(home: Option<&[u8]>) -> (r: Vec<u8>)
    ensures
        r@ == data_dir(path::maybe_part(home)),
{
    match home {
        Some(h) => join_text(h, "PordaAi"),
        None => from_text("PordaAi"),
    }
}

pub fn config_path_in(home: Option<&[u8]>) -> (r: Vec<u8>)
    ensures
        r@ == data_entry(path::maybe_part(home), "settings.json"@),
{
    join_text(app_data_dir_in(home).as_slice(), "settings.json")
}

pub fn dataset_dir_in(home: Option<&[u8]>) -> (r: Vec<u8>)
    ensures
        r@ == data_entry(path::maybe_part(home), "Dataset"@),
{
    join_text(app_data_dir_in(home).as_slice(), "Dataset")
}

pub fn external_model_dir_in(home: Option<&[u8]>) -> (r: Vec<u8>)
    ensures
        r@ == data_entry(path::maybe_part(home), "Extarnal-Model"@),
{
    join_text(app_data_dir_in(home).as_slice(), "Extarnal-Model")
}

/// The directories that must exist before the program runs.
pub open spec fn needed_dirs(home: Option<Seq<u8>>) -> Seq<Seq<u8>> {
    seq![data_dir(home), data_entry(home, "Dataset"@), data_entry(home, "Extarnal-Model"@)]
}

pub fn directories_in(home: Option<&[u8]>) -> (r: Vec<Vec<u8>>)
    ensures
        path::all(r@) == needed_dirs(path::maybe_part(home)),
{
    let mut r: Vec<Vec<u8>> = Vec::new();
    r.push(app_data_dir_in(home));
    r.push(dataset_dir_in(home));
    r.push(external_model_dir_in(home));
    assert(path::all(r@) =~= needed_dirs(path::maybe_part(home)));
    r
}

/// `dirs::home_dir` gives the home directory of the user, if there is one, here as the bytes of
/// its path. Nothing is claimed of the result: it depends on the environment that the program
/// runs in.
#[verifier::external_body]
fn home_dir() -> (r: Option<Vec<u8>>) {
    dirs::home_dir().map(|p| p.into_os_string().into_encoded_bytes())
}

/// This is what a call of `home_dir` gave.
pub closed spec fn given_home(home: Option<Vec<u8>>) -> bool {
    call_ensures(home_dir, (), home)
}

/// The directory of the program's data for the user.
pub fn app_data_dir() -> (r: Vec<u8>)
    ensures
        exists|home: Option<Vec<u8>>| #[trigger]
            given_home(home) && r@ == data_dir(path::maybe(home)),
{
    let home = home_dir();
    assert(given_home(home));
    app_data_dir_in(borrowed(&home))
}

pub fn config_path() -> (r: Vec<u8>)
    ensures
        exists|home: Option<Vec<u8>>| #[trigger]
            given_home(home) && r@ == data_entry(path::maybe(home), "settings.json"@),
{
    let home = home_dir();
    assert(given_home(home));
    config_path_in(borrowed(&home))
}

pub fn dataset_dir() -> (r: Vec<u8>)
    ensures
        exists|home: Option<Vec<u8>>| #[trigger]
            given_home(home) && r@ == data_entry(path::maybe(home), "Dataset"@),
{
    let home = home_dir();
    assert(given_home(home));
    dataset_dir_in(borrowed(&home))
}

pub fn external_model_dir() -> (r: Vec<u8>)
    ensures
        exists|home: Option<Vec<u8>>| #[trigger]
            given_home(home) && r@ == data_entry(path::maybe(home), "Extarnal-Model"@),
{
    let home = home_dir();
    assert(given_home(home));
    external_model_dir_in(borrowed(&home))
}

/// The settings to start with: what was read, or the defaults where nothing was there or it
/// could not be read.
pub fn initial_config(read: Option<PordaConfig>) -> (r: PordaConfig)
    ensures
        match read {
            Some(c) => r == c,
            None => default_config(r),
        },
{
    match read {
        Some(c) => c,
        None => PordaConfig::default(),
    }
}

} // verus!
