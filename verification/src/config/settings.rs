//! What can be set.

use vstd::prelude::*;

use crate::numeric;
use crate::single::Single;
use crate::vision::geometry::ColorRgb;

verus! {

/// All settings.
#[derive(Debug)]
pub struct PordaConfig {
    pub detection: DetectionConfig,
    pub overlay: OverlayConfig,
    pub hotkeys: HotkeyConfig,
    pub performance: PerformanceConfig,
    pub windows: WindowConfig,
    pub startup: StartupConfig,
}

#[derive(Debug)]
pub struct DetectionConfig {
    /// How sure the network must be, in percent.
    pub accuracy: u8,
    pub network_width: u32,
    pub network_height: u32,
    pub engine: String,
    pub hardware_accelerated: bool,
    pub is_detect_male: bool,
    pub is_detect_female: bool,
    pub active_timeout_ms: u64,
    pub sleep_timeout_ms: u64,
    pub keep_running_seconds: u64,
    pub nms_threshold: Single,
}

#[derive(Debug, Clone, Copy, PartialEq, Eq, Structural)]
pub struct OverlayConfig {
    pub is_blur: bool,
    pub is_bg_color: bool,
    pub is_solid_color: bool,
    pub rgb_color: ColorRgb,
}

#[derive(Debug)]
pub struct HotkeyConfig {
    pub toggle_key: String,
}

#[derive(Debug, Clone, Copy, PartialEq, Eq, Structural)]
pub struct PerformanceConfig {
    pub is_priority_realtime: bool,
    pub is_allow_max_cpu_limit: bool,
    pub max_cpu_limit: u8,
    pub average_reading_interval: u32,
}

#[derive(Debug)]
pub struct WindowConfig {
    pub is_all_windows: bool,
    pub is_include_window: bool,
    pub is_exclude_window: bool,
    pub include_windows: Vec<String>,
    pub exclude_windows: Vec<String>,
    /// Windows that are never looked at, by the name of the program and a part of the title.
    pub always_skip_windows: Vec<(String, String)>,
}

#[derive(Debug, Clone, Copy, PartialEq, Eq, Structural)]
pub struct StartupConfig {
    pub auto_startup: bool,
}

/// The texts of a list of strings.
pub open spec fn texts(v: Seq<String>) -> Seq<Seq<char>> {
    v.map_values(|s: String| s@)
}

/// The texts of a list of pairs of strings.
pub open spec fn pairs(v: Seq<(String, String)>) -> Seq<(Seq<char>, Seq<char>)> {
    v.map_values(|p: (String, String)| (p.0@, p.1@))
}

/// The strings of a list, each copied.
pub fn copy_strings(v: &Vec<String>) -> (r: Vec<String>)
    ensures
        texts(r@) == texts(v@),
{
    let mut r: Vec<String> = Vec::new();
    let mut i: usize = 0;
    while i < v.len()
        invariant
            i <= v.len(),
            r@.len() == i,
            forall|k: int| 0 <= k < i ==> (#[trigger] r@[k])@ == v@[k]@,
        decreases v.len() - i,
    {
        r.push(v[i].clone());
        i = i + 1;
    }
    assert(texts(r@) =~= texts(v@));
    r
}

/// The pairs of a list, each copied.
pub fn copy_pairs(v: &Vec<(String, String)>) -> (r: Vec<(String, String)>)
    ensures
        pairs(r@) == pairs(v@),
{
    let mut r: Vec<(String, String)> = Vec::new();
    let mut i: usize = 0;
    while i < v.len()
        invariant
            i <= v.len(),
            r@.len() == i,
            forall|k: int|
                0 <= k < i ==> (#[trigger] r@[k]).0@ == v@[k].0@ && r@[k].1@ == v@[k].1@,
        decreases v.len() - i,
    {
        let p = &v[i];
        r.push((p.0.clone(), p.1.clone()));
        i = i + 1;
    }
    assert(pairs(r@) =~= pairs(v@));
    r
}

impl DetectionConfig {
    pub open spec fn same(self, other: Self) -> bool {
        &&& self.accuracy == other.accuracy
        &&& self.network_width == other.network_width
        &&& self.network_height == other.network_height
        &&& self.engine@ == other.engine@
        &&& self.hardware_accelerated == other.hardware_accelerated
        &&& self.is_detect_male == other.is_detect_male
        &&& self.is_detect_female == other.is_detect_female
        &&& self.active_timeout_ms == other.active_timeout_ms
        &&& self.sleep_timeout_ms == other.sleep_timeout_ms
        &&& self.keep_running_seconds == other.keep_running_seconds
        &&& self.nms_threshold == other.nms_threshold
    }
}

impl Clone for DetectionConfig {
    fn clone(&self) -> (r: Self)
        ensures
            r.same(*self),
    {
        DetectionConfig {
            accuracy: self.accuracy,
            network_width: self.network_width,
            network_height: self.network_height,
            engine: self.engine.clone(),
            hardware_accelerated: self.hardware_accelerated,
            is_detect_male: self.is_detect_male,
            is_detect_female: self.is_detect_female,
            active_timeout_ms: self.active_timeout_ms,
            sleep_timeout_ms: self.sleep_timeout_ms,
            keep_running_seconds: self.keep_running_seconds,
            nms_threshold: self.nms_threshold,
        }
    }
}

impl Clone for HotkeyConfig {
    fn clone(&self) -> (r: Self)
        ensures
            r.toggle_key@ == self.toggle_key@,
    {
        HotkeyConfig { toggle_key: self.toggle_key.clone() }
    }
}

impl WindowConfig {
    pub open spec fn same(self, other: Self) -> bool {
        &&& self.is_all_windows == other.is_all_windows
        &&& self.is_include_window == other.is_include_window
        &&& self.is_exclude_window == other.is_exclude_window
        &&& texts(self.include_windows@) == texts(other.include_windows@)
        &&& texts(self.exclude_windows@) == texts(other.exclude_windows@)
        &&& pairs(self.always_skip_windows@) == pairs(other.always_skip_windows@)
    }
}

impl Clone for WindowConfig {
    fn clone(&self) -> (r: Self)
        ensures
            r.same(*self),
    {
        WindowConfig {
            is_all_windows: self.is_all_windows,
            is_include_window: self.is_include_window,
            is_exclude_window: self.is_exclude_window,
            include_windows: copy_strings(&self.include_windows),
            exclude_windows: copy_strings(&self.exclude_windows),
            always_skip_windows: copy_pairs(&self.always_skip_windows),
        }
    }
}

/// The number of a percentage: a hundredth of it.
pub open spec fn percentage(p: u8) -> Single {
    Single::of_int(p as int).quotient(Single::of_int(100))
}

/// The classes that are looked for: 0 for men, 1 for women.
pub open spec fn classes(male: bool, female: bool) -> Seq<i32> {
    (if male {
        seq![0i32]
    } else {
        Seq::empty()
    }) + (if female {
        seq![1i32]
    } else {
        Seq::empty()
    })
}

impl PordaConfig {
    pub open spec fn same(self, other: Self) -> bool {
        &&& self.detection.same(other.detection)
        &&& self.overlay == other.overlay
        &&& self.hotkeys.toggle_key@ == other.hotkeys.toggle_key@
        &&& self.performance == other.performance
        &&& self.windows.same(other.windows)
        &&& self.startup == other.startup
    }

    pub fn confidence_threshold(&self) -> (r: Single)
        ensures
            r == percentage(self.detection.accuracy),
    {
        Single::from_u64(self.detection.accuracy as u64).over(Single::from_u64(100))
    }

    pub fn target_classes(&self) -> (r: Vec<i32>)
        ensures
            r@ == classes(self.detection.is_detect_male, self.detection.is_detect_female),
    {
        let mut r: Vec<i32> = Vec::new();
        if self.detection.is_detect_male {
            r.push(0);
        }
        if self.detection.is_detect_female {
            r.push(1);
        }
        assert(r@ =~= classes(self.detection.is_detect_male, self.detection.is_detect_female));
        r
    }
}

impl Clone for PordaConfig {
    fn clone(&self) -> (r: Self)
        ensures
            r.same(*self),
    {
        PordaConfig {
            detection: self.detection.clone(),
            overlay: self.overlay,
            hotkeys: self.hotkeys.clone(),
            performance: self.performance,
            windows: self.windows.clone(),
            startup: self.startup,
        }
    }
}

/// The number of a percentage is the hundredth part of it, up to rounding.
pub proof fn law_percentage(p: u8)
    ensures
        numeric::size_of(numeric::number(percentage(p)) - p as real / 100real) <= 1real
            / 1000000real,
{
    numeric::lemma_powers();
    numeric::lemma_power_rises(24, 127);
    numeric::law_of_int(p as int);
    numeric::law_of_int(100);
    numeric::law_quotient(Single::of_int(p as int), Single::of_int(100));
    numeric::lemma_close(numeric::number(percentage(p)), p as real / 100real, 3real);
}

/// The classes that are looked for are those that are asked for, men before women.
pub proof fn law_classes(male: bool, female: bool)
    ensures
        classes(male, female).contains(0) <==> male,
        classes(male, female).contains(1) <==> female,
        classes(male, female).no_duplicates(),
        forall|i: int|
            0 <= i < classes(male, female).len() ==> 0 <= #[trigger] classes(male, female)[i] <= 1,
        male && female ==> classes(male, female)[0] == 0,
{
    let c = classes(male, female);
    if male {
        assert(c[0] == 0);
    }
    if female {
        assert(c[c.len() - 1] == 1);
    }
}

} // verus!
