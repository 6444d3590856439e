//! What the window shows, and how it stands for the settings.

use vstd::prelude::*;

use crate::config::defaults;
use crate::config::defaults::{always_skipped, DEFAULT_NMS_BITS};
use crate::config::settings;
use crate::config::settings::{
    DetectionConfig, HotkeyConfig, OverlayConfig, PerformanceConfig, PordaConfig, StartupConfig,
    WindowConfig,
};
use crate::single::Single;
use crate::text;
use crate::text::{chars_of, join, split_words, string_of};
use crate::vision::geometry::ColorRgb;

verus! {

/// What the window shows.
#[derive(Debug, Clone)]
pub struct UiState {
    pub is_active: bool,
    pub is_blur: bool,
    pub is_bg_color: bool,
    pub is_solid_color: bool,
    pub rgb_r: u8,
    pub rgb_g: u8,
    pub rgb_b: u8,
    pub accuracy: u8,
    pub network_width: u32,
    pub network_height: u32,
    pub active_timeout_ms: u64,
    pub sleep_timeout_ms: u64,
    pub keep_running_seconds: u64,
    pub engine: String,
    pub is_detect_male: bool,
    pub is_detect_female: bool,
    pub include_windows: String,
    pub exclude_windows: String,
    pub is_all_windows: bool,
    pub is_include_window: bool,
    pub is_exclude_window: bool,
    pub auto_startup: bool,
    pub is_priority_realtime: bool,
    pub is_allow_max_cpu_limit: bool,
    pub max_cpu_limit: u8,
    pub toggle_key: String,
    pub cpu_usage: Single,
    pub current_page: usize,
    pub detection_state: String,
}

/// A list as one line: its texts with commas between them.
pub open spec fn line_of(list: Seq<Seq<char>>) -> Seq<char> {
    text::joined(list, ", "@)
}

/// The list that a line stands for: the trimmed texts between commas that are not empty.
pub open spec fn list_of(line: Seq<char>) -> Seq<Seq<char>> {
    text::words(text::pieces(line, ','))
}

fn line_from(list: &Vec<String>) -> (r: String)
    ensures
        r@ == line_of(settings::texts(list@)),
{
    let mut parts: Vec<Vec<char>> = Vec::new();
    let mut i: usize = 0;
    while i < list.len()
        invariant
            i <= list@.len(),
            parts@.len() == i,
            forall|k: int| 0 <= k < i ==> (#[trigger] parts@[k])@ == list@[k]@,
        decreases list.len() - i,
    {
        parts.push(chars_of(list[i].as_str()));
        i = i + 1;
    }
    assert(text::texts(parts@) =~= settings::texts(list@));
    join(&parts, ", ")
}

fn list_from(line: &str) -> (r: Vec<String>)
    ensures
        settings::texts(r@) == list_of(line@),
{
    let words = split_words(&chars_of(line), ',');
    let mut r: Vec<String> = Vec::new();
    let mut i: usize = 0;
    while i < words.len()
        invariant
            i <= words@.len(),
            r@.len() == i,
            forall|k: int| 0 <= k < i ==> (#[trigger] r@[k])@ == words@[k]@,
        decreases words.len() - i,
    {
        r.push(string_of(&words[i]));
        i = i + 1;
    }
    assert(settings::texts(r@) =~= text::texts(words@));
    r
}

/// A window shows some settings.
pub open spec fn shows(u: UiState, c: PordaConfig) -> bool {
    &&& u.is_blur == c.overlay.is_blur
    &&& u.is_bg_color == c.overlay.is_bg_color
    &&& u.is_solid_color == c.overlay.is_solid_color
    &&& (ColorRgb { r: u.rgb_r, g: u.rgb_g, b: u.rgb_b }) == c.overlay.rgb_color
    &&& u.accuracy == c.detection.accuracy
    &&& u.network_width == c.detection.network_width
    &&& u.network_height == c.detection.network_height
    &&& u.active_timeout_ms == c.detection.active_timeout_ms
    &&& u.sleep_timeout_ms == c.detection.sleep_timeout_ms
    &&& u.keep_running_seconds == c.detection.keep_running_seconds
    &&& u.engine@ == c.detection.engine@
    &&& u.is_detect_male == c.detection.is_detect_male
    &&& u.is_detect_female == c.detection.is_detect_female
    &&& u.include_windows@ == line_of(settings::texts(c.windows.include_windows@))
    &&& u.exclude_windows@ == line_of(settings::texts(c.windows.exclude_windows@))
    &&& u.is_all_windows == c.windows.is_all_windows
    &&& u.is_include_window == c.windows.is_include_window
    &&& u.is_exclude_window == c.windows.is_exclude_window
    &&& u.auto_startup == c.startup.auto_startup
    &&& u.is_priority_realtime == c.performance.is_priority_realtime
    &&& u.is_allow_max_cpu_limit == c.performance.is_allow_max_cpu_limit
    &&& u.max_cpu_limit == c.performance.max_cpu_limit
    &&& u.toggle_key@ == c.hotkeys.toggle_key@
}

/// Nothing is going on in the window.
pub open spec fn at_rest(u: UiState) -> bool {
    &&& !u.is_active
    &&& u.cpu_usage == Single { bits: 0 }
    &&& u.current_page == 0
    &&& u.detection_state@ == "Sleep"@
}

/// The settings that a window stands for. What the window does not show is as it is to begin
/// with.
pub open spec fn means(u: UiState, c: PordaConfig) -> bool {
    &&& c.detection.accuracy == u.accuracy
    &&& c.detection.network_width == u.network_width
    &&& c.detection.network_height == u.network_height
    &&& c.detection.engine@ == u.engine@
    &&& c.detection.hardware_accelerated
    &&& c.detection.is_detect_male == u.is_detect_male
    &&& c.detection.is_detect_female == u.is_detect_female
    &&& c.detection.active_timeout_ms == u.active_timeout_ms
    &&& c.detection.sleep_timeout_ms == u.sleep_timeout_ms
    &&& c.detection.keep_running_seconds == u.keep_running_seconds
    &&& c.detection.nms_threshold.bits == DEFAULT_NMS_BITS
    &&& c.overlay == (OverlayConfig {
        is_blur: u.is_blur,
        is_bg_color: u.is_bg_color,
        is_solid_color: u.is_solid_color,
        rgb_color: ColorRgb { r: u.rgb_r, g: u.rgb_g, b: u.rgb_b },
    })
    &&& c.hotkeys.toggle_key@ == u.toggle_key@
    &&& c.performance == (PerformanceConfig {
        is_priority_realtime: u.is_priority_realtime,
        is_allow_max_cpu_limit: u.is_allow_max_cpu_limit,
        max_cpu_limit: u.max_cpu_limit,
        average_reading_interval: 30,
    })
    &&& c.windows.is_all_windows == u.is_all_windows
    &&& c.windows.is_include_window == u.is_include_window
    &&& c.windows.is_exclude_window == u.is_exclude_window
    &&& settings::texts(c.windows.include_windows@) == list_of(u.include_windows@)
    &&& settings::texts(c.windows.exclude_windows@) == list_of(u.exclude_windows@)
    &&& settings::pairs(c.windows.always_skip_windows@) == defaults::default_skipped()
    &&& c.startup == (StartupConfig { auto_startup: u.auto_startup })
}

impl UiState {
    /// A window at rest that shows some settings.
    pub fn from_config(config: &PordaConfig) -> (r: Self)
        ensures
            shows(r, *config),
            at_rest(r),
    {
        UiState {
            is_active: false,
            is_blur: config.overlay.is_blur,
            is_bg_color: config.overlay.is_bg_color,
            is_solid_color: config.overlay.is_solid_color,
            rgb_r: config.overlay.rgb_color.r,
            rgb_g: config.overlay.rgb_color.g,
            rgb_b: config.overlay.rgb_color.b,
            accuracy: config.detection.accuracy,
            network_width: config.detection.network_width,
            network_height: config.detection.network_height,
            active_timeout_ms: config.detection.active_timeout_ms,
            sleep_timeout_ms: config.detection.sleep_timeout_ms,
            keep_running_seconds: config.detection.keep_running_seconds,
            engine: config.detection.engine.clone(),
            is_detect_male: config.detection.is_detect_male,
            is_detect_female: config.detection.is_detect_female,
            include_windows: line_from(&config.windows.include_windows),
            exclude_windows: line_from(&config.windows.exclude_windows),
            is_all_windows: config.windows.is_all_windows,
            is_include_window: config.windows.is_include_window,
            is_exclude_window: config.windows.is_exclude_window,
            auto_startup: config.startup.auto_startup,
            is_priority_realtime: config.performance.is_priority_realtime,
            is_allow_max_cpu_limit: config.performance.is_allow_max_cpu_limit,
            max_cpu_limit: config.performance.max_cpu_limit,
            toggle_key: config.hotkeys.toggle_key.clone(),
            cpu_usage: Single { bits: 0 },
            current_page: 0,
            detection_state: "Sleep".to_owned(),
        }
    }

    /// The settings that the window stands for.
    pub fn to_config(&self) -> (r: PordaConfig)
        ensures
            means(*self, r),
    {
        PordaConfig {
            detection: DetectionConfig {
                accuracy: self.accuracy,
                network_width: self.network_width,
                network_height: self.network_height,
                engine: self.engine.clone(),
                hardware_accelerated: true,
                is_detect_male: self.is_detect_male,
                is_detect_female: self.is_detect_female,
                active_timeout_ms: self.active_timeout_ms,
                sleep_timeout_ms: self.sleep_timeout_ms,
                keep_running_seconds: self.keep_running_seconds,
                nms_threshold: Single { bits: DEFAULT_NMS_BITS },
            },
            overlay: OverlayConfig {
                is_blur: self.is_blur,
                is_bg_color: self.is_bg_color,
                is_solid_color: self.is_solid_color,
                rgb_color: ColorRgb::new(self.rgb_r, self.rgb_g, self.rgb_b),
            },
            hotkeys: HotkeyConfig { toggle_key: self.toggle_key.clone() },
            performance: PerformanceConfig {
                is_priority_realtime: self.is_priority_realtime,
                is_allow_max_cpu_limit: self.is_allow_max_cpu_limit,
                max_cpu_limit: self.max_cpu_limit,
                average_reading_interval: 30,
            },
            windows: WindowConfig {
                is_all_windows: self.is_all_windows,
                is_include_window: self.is_include_window,
                is_exclude_window: self.is_exclude_window,
                include_windows: list_from(self.include_windows.as_str()),
                exclude_windows: list_from(self.exclude_windows.as_str()),
                always_skip_windows: always_skipped(),
            },
            startup: StartupConfig { auto_startup: self.auto_startup },
        }
    }
}

impl Default for UiState {
    /// A window at rest that shows what is set to begin with.
    fn default() -> (r: Self)
        ensures
            at_rest(r),
            exists|c: PordaConfig| defaults::default_config(c) && #[trigger] shows(r, c),
    {
        let config = PordaConfig::default();
        UiState::from_config(&config)
    }
}

/// A text that a line can hold: not empty, without commas, and without white space at its ends.
pub open spec fn listable(w: Seq<char>) -> bool {
    &&& w.len() > 0
    &&& !text::is_white(w.first())
    &&& !text::is_white(w.last())
    &&& forall|i: int| 0 <= i < w.len() ==> w[i] != ','
}

/// A text after a space.
spec fn spaced(w: Seq<char>) -> Seq<char> {
    seq![' '] + w
}

/// The texts of a list, all but the first after a space.
spec fn spaced_list(ws: Seq<Seq<char>>) -> Seq<Seq<char>> {
    Seq::new(
        ws.len(),
        |i: int|
            if i == 0 {
                ws[i]
            } else {
                spaced(ws[i])
            },
    )
}

proof fn lemma_spaced_trimmed(w: Seq<char>)
    requires
        listable(w),
    ensures
        text::trimmed(spaced(w)) == w,
        text::trimmed(w) == w,
{
    let s = spaced(w);
    assert(s.drop_first() =~= w);
    assert(text::is_white(' '));
    text::lemma_untrimmed(w);
    assert(text::trimmed_start(w) == w);
    assert(text::trimmed_start(s) == text::trimmed_start(w));
}

proof fn lemma_pieces_of_line(ws: Seq<Seq<char>>)
    requires
        ws.len() > 0,
        forall|i: int| 0 <= i < ws.len() ==> listable(#[trigger] ws[i]),
    ensures
        text::pieces(line_of(ws), ',') == spaced_list(ws),
    decreases ws.len(),
{
    let last = ws.last();
    assert(listable(ws[ws.len() - 1]));
    if ws.len() == 1 {
        text::lemma_pieces_single(ws[0], ',');
        assert(spaced_list(ws) =~= seq![ws[0]]);
    } else {
        let front = ws.drop_last();
        assert forall|i: int| 0 <= i < front.len() implies listable(#[trigger] front[i]) by {
            assert(front[i] == ws[i]);
        }
        lemma_pieces_of_line(front);
        reveal_strlit(", ");
        let a = line_of(front);
        assert(", "@ =~= seq![',', ' ']);
        assert(line_of(ws) =~= a.push(',') + spaced(last));
        text::lemma_pieces_append(a, spaced(last), ',');
        assert(spaced_list(ws) =~= spaced_list(front).push(spaced(last)));
    }
}

proof fn lemma_words_of_spaced(ws: Seq<Seq<char>>, n: int)
    requires
        0 <= n <= ws.len(),
        forall|i: int| 0 <= i < ws.len() ==> listable(#[trigger] ws[i]),
    ensures
        text::words(spaced_list(ws).take(n)) == ws.take(n),
    decreases n,
{
    let all = spaced_list(ws);
    if n == 0 {
        assert(all.take(0) =~= Seq::empty());
        assert(ws.take(0) =~= Seq::empty());
    } else {
        lemma_words_of_spaced(ws, n - 1);
        assert(all.take(n).drop_last() =~= all.take(n - 1));
        assert(all.take(n).last() == all[n - 1]);
        assert(listable(ws[n - 1]));
        lemma_spaced_trimmed(ws[n - 1]);
        assert(ws.take(n) =~= ws.take(n - 1).push(ws[n - 1]));
    }
}

/// A list of texts that a line can hold is read back from the line that is written for it.
pub proof fn law_list_round_trip(ws: Seq<Seq<char>>)
    requires
        forall|i: int| 0 <= i < ws.len() ==> listable(#[trigger] ws[i]),
    ensures
        list_of(line_of(ws)) == ws,
{
    if ws.len() == 0 {
        let line = line_of(ws);
        assert(line =~= Seq::empty());
        let ps = text::pieces(line, ',');
        assert(ps =~= seq![Seq::<char>::empty()]);
        assert(ps.drop_last() =~= Seq::empty());
        assert(text::trimmed(Seq::<char>::empty()) =~= Seq::empty());
        assert(text::words(ps.drop_last()) =~= Seq::empty());
        assert(text::words(ps) =~= Seq::empty());
        assert(ws =~= Seq::empty());
    } else {
        lemma_pieces_of_line(ws);
        lemma_words_of_spaced(ws, ws.len() as int);
        assert(spaced_list(ws).take(ws.len() as int) =~= spaced_list(ws));
        assert(ws.take(ws.len() as int) =~= ws);
    }
}

/// Settings that are shown in a window come back from it unchanged, if the window can show all of
/// them: the lists hold texts that a line can hold, and what is not shown is as it is to begin
/// with.
pub proof fn law_settings_round_trip(c: PordaConfig, u: UiState, back: PordaConfig)
    requires
        shows(u, c),
        means(u, back),
        forall|i: int|
            0 <= i < c.windows.include_windows@.len() ==> listable(
                (#[trigger] c.windows.include_windows@[i])@,
            ),
        forall|i: int|
            0 <= i < c.windows.exclude_windows@.len() ==> listable(
                (#[trigger] c.windows.exclude_windows@[i])@,
            ),
        c.detection.hardware_accelerated,
        c.detection.nms_threshold.bits == DEFAULT_NMS_BITS,
        c.performance.average_reading_interval == 30,
        settings::pairs(c.windows.always_skip_windows@) == defaults::default_skipped(),
    ensures
        back.same(c),
{
    let a = settings::texts(c.windows.include_windows@);
    let b = settings::texts(c.windows.exclude_windows@);
    assert forall|i: int| 0 <= i < a.len() implies listable(#[trigger] a[i]) by {
        assert(a[i] == c.windows.include_windows@[i]@);
    }
    assert forall|i: int| 0 <= i < b.len() implies listable(#[trigger] b[i]) by {
        assert(b[i] == c.windows.exclude_windows@[i]@);
    }
    law_list_round_trip(a);
    law_list_round_trip(b);
    assert(back.detection.nms_threshold == c.detection.nms_threshold);
}

} // verus!
