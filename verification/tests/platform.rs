use porda::capture::capturer::{
    captured, check_window, should_skip_window, CaptureError, Foreground, PlatformCapturer,
    ScreenCapturer,
};
use porda::platform::capabilities::{detect_capabilities, PlatformCapabilities};
use porda::platform::capture::{
    accept_buffer, capture_screen_frame, convert_to_bgr_into, first_stream, is_cancelled,
    negotiate, portal_failure, spa_to_pixel_format, step_failure, LinuxCaptureError,
    LinuxScreenCapturer, Offer, SpaVideoFormatTag, StreamInfo, StreamStep,
};
use porda::platform::outputs::{
    get_monitors, get_outputs, get_primary_output, outputs_from, read_descriptions, OutputTransform,
};
use porda::platform::process;
use porda::platform::process::{ModelDirs, WindowHandle};
use porda::platform::startup::{
    autostart_dir, autostart_dir_in, desktop_content, desktop_path, desktop_path_in,
};
use porda::platform::system::{
    check_duplicate_instances, get_memory_usage, read_cpu_times, read_process_times, CpuMeter,
    CpuTimes,
};
use porda::platform::windows;
use porda::platform::windows::WindowInfo;
use porda::vision::detection::{FrameData, PixelFormat};
use porda::vision::geometry::ScreenRect;

fn strings(list: &[&str]) -> Vec<String> {
    list.iter().map(|s| s.to_string()).collect()
}

#[test]
fn test_should_skip_window() {
    let only = vec!["chrome.exe".to_string()];
    let except = vec!["explorer.exe".to_string()];
    let always_skip = vec![("explorer.exe".to_string(), "Shell_TrayWnd".to_string())];

    assert!(!should_skip_window("chrome.exe", "Google", &only, &except, &always_skip));
    assert!(should_skip_window("explorer.exe", "Desktop", &only, &except, &always_skip));
    assert!(should_skip_window("firefox.exe", "Firefox", &only, &except, &always_skip));
    assert!(should_skip_window("explorer.exe", "Shell_TrayWnd", &only, &except, &always_skip));
}

#[test]
fn the_case_of_letters_does_not_matter_for_skipping() {
    let none: Vec<String> = Vec::new();
    let skip = vec![("KWIN".to_string(), "Desk".to_string())];
    assert!(should_skip_window("kwin_wayland", "DESKTOP", &none, &none, &skip));
    assert!(!should_skip_window("kwin_wayland", "window", &none, &none, &skip));
    assert!(windows::should_skip_window("Kwin", &none, &none, &skip));
    assert!(!windows::should_skip_window("firefox", &none, &none, &skip));
    assert!(windows::should_skip_window("firefox", &strings(&["Chrome"]), &none, &skip));
    assert!(windows::should_skip_window("ÄPFEL", &none, &strings(&["äpf"]), &skip));
}

fn window(visible: bool, minimized: bool, client_rect: Option<ScreenRect>) -> Foreground {
    Foreground {
        hwnd: WindowHandle(7),
        process_name: "p".to_string(),
        window_title: "t".to_string(),
        visible,
        minimized,
        client_rect,
    }
}

#[test]
fn windows_that_no_picture_is_taken_of() {
    let rect = ScreenRect::new(0, 0, 650, 400);
    let text = |w: &Foreground, skipped: bool| check_window(w, skipped).unwrap_err().message();
    let good = window(true, false, Some(rect));
    assert_eq!(check_window(&good, false).unwrap(), rect);
    assert_eq!(text(&good, true), "Capture failed: Window filtered out");
    assert_eq!(text(&window(false, false, Some(rect)), false), "Capture failed: Window not visible");
    assert_eq!(text(&window(true, true, Some(rect)), false), "Capture failed: Window minimized");
    assert_eq!(
        text(&window(true, false, None), false),
        "Capture failed: Failed to get client rect"
    );
    let small = ScreenRect::new(0, 0, 649, 400);
    assert_eq!(
        text(&window(true, false, Some(small)), false),
        "Window too small: 649x400"
    );
    assert_eq!(CaptureError::Unsupported.message(), "Platform not supported");
}

#[test]
fn a_picture_of_a_window() {
    let rect = ScreenRect::new(0, 0, 650, 400);
    let frame = FrameData::new_bgr(1, 1, vec![1, 2, 3]);
    let got = captured(window(true, false, Some(rect)), rect, Some(frame)).unwrap();
    assert_eq!(got.hwnd, WindowHandle(7));
    assert_eq!(got.process_name, "p");
    assert_eq!(got.frame.data, vec![1, 2, 3]);
    let err = captured(window(true, false, Some(rect)), rect, None).unwrap_err();
    assert_eq!(err.message(), "Capture failed: Failed to capture window");
}

fn some_windows() -> Vec<WindowInfo> {
    let make = |id: u64, app_id: &str, focused: bool| WindowInfo {
        id,
        title: format!("title {}", id),
        app_id: app_id.to_string(),
        geometry: ScreenRect::new(0, 0, 10, 10),
        focused,
        minimized: false,
    };
    vec![make(1, "kwin", false), make(2, "firefox", true), make(3, "vlc", true)]
}

#[test]
fn the_window_in_front() {
    let list = some_windows();
    assert_eq!(windows::get_foreground_window(&list).unwrap().id, 2);
    assert_eq!(process::get_foreground_window(&list), Some(WindowHandle(2)));
    assert_eq!(process::get_foreground_window(&Vec::new()), None);
    let name = process::get_window_process_name(&list, WindowHandle(3));
    assert_eq!(name.as_deref(), Some("vlc"));
    let title = process::get_window_title(&list, WindowHandle(1));
    assert_eq!(title.as_deref(), Some("title 1"));
    assert_eq!(process::get_window_title(&list, WindowHandle(9)), None);
}

#[test]
fn capturing_without_windows_fails() {
    let none: Vec<String> = Vec::new();
    let empty = PlatformCapturer::new();
    let err = empty.capture_foreground(&none, &none, &[]).unwrap_err();
    assert_eq!(err.message(), "No foreground window");
    let full = PlatformCapturer { windows: some_windows() };
    let err = full.capture_foreground(&none, &none, &[]).unwrap_err();
    assert_eq!(err.message(), "Capture failed: Failed to get client rect");
    let err = full.capture_foreground(&strings(&["VLC"]), &none, &[]).unwrap_err();
    assert_eq!(err.message(), "Capture failed: Window filtered out");
}

#[test]
fn handles() {
    assert!(!WindowHandle::invalid().is_valid());
    assert!(WindowHandle(1).is_valid());
    assert_eq!(process::get_window_rect(WindowHandle(1)), None);
    assert_eq!(process::get_client_rect(WindowHandle(1)), None);
    assert!(process::is_window_visible(WindowHandle(1)));
    assert!(!process::is_window_minimized(WindowHandle(1)));
    assert!(process::capture_window(WindowHandle(1)).is_none());
}

#[test]
fn listed_windows() {
    let list = some_windows();
    let none: Vec<String> = Vec::new();
    let skip = vec![("KWIN".to_string(), String::new())];
    let got = process::list_windows(&list, &none, &strings(&["FIRE"]), &skip);
    assert_eq!(got.len(), 1);
    assert_eq!(got[0].0, WindowHandle(3));
    assert_eq!(got[0].1, "vlc");
    assert_eq!(got[0].2, "title 3");
}

#[test]
fn outputs_of_the_desktop() {
    let json = r#"[{"name":"HDMI-1","width":2560,"height":1440,"scale":1.5,"x":-10,"y":20},
        {"name":7,"width":-1,"scale":"big"}]"#;
    let list = get_outputs(&Some(json.to_string()));
    assert_eq!(list.len(), 2);
    assert_eq!(list[0].name, "HDMI-1");
    assert_eq!(list[0].geometry, ScreenRect::new(-10, 20, 2560, 1440));
    assert_eq!(list[0].scale_factor, 1.5f64.to_bits());
    assert!(list[0].focused);
    assert_eq!(list[1].id, 1);
    assert_eq!(list[1].name, "unknown");
    assert_eq!(list[1].geometry, ScreenRect::new(0, 0, 1920, 1080));
    assert_eq!(list[1].scale_factor, 1.0f64.to_bits());
    assert!(!list[1].focused);
    assert_eq!(list[1].transform, OutputTransform::Normal);
    assert_eq!(get_primary_output(&list).unwrap().name, "HDMI-1");
    assert_eq!(get_monitors(&list).len(), 2);
    let monitors = process::get_monitors(&list);
    assert_eq!(monitors[0].work_area, ScreenRect::new(-10, 20, 2560, 1440));
    assert!(monitors[1].is_primary);
}

#[test]
fn outputs_where_none_are_reported() {
    for json in [None, Some("not json"), Some("{}"), Some("[]")] {
        let list = get_outputs(&json.map(|s| s.to_string()));
        assert_eq!(list.len(), 1);
        assert_eq!(list[0].name, "DP-1");
        assert_eq!(list[0].geometry, ScreenRect::new(0, 0, 1920, 1080));
    }
    assert!(get_primary_output(&Vec::new()).is_none());
    let raw = (None, Some(0x1_0000_0005), None, None, Some(0x1_ffff_ffff), None);
    let list = outputs_from(&Some(vec![raw]));
    assert_eq!(list[0].geometry, ScreenRect::new(-1, 0, 5, 1080));
    assert_eq!(OutputTransform::default(), OutputTransform::Normal);
}

#[test]
fn the_load_of_the_processor() {
    let mut meter = CpuMeter::new();
    let first = meter.get_cpu_usage("cpu  10 0 10 80 5\ncpu0 1 2 3 4\n").unwrap();
    assert_eq!(f32::from_bits(first.bits), 20.0 / 100.0 * 100.0);
    let second = meter.get_cpu_usage("cpu  20 5 15 160").unwrap();
    assert_eq!(f32::from_bits(second.bits), 20.0 / 100.0 * 100.0);
    assert_eq!(meter.get_cpu_usage("cpu  20 5 15 160").unwrap().bits, 0);
    assert_eq!(meter.get_cpu_usage("intr 1 2 3 4 5").unwrap().bits, 0);
    assert_eq!(meter.total, 200);
    assert!(meter.get_cpu_usage("cpu 18446744073709551615 1 0 0").is_none());
}

#[test]
fn lines_of_the_statistics() {
    let times = CpuTimes { user: 1, nice: 0, system: 3, idle: 4 };
    assert_eq!(read_cpu_times("cpu +1 x 3 4"), Some(times));
    assert_eq!(read_cpu_times("cpu 1 2 3"), None);
    assert_eq!(read_cpu_times(""), None);
    let fields: Vec<String> = (0..20).map(|n| n.to_string()).collect();
    assert_eq!(read_process_times(&fields.join(" ")), Some((13, 14)));
    assert_eq!(read_process_times("1 (porda) S"), None);
}

#[test]
fn the_memory_of_the_machine() {
    let info = "MemTotal:       32000 kB\nMemFree: 5 kB\nMemAvailable:   16000 kB\n";
    assert_eq!(get_memory_usage(&Some(info.to_string())), (32000, 16000));
    assert_eq!(get_memory_usage(&Some("MemTotal:\n".to_string())), (0, 0));
    assert_eq!(get_memory_usage(&None), (0, 0));
}

#[test]
fn other_processes_of_the_program() {
    let ours: &[u8] = b"/usr/bin/porda";
    let entry = |name: &str, exe: Option<&[u8]>| (name.to_string(), exe.map(<[u8]>::to_vec));
    let check = |processes: Vec<(String, Option<Vec<u8>>)>| {
        check_duplicate_instances(5, Some(ours), &processes)
    };
    assert!(check(vec![entry("self", Some(ours)), entry("6", Some(ours))]));
    assert!(!check(vec![entry("5", Some(ours)), entry("6", Some(b"/usr/bin/other"))]));
    assert!(!check(vec![entry("6", None)]));
    assert!(!check(vec![entry("self", Some(ours))]));
    assert!(!check(vec![entry("4294967296", Some(ours))]));
    assert!(!check(vec![]));
    assert!(!check_duplicate_instances(5, None, &vec![entry("6", Some(ours)), entry("7", None)]));
    let odd: &[u8] = b"/opt/\xff";
    assert!(check_duplicate_instances(5, Some(odd), &vec![entry("6", Some(odd))]));
}

#[test]
fn starting_with_the_desktop() {
    let text = desktop_content("/opt/porda");
    assert!(text.starts_with("[Desktop Entry]\nType=Application\nName=Porda AI\n"));
    assert!(text.contains("Exec=/opt/porda --startup\n"));
    assert!(text.ends_with("X-GNOME-Autostart-enabled=true\n"));
    assert_eq!(desktop_path_in(Some(b"/c")), b"/c/autostart/pordaai.desktop");
    assert_eq!(desktop_path_in(None), b"~/.config/autostart/pordaai.desktop");
    assert_eq!(desktop_path_in(Some(b"/\xff")), b"/\xff/autostart/pordaai.desktop");
    let config = dirs::config_dir().map(|p| p.into_os_string().into_encoded_bytes());
    let config = config.as_deref();
    assert_eq!(autostart_dir(), autostart_dir_in(config));
    assert_eq!(desktop_path(), desktop_path_in(config));
    assert_ne!(autostart_dir(), b"/autostart");
}

#[test]
fn what_the_desktop_can_do() {
    assert_eq!(detect_capabilities(), PlatformCapabilities::default());
    assert!(detect_capabilities().overlay);
}

fn model_dirs(exe: Option<&[u8]>) -> ModelDirs {
    ModelDirs {
        external: b"/home/u/models".to_vec(),
        workspace: b"/src/crate".to_vec(),
        exe: exe.map(<[u8]>::to_vec),
    }
}

#[test]
fn where_the_model_lies() {
    let d = model_dirs(Some(b"/bin"));
    assert_eq!(process::onnx_model_path(&d, true, true, true), b"/home/u/models/porda.onnx");
    let ws = b"/src/crate/../../model/porda.onnx";
    assert_eq!(process::onnx_model_path(&d, false, true, true), ws);
    assert_eq!(process::onnx_model_path(&d, false, false, true), b"/bin/model/porda.onnx");
    assert_eq!(process::onnx_model_path(&d, false, false, false), ws);
    assert_eq!(model_dirs(None).candidates().2, b"./model/porda.onnx");
}

#[test]
fn where_the_older_files_lie() {
    let d = model_dirs(Some(b"/bin"));
    let file = |p: &[u8], e: &[u8]| (p.to_vec(), e.to_vec());
    let both = vec![file(b"/m/a.cfg", b"cfg"), file(b"/m/b.weights", b"weights"), file(b"/m/c", b"")];
    let beside = process::model_paths(Some(b"/onnx"), &both, true, true, &d);
    assert_eq!(beside.0, b"/onnx/pordav4x3.cfg");
    assert_eq!(beside.1, b"/onnx/porda-19200-lr-0005-909.weights");
    let only = process::model_paths(None, &both, true, true, &d);
    assert_eq!(only, (b"/m/a.cfg".to_vec(), b"/m/b.weights".to_vec()));
    let two = vec![
        file(b"/m/a.cfg", b"cfg"),
        file(b"/m/d.cfg", b"cfg"),
        file(b"/m/b.weights", b"weights"),
    ];
    let reference = process::model_paths(None, &two, true, true, &d);
    assert!(reference.0.ends_with(b"/Porda-AI/model/pordav4x3.cfg"));
    let workspace = process::model_paths(None, &two, false, true, &d);
    assert_eq!(workspace.0, b"/src/crate/../../Porda-AI/model/pordav4x3.cfg");
    let exe = process::model_paths(None, &Vec::new(), false, false, &d);
    assert_eq!(exe.0, b"/bin/model/pordav4x3.cfg");
}

fn info(format: SpaVideoFormatTag, width: u32, height: u32) -> StreamInfo {
    negotiate(format, width, height, 30, 1).unwrap()
}

#[test]
fn formats_of_a_stream() {
    assert_eq!(info(SpaVideoFormatTag::Bgrx, 10, 5).stride, 40);
    assert_eq!(info(SpaVideoFormatTag::Rgb, 10, 5).stride, 30);
    assert!(negotiate(SpaVideoFormatTag::Other(77), 10, 5, 30, 1).is_none());
    assert!(!SpaVideoFormatTag::Other(1).is_supported());
    assert_eq!(SpaVideoFormatTag::Abgr.bytes_per_pixel(), 4);
    assert_eq!(spa_to_pixel_format(SpaVideoFormatTag::Bgrx), PixelFormat::Bgra);
    assert_eq!(spa_to_pixel_format(SpaVideoFormatTag::Argb), PixelFormat::Rgba);
    assert_eq!(spa_to_pixel_format(SpaVideoFormatTag::Rgb), PixelFormat::Rgb);
    assert_eq!(spa_to_pixel_format(SpaVideoFormatTag::Bgr), PixelFormat::Bgr);
}

#[test]
fn buffers_of_a_stream() {
    let si = info(SpaVideoFormatTag::Bgrx, 2, 2);
    assert_eq!(accept_buffer(&si, 16, 0), Some((8, 16)));
    assert_eq!(accept_buffer(&si, 24, 12), Some((12, 24)));
    assert_eq!(accept_buffer(&si, 15, 0), None);
    assert_eq!(accept_buffer(&si, 0, 0), None);
}

#[test]
fn the_latest_picture_is_given_out_once() {
    let mut c = LinuxScreenCapturer::new();
    assert!(c.is_running());
    let bytes: Vec<u8> = (0..20).collect();
    assert!(!c.receive(Some(&bytes), 16, 0));
    assert!(!c.offered(Offer::NoFormat));
    assert!(!c.offered(Offer::RawVideo(StreamInfo {
        format: SpaVideoFormatTag::Other(3),
        ..info(SpaVideoFormatTag::Bgrx, 2, 2)
    })));
    assert!(c.offered(Offer::RawVideo(info(SpaVideoFormatTag::Bgrx, 2, 2))));
    assert!(!c.receive(None, 16, 0));
    assert!(c.capture().unwrap().is_none());
    assert!(matches!(c.after_wait(true).unwrap_err(), LinuxCaptureError::FrameTimeout));
    assert!(matches!(c.after_wait(false).unwrap_err(), LinuxCaptureError::NoFrames));
    assert!(c.receive(Some(&bytes), 16, 0));
    assert!(c.receive(Some(&bytes[4..]), 16, 0));
    assert_eq!(c.frames_received(), 2);
    let (frame, si) = c.capture().unwrap().unwrap();
    assert_eq!(frame.data, bytes[4..20].to_vec());
    assert_eq!(frame.stride, 8);
    assert_eq!(c.stream_info(), Some(si));
    assert!(c.capture().unwrap().is_none());
    c.stop();
    assert!(matches!(c.capture().unwrap_err(), LinuxCaptureError::CaptureDisconnected));
    let shown = capture_screen_frame(Ok((frame, si))).unwrap();
    assert_eq!(shown.1, ScreenRect::new(0, 0, 2, 2));
    assert!(capture_screen_frame(Err(LinuxCaptureError::NoFrames)).is_none());
}

#[test]
fn spare_buffers_are_used_once() {
    let mut c = LinuxScreenCapturer::new();
    let bytes = vec![1u8; 16];
    assert!(c.offered(Offer::RawVideo(info(SpaVideoFormatTag::Bgrx, 2, 2))));
    c.recycle = vec![5, 6];
    assert!(c.receive(Some(&bytes), 16, 0));
    assert!(c.recycle.is_empty());
    c.recycle = vec![7];
    assert!(c.receive(Some(&bytes), 16, 0));
    assert_eq!(c.recycle, vec![7]);
    assert_eq!(c.capture().unwrap().unwrap().0.data, bytes);
}

#[test]
fn packed_pictures() {
    let mut out = Vec::new();
    let si = info(SpaVideoFormatTag::Xrgb, 1, 2);
    convert_to_bgr_into(&[0, 1, 2, 3, 0, 4, 5, 6], &si, 4, &mut out);
    assert_eq!(out, vec![3, 2, 1, 6, 5, 4]);
    let si = info(SpaVideoFormatTag::Rgba, 2, 1);
    let mut old = vec![9; 6];
    convert_to_bgr_into(&[1, 2, 3, 0, 4, 5, 6], &si, 8, &mut old);
    assert_eq!(old, vec![3, 2, 1, 9, 9, 9]);
    let si = info(SpaVideoFormatTag::Abgr, 1, 1);
    convert_to_bgr_into(&[0, 1, 2, 3], &si, 4, &mut old);
    assert_eq!(old, vec![1, 2, 3]);
}

#[test]
fn failures_of_a_stream() {
    assert!(is_cancelled("Cancelled by user"));
    assert!(is_cancelled("Request Canceled"));
    assert!(!is_cancelled("canceled"));
    let denied = portal_failure("cancelled".to_string());
    assert_eq!(denied.message(), "Screen capture denied by user");
    let gone = portal_failure("no bus".to_string());
    assert_eq!(gone.message(), "Portal unavailable: no bus");
    assert_eq!(first_stream(&vec![4, 5]).unwrap(), 4);
    assert_eq!(
        first_stream(&Vec::new()).unwrap_err().message(),
        "Stream negotiation failed: No streams returned by portal"
    );
    let cases = vec![
        (StreamStep::MainLoop, "PipeWire unavailable: MainLoop creation failed: e"),
        (StreamStep::Context, "PipeWire unavailable: Context creation failed: e"),
        (StreamStep::Connect, "PipeWire connection failed: connect_fd failed: e"),
        (StreamStep::Create, "PipeWire stream failed: Stream creation failed: e"),
        (StreamStep::Listen, "PipeWire stream failed: Listener registration failed: e"),
        (StreamStep::Serialize, "PipeWire stream failed: Pod serialization failed: e"),
        (StreamStep::Format, "PipeWire stream failed: Failed to create format pod"),
        (StreamStep::Start, "PipeWire stream failed: Stream connect failed: e"),
    ];
    for (step, text) in cases {
        assert_eq!(step_failure(step, "e").message(), text);
    }
    let odd = LinuxCaptureError::UnsupportedPixelFormat("x".to_string());
    assert_eq!(odd.message(), "Unsupported pixel format: x");
    assert_eq!(LinuxCaptureError::NoFrames.message(), "No frames available");
    assert_eq!(LinuxCaptureError::FrameTimeout.message(), "Frame timeout");
    assert_eq!(LinuxCaptureError::CaptureDisconnected.message(), "Capture disconnected");
}

#[test]
fn buffers_may_be_shorter_than_their_chunk() {
    let mut c = LinuxScreenCapturer::new();
    assert!(c.offered(Offer::RawVideo(StreamInfo {
        width: 2,
        height: 2,
        stride: 0,
        format: SpaVideoFormatTag::Bgrx,
        framerate_num: 30,
        framerate_denom: 1,
    })));
    let bytes = [9u8; 16];
    assert!(c.receive(Some(&bytes), 64, 0));
    assert_eq!(c.capture().unwrap().unwrap().0.data, bytes.to_vec());
}

#[test]
fn descriptions_of_outputs_are_read_by_their_keys() {
    let text = |t: &str| (Some(t.to_string()), None, None, None);
    let number = |n: u64| (None, Some(n), Some(n as i64), Some((n as f64).to_bits()));
    let items = vec![
        vec![
            ("y".to_string(), number(4)),
            ("name".to_string(), text("eDP-1")),
            ("name".to_string(), text("later")),
            ("width".to_string(), number(800)),
            ("scale".to_string(), number(2)),
            ("height".to_string(), text("tall")),
        ],
        vec![],
    ];
    let raw = read_descriptions(&items);
    let first =
        (Some("eDP-1".to_string()), Some(800), None, Some(2.0f64.to_bits()), None, Some(4));
    assert_eq!(raw, vec![first, (None, None, None, None, None, None)]);
    let list = get_outputs(&Some(r#"[5, {"name":"A","name":"B"}]"#.to_string()));
    assert_eq!(list[0].name, "unknown");
    assert_eq!(list[1].name, "B");
}
