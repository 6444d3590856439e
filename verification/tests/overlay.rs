use std::sync::mpsc;

use porda::overlay::compositor::{
    CpuOverlayRenderer, OverlayCapability, OverlayError, OverlayRenderer,
};
use porda::overlay::overlay_window::{OverlayCommand, OverlayWindow};
use porda::overlay::shm::{build_shm_argb_data, build_shm_argb_data_from_covers, shm_layout};
use porda::overlay::wl_overlay::{
    color_of_first, no_connection, quads, setup_failure, Global, OutputEvent, OutputState,
    OverlayConfig, OverlayState, OverlayStep, RegistryState, SetupFailure, WaylandOverlay,
};
use porda::single::Single;
use porda::vision::blur::blur_region;
use porda::vision::cover::covers_for_detections;
use porda::vision::detection::{
    extract_dominant_color, CoverMode, CoverRect, Detection, FrameData, ObjectClass,
};
use porda::vision::geometry::{ColorRgb, ScreenRect};

fn red() -> ColorRgb {
    ColorRgb::new(255, 0, 0)
}

#[test]
fn test_shm_transparent_background() {
    let data = build_shm_argb_data(&[], ColorRgb::new(255, 0, 0), 10, 10);
    assert_eq!(data.len(), 10 * 10 * 4);
    for i in (3..data.len()).step_by(4) {
        assert_eq!(data[i], 0, "alpha at {} should be 0", i);
    }
}

#[test]
fn test_shm_solid_cover() {
    let cover = CoverRect::new_solid(ScreenRect::new(2, 2, 4, 4), ColorRgb::new(255, 0, 0));
    let data = build_shm_argb_data(&[cover], ColorRgb::new(255, 0, 0), 10, 10);
    let offset = (3 * 10 * 4 + 3 * 4) as usize;
    assert_eq!(data[offset], 0);
    assert_eq!(data[offset + 1], 0);
    assert_eq!(data[offset + 2], 255);
    assert_eq!(data[offset + 3], 217);
    assert_eq!(data[3], 0);
}

#[test]
fn test_shm_multiple_covers() {
    let covers = vec![
        CoverRect::new_solid(ScreenRect::new(0, 0, 2, 2), ColorRgb::new(0, 255, 0)),
        CoverRect::new_solid(ScreenRect::new(5, 5, 2, 2), ColorRgb::new(0, 255, 0)),
    ];
    let data = build_shm_argb_data(&covers, ColorRgb::new(0, 255, 0), 10, 10);
    let off1 = (1 * 10 * 4 + 1 * 4) as usize;
    assert_eq!(data[off1 + 1], 255);
    assert_eq!(data[off1 + 3], 217);
    let off2 = (6 * 10 * 4 + 6 * 4) as usize;
    assert_eq!(data[off2 + 1], 255);
    assert_eq!(data[off2 + 3], 217);
    let off_gap = (3 * 10 * 4 + 3 * 4) as usize;
    assert_eq!(data[off_gap + 3], 0);
}

#[test]
fn test_shm_empty_covers_transparent() {
    let data = build_shm_argb_data(&[], ColorRgb::new(0, 0, 255), 5, 5);
    for chunk in data.chunks(4) {
        assert_eq!(chunk[3], 0);
    }
}

#[test]
fn test_shm_bounds_clipping() {
    let cover = CoverRect::new_solid(ScreenRect::new(8, 8, 10, 10), ColorRgb::new(0, 0, 255));
    let data = build_shm_argb_data(&[cover], ColorRgb::new(0, 0, 255), 10, 10);
    assert_eq!(data.len(), 400);
    let off = (9 * 10 * 4 + 9 * 4) as usize;
    assert_eq!(data[off + 3], 217);
}

#[test]
fn test_shm_stride() {
    let cover = CoverRect::new_solid(ScreenRect::new(0, 0, 10, 2), ColorRgb::new(255, 0, 0));
    let data = build_shm_argb_data(&[cover], ColorRgb::new(255, 0, 0), 10, 2);
    assert_eq!(data.len(), 10 * 2 * 4);
    let off = (1 * 10 * 4) as usize;
    assert_eq!(data[off + 2], 255);
    assert_eq!(data[off + 3], 217);
}

#[test]
fn test_channel_empty_and_n_covers() {
    let (tx, rx) = mpsc::channel::<OverlayCommand>();
    tx.send(OverlayCommand::UpdateCovers(vec![])).unwrap();
    let cmd = rx.recv().unwrap();
    match cmd {
        OverlayCommand::UpdateCovers(covers) => assert_eq!(covers.len(), 0),
        _ => panic!("wrong command"),
    }

    let covers = vec![
        CoverRect::new_solid(ScreenRect::new(0, 0, 10, 10), ColorRgb::new(0, 255, 0)),
        CoverRect::new_mode_only(ScreenRect::new(20, 20, 10, 10), CoverMode::Blur),
    ];
    tx.send(OverlayCommand::UpdateCovers(covers.clone())).unwrap();
    let cmd = rx.recv().unwrap();
    match cmd {
        OverlayCommand::UpdateCovers(c) => assert_eq!(c.len(), 2),
        _ => panic!("wrong command"),
    }
}

#[test]
fn test_channel_latest_state_wins() {
    let (tx, rx) = mpsc::channel::<OverlayCommand>();
    let a = vec![CoverRect::new_solid(ScreenRect::new(0, 0, 10, 10), red())];
    let b = vec![CoverRect::new_solid(ScreenRect::new(20, 20, 10, 10), red())];
    let c = vec![
        CoverRect::new_solid(ScreenRect::new(0, 0, 10, 10), red()),
        CoverRect::new_solid(ScreenRect::new(30, 30, 10, 10), red()),
    ];

    tx.send(OverlayCommand::UpdateCovers(a)).unwrap();
    tx.send(OverlayCommand::UpdateCovers(b)).unwrap();
    tx.send(OverlayCommand::UpdateCovers(c.clone())).unwrap();

    let mut last: Option<Vec<CoverRect>> = None;
    while let Ok(cmd) = rx.try_recv() {
        if let OverlayCommand::UpdateCovers(covers) = cmd {
            last = Some(covers);
        }
    }
    assert_eq!(last.as_ref().unwrap().len(), 2);
    assert!(last.is_some());
}

#[test]
fn test_coordinate_mapping_center() {
    let capture = (1920u32, 1200u32);
    let output = (1920u32, 1200u32);
    let scale = 1.0;
    let rect = ScreenRect::new(810, 500, 300, 200);
    let expected = rect;
    let mapped = {
        let sx = output.0 as f32 / capture.0 as f32 * scale as f32;
        let sy = output.1 as f32 / capture.1 as f32 * scale as f32;
        assert!((sx - 1.0).abs() < 0.01);
        assert!((sy - 1.0).abs() < 0.01);
        rect.scale(Single { bits: sx.to_bits() }, Single { bits: sy.to_bits() })
    };
    assert_eq!(mapped, expected);
}

#[test]
fn test_detection_to_overlay_integration() {
    let frame = FrameData::new_bgr(1920, 1200, vec![128u8; 1920 * 1200 * 3]);
    let det = Detection {
        class: ObjectClass::Female,
        confidence: Single { bits: 0.91f32.to_bits() },
        screen_rect: ScreenRect::new(810, 500, 300, 200),
    };
    let covers = covers_for_detections(&[det], &frame, CoverMode::SolidColor, red(), &[]);
    assert_eq!(covers.len(), 1);
    assert_eq!(covers[0].screen_rect, ScreenRect::new(810, 500, 300, 200));

    let mut overlay = CpuOverlayRenderer::new(ColorRgb::new(255, 0, 0));
    overlay.update_covers(&covers, &frame).unwrap();
    overlay.clear().unwrap();
}

#[test]
fn test_shm_blur_cover_renders_blurred_pixels() {
    let mut data = vec![0u8; 10 * 10 * 3];
    for y in 0..10 {
        for x in 0..10 {
            let idx = (y * 10 + x) * 3;
            if x < 5 {
                data[idx] = 0;
                data[idx + 1] = 0;
                data[idx + 2] = 0;
            } else {
                data[idx] = 255;
                data[idx + 1] = 255;
                data[idx + 2] = 255;
            }
        }
    }
    let rect = ScreenRect::new(2, 2, 10, 10);
    let blurred = blur_region(&data, 10, 10);
    assert_ne!(blurred, data);
    let cover = CoverRect::new_blur(rect, blurred.clone());
    let out = build_shm_argb_data_from_covers(&[cover], 20, 20);
    let off = (5 * 20 * 4 + 5 * 4) as usize;
    assert_eq!(out[off + 3], 217);
    let b = out[off];
    assert!(b > 30 && b < 225, "blurred b={}", b);
    assert_eq!(out[3], 0);
}

#[test]
fn test_shm_dominant_color_render() {
    let mut data = vec![0u8; 10 * 10 * 3];
    for i in (0..data.len()).step_by(3) {
        data[i] = 0;
        data[i + 1] = 0;
        data[i + 2] = 255;
    }
    let frame = FrameData::new_bgr(10, 10, data);
    let rect = ScreenRect::new(1, 1, 4, 4);
    let dom = extract_dominant_color(&frame, &rect).unwrap();
    assert!(dom.r > 200);
    let cover = CoverRect::new_dominant(rect, dom);
    let out = build_shm_argb_data_from_covers(&[cover], 10, 10);
    let off = (2 * 10 * 4 + 2 * 4) as usize;
    assert_eq!(out[off + 2], dom.r);
    assert_eq!(out[off + 3], 217);
}

#[test]
fn test_shm_overlapping_covers_last_wins() {
    let c1 = CoverRect::new_solid(ScreenRect::new(0, 0, 4, 4), ColorRgb::new(255, 0, 0));
    let c2 = CoverRect::new_solid(ScreenRect::new(2, 2, 4, 4), ColorRgb::new(0, 255, 0));
    let out = build_shm_argb_data_from_covers(&[c1, c2], 10, 10);
    let off = (3 * 10 * 4 + 3 * 4) as usize;
    assert_eq!(out[off + 1], 255);
    assert_eq!(out[off + 2], 0);
}

#[test]
fn test_shm_blur_clipping_negative_coords() {
    let data = vec![100u8; 4 * 4 * 3];
    let blurred = blur_region(&data, 4, 4);
    let cover = CoverRect::new_blur(ScreenRect::new(-2, -2, 4, 4), blurred);
    let out = build_shm_argb_data_from_covers(&[cover], 10, 10);
    let off = 0_usize;
    assert_eq!(out[off + 3], 217);
    let off2 = (5 * 10 * 4 + 5 * 4) as usize;
    assert_eq!(out[off2 + 3], 0);
}

#[test]
fn test_shm_stale_covers_cleared() {
    let c = CoverRect::new_solid(ScreenRect::new(0, 0, 2, 2), ColorRgb::new(255, 0, 0));
    let out1 = build_shm_argb_data_from_covers(&[c], 10, 10);
    assert_eq!(out1[3], 217);
    let out2 = build_shm_argb_data_from_covers(&[], 10, 10);
    for chunk in out2.chunks(4) {
        assert_eq!(chunk[3], 0);
    }
}

#[test]
fn layout_of_the_shared_buffer() {
    assert_eq!(shm_layout(10, 2), (40, 80));
}

#[test]
fn an_overlay_hands_covers_over() {
    let (tx, rx) = mpsc::channel();
    let mut overlay = WaylandOverlay::new(tx, OverlayCapability::Supported, red());
    let frame = FrameData::new_bgr(1, 1, vec![0, 0, 0]);
    let cover = CoverRect::new_solid(ScreenRect::new(0, 0, 1, 1), red());
    overlay.update_covers(&[cover], &frame).unwrap();
    assert!(matches!(rx.recv().unwrap(), OverlayCommand::UpdateCovers(c) if c.len() == 1));
    overlay.clear().unwrap();
    assert!(matches!(rx.recv().unwrap(), OverlayCommand::Clear));
    overlay.shutdown().unwrap();
    assert!(matches!(rx.recv().unwrap(), OverlayCommand::Shutdown));
    drop(rx);
    let err = overlay.clear().unwrap_err();
    assert!(matches!(err, OverlayError::RenderFailed(_)));
}

#[test]
fn an_overlay_that_cannot_show_covers_says_why() {
    let (tx, _rx) = mpsc::channel();
    let reason = OverlayCapability::Unsupported("no \"layers\"".to_string());
    let mut overlay = WaylandOverlay::new(tx, reason, red());
    let frame = FrameData::new_bgr(1, 1, vec![0, 0, 0]);
    let err = overlay.update_covers(&[], &frame).unwrap_err();
    match err {
        OverlayError::Unsupported(text) => {
            assert_eq!(text, "Unsupported(\"no \\\"layers\\\"\")");
        },
        _ => panic!("wrong error"),
    }
}

#[test]
fn a_test_rectangle_is_shown_first() {
    let (tx, rx) = mpsc::channel();
    let config = OverlayConfig::default();
    let _overlay = WaylandOverlay::with_test_rect(tx, OverlayCapability::Supported, &config);
    match rx.recv().unwrap() {
        OverlayCommand::UpdateCovers(covers) => {
            assert_eq!(covers.len(), 1);
            assert_eq!(covers[0].screen_rect, ScreenRect::new(810, 500, 300, 200));
        },
        _ => panic!("wrong command"),
    }
}

#[test]
fn windows_of_the_overlay_report_a_lost_receiver() {
    let (tx, rx) = mpsc::channel();
    let window = OverlayWindow::new(tx);
    window.clear().unwrap();
    assert!(matches!(rx.recv().unwrap(), OverlayCommand::Clear));
    drop(rx);
    assert_eq!(window.shutdown().unwrap_err(), "sending on a closed channel");
}

#[test]
fn a_compositor_without_layers_is_not_enough() {
    let empty = RegistryState::new();
    assert!(!empty.capability().is_supported());
    assert!(!no_connection("gone").is_supported());
    let mut full = RegistryState::new();
    assert!(full.note("zwlr_layer_shell_v1", 4).is_none());
    assert_eq!(full.note("wl_compositor", 9), Some((Global::Compositor, 6)));
    assert!(full.note("wl_shm", 1).is_none());
    assert_eq!(full.note("wl_output", 2), Some((Global::Output, 2)));
    assert!(full.note("unheard_of", 1).is_none());
    assert_eq!(full.outputs, 1);
    assert!(full.capability().is_supported());
}

#[test]
fn the_latest_covers_are_drawn() {
    let config = OverlayConfig::default();
    let mut state = OverlayState::new(&config, red());
    state.configure(1920, 1200);
    state.start(false);
    let one = vec![CoverRect::new_solid(ScreenRect::new(0, 0, 1, 1), red())];
    assert!(state.handle(OverlayCommand::UpdateCovers(Vec::new())));
    assert!(state.handle(OverlayCommand::UpdateCovers(one)));
    assert!(matches!(state.next_step(), OverlayStep::Redraw));
    assert!(!state.handle(OverlayCommand::Shutdown));
}

#[test]
fn rectangles_become_triangles() {
    let cover = CoverRect::new_solid(ScreenRect::new(1, 2, 3, 4), red());
    let (corners, indices) = quads(&[cover]);
    assert_eq!(corners.len(), 8);
    assert_eq!(indices.len(), 6);
    let first = CoverRect::new_solid(ScreenRect::new(0, 0, 1, 1), ColorRgb::new(1, 2, 3));
    assert_eq!(color_of_first(&[first]), ColorRgb::new(1, 2, 3));
}

#[test]
fn overlay_takes_the_size_of_its_output() {
    let mut state = OverlayState::new(&OverlayConfig::default(), ColorRgb::new(1, 2, 3));
    let (w, h) = (state.width, state.height);
    assert_eq!(state.correct_size(None), None);
    assert_eq!(state.correct_size(Some(ScreenRect::new(0, 0, w, h))), None);
    assert_eq!(state.correct_size(Some(ScreenRect::new(0, 0, 0, 900))), None);
    assert_eq!((state.width, state.height), (w, h));
    assert_eq!(state.correct_size(Some(ScreenRect::new(5, 5, 1600, 900))), Some((1600, 900)));
    assert_eq!((state.width, state.height), (1600, 900));
}

#[test]
fn missing_layers_are_told_before_a_missing_compositor() {
    assert_eq!(setup_failure(false, false), Some(SetupFailure::NoLayerShell));
    assert_eq!(setup_failure(false, true), Some(SetupFailure::NoLayerShell));
    assert_eq!(setup_failure(true, false), Some(SetupFailure::NoCompositor));
    assert_eq!(setup_failure(true, true), None);
}

#[test]
fn outputs_follow_their_events() {
    let mut output = OutputState::new(7);
    assert_eq!(output.name, "output-7");
    assert_eq!(output.geometry, ScreenRect::new(0, 0, 1920, 1080));
    output.handle(OutputEvent::Geometry { x: 10, y: -20 });
    output.handle(OutputEvent::Mode { width: 2560, height: 1440 });
    output.handle(OutputEvent::Scale { factor: 2 });
    assert_eq!(output.geometry, ScreenRect::new(10, -20, 2560, 1440));
    assert_eq!(output.scale, 2);
}

#[test]
fn every_pixel_of_a_detection_is_hidden() {
    let frame = FrameData::new_bgr(40, 30, vec![90; 40 * 30 * 3]);
    let detections = [Detection {
        class: ObjectClass::Female,
        confidence: Single { bits: 0x3f00_0000 },
        screen_rect: ScreenRect::new(5, 5, 20, 10),
    }];
    let windows = [ScreenRect::new(10, 0, 5, 30)];
    for mode in [CoverMode::Blur, CoverMode::SolidColor, CoverMode::BackgroundColor] {
        let covers =
            covers_for_detections(&detections, &frame, mode, ColorRgb::new(1, 2, 3), &windows);
        let data = build_shm_argb_data_from_covers(&covers, 40, 30);
        for y in 0..30i32 {
            for x in 0..40i32 {
                let hidden = detections[0].screen_rect.contains_point(x, y)
                    && !windows[0].contains_point(x, y);
                let alpha = data[((y * 40 + x) * 4 + 3) as usize];
                assert_eq!(alpha, if hidden { 217 } else { 0 }, "{:?} at {} {}", mode, x, y);
            }
        }
    }
}
