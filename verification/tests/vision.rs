use porda::single::Single;
use porda::vision::blur::blur_region;
use porda::vision::cover::{covers_for_detections, generate_blur_data, generate_cover};
use porda::vision::detection::{
    extract_dominant_color, CoverMode, Detection, FrameData, ObjectClass, PixelFormat,
};
use porda::vision::geometry::{ColorRgb, ScreenPoint, ScreenRect};
use porda::vision::preprocessing::{fitted_size, nms, pad_to_target, resize_and_pad};

fn single(x: f32) -> Single {
    Single { bits: x.to_bits() }
}

fn float(s: Single) -> f32 {
    f32::from_bits(s.bits)
}

fn dummy_frame() -> FrameData {
    FrameData::new_bgr(1920, 1200, vec![128u8; 1920 * 1200 * 3])
}

fn make_detection(x: i32, y: i32, w: u32, h: u32, class: ObjectClass) -> Detection {
    Detection { class, confidence: single(0.91), screen_rect: ScreenRect::new(x, y, w, h) }
}

fn red() -> ColorRgb {
    ColorRgb::new(255, 0, 0)
}

#[test]
fn test_valid_target_single_cover() {
    let frame = dummy_frame();
    let det = make_detection(810, 500, 300, 200, ObjectClass::Female);
    let covers = covers_for_detections(&[det], &frame, CoverMode::SolidColor, red(), &[]);
    assert_eq!(covers.len(), 1);
    assert_eq!(covers[0].screen_rect, ScreenRect::new(810, 500, 300, 200));
    assert_eq!(covers[0].mode, CoverMode::SolidColor);
    assert_eq!(covers[0].resolved_color, Some(ColorRgb::new(255, 0, 0)));
}

#[test]
fn test_blur_mode_preserved() {
    let frame = dummy_frame();
    let det = make_detection(100, 100, 200, 200, ObjectClass::Female);
    let covers = covers_for_detections(
        &[det],
        &frame,
        CoverMode::Blur,
        ColorRgb::new(0, 0, 255),
        &[],
    );
    assert_eq!(covers.len(), 1);
    assert_eq!(covers[0].mode, CoverMode::Blur);
    assert!(covers[0].blur_data.is_some());
    let data = covers[0].blur_data.as_ref().unwrap();
    assert_eq!(data.len(), (200 * 200 * 3) as usize);
}

#[test]
fn test_multiple_detections() {
    let frame = dummy_frame();
    let dets = vec![
        make_detection(0, 0, 100, 100, ObjectClass::Female),
        make_detection(200, 200, 100, 100, ObjectClass::Female),
        make_detection(400, 400, 100, 100, ObjectClass::Male),
    ];
    let covers = covers_for_detections(&dets, &frame, CoverMode::SolidColor, red(), &[]);
    assert_eq!(covers.len(), 3);
}

#[test]
fn test_boundary_coordinates() {
    let frame = dummy_frame();
    let cases = vec![
        ScreenRect::new(0, 0, 100, 100),
        ScreenRect::new(1820, 0, 100, 100),
        ScreenRect::new(0, 1100, 100, 100),
        ScreenRect::new(1820, 1100, 100, 100),
        ScreenRect::new(810, 500, 300, 200),
    ];
    for rect in cases {
        let det = Detection {
            class: ObjectClass::Female,
            confidence: single(0.9),
            screen_rect: rect,
        };
        let covers = covers_for_detections(&[det], &frame, CoverMode::SolidColor, red(), &[]);
        assert_eq!(covers.len(), 1);
        assert_eq!(covers[0].screen_rect, rect);
    }
}

#[test]
fn test_empty_detections_zero_covers() {
    let frame = dummy_frame();
    let covers = covers_for_detections(&[], &frame, CoverMode::SolidColor, red(), &[]);
    assert_eq!(covers.len(), 0);
}

#[test]
fn test_window_subtraction_clipping() {
    let frame = dummy_frame();
    let det = make_detection(100, 100, 200, 200, ObjectClass::Female);
    let window = ScreenRect::new(150, 150, 100, 100);
    let covers = covers_for_detections(&[det], &frame, CoverMode::SolidColor, red(), &[window]);
    assert!(!covers.is_empty());
    assert!(covers.len() <= 4);
    for cover in &covers {
        assert_ne!(cover.screen_rect, window);
    }
}

#[test]
fn test_fully_covered_by_window_zero_covers() {
    let frame = dummy_frame();
    let det = make_detection(100, 100, 50, 50, ObjectClass::Female);
    let window = ScreenRect::new(100, 100, 50, 50);
    let covers = covers_for_detections(&[det], &frame, CoverMode::SolidColor, red(), &[window]);
    assert_eq!(covers.len(), 0);
}

#[test]
fn test_solid_color_correct_output() {
    let frame = FrameData::new_bgr(10, 10, vec![0u8; 300]);
    let det = make_detection(2, 2, 4, 4, ObjectClass::Female);
    let color = ColorRgb::new(10, 20, 30);
    let covers = covers_for_detections(&[det], &frame, CoverMode::SolidColor, color, &[]);
    assert_eq!(covers[0].resolved_color, Some(color));
    assert_eq!(covers[0].mode, CoverMode::SolidColor);
}

#[test]
fn test_dominant_color_known_input() {
    let mut data = vec![0u8; 4 * 4 * 3];
    for y in 0..4 {
        for x in 0..4 {
            let idx = (y * 4 + x) * 3;
            if x < 2 && y < 2 {
                data[idx] = 0;
                data[idx + 1] = 0;
                data[idx + 2] = 255;
            } else {
                data[idx] = 255;
                data[idx + 1] = 0;
                data[idx + 2] = 0;
            }
        }
    }
    let frame = FrameData::new_bgr(4, 4, data);
    let rect = ScreenRect::new(0, 0, 2, 2);
    let c = extract_dominant_color(&frame, &rect).unwrap();
    assert!(c.r > 200, "r={}", c.r);
    assert!(c.g < 30, "g={}", c.g);
    assert!(c.b < 30, "b={}", c.b);
}

#[test]
fn test_dominant_color_small_region_no_panic() {
    let frame = FrameData::new_bgr(10, 10, vec![128u8; 300]);
    let rect = ScreenRect::new(5, 5, 1, 1);
    let c = extract_dominant_color(&frame, &rect);
    assert!(c.is_some());
}

#[test]
fn test_dominant_python_identical_subsampled_exact() {
    let mut data = vec![0u8; 100 * 100 * 3];
    for i in (0..data.len()).step_by(3) {
        data[i] = 255;
        data[i + 1] = 0;
        data[i + 2] = 0;
    }
    for y in (30..90).step_by(3) {
        for x in (10..60).step_by(3) {
            if x >= 100 || y >= 100 {
                continue;
            }
            let idx = (y * 100 + x) * 3;
            data[idx] = 0;
            data[idx + 1] = 0;
            data[idx + 2] = 255;
        }
    }
    let frame = FrameData::new_bgr(100, 100, data);
    let rect = ScreenRect::new(10, 10, 60, 60);
    let c = extract_dominant_color(&frame, &rect).unwrap();
    assert_eq!(c, ColorRgb::new(255, 0, 0), "expected subsampled red, got {:?}", c);

    let rect_edge = ScreenRect::new(10, 90, 10, 10);
    let c2 = extract_dominant_color(&frame, &rect_edge).unwrap();
    assert_eq!(c2, ColorRgb::new(0, 0, 255), "fallback should be blue, got {:?}", c2);
}

fn split_black_white() -> Vec<u8> {
    let mut data = vec![0u8; 10 * 10 * 3];
    for y in 0..10 {
        for x in 5..10 {
            let idx = (y * 10 + x) * 3;
            data[idx] = 255;
            data[idx + 1] = 255;
            data[idx + 2] = 255;
        }
    }
    data
}

#[test]
fn test_blur_known_input_differs() {
    let data = split_black_white();
    let blurred = blur_region(&data, 10, 10);
    assert_ne!(blurred, data, "blurred should differ from input");
    let center_idx = (5 * 10 + 5) * 3;
    let b = blurred[center_idx];
    assert!(b > 50 && b < 200, "b={}", b);
}

#[test]
fn test_blur_small_region() {
    let data = vec![100u8; 2 * 2 * 3];
    let out = blur_region(&data, 2, 2);
    assert_eq!(out.len(), 12);
    assert_eq!(out, data);
}

#[test]
fn test_dominant_vs_solid_selection() {
    let frame = dummy_frame();
    let det = make_detection(0, 0, 10, 10, ObjectClass::Female);
    let color = ColorRgb::new(1, 2, 3);
    let solid = covers_for_detections(&[det], &frame, CoverMode::SolidColor, color, &[]);
    assert_eq!(solid[0].mode, CoverMode::SolidColor);
    assert_eq!(solid[0].resolved_color, Some(ColorRgb::new(1, 2, 3)));

    let dom = covers_for_detections(&[det], &frame, CoverMode::BackgroundColor, color, &[]);
    assert_eq!(dom[0].mode, CoverMode::BackgroundColor);
    assert!(dom[0].resolved_color.is_some());

    let blur = covers_for_detections(&[det], &frame, CoverMode::Blur, color, &[]);
    assert_eq!(blur[0].mode, CoverMode::Blur);
    assert!(blur[0].blur_data.is_some());
}

#[test]
fn test_stale_covers_disappear() {
    let frame = dummy_frame();
    let det1 = make_detection(0, 0, 10, 10, ObjectClass::Female);
    let det2 = make_detection(20, 20, 10, 10, ObjectClass::Female);
    let covers1 = covers_for_detections(
        &[det1.clone(), det2],
        &frame,
        CoverMode::SolidColor,
        red(),
        &[],
    );
    assert_eq!(covers1.len(), 2);
    let covers2 = covers_for_detections(&[det1], &frame, CoverMode::SolidColor, red(), &[]);
    assert_eq!(covers2.len(), 1);
    assert_eq!(covers2[0].screen_rect, det1.screen_rect);
    let covers0 = covers_for_detections(&[], &frame, CoverMode::SolidColor, red(), &[]);
    assert_eq!(covers0.len(), 0);
}

#[test]
fn test_window_split_blur_each_part_has_own_data() {
    let frame = dummy_frame();
    let det = make_detection(100, 100, 100, 100, ObjectClass::Female);
    let window = ScreenRect::new(120, 120, 60, 60);
    let covers = covers_for_detections(&[det], &frame, CoverMode::Blur, red(), &[window]);
    for c in &covers {
        assert_eq!(c.mode, CoverMode::Blur);
        assert!(c.blur_data.is_some());
        let expected_len = (c.screen_rect.width * c.screen_rect.height * 3) as usize;
        assert_eq!(c.blur_data.as_ref().unwrap().len(), expected_len);
    }
}

#[test]
fn bench_cover_performance() {
    let frame = dummy_frame();
    let small = make_detection(100, 100, 50, 50, ObjectClass::Female);
    let large = make_detection(400, 300, 800, 600, ObjectClass::Female);
    let medium = make_detection(810, 500, 300, 200, ObjectClass::Female);
    let many: Vec<Detection> = (0..5)
        .map(|i| make_detection(i * 200, i * 100, 150, 150, ObjectClass::Female))
        .collect();
    let cases: Vec<(&str, Vec<Detection>, CoverMode)> = vec![
        ("solid-1-small", vec![small], CoverMode::SolidColor),
        ("solid-1-large", vec![large], CoverMode::SolidColor),
        ("solid-5-medium", many.clone(), CoverMode::SolidColor),
        ("dominant-1-small", vec![small], CoverMode::BackgroundColor),
        ("dominant-1-large", vec![large], CoverMode::BackgroundColor),
        ("dominant-5-medium", many.clone(), CoverMode::BackgroundColor),
        ("blur-1-small", vec![small], CoverMode::Blur),
        ("blur-1-medium", vec![medium], CoverMode::Blur),
        ("blur-1-large", vec![large], CoverMode::Blur),
        ("blur-5-medium", many.clone(), CoverMode::Blur),
    ];
    for (name, dets, mode) in cases {
        let runs = 10;
        let t0 = std::time::Instant::now();
        for _ in 0..runs {
            let covers = covers_for_detections(&dets, &frame, mode, red(), &[]);
            assert_eq!(covers.len(), dets.len());
        }
        let avg = t0.elapsed() / runs;
        println!("PERF {}: avg={:?} covers={} mode={:?}", name, avg, dets.len(), mode);
        if mode == CoverMode::Blur {
            assert!(avg.as_millis() < 500, "blur too slow avg {:?} for {}", avg, name);
        }
    }
}

#[test]
fn test_object_class() {
    assert_eq!(ObjectClass::from_id(0), Some(ObjectClass::Male));
    assert_eq!(ObjectClass::from_id(1), Some(ObjectClass::Female));
    assert_eq!(ObjectClass::from_id(2), None);
}

#[test]
fn test_color_rgb_hex() {
    let c = ColorRgb::new(255, 128, 0);
    assert_eq!(c.to_hex(), "#ff8000");
    let c2 = ColorRgb::from_hex("#ff8000").unwrap();
    assert_eq!(c, c2);
}

#[test]
fn test_intersection() {
    let a = ScreenRect::new(0, 0, 100, 100);
    let b = ScreenRect::new(50, 50, 100, 100);
    let inter = a.intersection(&b).unwrap();
    assert_eq!(inter, ScreenRect::new(50, 50, 50, 50));
}

#[test]
fn test_no_intersection() {
    let a = ScreenRect::new(0, 0, 10, 10);
    let b = ScreenRect::new(20, 20, 10, 10);
    assert!(a.intersection(&b).is_none());
}

#[test]
fn test_subtract() {
    let a = ScreenRect::new(0, 0, 100, 100);
    let b = ScreenRect::new(25, 25, 50, 50);
    let parts = a.subtract(&b);
    assert_eq!(parts.len(), 4);
}

#[test]
fn test_contains() {
    let outer = ScreenRect::new(0, 0, 100, 100);
    let inner = ScreenRect::new(10, 10, 20, 20);
    assert!(outer.contains(&inner));
    assert!(!inner.contains(&outer));
}

#[test]
fn test_resize_and_pad_early_return() {
    let data = vec![128u8; 100 * 100 * 3];
    let (padded, xr, yr) = resize_and_pad(&data, 100, 100, 320, 320);
    assert_eq!(padded.len(), 100 * 100 * 3);
    assert!((float(xr) - 1.0).abs() < 0.01);
    assert!((float(yr) - 1.0).abs() < 0.01);
}

#[test]
fn test_resize_and_pad_needs_padding() {
    let data = vec![128u8; 800 * 600 * 3];
    let (padded, xr, yr) = resize_and_pad(&data, 800, 600, 544, 320);
    assert_eq!(padded.len(), 544 * 320 * 3);
    assert!((float(xr) - (800.0 / 426.0)).abs() < 0.01);
    assert!((float(yr) - (600.0 / 320.0)).abs() < 0.01);
}

#[test]
fn test_resize_and_pad_1920x1200_to_544x320_early_return() {
    let data = vec![128u8; 1920 * 1200 * 3];
    let (padded, xr, yr) = resize_and_pad(&data, 1920, 1200, 544, 320);
    assert_eq!(padded.len(), 1920 * 1200 * 3);
    assert!((float(xr) - 1.0).abs() < 0.01);
    assert!((float(yr) - 1.0).abs() < 0.01);
}

#[test]
fn test_nms_suppresses_overlapping() {
    let mut boxes = vec![
        ScreenRect::new(0, 0, 100, 100),
        ScreenRect::new(10, 10, 100, 100),
        ScreenRect::new(200, 200, 50, 50),
    ];
    let mut scores = vec![single(0.9), single(0.8), single(0.7)];
    nms(&mut boxes, &mut scores, single(0.5));
    assert_eq!(boxes.len(), 2);
    assert_eq!(scores.len(), 2);
    assert_eq!(boxes[0], ScreenRect::new(0, 0, 100, 100));
    assert_eq!(boxes[1], ScreenRect::new(200, 200, 50, 50));
}

#[test]
fn test_nms_no_suppression_high_threshold() {
    let mut boxes = vec![ScreenRect::new(0, 0, 100, 100), ScreenRect::new(50, 50, 100, 100)];
    let mut scores = vec![single(0.9), single(0.8)];
    nms(&mut boxes, &mut scores, single(0.9));
    assert_eq!(boxes.len(), 2);
}

#[test]
fn nms_orders_by_score() {
    let a = ScreenRect::new(0, 0, 10, 10);
    let b = ScreenRect::new(500, 500, 10, 10);
    let mut boxes = vec![a, b];
    let mut scores = vec![single(0.2), single(0.7)];
    nms(&mut boxes, &mut scores, single(0.5));
    assert_eq!(boxes, vec![b, a]);
    assert_eq!(scores, vec![single(0.7), single(0.2)]);
}

#[test]
fn nms_keeps_every_box_that_stands_apart() {
    let a = ScreenRect::new(0, 0, 10, 10);
    let b = ScreenRect::new(500, 500, 10, 10);
    let c = ScreenRect::new(900, 0, 10, 10);
    let mut boxes = vec![a, b, c];
    let mut scores = vec![single(0.1), single(0.9), single(0.5)];
    nms(&mut boxes, &mut scores, single(0.5));
    assert_eq!(boxes, vec![b, c, a]);
    assert_eq!(scores, vec![single(0.9), single(0.5), single(0.1)]);
}

#[test]
fn nms_drops_the_lesser_one_wherever_it_stands() {
    let lesser = ScreenRect::new(10, 10, 100, 100);
    let apart = ScreenRect::new(500, 500, 50, 50);
    let better = ScreenRect::new(0, 0, 100, 100);
    let mut boxes = vec![lesser, apart, better];
    let mut scores = vec![single(0.3), single(0.2), single(0.9)];
    nms(&mut boxes, &mut scores, single(0.5));
    assert_eq!(boxes, vec![better, apart]);
    assert_eq!(scores, vec![single(0.9), single(0.2)]);
}

#[test]
fn nms_without_boxes_leaves_the_scores() {
    let mut boxes: Vec<ScreenRect> = Vec::new();
    let mut scores = vec![single(0.3)];
    nms(&mut boxes, &mut scores, single(0.5));
    assert!(boxes.is_empty());
    assert_eq!(scores, vec![single(0.3)]);
}

#[test]
fn nms_cuts_off_scores_without_a_box() {
    let a = ScreenRect::new(0, 0, 10, 10);
    let mut boxes = vec![a];
    let mut scores = vec![single(0.3), single(0.8)];
    nms(&mut boxes, &mut scores, single(0.5));
    assert_eq!(boxes, vec![a]);
    assert_eq!(scores, vec![single(0.3)]);
}

#[test]
fn nms_keeps_the_order_of_scores_that_cannot_be_compared() {
    let mut boxes = vec![ScreenRect::new(0, 0, 10, 10), ScreenRect::new(500, 500, 10, 10)];
    let mut scores = vec![single(f32::NAN), single(0.7)];
    nms(&mut boxes, &mut scores, single(0.5));
    assert_eq!(boxes, vec![ScreenRect::new(0, 0, 10, 10), ScreenRect::new(500, 500, 10, 10)]);
    assert!(float(scores[0]).is_nan());
}

#[test]
fn resize_scales_the_picture_down_and_pads_it() {
    let mut data = vec![0u8; 800 * 600 * 3];
    for i in (0..data.len()).step_by(3) {
        data[i] = 10;
        data[i + 1] = 20;
        data[i + 2] = 30;
    }
    let (padded, _, _) = resize_and_pad(&data, 800, 600, 544, 320);
    assert_eq!(&padded[0..3], &[10, 20, 30]);
    assert_ne!(padded.len(), data.len());
    let last = (319 * 544 + 543) * 3;
    assert_eq!(&padded[last..last + 3], &padded[last - 3..last]);
}

#[test]
fn resize_takes_long_rows_that_become_shorter() {
    let data = vec![9u8; 2097152 * 8 * 3];
    let (padded, xr, yr) = resize_and_pad(&data, 2097152, 8, 262144, 60);
    assert_eq!(padded.len(), 262144 * 60 * 3);
    assert!(padded[..262144 * 3].iter().all(|b| *b == 9));
    assert!(padded[262144 * 3..].iter().all(|b| *b == 0));
    assert_eq!((float(xr), float(yr)), (8.0, 8.0));
}

#[test]
fn resize_copies_a_picture_of_the_same_size() {
    let data = vec![10, 20, 30, 40, 50, 60];
    let (padded, xr, yr) = resize_and_pad(&data, 2, 1, 2, 60);
    assert_eq!(&padded[..6], &data[..]);
    assert!(padded[6..].iter().all(|b| *b == 0));
    assert_eq!(padded.len(), 2 * 60 * 3);
    assert_eq!((float(xr), float(yr)), (1.0, 1.0));
}

#[test]
fn fitted_size_keeps_the_aspect() {
    assert_eq!(fitted_size(800, 600, 544, 320), (426, 320));
    assert_eq!(fitted_size(1920, 1200, 544, 320), (512, 320));
}

#[test]
fn padding_puts_the_picture_into_the_upper_left() {
    let out = pad_to_target(&[1, 2, 3], 1, 1, 2, 1);
    assert_eq!(out.len(), 6);
    assert_eq!(&out[0..3], &[1, 2, 3]);
}

#[test]
fn overlap_of_a_rectangle_with_itself_is_the_rectangle() {
    let a = ScreenRect::new(-5, 7, 30, 40);
    assert_eq!(a.intersection(&a), Some(a));
    assert_eq!(a.area(), 1200);
    assert_eq!(a.right(), 25);
    assert_eq!(a.bottom(), 47);
}

#[test]
fn overlap_does_not_depend_on_the_order() {
    let a = ScreenRect::new(0, 0, 10, 10);
    let b = ScreenRect::new(4, -3, 20, 8);
    assert_eq!(a.intersection(&b), b.intersection(&a));
    assert_eq!(a.intersection(&b), Some(ScreenRect::new(4, 0, 6, 5)));
}

#[test]
fn subtraction_keeps_the_area() {
    let a = ScreenRect::new(0, 0, 100, 100);
    let b = ScreenRect::new(25, 25, 50, 50);
    let parts = a.subtract(&b);
    let left: u64 = parts.iter().map(|p| p.area()).sum();
    assert_eq!(left, a.area() - b.area());
    for (i, p) in parts.iter().enumerate() {
        assert!(p.intersection(&b).is_none());
        for q in &parts[i + 1..] {
            assert!(p.intersection(q).is_none());
        }
    }
}

#[test]
fn subtraction_of_something_apart_changes_nothing() {
    let a = ScreenRect::new(0, 0, 10, 10);
    assert_eq!(a.subtract(&ScreenRect::new(50, 50, 5, 5)), vec![a]);
    assert_eq!(a.subtract(&a), vec![]);
}

#[test]
fn points_and_padding() {
    let a = ScreenRect::new(10, 10, 20, 20);
    assert!(a.contains_point(10, 10));
    assert!(!a.contains_point(30, 30));
    let p = a.pad(5);
    assert!(p.contains(&a));
    assert_eq!(ScreenPoint::new(3, 4), ScreenPoint { x: 3, y: 4 });
}

#[test]
fn scaling_a_rectangle() {
    let a = ScreenRect::new(10, 20, 30, 40);
    assert_eq!(a.scale(single(2.0), single(0.5)), ScreenRect::new(20, 10, 60, 20));
}

#[test]
fn hex_colors_that_are_none() {
    assert_eq!(ColorRgb::from_hex("ff8000"), Some(ColorRgb::new(255, 128, 0)));
    assert_eq!(ColorRgb::from_hex("#ff80"), None);
    assert_eq!(ColorRgb::from_hex("#gg8000"), None);
    assert_eq!(ColorRgb::from_tuple((1, 2, 3)).to_tuple(), (1, 2, 3));
}

#[test]
fn classes_and_their_numbers() {
    assert_eq!(ObjectClass::all(), [ObjectClass::Male, ObjectClass::Female]);
}

#[test]
fn pixels_are_read_as_red_green_blue() {
    let bgr = FrameData::new_bgr(1, 1, vec![1, 2, 3]);
    let rgb = FrameData::new_rgb(1, 1, vec![1, 2, 3]);
    let bgra = FrameData::new_with_stride(1, 1, 4, vec![1, 2, 3, 4], PixelFormat::Bgra);
    assert_eq!(bgr.pixel_at(0, 0), Some([3, 2, 1]));
    assert_eq!(rgb.pixel_at(0, 0), Some([1, 2, 3]));
    assert_eq!(bgra.pixel_at(0, 0), None);
    assert_eq!(bgr.pixel_at(1, 0), None);
}

#[test]
fn off_screen_rectangles_have_no_color() {
    let frame = FrameData::new_bgr(4, 4, vec![7u8; 48]);
    assert_eq!(extract_dominant_color(&frame, &ScreenRect::new(-200, -200, 2, 2)), None);
    assert_eq!(extract_dominant_color(&frame, &ScreenRect::new(-1, 0, 2, 2)), None);
    assert_eq!(extract_dominant_color(&frame, &ScreenRect::new(3, 0, 2, 2)), None);
    assert_eq!(extract_dominant_color(&frame, &ScreenRect::new(4, 4, 1, 1)), None);
    let inside = extract_dominant_color(&frame, &ScreenRect::new(2, 2, 2, 2));
    assert_eq!(inside, Some(ColorRgb::new(7, 7, 7)));
    let rect = ScreenRect::new(-200, -200, 2, 2);
    let cover = generate_cover(&frame, &rect, CoverMode::BackgroundColor, red());
    assert_eq!(cover.resolved_color, Some(red()));
}

#[test]
fn ties_between_colors_go_to_the_least_one() {
    let frame = FrameData::new_rgb(2, 1, vec![9, 9, 9, 5, 5, 5]);
    let c = extract_dominant_color(&frame, &ScreenRect::new(0, 0, 2, 1)).unwrap();
    assert_eq!(c, ColorRgb::new(5, 5, 5));
}

#[test]
fn blurring_averages_the_neighbourhood() {
    let uniform = vec![77u8; 30 * 30 * 3];
    assert_eq!(blur_region(&uniform, 30, 30), uniform);
    assert_eq!(blur_region(&[], 0, 0), Vec::<u8>::new());
}

#[test]
fn a_cover_outside_of_the_frame_falls_back() {
    let frame = FrameData::new_bgr(10, 10, vec![50u8; 300]);
    let far = ScreenRect::new(100, 100, 5, 5);
    assert!(generate_blur_data(&frame, &far).is_none());
    let cover = generate_cover(&frame, &far, CoverMode::SolidColor, red());
    assert_eq!(cover.resolved_color, Some(red()));
}
