use porda::inference::detector::{
    candidate_to_detection, check_outputs, effective_size, flag_enabled, head_size, input_name,
    network_input_size, network_rect_to_screen, postprocess, preprocess_frame_to_nchw, Detector,
    ExecutionProvider, InferenceError, MockDetector,
};
use porda::inference::yolo::{
    anchor, decode_heads, filter_and_nms, negates, sigmoid, YoloCandidate, YoloHead,
};
use porda::single::Single;
use porda::vision::detection::{FrameData, ObjectClass};
use porda::vision::geometry::ScreenRect;

fn single(x: f32) -> Single {
    Single { bits: x.to_bits() }
}

fn float(s: Single) -> f32 {
    f32::from_bits(s.bits)
}

fn sigmoid_of(x: f32) -> f32 {
    float(sigmoid(single((-x).exp())))
}

/// The exponentials of a head whose values are all the same.
fn head_of(value: f32, height: u32, width: u32) -> YoloHead {
    let cells = (height * width) as usize;
    let mut data = Vec::new();
    for channel in 0..21 {
        let e = if negates(channel) { (-value).exp() } else { value.exp() };
        for _ in 0..cells {
            data.push(single(e));
        }
    }
    YoloHead { data, height, width }
}

#[test]
fn test_sigmoid() {
    assert!((sigmoid_of(0.0) - 0.5).abs() < 1e-6);
    assert!(sigmoid_of(10.0) > 0.99);
    assert!(sigmoid_of(-10.0) < 0.01);
}

#[test]
fn test_decode_empty_heads() {
    let h0 = head_of(0.0, 10, 17);
    let h1 = head_of(0.0, 20, 34);
    let cands = decode_heads(&[h0, h1], 544, 320);
    assert_eq!(cands.len(), (10 * 17 * 3 + 20 * 34 * 3) * 2);
}

#[test]
fn test_filter() {
    let cands = vec![
        YoloCandidate {
            class_id: 1,
            confidence: single(0.9),
            rect_network: ScreenRect::new(0, 0, 100, 100),
        },
        YoloCandidate {
            class_id: 1,
            confidence: single(0.8),
            rect_network: ScreenRect::new(10, 10, 100, 100),
        },
        YoloCandidate {
            class_id: 0,
            confidence: single(0.9),
            rect_network: ScreenRect::new(200, 200, 50, 50),
        },
    ];
    let out = filter_and_nms(cands, single(0.25), single(0.1), &[1]);
    assert_eq!(out.len(), 1);
    assert_eq!(out[0].class_id, 1);
}

#[test]
fn filter_keeps_the_surest_first() {
    let cand = |class_id: i32, confidence: f32, x: i32| YoloCandidate {
        class_id,
        confidence: single(confidence),
        rect_network: ScreenRect::new(x, 0, 10, 10),
    };
    let cands = vec![cand(0, 0.3, 0), cand(1, 0.9, 100), cand(0, 0.6, 200), cand(0, 0.1, 300)];
    let out = filter_and_nms(cands, single(0.25), single(0.1), &[0, 1]);
    let sure: Vec<f32> = out.iter().map(|c| float(c.confidence)).collect();
    assert_eq!(sure, vec![0.9, 0.6, 0.3]);
}

#[test]
fn filter_drops_only_what_a_surer_one_of_the_class_covers() {
    let cand = |class_id: i32, confidence: f32, x: i32| YoloCandidate {
        class_id,
        confidence: single(confidence),
        rect_network: ScreenRect::new(x, 0, 100, 100),
    };
    let cands = vec![cand(0, 0.5, 0), cand(1, 0.6, 5), cand(0, 0.9, 10), cand(0, 0.4, 300)];
    let out = filter_and_nms(cands, single(0.25), single(0.1), &[0, 1]);
    let left: Vec<(i32, i32)> = out.iter().map(|c| (c.class_id, c.rect_network.x)).collect();
    assert_eq!(left, vec![(0, 10), (1, 5), (0, 300)]);
}

#[test]
fn anchors() {
    assert_eq!(anchor(0), (10, 14));
}

#[test]
fn flags_of_the_environment() {
    assert!(flag_enabled(None));
    assert!(flag_enabled(Some("1")));
    assert!(!flag_enabled(Some("0")));
    assert!(!flag_enabled(Some("FALSE")));
    assert!(flag_enabled(Some("")));
}

#[test]
fn mock_detector_reports_one_woman() {
    let frame = FrameData::new_bgr(1920, 1200, Vec::new());
    let screen = ScreenRect::new(0, 0, 1920, 1200);
    let mut found = Vec::new();
    let mut mock = MockDetector { reports: true };
    mock.detect(&frame, single(0.25), single(0.1), &[1], 544, 320, &screen, &mut found).unwrap();
    assert_eq!(found.len(), 1);
    assert_eq!(found[0].class, ObjectClass::Female);
    assert_eq!(found[0].screen_rect, ScreenRect::new(810, 500, 300, 200));
    mock.detect(&frame, single(0.95), single(0.1), &[1], 544, 320, &screen, &mut found).unwrap();
    assert!(found.is_empty());
    mock.detect(&frame, single(0.25), single(0.1), &[0], 544, 320, &screen, &mut found).unwrap();
    assert!(found.is_empty());
    let mut silent = MockDetector { reports: false };
    silent.detect(&frame, single(0.25), single(0.1), &[1], 544, 320, &screen, &mut found).unwrap();
    assert!(found.is_empty());
}

#[test]
fn names_and_sizes_of_a_model() {
    assert_eq!(ExecutionProvider::WebGpu.backend_name(), "ort-webgpu");
    assert_eq!(ExecutionProvider::Cpu.backend_name(), "ort-cpu");
    assert_eq!(network_input_size(Some(&[1, 3, 416, 608])), (608, 416));
    assert_eq!(network_input_size(Some(&[1, 4, 416, 608])), (544, 320));
    assert_eq!(network_input_size(Some(&[2, 3, 416, 608])), (544, 320));
    assert_eq!(network_input_size(None), (544, 320));
    assert_eq!(input_name(None), "input");
    assert_eq!(input_name(Some("images".to_string())), "images");
    assert_eq!(effective_size(0, 320), 320);
    assert_eq!(effective_size(416, 320), 416);
}

#[test]
fn outputs_of_a_model() {
    assert!(check_outputs(2).is_ok());
    let err = check_outputs(99).unwrap_err();
    assert!(matches!(err, InferenceError::TooManyOutputs { count: 99, .. }));
    assert_eq!(head_size(0, &[1, 21, 10, 17]).unwrap(), (10, 17));
    assert!(matches!(head_size(1, &[1, 21, 10]).unwrap_err(), InferenceError::Failed(_)));
}

#[test]
fn messages_of_inference_errors() {
    assert_eq!(InferenceError::ModelNotLoaded.message(), "Model not loaded");
    assert_eq!(InferenceError::Failed("x".to_string()).message(), "Inference failed: x");
    assert_eq!(
        InferenceError::BackendNotAvailable("y".to_string()).message(),
        "Backend not available: y"
    );
}

#[test]
fn frames_become_planes_of_the_network() {
    let frame = FrameData::new_bgr(2, 1, vec![0, 128, 255, 255, 0, 0]);
    let mut out = vec![single(0.0); 6];
    preprocess_frame_to_nchw(&frame, &mut out, 2, 1).unwrap();
    let planes: Vec<f32> = out.iter().map(|s| float(*s)).collect();
    let inv = 1.0f32 / 255.0;
    assert_eq!(planes, vec![255.0 * inv, 0.0, 128.0 * inv, 0.0, 0.0, 255.0 * inv]);
    let mut short = vec![single(0.0); 5];
    let err = preprocess_frame_to_nchw(&frame, &mut short, 2, 1).unwrap_err();
    assert!(matches!(err, InferenceError::ShapeMismatch { got: 5, expected: 6 }));
}

#[test]
fn boxes_of_the_network_become_boxes_on_the_screen() {
    let screen = ScreenRect::new(100, 50, 1088, 640);
    let r = network_rect_to_screen(&ScreenRect::new(10, 20, 30, 40), &screen, 544, 320);
    assert_eq!(r, ScreenRect::new(120, 90, 60, 80));
    let c = YoloCandidate {
        class_id: 0,
        confidence: single(0.5),
        rect_network: ScreenRect::new(10, 20, 30, 40),
    };
    let d = candidate_to_detection(&c, &screen, 544, 320);
    assert_eq!(d.class, ObjectClass::Male);
    assert_eq!(d.screen_rect, ScreenRect::new(120, 90, 60, 80));
}

#[test]
fn a_silent_network_finds_nothing() {
    let heads = [head_of(-10.0, 10, 17), head_of(-10.0, 20, 34)];
    let screen = ScreenRect::new(0, 0, 544, 320);
    let mut found = Vec::new();
    postprocess(&heads, 544, 320, &[0, 1], single(0.25), single(0.1), &screen, &mut found);
    assert!(found.is_empty());
}
