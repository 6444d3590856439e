//! The detector around the network.

use vstd::arithmetic::div_mod::*;
use vstd::prelude::*;

use crate::inference::yolo;
use crate::inference::yolo::{decode_heads, filter_and_nms, YoloCandidate, YoloHead};
use crate::numeric;
use crate::single::{Single, ONE_BITS};
use crate::text;
use crate::text::{chars_of, concat, lower_all, push_decimal, same, same_chars};
use crate::vision::detection::{Detection, FrameData, ObjectClass, PixelFormat};
use crate::vision::geometry;
use crate::vision::geometry::{half_of, ScreenRect};

verus! {

/// The most outputs of a network that are read.
pub const MAX_OUTPUTS: usize = 16;

#[derive(Debug)]
pub enum InferenceError {
    ModelNotLoaded,
    Failed(String),
    BackendNotAvailable(String),
    ShapeMismatch { got: usize, expected: usize },
    TooManyOutputs { count: usize, max: usize },
}

impl InferenceError {
    pub open spec fn text(&self) -> Seq<char> {
        match self {
            InferenceError::ModelNotLoaded => "Model not loaded"@,
            InferenceError::Failed(s) => "Inference failed: "@ + s@,
            InferenceError::BackendNotAvailable(s) => "Backend not available: "@ + s@,
            InferenceError::ShapeMismatch { got, expected } => "Input shape mismatch: got "@
                + text::decimal(*got as nat) + " elements, expected "@ + text::decimal(
                *expected as nat,
            ),
            InferenceError::TooManyOutputs { count, max } => "Model has "@ + text::decimal(
                *count as nat,
            ) + " outputs, but maximum supported is "@ + text::decimal(*max as nat),
        }
    }

    /// The error in words.
    pub fn message(&self) -> (r: String)
        ensures
            r@ == self.text(),
    {
        match self {
            InferenceError::ModelNotLoaded => "Model not loaded".to_owned(),
            InferenceError::Failed(s) => concat("Inference failed: ", s.as_str()),
            InferenceError::BackendNotAvailable(s) => concat(
                "Backend not available: ",
                s.as_str(),
            ),
            InferenceError::ShapeMismatch { got, expected } => {
                let mut r = "Input shape mismatch: got ".to_owned();
                push_decimal(&mut r, *got as u64);
                r.append(" elements, expected ");
                push_decimal(&mut r, *expected as u64);
                r
            },
            InferenceError::TooManyOutputs { count, max } => {
                let mut r = "Model has ".to_owned();
                push_decimal(&mut r, *count as u64);
                r.append(" outputs, but maximum supported is ");
                push_decimal(&mut r, *max as u64);
                r
            },
        }
    }
}

/// Whether a setting is on: anything but `0` and `false`, and also when it is missing.
pub open spec fn switched_on(value: Option<Seq<char>>) -> bool {
    match value {
        Some(v) => v != "0"@ && text::lowered(v) != "false"@,
        None => true,
    }
}

pub fn flag_enabled(value: Option<&str>) -> (r: bool)
    ensures
        r == switched_on(
            match value {
                Some(v) => Some(v@),
                None => None,
            },
        ),
{
    match value {
        Some(v) => {
            let lowered = lower_all(&chars_of(v));
            let off = chars_of("false");
            !same(v, "0") && !same_chars(&lowered, &off)
        },
        None => true,
    }
}

/// Something that finds people in a frame.
pub trait Detector: Send {
    /// Writes what is found into `detections`, in place of what was there.
    fn detect(
        &mut self,
        frame: &FrameData,
        confidence_threshold: Single,
        nms_threshold: Single,
        target_classes: &[i32],
        network_width: u32,
        network_height: u32,
        screen_rect: &ScreenRect,
        detections: &mut Vec<Detection>,
    ) -> Result<(), InferenceError>;

    fn backend_name(&self) -> &str;
}

/// The bits of 0.9, above which the stand-in detector is silent.
pub const MOCK_LIMIT: u32 = 0x3f66_6666;

/// The bits of 0.91, the confidence of what the stand-in detector reports.
pub const MOCK_CONFIDENCE: u32 = 0x3f68_f5c3;

/// A stand-in for a detector: where it is told to, it reports a woman in the middle of each
/// frame.
pub struct MockDetector {
    pub reports: bool,
}

/// What the stand-in detector reports for a frame.
pub open spec fn mock_detection(frame: FrameData) -> Detection {
    let quarter_width = frame.width / 4;
    let quarter_height = frame.height / 4;
    let w: u32 = if quarter_width < 300 {
        quarter_width
    } else {
        300
    };
    let h: u32 = if quarter_height < 200 {
        quarter_height
    } else {
        200
    };
    Detection {
        class: ObjectClass::Female,
        confidence: Single { bits: MOCK_CONFIDENCE },
        screen_rect: ScreenRect {
            x: (geometry::half(frame.width) - w / 2) as i32,
            y: (geometry::half(frame.height) - h / 2) as i32,
            width: w,
            height: h,
        },
    }
}

impl Detector for MockDetector {
    fn detect(
        &mut self,
        frame: &FrameData,
        confidence_threshold: Single,
        nms_threshold: Single,
        target_classes: &[i32],
        network_width: u32,
        network_height: u32,
        screen_rect: &ScreenRect,
        detections: &mut Vec<Detection>,
    ) -> (r: Result<(), InferenceError>)
        ensures
            r is Ok,
            *final(self) == *old(self),
            final(detections)@ == (if old(self).reports && target_classes@.contains(1) && (Single {
                bits: MOCK_LIMIT,
            }).spec_ge(confidence_threshold) {
                seq![mock_detection(*frame)]
            } else {
                Seq::empty()
            }),
    {
        detections.clear();
        let limit = Single { bits: MOCK_LIMIT };
        if self.reports && yolo::holds(target_classes, 1) && limit.ge(confidence_threshold) {
            let w: u32 = if frame.width / 4 < 300 {
                frame.width / 4
            } else {
                300
            };
            let h: u32 = if frame.height / 4 < 200 {
                frame.height / 4
            } else {
                200
            };
            let x: i32 = half_of(frame.width) - (w / 2) as i32;
            let y: i32 = half_of(frame.height) - (h / 2) as i32;
            detections.push(
                Detection {
                    class: ObjectClass::Female,
                    confidence: Single { bits: MOCK_CONFIDENCE },
                    screen_rect: ScreenRect::new(x, y, w, h),
                },
            );
            assert(detections@ =~= seq![mock_detection(*frame)]);
        }
        Ok(())
    }

    fn backend_name(&self) -> (r: &str)
        ensures
            r@ == "mock"@,
    {
        "mock"
    }
}

/// Where the network runs.
#[derive(Debug, Clone, Copy, PartialEq, Eq, Structural)]
pub enum ExecutionProvider {
    WebGpu,
    Cpu,
}

impl ExecutionProvider {
    pub open spec fn name(self) -> Seq<char> {
        match self {
            ExecutionProvider::WebGpu => "ort-webgpu"@,
            ExecutionProvider::Cpu => "ort-cpu"@,
        }
    }

    pub fn backend_name(self) -> (r: &'static str)
        ensures
            r@ == self.name(),
    {
        match self {
            ExecutionProvider::WebGpu => "ort-webgpu",
            ExecutionProvider::Cpu => "ort-cpu",
        }
    }
}

/// The lowest 32 bits of a dimension.
pub open spec fn low_bits(d: i64) -> int {
    d as int % 0x1_0000_0000
}

fn low_bits_of(d: i64) -> (r: u32)
    ensures
        r == low_bits(d),
{
    if d >= 0 {
        (d % 0x1_0000_0000) as u32
    } else {
        let below: i64 = (-(d + 1)) % 0x1_0000_0000;
        (0xffff_ffff - below) as u32
    }
}

/// The width and height of the network's input, by its dimensions: the batch, the channels, the
/// height and the width. Where they are not those of one picture of three channels, the size
/// is 544 times 320.
pub open spec fn input_size(dims: Option<Seq<i64>>) -> (int, int) {
    match dims {
        Some(d) => {
            if d.len() >= 4 && d[0] == 1 && d[1] == 3 {
                (low_bits(d[3]), low_bits(d[2]))
            } else {
                (544, 320)
            }
        },
        None => (544, 320),
    }
}

pub fn network_input_size(dims: Option<&[i64]>) -> (r: (u32, u32))
    ensures
        r.0 == input_size(
            match dims {
                Some(d) => Some(d@),
                None => None,
            },
        ).0,
        r.1 == input_size(
            match dims {
                Some(d) => Some(d@),
                None => None,
            },
        ).1,
{
    match dims {
        Some(d) => {
            if d.len() >= 4 && d[0] == 1 && d[1] == 3 {
                (low_bits_of(d[3]), low_bits_of(d[2]))
            } else {
                (544, 320)
            }
        },
        None => (544, 320),
    }
}

/// The name of the network's input, where it has one.
pub fn input_name(first: Option<String>) -> (r: String)
    ensures
        r@ == (match first {
            Some(name) => name@,
            None => "input"@,
        }),
{
    match first {
        Some(name) => name,
        None => "input".to_owned(),
    }
}

/// The size that a frame is brought to: the configured one, or the network's own where none is
/// configured.
pub fn effective_size(configured: u32, own: u32) -> (r: u32)
    ensures
        r == (if configured > 0 {
            configured
        } else {
            own
        }),
{
    if configured > 0 {
        configured
    } else {
        own
    }
}

/// Refuses a network with too many outputs.
pub fn check_outputs(count: usize) -> (r: Result<(), InferenceError>)
    ensures
        if count > MAX_OUTPUTS {
            r == Err::<(), _>(InferenceError::TooManyOutputs { count, max: MAX_OUTPUTS })
        } else {
            r is Ok
        },
{
    if count > MAX_OUTPUTS {
        Err(InferenceError::TooManyOutputs { count, max: MAX_OUTPUTS })
    } else {
        Ok(())
    }
}

/// The words for an output that is not a grid.
pub open spec fn flat_output_text(idx: nat, dims: nat) -> Seq<char> {
    "output "@ + text::decimal(idx) + " has "@ + text::decimal(dims)
        + " dimensions; expected at least 4"@
}

/// The height and width of the grid of an output.
pub fn head_size(idx: usize, dims: &[i64]) -> (r: Result<(u32, u32), InferenceError>)
    ensures
        if dims@.len() < 4 {
            r matches Err(InferenceError::Failed(s)) && s@ == flat_output_text(
                idx as nat,
                dims@.len(),
            )
        } else {
            r matches Ok(size) && size.0 == low_bits(dims@[2]) && size.1 == low_bits(dims@[3])
        },
{
    if dims.len() < 4 {
        let mut s = "output ".to_owned();
        push_decimal(&mut s, idx as u64);
        s.append(" has ");
        push_decimal(&mut s, dims.len() as u64);
        s.append(" dimensions; expected at least 4");
        return Err(InferenceError::Failed(s));
    }
    Ok((low_bits_of(dims[2]), low_bits_of(dims[3])))
}

/// A byte as a number from zero to one.
pub open spec fn unit(b: u8) -> Single {
    Single::of_int(b as int).product(
        (Single { bits: ONE_BITS }).quotient(Single::of_int(255)),
    )
}

/// The numbers for all bytes.
fn unit_table() -> (r: Vec<Single>)
    ensures
        r@.len() == 256,
        forall|b: u8| #![auto] r@[b as int] == unit(b),
{
    let factor = (Single { bits: ONE_BITS }).over(Single::from_u64(255));
    let mut r: Vec<Single> = Vec::new();
    let mut i: u64 = 0;
    while i < 256
        invariant
            i <= 256,
            r@.len() == i,
            factor == (Single { bits: ONE_BITS }).quotient(Single::of_int(255)),
            forall|b: u8| b < i ==> #[trigger] r@[b as int] == unit(b),
        decreases 256 - i,
    {
        r.push(Single::from_u64(i).times(factor));
        i = i + 1;
    }
    r
}

/// The bytes from one row to the next: the frame's stride, or as many as its pixels take where
/// it has none.
pub open spec fn row_bytes(frame: FrameData) -> int {
    if frame.stride > 0 {
        frame.stride as int
    } else {
        frame.width * frame.format.width()
    }
}

/// The first byte of the frame's pixel from which pixel `q` of the network's input is taken.
pub open spec fn source_offset(frame: FrameData, net_w: int, net_h: int, q: int) -> int {
    let sy = ((q / net_w) * frame.height) / net_h;
    let sx = ((q % net_w) * frame.width) / net_w;
    sy * row_bytes(frame) + sx * frame.format.width()
}

/// What pixel `q` of a channel (0 for red, 1 for green, 2 for blue) becomes: the value of the
/// nearest pixel of the frame, or what was there before where the frame has no such pixel.
pub open spec fn nchw_value(
    frame: FrameData,
    before: Single,
    net_w: int,
    net_h: int,
    channel: int,
    q: int,
) -> Single {
    let at = source_offset(frame, net_w, net_h, q);
    if at + 2 < frame.data@.len() {
        unit(frame.data@[at + frame.format.place(channel)])
    } else {
        before
    }
}

/// The network's input for a frame: all red values, then all green ones, then all blue ones.
pub open spec fn nchw(frame: FrameData, before: Seq<Single>, net_w: int, net_h: int) -> Seq<
    Single,
> {
    let plane = net_w * net_h;
    Seq::new(
        before.len(),
        |i: int|
            if i < plane {
                nchw_value(frame, before[i], net_w, net_h, 0, i)
            } else if i < 2 * plane {
                nchw_value(frame, before[i], net_w, net_h, 1, i - plane)
            } else if i < 3 * plane {
                nchw_value(frame, before[i], net_w, net_h, 2, i - 2 * plane)
            } else {
                before[i]
            },
    )
}

/// The frame's pixel nearest to a cell of the network's input.
fn offset_for(frame: &FrameData, net_w: usize, net_h: usize, y: usize, x: usize, Ghost(q): Ghost<
    int,
>) -> (r: u128)
    requires
        y < net_h,
        x < net_w,
        q == y * net_w + x,
    ensures
        r == source_offset(*frame, net_w as int, net_h as int, q),
        r < 0x100_0000_0000_0000_0000,
{
    proof {
        lemma_fundamental_div_mod_converse(q, net_w as int, y as int, x as int);
        assert(0 <= y * frame.height <= 0xffff_ffff_ffff_ffff * 0xffff_ffff) by (nonlinear_arith)
            requires
                0 <= y <= 0xffff_ffff_ffff_ffff,
                0 <= frame.height <= 0xffff_ffff,
        ;
        assert(0 <= x * frame.width <= 0xffff_ffff_ffff_ffff * 0xffff_ffff) by (nonlinear_arith)
            requires
                0 <= x <= 0xffff_ffff_ffff_ffff,
                0 <= frame.width <= 0xffff_ffff,
        ;
        assert((y * frame.height) / (net_h as int) <= frame.height) by (nonlinear_arith)
            requires
                0 <= y < net_h,
                0 <= frame.height,
        ;
        assert((x * frame.width) / (net_w as int) <= frame.width) by (nonlinear_arith)
            requires
                0 <= x < net_w,
                0 <= frame.width,
        ;
    }
    let sy: u128 = y as u128 * frame.height as u128 / net_h as u128;
    let sx: u128 = x as u128 * frame.width as u128 / net_w as u128;
    let bpp: u32 = frame.format.bytes_per_pixel();
    assert(frame.width * bpp == frame.width * 3 || frame.width * bpp == frame.width * 4);
    let stride: u128 = if frame.stride > 0 {
        frame.stride as u128
    } else {
        frame.width as u128 * bpp as u128
    };
    assert(0 <= sy * stride <= 0xffff_ffff * 0x4_0000_0000) by (nonlinear_arith)
        requires
            0 <= sy <= 0xffff_ffff,
            0 <= stride <= 0x4_0000_0000,
    ;
    assert(sx * bpp == sx * 3 || sx * bpp == sx * 4);
    sy * stride + sx * bpp as u128
}

/// Fills the network's input from a frame: each value is that of the nearest pixel, as a number
/// from zero to one. Where the frame's data ends too early, the input keeps what it held.
pub fn preprocess_frame_to_nchw(
    frame: &FrameData,
    out: &mut Vec<Single>,
    net_w: usize,
    net_h: usize,
) -> (r: Result<(), InferenceError>)
    requires
        net_w * net_h * 3 <= usize::MAX,
    ensures
        if old(out)@.len() < net_w * net_h * 3 {
            &&& r == Err::<(), _>(
                InferenceError::ShapeMismatch {
                    got: old(out)@.len() as usize,
                    expected: (net_w * net_h * 3) as usize,
                },
            )
            &&& final(out)@ == old(out)@
        } else {
            r is Ok && final(out)@ == nchw(*frame, old(out)@, net_w as int, net_h as int)
        },
{
    proof {
        assert(0 <= net_w * net_h) by (nonlinear_arith)
            requires
                net_w >= 0,
                net_h >= 0,
        ;
    }
    let plane: usize = net_w * net_h;
    let expected: usize = plane * 3;
    if out.len() < expected {
        return Err(InferenceError::ShapeMismatch { got: out.len(), expected });
    }
    let (red, blue): (usize, usize) = match frame.format {
        PixelFormat::Bgr | PixelFormat::Bgra => (2, 0),
        PixelFormat::Rgb | PixelFormat::Rgba => (0, 2),
    };
    let table = unit_table();
    let ghost before = out@;
    let ghost whole = nchw(*frame, before, net_w as int, net_h as int);
    let mut q: usize = 0;
    let mut y: usize = 0;
    let mut x: usize = 0;
    while q < plane
        invariant
            plane == net_w * net_h,
            expected == 3 * plane,
            expected <= before.len(),
            out@.len() == before.len(),
            red == frame.format.place(0),
            blue == frame.format.place(2),
            table@.len() == 256,
            forall|b: u8| #![auto] table@[b as int] == unit(b),
            whole == nchw(*frame, before, net_w as int, net_h as int),
            q <= plane,
            q == y * net_w + x,
            x < net_w || q == plane,
            forall|i: int|
                #![trigger out@[i]]
                0 <= i < before.len() ==> out@[i] == (if i < q || plane <= i < plane + q || 2
                    * plane <= i < 2 * plane + q {
                    whole[i]
                } else {
                    before[i]
                }),
        decreases plane - q,
    {
        proof {
            assert(y < net_h) by (nonlinear_arith)
                requires
                    y * net_w + x < net_w * net_h,
                    x >= 0,
                    net_w > 0,
            ;
            assert((y + 1) * net_w == y * net_w + net_w) by (nonlinear_arith);
        }
        let at: u128 = offset_for(frame, net_w, net_h, y, x, Ghost(q as int));
        if at + 2 < frame.data.len() as u128 {
            let at: usize = at as usize;
            let r: u8 = frame.data[at + red];
            let g: u8 = frame.data[at + 1];
            let b: u8 = frame.data[at + blue];
            out.set(q, table[r as usize]);
            out.set(plane + q, table[g as usize]);
            out.set(2 * plane + q, table[b as usize]);
        }
        q = q + 1;
        x = x + 1;
        if x == net_w {
            x = 0;
            y = y + 1;
        }
    }
    proof {
        assert forall|i: int| 0 <= i < before.len() implies out@[i] == whole[i] by {
            if i >= 3 * plane {
                assert(whole[i] == before[i]);
            }
        }
        assert(out@ =~= whole);
    }
    Ok(())
}

/// A rectangle of the network's input, on the screen.
pub open spec fn on_screen(r: ScreenRect, screen: ScreenRect, net_w: int, net_h: int) -> ScreenRect {
    let sx = Single::of_int(screen.width as int).quotient(Single::of_int(net_w));
    let sy = Single::of_int(screen.height as int).quotient(Single::of_int(net_h));
    ScreenRect {
        x: Single::of_int(screen.x as int).sum(Single::of_int(r.x as int).product(sx)).clamped(
            i32::MIN as int,
            i32::MAX as int,
        ) as i32,
        y: Single::of_int(screen.y as int).sum(Single::of_int(r.y as int).product(sy)).clamped(
            i32::MIN as int,
            i32::MAX as int,
        ) as i32,
        width: Single::of_int(r.width as int).product(sx).clamped(0, u32::MAX as int) as u32,
        height: Single::of_int(r.height as int).product(sy).clamped(0, u32::MAX as int) as u32,
    }
}

pub fn network_rect_to_screen(r: &ScreenRect, screen: &ScreenRect, net_w: u32, net_h: u32) -> (s:
    ScreenRect)
    ensures
        s == on_screen(*r, *screen, net_w as int, net_h as int),
{
    let sx = Single::from_u64(screen.width as u64).over(Single::from_u64(net_w as u64));
    let sy = Single::from_u64(screen.height as u64).over(Single::from_u64(net_h as u64));
    ScreenRect {
        x: Single::from_i32(screen.x).plus(Single::from_i32(r.x).times(sx)).to_i32(),
        y: Single::from_i32(screen.y).plus(Single::from_i32(r.y).times(sy)).to_i32(),
        width: Single::from_u64(r.width as u64).times(sx).to_u32(),
        height: Single::from_u64(r.height as u64).times(sy).to_u32(),
    }
}

/// What a candidate is on the screen. Classes that the network does not have count as women.
pub open spec fn detection_of(
    c: YoloCandidate,
    screen: ScreenRect,
    net_w: int,
    net_h: int,
) -> Detection {
    Detection {
        class: if c.class_id == 0 {
            ObjectClass::Male
        } else {
            ObjectClass::Female
        },
        confidence: c.confidence,
        screen_rect: on_screen(c.rect_network, screen, net_w, net_h),
    }
}

pub fn candidate_to_detection(
    c: &YoloCandidate,
    screen: &ScreenRect,
    net_w: u32,
    net_h: u32,
) -> (r: Detection)
    ensures
        r == detection_of(*c, *screen, net_w as int, net_h as int),
{
    let class = match ObjectClass::from_id(c.class_id) {
        Some(class) => class,
        None => ObjectClass::Female,
    };
    Detection {
        class,
        confidence: c.confidence,
        screen_rect: network_rect_to_screen(&c.rect_network, screen, net_w, net_h),
    }
}

/// Turns the heads of the network into detections on the screen: decodes the boxes, thins them
/// out and maps them from the network's input to the screen.
pub fn postprocess(
    heads: &[YoloHead],
    cfg_w: u32,
    cfg_h: u32,
    target_classes: &[i32],
    confidence_threshold: Single,
    nms_threshold: Single,
    screen_rect: &ScreenRect,
    detections: &mut Vec<Detection>,
)
    requires
        heads@.len() <= 2,
        forall|i: int| 0 <= i < heads@.len() ==> (#[trigger] heads@[i]).complete(),
    ensures
        final(detections)@ == yolo::best(
            yolo::candidates_of(heads@, cfg_w as int, cfg_h as int),
            confidence_threshold,
            nms_threshold,
            target_classes@,
        ).map_values(|c: YoloCandidate| detection_of(c, *screen_rect, cfg_w as int, cfg_h as int)),
{
    let candidates = decode_heads(heads, cfg_w, cfg_h);
    let kept = filter_and_nms(candidates, confidence_threshold, nms_threshold, target_classes);
    detections.clear();
    let ghost all = kept@.map_values(
        |c: YoloCandidate| detection_of(c, *screen_rect, cfg_w as int, cfg_h as int),
    );
    let mut i: usize = 0;
    while i < kept.len()
        invariant
            i <= kept@.len(),
            all == kept@.map_values(
                |c: YoloCandidate| detection_of(c, *screen_rect, cfg_w as int, cfg_h as int),
            ),
            detections@ == all.take(i as int),
        decreases kept.len() - i,
    {
        detections.push(candidate_to_detection(&kept[i], screen_rect, cfg_w, cfg_h));
        i = i + 1;
        assert(detections@ =~= all.take(i as int));
    }
    assert(detections@ =~= all);
}

/// A byte becomes its part of 255.
pub proof fn law_unit(b: u8)
    ensures
        unit(b).is_finite(),
        numeric::size_of(numeric::number(unit(b)) - b as real / 255real) <= 1real / 4000000real,
{
    numeric::lemma_powers();
    numeric::lemma_power_rises(24, 127);
    numeric::law_of_int(b as int);
    numeric::law_of_int(255);
    numeric::lemma_one();
    let one = Single { bits: ONE_BITS };
    let whole = Single::of_int(255);
    let x = 1real / 255real;
    numeric::law_quotient(one, whole);
    let f = one.quotient(whole);
    let v = numeric::number(f);
    numeric::lemma_close(v, x, x);
    let br = b as real;
    assert(numeric::size_of(br * v - br / 255real) <= 11real / 100000000real) by (nonlinear_arith)
        requires
            0real <= br <= 255real,
            -1real <= (v - 1real / 255real) * 4000000000real <= 1real,
            numeric::size_of(br * v - br / 255real) == if br * v - br / 255real < 0real {
                -(br * v - br / 255real)
            } else {
                br * v - br / 255real
            },
    ;
    numeric::law_product(Single::of_int(b as int), f);
    numeric::lemma_close(numeric::number(unit(b)), br * v, 2real);
}

/// Every number of the network's input stands for a byte of the frame: that of its channel at the
/// pixel which lies as far down and as far to the right in the frame as the number lies in its
/// plane. The planes follow each other in the order red, green, blue.
pub proof fn law_input_pixel(
    frame: FrameData,
    before: Seq<Single>,
    net_w: int,
    net_h: int,
    c: int,
    y: int,
    x: int,
    sy: int,
    sx: int,
)
    requires
        0 <= c < 3,
        0 <= y < net_h,
        0 <= x < net_w,
        before.len() >= 3 * (net_w * net_h),
        sy * net_h <= y * frame.height < (sy + 1) * net_h,
        sx * net_w <= x * frame.width < (sx + 1) * net_w,
        ({
            let size: int = if frame.format is Bgra || frame.format is Rgba {
                4
            } else {
                3
            };
            let stride = if frame.stride == 0 {
                frame.width * size
            } else {
                frame.stride as int
            };
            sy * stride + sx * size + 3 <= frame.data@.len()
        }),
    ensures
        ({
            let size: int = if frame.format is Bgra || frame.format is Rgba {
                4
            } else {
                3
            };
            let stride = if frame.stride == 0 {
                frame.width * size
            } else {
                frame.stride as int
            };
            let part = if frame.format is Bgr || frame.format is Bgra {
                2 - c
            } else {
                c
            };
            let byte = frame.data@[sy * stride + sx * size + part];
            let out = nchw(frame, before, net_w, net_h);
            &&& out.len() == before.len()
            &&& numeric::size_of(
                numeric::number(out[c * (net_w * net_h) + y * net_w + x]) - byte as real / 255real,
            ) <= 1real / 4000000real
        }),
{
    let plane = net_w * net_h;
    let q = y * net_w + x;
    assert(0 <= q < plane) by (nonlinear_arith)
        requires
            q == y * net_w + x,
            plane == net_w * net_h,
            0 <= y < net_h,
            0 <= x < net_w,
    ;
    lemma_fundamental_div_mod_converse(q, net_w, y, x);
    let a = y * frame.height;
    assert((sy + 1) * net_h == sy * net_h + net_h) by (nonlinear_arith);
    lemma_fundamental_div_mod_converse(a, net_h, sy, a - sy * net_h);
    let b = x * frame.width;
    assert((sx + 1) * net_w == sx * net_w + net_w) by (nonlinear_arith);
    lemma_fundamental_div_mod_converse(b, net_w, sx, b - sx * net_w);
    let at = source_offset(frame, net_w, net_h, q);
    let place = frame.format.place(c);
    law_unit(frame.data@[at + place]);
    assert(0 * plane == 0 && 1 * plane == plane && 2 * plane == plane + plane);
    assert(c * plane == if c == 0 {
        0
    } else if c == 1 {
        plane
    } else {
        2 * plane
    }) by (nonlinear_arith)
        requires
            0 <= c < 3,
    ;
}

/// A frame that has the network's size is its input, pixel by pixel.
pub proof fn law_input_same_size(
    frame: FrameData,
    before: Seq<Single>,
    c: int,
    y: int,
    x: int,
)
    requires
        0 <= c < 3,
        0 <= y < frame.height,
        0 <= x < frame.width,
        before.len() >= 3 * (frame.width * frame.height),
        frame.format is Rgb,
        frame.stride == 3 * frame.width,
        frame.data@.len() == 3 * (frame.width * frame.height),
    ensures
        ({
            let (w, h) = (frame.width as int, frame.height as int);
            let out = nchw(frame, before, w, h);
            numeric::size_of(
                numeric::number(out[c * (w * h) + y * w + x]) - frame.data@[3 * (y * w + x)
                    + c] as real / 255real,
            ) <= 1real / 4000000real
        }),
{
    let (w, h) = (frame.width as int, frame.height as int);
    assert((y + 1) * h == y * h + h && (x + 1) * w == x * w + w) by (nonlinear_arith);
    assert(y * (3 * w) == 3 * (y * w)) by (nonlinear_arith);
    assert(y * w + x < w * h) by (nonlinear_arith)
        requires
            0 <= y < h,
            0 <= x < w,
    ;
    law_input_pixel(frame, before, w, h, c, y, x, y, x);
}

/// A length of the network's input, brought to the screen.
proof fn lemma_scaled(n: int, screen: int, net: int)
    requires
        -0x1_0000 <= n <= 0x1_0000,
        0 <= screen <= 0x1_0000,
        0 < net <= 0x1_0000,
        -65536real <= n as real * (screen as real / (net as real)) <= 65536real,
    ensures
        ({
            let s = Single::of_int(screen).quotient(Single::of_int(net));
            let p = Single::of_int(n).product(s);
            &&& p.is_finite()
            &&& numeric::size_of(
                numeric::number(p) - n as real * (screen as real / (net as real)),
            ) <= 1real / 64real
        }),
{
    numeric::lemma_powers();
    numeric::lemma_power_rises(24, 127);
    numeric::law_of_int(n);
    numeric::law_of_int(screen);
    numeric::law_of_int(net);
    let (nr, sr, tr) = (n as real, screen as real, net as real);
    let x = sr / tr;
    assert(0real <= x <= 65536real) by (nonlinear_arith)
        requires
            x == sr / tr,
            0real <= sr <= 65536real,
            tr >= 1real,
    ;
    let s = Single::of_int(screen).quotient(Single::of_int(net));
    numeric::law_quotient(Single::of_int(screen), Single::of_int(net));
    let v = numeric::number(s);
    numeric::lemma_close(v, x, x);
    let tiny = 1real / 1000000000000real;
    assert(-1real <= (nr * v - nr * x) * 200real <= 1real) by (nonlinear_arith)
        requires
            -(x + tiny) <= (v - x) * 16777216real <= x + tiny,
            tiny == 1real / 1000000000000real,
            -65536real <= nr <= 65536real,
            -65536real <= nr * x <= 65536real,
            x >= 0real,
    ;
    numeric::law_product(Single::of_int(n), s);
    numeric::lemma_close(numeric::number(Single::of_int(n).product(s)), nr * v, 65537real);
}

/// A rectangle of the network's input is brought to the screen by the ratio of the two sizes, from
/// the left upper corner of the screen's part on; what is cut off is less than a pixel and a
/// rounding.
pub proof fn law_on_screen(r: ScreenRect, screen: ScreenRect, net_w: int, net_h: int)
    requires
        0 < net_w <= 0x1_0000,
        0 < net_h <= 0x1_0000,
        screen.width <= 0x1_0000,
        screen.height <= 0x1_0000,
        -0x1_0000 <= screen.x <= 0x1_0000,
        -0x1_0000 <= screen.y <= 0x1_0000,
        -0x1_0000 <= r.x <= 0x1_0000,
        -0x1_0000 <= r.y <= 0x1_0000,
        r.width <= 0x1_0000,
        r.height <= 0x1_0000,
        ({
            let across = screen.width as real / (net_w as real);
            let down = screen.height as real / (net_h as real);
            &&& -65536real <= r.x as real * across <= 65536real
            &&& -65536real <= r.y as real * down <= 65536real
            &&& r.width as real * across <= 65536real
            &&& r.height as real * down <= 65536real
        }),
    ensures
        ({
            let across = screen.width as real / (net_w as real);
            let down = screen.height as real / (net_h as real);
            let s = on_screen(r, screen, net_w, net_h);
            &&& numeric::size_of(s.x as real - (screen.x as real + r.x as real * across)) <= 4real
                / 3real
            &&& numeric::size_of(s.y as real - (screen.y as real + r.y as real * down)) <= 4real
                / 3real
            &&& numeric::size_of(s.width as real - r.width as real * across) <= 4real / 3real
            &&& numeric::size_of(s.height as real - r.height as real * down) <= 4real / 3real
        }),
{
    numeric::lemma_powers();
    numeric::lemma_power_rises(24, 127);
    lemma_start_on_screen(r.x, screen.x, screen.width as int, net_w);
    lemma_start_on_screen(r.y, screen.y, screen.height as int, net_h);
    lemma_length_on_screen(r.width, screen.width as int, net_w);
    lemma_length_on_screen(r.height, screen.height as int, net_h);
}

proof fn lemma_start_on_screen(n: i32, start: i32, screen: int, net: int)
    requires
        -0x1_0000 <= n <= 0x1_0000,
        -0x1_0000 <= start <= 0x1_0000,
        0 <= screen <= 0x1_0000,
        0 < net <= 0x1_0000,
        -65536real <= n as real * (screen as real / (net as real)) <= 65536real,
    ensures
        ({
            let s = Single::of_int(screen).quotient(Single::of_int(net));
            let x = Single::of_int(start as int).sum(Single::of_int(n as int).product(s)).clamped(
                i32::MIN as int,
                i32::MAX as int,
            );
            &&& i32::MIN <= x <= i32::MAX
            &&& numeric::size_of(
                x as real - (start as real + n as real * (screen as real / (net as real))),
            ) <= 4real / 3real
        }),
{
    numeric::lemma_powers();
    numeric::lemma_power_rises(24, 127);
    lemma_scaled(n as int, screen, net);
    numeric::law_of_int(start as int);
    let s = Single::of_int(screen).quotient(Single::of_int(net));
    let p = Single::of_int(n as int).product(s);
    let a = Single::of_int(start as int);
    numeric::law_sum(a, p);
    numeric::lemma_close(
        numeric::number(a.sum(p)),
        start as real + numeric::number(p),
        200000real,
    );
    numeric::law_clamped(a.sum(p), i32::MIN as int, i32::MAX as int);
}

proof fn lemma_length_on_screen(n: u32, screen: int, net: int)
    requires
        n <= 0x1_0000,
        0 <= screen <= 0x1_0000,
        0 < net <= 0x1_0000,
        n as real * (screen as real / (net as real)) <= 65536real,
    ensures
        ({
            let s = Single::of_int(screen).quotient(Single::of_int(net));
            let x = Single::of_int(n as int).product(s).clamped(0, u32::MAX as int);
            &&& 0 <= x <= u32::MAX
            &&& numeric::size_of(x as real - n as real * (screen as real / (net as real))) <= 4real
                / 3real
        }),
{
    let (nr, sr, tr) = (n as real, screen as real, net as real);
    assert(nr * (sr / tr) >= 0real) by (nonlinear_arith)
        requires
            nr >= 0real,
            sr >= 0real,
            tr > 0real,
    ;
    lemma_scaled(n as int, screen, net);
    let s = Single::of_int(screen).quotient(Single::of_int(net));
    numeric::law_clamped(Single::of_int(n as int).product(s), 0, u32::MAX as int);
}

/// A candidate of class zero is a man and one of class one a woman, and how sure the network is
/// stays as it was.
pub proof fn law_detection_class(c: YoloCandidate, screen: ScreenRect, net_w: int, net_h: int)
    ensures
        c.class_id == 0 ==> detection_of(c, screen, net_w, net_h).class is Male,
        c.class_id == 1 ==> detection_of(c, screen, net_w, net_h).class is Female,
        detection_of(c, screen, net_w, net_h).confidence == c.confidence,
        detection_of(c, screen, net_w, net_h).screen_rect == on_screen(
            c.rect_network,
            screen,
            net_w,
            net_h,
        ),
{
}

/// What the stand-in detector reports stands in the middle of the frame, lies within it and takes
/// at most a quarter of each side.
pub proof fn law_mock_middle(frame: FrameData)
    requires
        frame.width < 0x8000_0000,
        frame.height < 0x8000_0000,
    ensures
        ({
            let r = mock_detection(frame).screen_rect;
            let (left, right) = (r.x as int, frame.width - (r.x + r.width));
            let (above, below) = (r.y as int, frame.height - (r.y + r.height));
            &&& 0 <= left
            &&& 0 <= right
            &&& 0 <= above
            &&& 0 <= below
            &&& -1 <= right - left <= 1
            &&& -1 <= below - above <= 1
            &&& 4 * r.width <= frame.width
            &&& 4 * r.height <= frame.height
            &&& r.width <= 300
            &&& r.height <= 200
            &&& r.width == 300 || 4 * r.width + 4 > frame.width
            &&& r.height == 200 || 4 * r.height + 4 > frame.height
        }),
{
}

/// A network for one picture of three channels takes pictures of its own last two dimensions, the
/// height before the width; any other takes those of the usual size.
pub proof fn law_input_size(dims: Seq<i64>, width: u32, height: u32)
    ensures
        dims == seq![1i64, 3, height as i64, width as i64] ==> input_size(Some(dims)) == (
            width as int,
            height as int,
        ),
        dims.len() < 4 || dims[0] != 1 || dims[1] != 3 ==> input_size(Some(dims)) == (544int, 320int),
{
}

/// A setting is off exactly where it is the digit zero or spells `false`, in letters of any case.
pub proof fn law_switched_off(value: Seq<char>)
    ensures
        switched_on(Some(value)) == !({
            ||| value.len() == 1 && value[0] == '0'
            ||| value.len() == 5 && (value[0] == 'f' || value[0] == 'F') && (value[1] == 'a'
                || value[1] == 'A') && (value[2] == 'l' || value[2] == 'L') && (value[3] == 's'
                || value[3] == 'S') && (value[4] == 'e' || value[4] == 'E')
        }),
        switched_on(None),
{
    reveal_strlit("0");
    reveal_strlit("false");
    let small = text::lowered(value);
    assert(small.len() == value.len());
    if value.len() == 1 && value[0] == '0' {
        assert(value =~= "0"@);
    }
    if value.len() == 5 {
        let (a, b, c, d, e) = (value[0], value[1], value[2], value[3], value[4]);
        assert(small[0] == text::lower(a) && small[1] == text::lower(b) && small[2]
            == text::lower(c) && small[3] == text::lower(d) && small[4] == text::lower(e));
        if (a == 'f' || a == 'F') && (b == 'a' || b == 'A') && (c == 'l' || c == 'L') && (d == 's'
            || d == 'S') && (e == 'e' || e == 'E') {
            assert(small =~= "false"@);
        }
        if small == "false"@ {
            assert(small[0] == 'f' && small[1] == 'a' && small[2] == 'l' && small[3] == 's'
                && small[4] == 'e');
        }
    }
}

} // verus!
