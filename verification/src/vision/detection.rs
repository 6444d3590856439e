//! Detections, covers and frames.

use vstd::prelude::*;
use vstd::seq_lib::*;

use crate::numeric;
use crate::ranking;
use crate::ranking::{sort, Ranked};
use crate::single::Single;
use crate::vision::geometry;
use crate::vision::geometry::{signed_size, ColorRgb, ScreenRect};

verus! {

/// The classes that the network tells apart.
#[derive(Debug, Clone, Copy, PartialEq, Eq, Hash, Structural)]
pub enum ObjectClass {
    Male,
    Female,
}

impl ObjectClass {
    /// The number of the class in the network's output.
    pub open spec fn number(self) -> int {
        match self {
            ObjectClass::Male => 0,
            ObjectClass::Female => 1,
        }
    }

    pub fn from_id(id: i32) -> (r: Option<Self>)
        ensures
            match r {
                Some(c) => c.number() == id,
                None => id != 0 && id != 1,
            },
    {
        match id {
            0 => Some(ObjectClass::Male),
            1 => Some(ObjectClass::Female),
            _ => None,
        }
    }

    pub open spec fn name(self) -> Seq<char> {
        match self {
            ObjectClass::Male => "Male"@,
            ObjectClass::Female => "Female"@,
        }
    }

    pub fn label(self) -> (r: &'static str)
        ensures
            r@ == self.name(),
    {
        match self {
            ObjectClass::Male => "Male",
            ObjectClass::Female => "Female",
        }
    }

    /// Every class, in the order of their numbers.
    pub fn all() -> (r: [ObjectClass; 2])
        ensures
            r@ == seq![ObjectClass::Male, ObjectClass::Female],
    {
        let r = [ObjectClass::Male, ObjectClass::Female];
        assert(r@ =~= seq![ObjectClass::Male, ObjectClass::Female]);
        r
    }
}

/// Something that was found on the screen.
#[derive(Debug, Clone, Copy, PartialEq, Eq, Structural)]
pub struct Detection {
    pub class: ObjectClass,
    pub confidence: Single,
    pub screen_rect: ScreenRect,
}

#[derive(Debug, Clone, Copy, PartialEq, Eq, Structural)]
pub enum CoverMode {
    Blur,
    SolidColor,
    BackgroundColor,
}

/// What is drawn over a part of the screen.
#[derive(Debug)]
pub struct CoverRect {
    pub screen_rect: ScreenRect,
    pub mode: CoverMode,
    /// The colour of a plain cover. The renderer adds the transparency.
    pub resolved_color: Option<ColorRgb>,
    /// The pixels of a blurred cover, row by row, each as blue, green and red.
    pub blur_data: Option<Vec<u8>>,
}

/// A cover by value.
#[verifier::ext_equal]
pub struct Cover {
    pub screen_rect: ScreenRect,
    pub mode: CoverMode,
    pub resolved_color: Option<ColorRgb>,
    pub blur_data: Option<Seq<u8>>,
}

impl View for CoverRect {
    type V = Cover;

    open spec fn view(&self) -> Cover {
        Cover {
            screen_rect: self.screen_rect,
            mode: self.mode,
            resolved_color: self.resolved_color,
            blur_data: match self.blur_data {
                Some(data) => Some(data@),
                None => None,
            },
        }
    }
}

impl Cover {
    pub open spec fn solid(rect: ScreenRect, color: ColorRgb) -> Cover {
        Cover {
            screen_rect: rect,
            mode: CoverMode::SolidColor,
            resolved_color: Some(color),
            blur_data: None,
        }
    }

    pub open spec fn dominant(rect: ScreenRect, color: ColorRgb) -> Cover {
        Cover {
            screen_rect: rect,
            mode: CoverMode::BackgroundColor,
            resolved_color: Some(color),
            blur_data: None,
        }
    }

    pub open spec fn blurred(rect: ScreenRect, data: Seq<u8>) -> Cover {
        Cover {
            screen_rect: rect,
            mode: CoverMode::Blur,
            resolved_color: None,
            blur_data: Some(data),
        }
    }

    pub open spec fn bare(rect: ScreenRect, mode: CoverMode) -> Cover {
        Cover { screen_rect: rect, mode, resolved_color: None, blur_data: None }
    }
}

impl Clone for CoverRect {
    fn clone(&self) -> (r: Self)
        ensures
            r@ == self@,
    {
        let blur_data: Option<Vec<u8>> = match &self.blur_data {
            Some(data) => Some(copied(data)),
            None => None,
        };
        CoverRect {
            screen_rect: self.screen_rect,
            mode: self.mode,
            resolved_color: self.resolved_color,
            blur_data,
        }
    }
}

fn copied(data: &Vec<u8>) -> (r: Vec<u8>)
    ensures
        r@ == data@,
{
    let r = data.clone();
    assert(r@ =~= data@);
    r
}

impl CoverRect {
    pub fn new_solid(rect: ScreenRect, color: ColorRgb) -> (r: Self)
        ensures
            r@ == Cover::solid(rect, color),
    {
        CoverRect {
            screen_rect: rect,
            mode: CoverMode::SolidColor,
            resolved_color: Some(color),
            blur_data: None,
        }
    }

    pub fn new_dominant(rect: ScreenRect, color: ColorRgb) -> (r: Self)
        ensures
            r@ == Cover::dominant(rect, color),
    {
        CoverRect {
            screen_rect: rect,
            mode: CoverMode::BackgroundColor,
            resolved_color: Some(color),
            blur_data: None,
        }
    }

    pub fn new_blur(rect: ScreenRect, blurred_bgr: Vec<u8>) -> (r: Self)
        ensures
            r@ == Cover::blurred(rect, blurred_bgr@),
    {
        CoverRect {
            screen_rect: rect,
            mode: CoverMode::Blur,
            resolved_color: None,
            blur_data: Some(blurred_bgr),
        }
    }

    /// A cover that says how to cover, but not with what.
    pub fn new_mode_only(rect: ScreenRect, mode: CoverMode) -> (r: Self)
        ensures
            r@ == Cover::bare(rect, mode),
    {
        CoverRect { screen_rect: rect, mode, resolved_color: None, blur_data: None }
    }
}

#[derive(Debug, Clone, Copy, PartialEq, Eq, Structural)]
pub enum DetectionState {
    Active,
    Sleep,
}

impl Default for DetectionState {
    fn default() -> (r: Self)
        ensures
            r == DetectionState::Sleep,
    {
        DetectionState::Sleep
    }
}

#[derive(Debug, Clone, Copy, PartialEq, Eq, Structural)]
pub enum PixelFormat {
    Bgr,
    Rgb,
    Bgra,
    Rgba,
}

impl PixelFormat {
    pub open spec fn width(self) -> int {
        match self {
            PixelFormat::Bgr | PixelFormat::Rgb => 3,
            PixelFormat::Bgra | PixelFormat::Rgba => 4,
        }
    }

    /// The place of the red, green or blue byte (0, 1 or 2) within a pixel.
    pub open spec fn place(self, channel: int) -> int {
        match self {
            PixelFormat::Bgr | PixelFormat::Bgra => 2 - channel,
            PixelFormat::Rgb | PixelFormat::Rgba => channel,
        }
    }

    pub fn bytes_per_pixel(self) -> (r: u32)
        ensures
            r == self.width(),
            r == 3 || r == 4,
    {
        match self {
            PixelFormat::Bgr | PixelFormat::Rgb => 3,
            PixelFormat::Bgra | PixelFormat::Rgba => 4,
        }
    }
}

/// A picture of the screen. Row `y` starts at byte `y * stride`.
#[derive(Debug)]
pub struct FrameData {
    pub width: u32,
    pub height: u32,
    pub stride: u32,
    pub data: Vec<u8>,
    pub format: PixelFormat,
}

impl Clone for FrameData {
    fn clone(&self) -> (r: Self)
        ensures
            r.width == self.width,
            r.height == self.height,
            r.stride == self.stride,
            r.data@ == self.data@,
            r.format == self.format,
    {
        FrameData {
            width: self.width,
            height: self.height,
            stride: self.stride,
            data: copied(&self.data),
            format: self.format,
        }
    }
}

/// A colour as one number; colours compare as their red, then green, then blue parts.
pub open spec fn color_key(r: u8, g: u8, b: u8) -> int {
    r * 0x1_0000 + g * 0x100 + b
}

fn key_of(r: u8, g: u8, b: u8) -> (k: i64)
    ensures
        k == color_key(r, g, b),
        0 <= k < 0x100_0000,
{
    r as i64 * 0x1_0000 + g as i64 * 0x100 + b as i64
}

impl FrameData {
    /// The first byte of a pixel.
    pub open spec fn offset(self, x: int, y: int) -> int {
        y * self.stride + x * self.format.width()
    }

    /// The red, green and blue part of a pixel, if it lies in the frame and its data is
    /// there. Frames with four bytes to the pixel give none.
    pub open spec fn rgb_at(self, x: int, y: int) -> Option<(u8, u8, u8)> {
        let at = self.offset(x, y);
        if x >= self.width || y >= self.height || at + 2 >= self.data@.len() || self.format.width()
            != 3 {
            None
        } else {
            Some(
                (
                    self.data@[at + self.format.place(0)],
                    self.data@[at + 1],
                    self.data@[at + self.format.place(2)],
                ),
            )
        }
    }

    /// Whether a rectangle lies within the frame. One that starts left of or above the frame
    /// is moved to its edge first.
    pub open spec fn admits(self, rect: ScreenRect) -> bool {
        left_of(rect) + rect.width <= self.width && top_of(rect) + rect.height <= self.height
    }

    /// Whether a rectangle lies within the frame where it stands.
    pub open spec fn encloses(self, rect: ScreenRect) -> bool {
        0 <= rect.x && 0 <= rect.y && self.admits(rect)
    }

    /// The bytes of `n` bytes' worth of pixels of a row, if they are all there.
    pub open spec fn row_part(self, row: int, x: int, n: int) -> Seq<u8> {
        let at = self.offset(x, row);
        if at + n <= self.data@.len() {
            self.data@.subrange(at, at + n)
        } else {
            Seq::empty()
        }
    }

    /// The bytes of `count` rows from row `first` on.
    pub open spec fn rows_part(self, first: int, count: nat, x: int, n: int) -> Seq<u8>
        decreases count,
    {
        if count == 0 {
            Seq::empty()
        } else {
            self.rows_part(first, (count - 1) as nat, x, n) + self.row_part(
                first + count - 1,
                x,
                n,
            )
        }
    }

    /// The bytes of a rectangle, row by row. Rows whose data is not there are left out.
    pub open spec fn region_bytes(self, rect: ScreenRect) -> Seq<u8> {
        self.rows_part(
            top_of(rect),
            rect.height as nat,
            left_of(rect),
            rect.width * self.format.width(),
        )
    }

    pub fn new_bgr(width: u32, height: u32, data: Vec<u8>) -> (r: Self)
        requires
            width * 3 <= u32::MAX,
        ensures
            r == (FrameData {
                width,
                height,
                stride: (width * 3) as u32,
                data,
                format: PixelFormat::Bgr,
            }),
    {
        FrameData { width, height, stride: width * 3, data, format: PixelFormat::Bgr }
    }

    pub fn new_rgb(width: u32, height: u32, data: Vec<u8>) -> (r: Self)
        requires
            width * 3 <= u32::MAX,
        ensures
            r == (FrameData {
                width,
                height,
                stride: (width * 3) as u32,
                data,
                format: PixelFormat::Rgb,
            }),
    {
        FrameData { width, height, stride: width * 3, data, format: PixelFormat::Rgb }
    }

    pub fn new_with_stride(
        width: u32,
        height: u32,
        stride: u32,
        data: Vec<u8>,
        format: PixelFormat,
    ) -> (r: Self)
        ensures
            r == (FrameData { width, height, stride, data, format }),
    {
        FrameData { width, height, stride, data, format }
    }

    fn offset_of(&self, x: u32, y: u32) -> (r: u128)
        ensures
            r == self.offset(x as int, y as int),
            r < 0x2_0000_0000_0000_0000,
    {
        assert(0 <= y * self.stride <= 0xffff_ffff * 0xffff_ffff) by (nonlinear_arith)
            requires
                0 <= y <= 0xffff_ffff,
                0 <= self.stride <= 0xffff_ffff,
        ;
        let bpp: u32 = self.format.bytes_per_pixel();
        assert(x * self.format.width() == x * 3 || x * self.format.width() == x * 4);
        y as u128 * self.stride as u128 + x as u128 * bpp as u128
    }

    /// The colour of a pixel as red, green and blue.
    pub fn pixel_at(&self, x: u32, y: u32) -> (r: Option<[u8; 3]>)
        ensures
            match r {
                Some(p) => self.rgb_at(x as int, y as int) == Some((p[0], p[1], p[2])),
                None => self.rgb_at(x as int, y as int) is None,
            },
    {
        if x >= self.width || y >= self.height {
            return None;
        }
        let offset: u128 = self.offset_of(x, y);
        if offset + 2 >= self.data.len() as u128 {
            return None;
        }
        let at: usize = offset as usize;
        match self.format {
            PixelFormat::Bgr => Some([self.data[at + 2], self.data[at + 1], self.data[at]]),
            PixelFormat::Rgb => Some([self.data[at], self.data[at + 1], self.data[at + 2]]),
            _ => None,
        }
    }

    /// Whether a rectangle lies within the frame, and the pixel where it starts.
    fn start_of(&self, rect: &ScreenRect) -> (r: Option<(u32, u32)>)
        ensures
            match r {
                Some(at) => self.admits(*rect) && at.0 == left_of(*rect) && at.1 == top_of(*rect),
                None => !self.admits(*rect),
            },
    {
        let x: u32 = if rect.x < 0 {
            0
        } else {
            rect.x as u32
        };
        let y: u32 = if rect.y < 0 {
            0
        } else {
            rect.y as u32
        };
        if x as u64 + rect.width as u64 > self.width as u64 || y as u64 + rect.height as u64
            > self.height as u64 {
            None
        } else {
            Some((x, y))
        }
    }

    /// The bytes of the rectangle of a given size that starts at a pixel of the frame.
    fn bytes_from(&self, x: u32, y: u32, width: u32, height: u32) -> (r: Vec<u8>)
        requires
            x + width <= self.width,
            y + height <= self.height,
        ensures
            r@ == self.rows_part(
                y as int,
                height as nat,
                x as int,
                width * self.format.width(),
            ),
    {
        let bpp: u32 = self.format.bytes_per_pixel();
        assert(width * bpp == width * 3 || width * bpp == width * 4);
        let n: u128 = width as u128 * bpp as u128;
        let mut r: Vec<u8> = Vec::new();
        let mut done: u32 = 0;
        while done < height
            invariant
                done <= height,
                y + height <= self.height,
                n == width * self.format.width(),
                n <= 0x4_0000_0000,
                r@ == self.rows_part(y as int, done as nat, x as int, n as int),
            decreases height - done,
        {
            let at: u128 = self.offset_of(x, y + done);
            if at + n <= self.data.len() as u128 {
                let ghost before = r@;
                let end: usize = (at + n) as usize;
                let mut i: usize = at as usize;
                while i < end
                    invariant
                        at <= i <= end <= self.data.len(),
                        r@ == before + self.data@.subrange(at as int, i as int),
                    decreases end - i,
                {
                    r.push(self.data[i]);
                    i = i + 1;
                }
            }
            assert(r@ =~= self.rows_part(y as int, done as nat, x as int, n as int)
                + self.row_part(y + done, x as int, n as int));
            done = done + 1;
        }
        r
    }

    /// The part of the frame that a rectangle holds.
    pub fn region(&self, rect: &ScreenRect) -> (r: Option<FrameData>)
        requires
            self.admits(*rect) ==> rect.width * self.format.width() <= u32::MAX,
        ensures
            match r {
                Some(f) => {
                    &&& self.admits(*rect)
                    &&& f.width == rect.width
                    &&& f.height == rect.height
                    &&& f.stride == rect.width * self.format.width()
                    &&& f.data@ == self.region_bytes(*rect)
                    &&& f.format == self.format
                },
                None => !self.admits(*rect),
            },
    {
        let (x, y): (u32, u32) = match self.start_of(rect) {
            Some(at) => at,
            None => {
                return None;
            },
        };
        let bpp: u32 = self.format.bytes_per_pixel();
        Some(
            FrameData {
                width: rect.width,
                height: rect.height,
                stride: rect.width * bpp,
                data: self.bytes_from(x, y, rect.width, rect.height),
                format: self.format,
            },
        )
    }

    /// The pixels that a rectangle holds, each as blue, green and red.
    pub fn region_bgr(&self, rect: &ScreenRect) -> (r: Option<Vec<u8>>)
        ensures
            match r {
                Some(data) => self.admits(*rect) && data@ == as_bgr(
                    self.region_bytes(*rect),
                    self.format,
                ),
                None => !self.admits(*rect),
            },
    {
        let (x, y): (u32, u32) = match self.start_of(rect) {
            Some(at) => at,
            None => {
                return None;
            },
        };
        let bytes = self.bytes_from(x, y, rect.width, rect.height);
        Some(to_bgr(&bytes, self.format))
    }
}

/// The column of the frame where a rectangle starts.
pub open spec fn left_of(rect: ScreenRect) -> int {
    if rect.x < 0 {
        0
    } else {
        rect.x as int
    }
}

/// The row of the frame where a rectangle starts.
pub open spec fn top_of(rect: ScreenRect) -> int {
    if rect.y < 0 {
        0
    } else {
        rect.y as int
    }
}

/// Pixels in a given format, each turned into a blue, a green and a red byte.
pub open spec fn as_bgr(bytes: Seq<u8>, format: PixelFormat) -> Seq<u8> {
    Seq::new(
        (bytes.len() / format.width() as nat) * 3,
        |i: int| bytes[(i / 3) * format.width() + format.place(2 - i % 3)],
    )
}

fn to_bgr(bytes: &Vec<u8>, format: PixelFormat) -> (r: Vec<u8>)
    ensures
        r@ == as_bgr(bytes@, format),
{
    let bpp: usize = format.bytes_per_pixel() as usize;
    let (red, blue): (usize, usize) = match format {
        PixelFormat::Bgr | PixelFormat::Bgra => (2, 0),
        PixelFormat::Rgb | PixelFormat::Rgba => (0, 2),
    };
    let mut r: Vec<u8> = Vec::new();
    let mut at: usize = 0;
    let mut done: usize = 0;
    let pixels: usize = bytes.len() / bpp;
    while done < pixels
        invariant
            bpp == format.width(),
            red == format.place(0),
            blue == format.place(2),
            pixels == bytes@.len() / bpp as nat,
            done <= pixels,
            bpp == 3 || bpp == 4,
            at == done * bpp,
            at <= bytes.len(),
            r@ == as_bgr(bytes@, format).take(done * 3),
        decreases pixels - done,
    {
        assert(at + bpp <= bytes.len());
        let ghost before = r@;
        r.push(bytes[at + blue]);
        r.push(bytes[at + 1]);
        r.push(bytes[at + red]);
        assert(r@ =~= as_bgr(bytes@, format).take((done + 1) * 3)) by {
            let whole = as_bgr(bytes@, format);
            assert(whole.len() == pixels * 3);
            assert(r@.len() == (done + 1) * 3);
            assert(before.len() == done * 3);
            let i: int = done * 3;
            assert(i / 3 == done && (i + 1) / 3 == done && (i + 2) / 3 == done);
            assert(whole[i] == bytes@[at + blue]);
            assert(whole[i + 1] == bytes@[at + 1]);
            assert(whole[i + 2] == bytes@[at + red]);
        }
        at = at + bpp;
        done = done + 1;
    }
    assert(r@ =~= as_bgr(bytes@, format));
    r
}

/// How often a number stands in a list.
pub open spec fn occurrences(s: Seq<i64>, k: int) -> nat
    decreases s.len(),
{
    if s.len() == 0 {
        0
    } else {
        occurrences(s.drop_last(), k) + (if s.last() == k {
            1nat
        } else {
            0
        })
    }
}

/// The number that stands in a list most often, and the least one of several such.
pub open spec fn is_mode(s: Seq<i64>, k: int) -> bool {
    &&& occurrences(s, k) > 0
    &&& forall|other: int| #[trigger]
        occurrences(s, other) <= occurrences(s, k) && (occurrences(s, other) == occurrences(s, k)
            ==> k <= other)
}

/// The colours of the pixels of a row in every third of the columns `x`, `x + 3` and so on,
/// `count` of them; those outside the frame are left out.
pub open spec fn row_samples(frame: FrameData, y: int, x: int, count: nat) -> Seq<i64>
    decreases count,
{
    if count == 0 {
        Seq::empty()
    } else {
        let before = row_samples(frame, y, x, (count - 1) as nat);
        let column = x + 3 * (count - 1);
        if column < 0 || column >= geometry::as_signed(frame.width) {
            before
        } else {
            match frame.rgb_at(column, y) {
                Some((r, g, b)) => before.push(color_key(r, g, b) as i64),
                None => before,
            }
        }
    }
}

/// The same over every third of the rows from row `y` on.
pub open spec fn samples(frame: FrameData, y: int, rows: nat, x: int, columns: nat) -> Seq<i64>
    decreases rows,
{
    if rows == 0 {
        Seq::empty()
    } else {
        let before = samples(frame, y, (rows - 1) as nat, x, columns);
        let row = y + 3 * (rows - 1);
        if row < 0 || row >= geometry::as_signed(frame.height) {
            before
        } else {
            before + row_samples(frame, row, x, columns)
        }
    }
}

/// The colours in the window from which the background of a rectangle is judged: fifty
/// columns from its left edge on, and sixty rows that start twenty below its top.
pub open spec fn window_samples(frame: FrameData, rect: ScreenRect) -> Seq<i64> {
    samples(frame, rect.y + 20, 20, rect.x as int, 17)
}

/// The colours of a list of bytes, three to each.
pub open spec fn byte_colors(bytes: Seq<u8>, format: PixelFormat) -> Seq<i64> {
    Seq::new(
        bytes.len() / 3,
        |i: int|
            (if format == PixelFormat::Bgr {
                color_key(bytes[3 * i + 2], bytes[3 * i + 1], bytes[3 * i])
            } else {
                color_key(bytes[3 * i], bytes[3 * i + 1], bytes[3 * i + 2])
            }) as i64,
    )
}

/// The colours among which the dominant one of a rectangle is looked for: those of the
/// window, and where that holds none, those of the rectangle, if it lies within the frame.
pub open spec fn candidate_colors(frame: FrameData, rect: ScreenRect) -> Seq<i64> {
    let window = window_samples(frame, rect);
    if window.len() > 0 {
        window
    } else if frame.encloses(rect) {
        byte_colors(frame.region_bytes(rect), frame.format)
    } else {
        Seq::empty()
    }
}

/// The colour that a rectangle has most of.
pub open spec fn dominant_color(frame: FrameData, rect: ScreenRect) -> Option<ColorRgb> {
    let colors = candidate_colors(frame, rect);
    if colors.len() == 0 {
        None
    } else {
        Some(choose|c: ColorRgb| is_mode(colors, #[trigger] color_key(c.r, c.g, c.b)))
    }
}

/// A list has one most frequent number only.
proof fn lemma_mode_unique(s: Seq<i64>, a: ColorRgb, b: ColorRgb)
    requires
        is_mode(s, color_key(a.r, a.g, a.b)),
        is_mode(s, color_key(b.r, b.g, b.b)),
    ensures
        a == b,
{
    let x = color_key(a.r, a.g, a.b);
    let y = color_key(b.r, b.g, b.b);
    assert(occurrences(s, x) == occurrences(s, y));
    assert(x == y);
}

/// The entries that stand for the numbers of a list.
spec fn unplaced(s: Seq<i64>) -> Seq<Ranked> {
    s.map_values(|k: i64| Ranked { rank: k, index: 0 })
}

proof fn lemma_occurrences_count(s: Seq<i64>, k: i64)
    ensures
        occurrences(s, k as int) == unplaced(s).to_multiset().count(Ranked { rank: k, index: 0 }),
    decreases s.len(),
{
    broadcast use vstd::multiset::group_multiset_axioms;

    if s.len() == 0 {
        assert(unplaced(s) =~= Seq::empty());
        to_multiset_len(unplaced(s));
    } else {
        lemma_occurrences_count(s.drop_last(), k);
        assert(unplaced(s) =~= unplaced(s.drop_last()).push(
            Ranked { rank: s.last(), index: 0 },
        ));
        to_multiset_build(unplaced(s.drop_last()), Ranked { rank: s.last(), index: 0 });
    }
}

/// What two lists with the same entries have in common.
proof fn lemma_same_occurrences(s: Seq<i64>, t: Seq<i64>)
    requires
        unplaced(s).to_multiset() == unplaced(t).to_multiset(),
    ensures
        forall|k: int| #[trigger] occurrences(s, k) == occurrences(t, k),
{
    assert forall|k: int| #[trigger] occurrences(s, k) == occurrences(t, k) by {
        if i64::MIN <= k <= i64::MAX {
            lemma_occurrences_count(s, k as i64);
            lemma_occurrences_count(t, k as i64);
        } else {
            lemma_no_occurrence(s, k);
            lemma_no_occurrence(t, k);
        }
    }
}

proof fn lemma_no_occurrence(s: Seq<i64>, k: int)
    requires
        forall|i: int| 0 <= i < s.len() ==> s[i] != k,
    ensures
        occurrences(s, k) == 0,
    decreases s.len(),
{
    if s.len() > 0 {
        lemma_no_occurrence(s.drop_last(), k);
    }
}

/// The most frequent number of a list that is not empty.
fn most_frequent(s: &Vec<i64>) -> (r: i64)
    requires
        s@.len() > 0,
    ensures
        is_mode(s@, r as int),
{
    let mut items: Vec<Ranked> = Vec::new();
    let mut i: usize = 0;
    while i < s.len()
        invariant
            i <= s.len(),
            items@ == unplaced(s@).take(i as int),
        decreases s.len() - i,
    {
        items.push(Ranked { rank: s[i], index: 0 });
        i = i + 1;
    }
    assert(unplaced(s@).take(i as int) =~= unplaced(s@));
    let sorted = sort(items);
    let ghost t = sorted@.map_values(|e: Ranked| e.rank);
    proof {
        ranking::lemma_sorted(unplaced(s@));
        assert(unplaced(t) =~= sorted@) by {
            assert forall|j: int| 0 <= j < sorted@.len() implies (#[trigger] sorted@[j]).index
                == 0 by {
                assert(sorted@.contains(sorted@[j]));
                assert(unplaced(s@).contains(sorted@[j]));
            }
        }
        lemma_same_occurrences(s@, t);
        to_multiset_len(unplaced(s@));
        to_multiset_len(sorted@);
    }
    let mut best: i64 = sorted[0].rank;
    let mut best_count: usize = 1;
    let mut run: usize = 1;
    let mut j: usize = 1;
    proof {
        reveal_with_fuel(occurrences, 2);
        assert(t.take(1).drop_last() =~= Seq::empty());
    }
    while j < sorted.len()
        invariant
            1 <= j <= sorted.len(),
            t == sorted@.map_values(|e: Ranked| e.rank),
            forall|a: int, b: int| 0 <= a < b < t.len() ==> t[a] >= t[b],
            1 <= run <= j,
            1 <= best_count <= j,
            run == occurrences(t.take(j as int), t[j - 1] as int),
            best_count == occurrences(t.take(j as int), best as int),
            is_mode(t.take(j as int), best as int),
        decreases sorted.len() - j,
    {
        let key: i64 = sorted[j].rank;
        let ghost prefix = t.take(j as int);
        let ghost longer = t.take(j + 1);
        proof {
            assert(longer.drop_last() =~= prefix);
            assert(forall|k: int| #[trigger]
                occurrences(longer, k) == occurrences(prefix, k) + (if key == k {
                    1nat
                } else {
                    0
                }));
            assert(t[j as int] == key);
            assert forall|i: int| 0 <= i < prefix.len() implies prefix[i] >= key && (key != t[j - 1]
                ==> prefix[i] != key) by {
                assert(t[i] >= t[j as int]);
                assert(t[j - 1] >= t[j as int]);
                if i < j - 1 {
                    assert(t[i] >= t[j - 1]);
                }
            }
            if key != t[j - 1] {
                lemma_no_occurrence(prefix, key as int);
            }
            assert forall|k: int| #[trigger] occurrences(prefix, k) > 0 implies k >= key by {
                if k < key {
                    lemma_no_occurrence(prefix, k);
                }
            }
        }
        if key == sorted[j - 1].rank {
            run = run + 1;
        } else {
            run = 1;
        }
        if run >= best_count {
            best = key;
            best_count = run;
        }
        j = j + 1;
    }
    proof {
        assert(t.take(j as int) =~= t);
    }
    best
}

/// The colour behind a number.
fn color_of(key: i64) -> (c: ColorRgb)
    requires
        0 <= key < 0x100_0000,
    ensures
        color_key(c.r, c.g, c.b) == key,
{
    ColorRgb::new((key / 0x1_0000) as u8, (key / 0x100 % 0x100) as u8, (key % 0x100) as u8)
}

fn sample_row(frame: &FrameData, y: u32, x: i32, found: &mut Vec<i64>)
    requires
        forall|i: int| 0 <= i < old(found)@.len() ==> 0 <= #[trigger] old(found)@[i] < 0x100_0000,
    ensures
        final(found)@ == old(found)@ + row_samples(*frame, y as int, x as int, 17),
        forall|i: int|
            0 <= i < final(found)@.len() ==> 0 <= #[trigger] final(found)@[i] < 0x100_0000,
{
    let width: i64 = signed_size(frame.width);
    let mut done: u32 = 0;
    while done < 17
        invariant
            done <= 17,
            width == geometry::as_signed(frame.width),
            found@ == old(found)@ + row_samples(*frame, y as int, x as int, done as nat),
            forall|i: int| 0 <= i < found@.len() ==> 0 <= #[trigger] found@[i] < 0x100_0000,
        decreases 17 - done,
    {
        let column: i64 = x as i64 + 3 * done as i64;
        if column >= 0 && column < width {
            match frame.pixel_at(column as u32, y) {
                Some(p) => {
                    found.push(key_of(p[0], p[1], p[2]));
                },
                None => {},
            }
        }
        done = done + 1;
        assert(found@ =~= old(found)@ + row_samples(*frame, y as int, x as int, done as nat));
    }
}

fn sample_window(frame: &FrameData, rect: &ScreenRect) -> (found: Vec<i64>)
    ensures
        found@ == window_samples(*frame, *rect),
        forall|i: int| 0 <= i < found@.len() ==> 0 <= #[trigger] found@[i] < 0x100_0000,
{
    let height: i64 = signed_size(frame.height);
    let mut found: Vec<i64> = Vec::new();
    let mut done: u32 = 0;
    while done < 20
        invariant
            done <= 20,
            height == geometry::as_signed(frame.height),
            found@ == samples(*frame, rect.y + 20, done as nat, rect.x as int, 17),
            forall|i: int| 0 <= i < found@.len() ==> 0 <= #[trigger] found@[i] < 0x100_0000,
        decreases 20 - done,
    {
        let row: i64 = rect.y as i64 + 20 + 3 * done as i64;
        if row >= 0 && row < height {
            sample_row(frame, row as u32, rect.x, &mut found);
        }
        done = done + 1;
    }
    found
}

fn colors_of_bytes(bytes: &Vec<u8>, format: PixelFormat) -> (found: Vec<i64>)
    ensures
        found@ == byte_colors(bytes@, format),
        forall|i: int| 0 <= i < found@.len() ==> 0 <= #[trigger] found@[i] < 0x100_0000,
{
    let mut found: Vec<i64> = Vec::new();
    let count: usize = bytes.len() / 3;
    let mut i: usize = 0;
    while i < count
        invariant
            i <= count,
            count == bytes.len() / 3,
            found@ == byte_colors(bytes@, format).take(i as int),
            forall|j: int| 0 <= j < found@.len() ==> 0 <= #[trigger] found@[j] < 0x100_0000,
        decreases count - i,
    {
        let key: i64 = if format == PixelFormat::Bgr {
            key_of(bytes[3 * i + 2], bytes[3 * i + 1], bytes[3 * i])
        } else {
            key_of(bytes[3 * i], bytes[3 * i + 1], bytes[3 * i + 2])
        };
        found.push(key);
        i = i + 1;
        assert(found@ =~= byte_colors(bytes@, format).take(i as int));
    }
    assert(found@ =~= byte_colors(bytes@, format));
    found
}

/// The colour that occurs most often in the sampled window of a rectangle, or, where the
/// window holds no pixel, in the rectangle itself. Of several colours that occur equally often
/// it is the one with the least red, then green, then blue part. There is none where the window
/// holds no pixel and the rectangle is empty or does not lie within the frame.
pub fn extract_dominant_color(frame: &FrameData, rect: &ScreenRect) -> (r: Option<ColorRgb>)
    ensures
        r == dominant_color(*frame, *rect),
        match r {
            Some(c) => is_mode(candidate_colors(*frame, *rect), color_key(c.r, c.g, c.b)),
            None => candidate_colors(*frame, *rect).len() == 0,
        },
{
    let window = sample_window(frame, rect);
    let colors: Vec<i64> = if window.len() > 0 {
        window
    } else {
        if rect.x < 0 || rect.y < 0 {
            return None;
        }
        let (x, y): (u32, u32) = match frame.start_of(rect) {
            Some(at) => at,
            None => {
                return None;
            },
        };
        let bytes = frame.bytes_from(x, y, rect.width, rect.height);
        colors_of_bytes(&bytes, frame.format)
    };
    if colors.len() == 0 {
        return None;
    }
    let key: i64 = most_frequent(&colors);
    proof {
        lemma_mode_occurs(colors@, key);
    }
    let color = color_of(key);
    proof {
        let c = dominant_color(*frame, *rect)->0;
        assert(is_mode(colors@, color_key(color.r, color.g, color.b)));
        lemma_mode_unique(colors@, color, c);
    }
    Some(color)
}

proof fn lemma_mode_occurs(s: Seq<i64>, k: i64)
    requires
        occurrences(s, k as int) > 0,
    ensures
        s.contains(k),
{
    if !s.contains(k) {
        lemma_no_occurrence(s, k as int);
    }
}

proof fn lemma_no_row_samples(frame: FrameData, y: int, x: int, count: nat)
    requires
        x + 3 * (count - 1) < 0 || x >= frame.width,
    ensures
        row_samples(frame, y, x, count) == Seq::<i64>::empty(),
    decreases count,
{
    if count > 0 {
        lemma_no_row_samples(frame, y, x, (count - 1) as nat);
    }
}

proof fn lemma_no_samples(frame: FrameData, y: int, rows: nat, x: int, columns: nat)
    requires
        y + 3 * (rows - 1) < 0 || y >= frame.height || x + 3 * (columns - 1) < 0 || x
            >= frame.width,
    ensures
        samples(frame, y, rows, x, columns) == Seq::<i64>::empty(),
    decreases rows,
{
    if rows > 0 {
        lemma_no_samples(frame, y, (rows - 1) as nat, x, columns);
        if x + 3 * (columns - 1) < 0 || x >= frame.width {
            lemma_no_row_samples(frame, y + 3 * (rows - 1), x, columns);
        }
    }
}

/// A rectangle has no dominant colour where both it and the window by which its background is
/// judged lie beyond an edge of the frame.
pub proof fn law_off_screen_no_color(frame: FrameData, rect: ScreenRect)
    requires
        rect.x + 50 <= 0 || rect.y + 80 <= 0 || rect.x >= frame.width || rect.y >= frame.height,
        rect.width > 0,
        rect.height > 0,
    ensures
        dominant_color(frame, rect) is None,
{
    lemma_no_samples(frame, rect.y + 20, 20, rect.x as int, 17);
}

/// The colour of a pixel is read at its place: rows follow each other by the stride, pixels by
/// three bytes, and the format says whether red or blue comes first.
pub proof fn law_pixel_bytes(frame: FrameData, x: int, y: int)
    requires
        0 <= x < frame.width,
        0 <= y < frame.height,
        frame.format is Rgb || frame.format is Bgr,
        y * frame.stride + 3 * x + 3 <= frame.data@.len(),
    ensures
        ({
            let at = y * frame.stride + 3 * x;
            let (first, second, third) = (
                frame.data@[at],
                frame.data@[at + 1],
                frame.data@[at + 2],
            );
            frame.rgb_at(x, y) == if frame.format is Rgb {
                Some((first, second, third))
            } else {
                Some((third, second, first))
            }
        }),
{
}

proof fn lemma_rows_at(frame: FrameData, first: int, count: nat, x: int, n: int, j: int, k: int)
    requires
        0 <= first,
        0 <= x,
        0 <= n,
        x * frame.format.width() + n <= frame.stride,
        (first + count) * frame.stride <= frame.data@.len(),
        0 <= j < count,
        0 <= k < n,
    ensures
        frame.rows_part(first, count, x, n).len() == count * n,
        frame.rows_part(first, count, x, n)[j * n + k] == frame.data@[(first + j) * frame.stride + x
            * frame.format.width() + k],
    decreases count,
{
    let before = (count - 1) as nat;
    let row = first + count - 1;
    let bpp = frame.format.width();
    let stride = frame.stride as int;
    assert(row * stride + stride == (first + count) * stride) by (nonlinear_arith)
        requires
            row == first + count - 1,
    ;
    assert(row * stride >= 0 && x * bpp >= 0) by (nonlinear_arith)
        requires
            row >= 0,
            stride >= 0,
            x >= 0,
            bpp >= 0,
    ;
    assert(before * n + n == count * n) by (nonlinear_arith)
        requires
            before == count - 1,
    ;
    let last = frame.row_part(row, x, n);
    assert(last.len() == n);
    let part = frame.rows_part(first, before, x, n);
    if before > 0 {
        lemma_rows_at(
            frame,
            first,
            before,
            x,
            n,
            if j < before {
                j
            } else {
                0
            },
            k,
        );
    } else {
        assert(0 * n == 0) by (nonlinear_arith);
    }
    assert(part.len() == before * n);
    if j < before {
        assert(0 <= j * n + k < before * n) by (nonlinear_arith)
            requires
                0 <= j < before,
                0 <= k < n,
        ;
    } else {
        assert(j * n == before * n) by (nonlinear_arith)
            requires
                j == before,
        ;
    }
}

/// The part of a frame that a rectangle stands for holds, row by row, the bytes of the frame's
/// pixels from the rectangle's left upper corner on.
pub proof fn law_region_bytes(frame: FrameData, rect: ScreenRect, j: int, k: int)
    requires
        0 <= rect.x,
        0 <= rect.y,
        rect.x + rect.width <= frame.width,
        rect.y + rect.height <= frame.height,
        ({
            let size: int = if frame.format is Bgra || frame.format is Rgba {
                4
            } else {
                3
            };
            &&& frame.width * size <= frame.stride
            &&& frame.height * frame.stride <= frame.data@.len()
            &&& 0 <= j < rect.height
            &&& 0 <= k < rect.width * size
        }),
    ensures
        ({
            let size: int = if frame.format is Bgra || frame.format is Rgba {
                4
            } else {
                3
            };
            &&& frame.admits(rect)
            &&& frame.region_bytes(rect).len() == rect.height * (rect.width * size)
            &&& frame.region_bytes(rect)[j * (rect.width * size) + k] == frame.data@[(rect.y + j)
                * frame.stride + rect.x * size + k]
        }),
{
    let size = frame.format.width();
    let n = rect.width * size;
    assert(rect.x * size + n <= frame.width * size) by (nonlinear_arith)
        requires
            n == rect.width * size,
            rect.x + rect.width <= frame.width,
            size > 0,
    ;
    assert((rect.y + rect.height) * frame.stride <= frame.height * frame.stride)
        by (nonlinear_arith)
        requires
            rect.y + rect.height <= frame.height,
            frame.stride >= 0,
    ;
    lemma_rows_at(frame, rect.y as int, rect.height as nat, rect.x as int, n, j, k);
}

/// Turning pixels into blue, green and red bytes keeps their number and order, and reverses the
/// parts of those that begin with red.
pub proof fn law_bgr_bytes(bytes: Seq<u8>, format: PixelFormat, p: int)
    requires
        0 <= p,
        format is Bgr || format is Rgb ==> 3 * p + 3 <= bytes.len(),
        format is Bgra || format is Rgba ==> 4 * p + 4 <= bytes.len(),
    ensures
        ({
            let out = as_bgr(bytes, format);
            let at = if format is Bgr || format is Rgb {
                3 * p
            } else {
                4 * p
            };
            &&& 3 * p + 3 <= out.len()
            &&& out.len() <= bytes.len()
            &&& out[3 * p + 1] == bytes[at + 1]
            &&& if format is Bgr || format is Bgra {
                out[3 * p] == bytes[at] && out[3 * p + 2] == bytes[at + 2]
            } else {
                out[3 * p] == bytes[at + 2] && out[3 * p + 2] == bytes[at]
            }
        }),
{
    assert((3 * p) / 3 == p && (3 * p + 1) / 3 == p && (3 * p + 2) / 3 == p);
    assert((3 * p) % 3 == 0 && (3 * p + 1) % 3 == 1 && (3 * p + 2) % 3 == 2);
    let w = format.width();
    let at = if w == 3 {
        3 * p
    } else {
        4 * p
    };
    assert(w == 3 || w == 4);
    assert(p * w == at);
    let n = bytes.len();
    if w == 3 {
        assert(n / 3nat >= p + 1 && (n / 3nat) * 3 <= n);
        assert(w as nat == 3nat);
    } else {
        assert(n / 4nat >= p + 1 && (n / 4nat) * 3 <= n);
        assert(w as nat == 4nat);
    }
    let out = as_bgr(bytes, format);
    assert(out.len() == (bytes.len() / w as nat) * 3);
    assert(out[3 * p] == bytes[at + format.place(2)]);
    assert(out[3 * p + 1] == bytes[at + format.place(1)]);
    assert(out[3 * p + 2] == bytes[at + format.place(0)]);
}

/// One where a frame has a pixel in column `x` of row `y` and the pixel has the colour, else zero.
pub open spec fn has_color(frame: FrameData, x: int, y: int, c: ColorRgb) -> int {
    if 0 <= x < frame.width && 0 <= y < frame.height && frame.rgb_at(x, y) == Some(
        (c.r, c.g, c.b),
    ) {
        1
    } else {
        0
    }
}

/// How often a colour occurs in the window by which the background of a rectangle is judged: in
/// every third of fifty columns from its left edge on, and every third of sixty rows that start
/// twenty below its top.
pub open spec fn times_in_window(frame: FrameData, rect: ScreenRect, c: ColorRgb) -> int {
    numeric::total(
        |j: int|
            numeric::total(
                |i: int| has_color(frame, rect.x + 3 * i, rect.y + 20 + 3 * j, c),
                0,
                17,
            ),
        0,
        20,
    )
}

proof fn lemma_occurrences_joined(s: Seq<i64>, t: Seq<i64>, k: int)
    ensures
        occurrences(s + t, k) == occurrences(s, k) + occurrences(t, k),
    decreases t.len(),
{
    if t.len() == 0 {
        assert(s + t =~= s);
    } else {
        lemma_occurrences_joined(s, t.drop_last(), k);
        assert((s + t).drop_last() =~= s + t.drop_last());
        assert((s + t).last() == t.last());
    }
}

proof fn lemma_row_times(frame: FrameData, y: int, x: int, count: nat, c: ColorRgb)
    requires
        frame.width < 0x8000_0000,
        frame.height < 0x8000_0000,
        0 <= y < frame.height,
    ensures
        occurrences(row_samples(frame, y, x, count), color_key(c.r, c.g, c.b)) == numeric::total(
            |i: int| has_color(frame, x + 3 * i, y, c),
            0,
            count as int,
        ),
    decreases count,
{
    if count > 0 {
        lemma_row_times(frame, y, x, (count - 1) as nat, c);
        let before = row_samples(frame, y, x, (count - 1) as nat);
        let column = x + 3 * (count - 1);
        if 0 <= column < frame.width {
            if let Some((r, g, b)) = frame.rgb_at(column, y) {
                let v = color_key(r, g, b) as i64;
                assert(before.push(v).drop_last() =~= before);
                assert(v == color_key(c.r, c.g, c.b) <==> r == c.r && g == c.g && b == c.b);
            }
        }
    }
}

proof fn lemma_times(frame: FrameData, y: int, rows: nat, x: int, columns: nat, c: ColorRgb)
    requires
        frame.width < 0x8000_0000,
        frame.height < 0x8000_0000,
    ensures
        occurrences(samples(frame, y, rows, x, columns), color_key(c.r, c.g, c.b))
            == numeric::total(
            |j: int|
                numeric::total(
                    |i: int| has_color(frame, x + 3 * i, y + 3 * j, c),
                    0,
                    columns as int,
                ),
            0,
            rows as int,
        ),
    decreases rows,
{
    if rows > 0 {
        lemma_times(frame, y, (rows - 1) as nat, x, columns, c);
        let before = samples(frame, y, (rows - 1) as nat, x, columns);
        let row = y + 3 * (rows - 1);
        if 0 <= row < frame.height {
            lemma_row_times(frame, row, x, columns, c);
            lemma_occurrences_joined(
                before,
                row_samples(frame, row, x, columns),
                color_key(c.r, c.g, c.b),
            );
        } else {
            lemma_total_zero(|i: int| has_color(frame, x + 3 * i, row, c), columns as int);
        }
    }
}

proof fn lemma_total_zero(f: spec_fn(int) -> int, n: int)
    requires
        forall|i: int| 0 <= i < n ==> #[trigger] f(i) == 0,
    ensures
        numeric::total(f, 0, n) == 0,
    decreases n,
{
    if n > 0 {
        lemma_total_zero(f, n - 1);
    }
}

/// A list that is not empty has a most frequent number.
proof fn lemma_has_mode(s: Seq<i64>) -> (k: i64)
    requires
        s.len() > 0,
    ensures
        is_mode(s, k as int),
    decreases s.len(),
{
    let v = s.last();
    let front = s.drop_last();
    if front.len() == 0 {
        assert forall|u: int| #[trigger] occurrences(s, u) == if u == v {
            1nat
        } else {
            0nat
        } by {
            assert(occurrences(front, u) == 0);
        }
        v
    } else {
        let k = lemma_has_mode(front);
        assert(forall|u: int| #[trigger]
            occurrences(s, u) == occurrences(front, u) + if u == v {
                1nat
            } else {
                0nat
            });
        let (a, b) = (occurrences(s, v as int), occurrences(s, k as int));
        if v != k && (a > b || (a == b && v < k)) {
            v
        } else {
            k
        }
    }
}

proof fn lemma_samples_range(frame: FrameData, y: int, rows: nat, x: int, columns: nat, i: int)
    requires
        0 <= i < samples(frame, y, rows, x, columns).len(),
    ensures
        0 <= samples(frame, y, rows, x, columns)[i] < 0x100_0000,
    decreases rows,
{
    let before = samples(frame, y, (rows - 1) as nat, x, columns);
    let row = y + 3 * (rows - 1);
    if i < before.len() {
        lemma_samples_range(frame, y, (rows - 1) as nat, x, columns, i);
    } else {
        lemma_row_range(frame, row, x, columns, i - before.len());
    }
}

proof fn lemma_row_range(frame: FrameData, y: int, x: int, count: nat, i: int)
    requires
        0 <= i < row_samples(frame, y, x, count).len(),
    ensures
        0 <= row_samples(frame, y, x, count)[i] < 0x100_0000,
    decreases count,
{
    let before = row_samples(frame, y, x, (count - 1) as nat);
    if i < before.len() {
        lemma_row_range(frame, y, x, (count - 1) as nat, i);
    }
}

/// Where a colour occurs in the window of a rectangle, the rectangle has a dominant colour. No
/// colour occurs more often in the window, and none that occurs as often is smaller by its red,
/// then green, then blue part.
pub proof fn law_dominant_most(frame: FrameData, rect: ScreenRect, other: ColorRgb)
    requires
        frame.width < 0x8000_0000,
        frame.height < 0x8000_0000,
        times_in_window(frame, rect, other) > 0,
    ensures
        dominant_color(frame, rect) matches Some(c) && {
            let (n, m) = (times_in_window(frame, rect, c), times_in_window(frame, rect, other));
            &&& n >= m
            &&& n == m ==> c.r < other.r || (c.r == other.r && (c.g < other.g || (c.g == other.g
                && c.b <= other.b)))
        },
{
    let window = window_samples(frame, rect);
    lemma_times(frame, rect.y + 20, 20, rect.x as int, 17, other);
    assert(occurrences(window, color_key(other.r, other.g, other.b)) == times_in_window(
        frame,
        rect,
        other,
    ));
    assert(window.len() > 0);
    let k = lemma_has_mode(window);
    lemma_mode_occurs(window, k);
    let at = choose|at: int| 0 <= at < window.len() && window[at] == k;
    lemma_samples_range(frame, rect.y + 20, 20, rect.x as int, 17, at);
    let some = ColorRgb {
        r: (k / 0x1_0000) as u8,
        g: (k / 0x100 % 0x100) as u8,
        b: (k % 0x100) as u8,
    };
    assert(color_key(some.r, some.g, some.b) == k);
    assert(is_mode(window, color_key(some.r, some.g, some.b)));
    let c = dominant_color(frame, rect)->0;
    assert(is_mode(window, color_key(c.r, c.g, c.b)));
    lemma_times(frame, rect.y + 20, 20, rect.x as int, 17, c);
    assert(occurrences(window, color_key(c.r, c.g, c.b)) == times_in_window(frame, rect, c));
}

/// How often a colour occurs in a rectangle of a frame.
pub open spec fn times_in_rect(frame: FrameData, rect: ScreenRect, c: ColorRgb) -> int {
    numeric::total(
        |p: int|
            has_color(
                frame,
                rect.x + p % (rect.width as int),
                rect.y + p / (rect.width as int),
                c,
            ),
        0,
        rect.width * rect.height,
    )
}

proof fn lemma_occurrences_total(s: Seq<i64>, k: int, f: spec_fn(int) -> int)
    requires
        forall|p: int|
            0 <= p < s.len() ==> #[trigger] f(p) == if s[p] == k {
                1int
            } else {
                0int
            },
    ensures
        occurrences(s, k) == numeric::total(f, 0, s.len() as int),
    decreases s.len(),
{
    if s.len() > 0 {
        lemma_occurrences_total(s.drop_last(), k, f);
        assert(f(s.len() - 1) == if s.last() == k {
            1int
        } else {
            0int
        });
    }
}

proof fn lemma_rect_times(frame: FrameData, rect: ScreenRect, c: ColorRgb)
    requires
        frame.format is Rgb || frame.format is Bgr,
        0 <= rect.x,
        0 <= rect.y,
        0 < rect.width,
        0 < rect.height,
        rect.x + rect.width <= frame.width,
        rect.y + rect.height <= frame.height,
        3 * frame.width <= frame.stride,
        frame.height * frame.stride <= frame.data@.len(),
    ensures
        ({
            let colors = byte_colors(frame.region_bytes(rect), frame.format);
            &&& colors.len() == rect.width * rect.height
            &&& colors.len() > 0
            &&& occurrences(colors, color_key(c.r, c.g, c.b)) == times_in_rect(frame, rect, c)
        }),
{
    let bytes = frame.region_bytes(rect);
    let colors = byte_colors(bytes, frame.format);
    let (w, h) = (rect.width as int, rect.height as int);
    law_region_bytes(frame, rect, 0, 0);
    assert(h * (w * 3) == 3 * (w * h)) by (nonlinear_arith);
    assert(w * h > 0) by (nonlinear_arith)
        requires
            w > 0,
            h > 0,
    ;
    let f = |p: int|
        has_color(
            frame,
            rect.x + p % (rect.width as int),
            rect.y + p / (rect.width as int),
            c,
        );
    let k = color_key(c.r, c.g, c.b);
    assert forall|p: int| 0 <= p < colors.len() implies #[trigger] f(p) == if colors[p] == k {
        1int
    } else {
        0int
    } by {
        let (j, i) = (p / w, p % w);
        vstd::arithmetic::div_mod::lemma_fundamental_div_mod(p, w);
        assert(0 <= i < w && 0 <= j < h && j * (w * 3) + 3 * i == 3 * p) by (nonlinear_arith)
            requires
                p == w * j + i,
                i == p % w,
                0 <= p < w * h,
                w > 0,
        ;
        law_region_bytes(frame, rect, j, 3 * i);
        law_region_bytes(frame, rect, j, 3 * i + 1);
        law_region_bytes(frame, rect, j, 3 * i + 2);
        let (x, y) = (rect.x + i, rect.y + j);
        assert(y * frame.stride + frame.stride <= frame.height * frame.stride) by (nonlinear_arith)
            requires
                y + 1 <= frame.height,
                frame.stride >= 0,
        ;
        law_pixel_bytes(frame, x, y);
        let at = y * frame.stride + 3 * x;
        assert(bytes[3 * p] == frame.data@[at]);
        assert(bytes[3 * p + 1] == frame.data@[at + 1]);
        assert(bytes[3 * p + 2] == frame.data@[at + 2]);
    }
    lemma_occurrences_total(colors, k, f);
}

/// Where a frame has no pixel in the window of a rectangle that lies within it, the colours of the
/// rectangle itself are counted in the same way.
pub proof fn law_dominant_in_rect(frame: FrameData, rect: ScreenRect, other: ColorRgb)
    requires
        frame.format is Rgb || frame.format is Bgr,
        frame.width < 0x8000_0000,
        frame.height < 0x8000_0000,
        0 <= rect.x,
        0 <= rect.y,
        0 < rect.width,
        0 < rect.height,
        rect.x + rect.width <= frame.width,
        rect.y + rect.height <= frame.height,
        3 * frame.width <= frame.stride,
        frame.height * frame.stride <= frame.data@.len(),
        rect.y + 20 >= frame.height,
    ensures
        dominant_color(frame, rect) matches Some(c) && {
            let (n, m) = (times_in_rect(frame, rect, c), times_in_rect(frame, rect, other));
            &&& n >= m
            &&& n == m ==> c.r < other.r || (c.r == other.r && (c.g < other.g || (c.g == other.g
                && c.b <= other.b)))
        },
{
    lemma_no_samples(frame, rect.y + 20, 20, rect.x as int, 17);
    lemma_rect_times(frame, rect, other);
    let colors = byte_colors(frame.region_bytes(rect), frame.format);
    let k = lemma_has_mode(colors);
    lemma_mode_occurs(colors, k);
    let at = choose|at: int| 0 <= at < colors.len() && colors[at] == k;
    assert(0 <= k < 0x100_0000);
    let some = ColorRgb {
        r: (k / 0x1_0000) as u8,
        g: (k / 0x100 % 0x100) as u8,
        b: (k % 0x100) as u8,
    };
    assert(color_key(some.r, some.g, some.b) == k);
    assert(is_mode(colors, color_key(some.r, some.g, some.b)));
    let c = dominant_color(frame, rect)->0;
    assert(is_mode(colors, color_key(c.r, c.g, c.b)));
    lemma_rect_times(frame, rect, c);
}

} // verus!
