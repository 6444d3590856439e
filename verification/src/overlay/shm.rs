//! Painting covers into a shared-memory buffer.

use vstd::prelude::*;

use crate::vision::cover;
use crate::vision::detection;
use crate::vision::detection::{Cover, CoverMode, CoverRect, Detection, FrameData};
use crate::vision::geometry;
use crate::vision::geometry::{signed_size, ColorRgb, ScreenRect};

verus! {

/// A pixel of the buffer: blue, green, red and opacity.
#[derive(Debug, Clone, Copy, PartialEq, Eq, Structural)]
pub struct Pixel {
    pub b: u8,
    pub g: u8,
    pub r: u8,
    pub a: u8,
}

/// The opacity of a cover.
pub const COVER_ALPHA: u8 = 217;

pub open spec fn transparent() -> Pixel {
    Pixel { b: 0, g: 0, r: 0, a: 0 }
}

pub open spec fn plain(c: ColorRgb) -> Pixel {
    Pixel { b: c.b, g: c.g, r: c.r, a: COVER_ALPHA }
}

/// What a cover paints over the pixel in column `x` of row `y`. A blurred cover whose pixels
/// are not all there paints nothing; one without any paints its colour, if it has one.
pub open spec fn paint(cover: Cover, x: int, y: int) -> Option<Pixel> {
    let rect = cover.screen_rect;
    if !rect.covers(x, y) {
        None
    } else if cover.mode == CoverMode::Blur && cover.blur_data is Some {
        let data = cover.blur_data->0;
        if data.len() < rect.width * rect.height * 3 {
            None
        } else {
            let at = ((y - rect.y) * rect.width + (x - rect.x)) * 3;
            Some(Pixel { b: data[at], g: data[at + 1], r: data[at + 2], a: COVER_ALPHA })
        }
    } else {
        match cover.resolved_color {
            Some(c) => Some(plain(c)),
            None => None,
        }
    }
}

/// The pixel that some covers leave in a buffer: the last one that paints it decides.
pub open spec fn pixel(covers: Seq<Cover>, x: int, y: int) -> Pixel
    decreases covers.len(),
{
    if covers.len() == 0 {
        transparent()
    } else {
        match paint(covers.last(), x, y) {
            Some(p) => p,
            None => pixel(covers.drop_last(), x, y),
        }
    }
}

/// A row of pixels.
pub open spec fn row_of(covers: Seq<Cover>, width: nat, y: int) -> Seq<Pixel> {
    Seq::new(width, |x: int| pixel(covers, x, y))
}

pub open spec fn component(p: Pixel, i: int) -> u8 {
    if i == 0 {
        p.b
    } else if i == 1 {
        p.g
    } else if i == 2 {
        p.r
    } else {
        p.a
    }
}

/// The bytes of some pixels.
pub open spec fn bytes_of(row: Seq<Pixel>) -> Seq<u8> {
    Seq::new(row.len() * 4, |i: int| component(row[i / 4], i % 4))
}

/// The bytes of the first `rows` rows of a buffer.
pub open spec fn buffer(covers: Seq<Cover>, width: nat, rows: nat) -> Seq<u8>
    decreases rows,
{
    if rows == 0 {
        Seq::empty()
    } else {
        buffer(covers, width, (rows - 1) as nat) + bytes_of(row_of(covers, width, rows - 1))
    }
}

/// The offset of a pixel in blurred data lies within the data.
proof fn lemma_blur_offset(cover: Cover, x: int, y: int)
    requires
        cover.screen_rect.covers(x, y),
    ensures
        ({
            let rect = cover.screen_rect;
            let at = ((y - rect.y) * rect.width + (x - rect.x)) * 3;
            &&& 0 <= at
            &&& at + 2 < rect.width * rect.height * 3
            &&& (y - rect.y) * rect.width >= 0
        }),
{
    let rect = cover.screen_rect;
    let w = rect.width as int;
    let h = rect.height as int;
    let dy = y - rect.y;
    let dx = x - rect.x;
    assert(dy * w >= 0 && dy * w + dx < w * h) by (nonlinear_arith)
        requires
            0 <= dy < h,
            0 <= dx < w,
    ;
}

/// Paints one cover into row `y`.
fn paint_row(cover: &CoverRect, y: u32, row: &mut Vec<Pixel>)
    requires
        old(row)@.len() < 0x4000_0000,
    ensures
        final(row)@.len() == old(row)@.len(),
        forall|x: int|
            0 <= x < old(row)@.len() ==> #[trigger] final(row)@[x] == (match paint(
                cover@,
                x,
                y as int,
            ) {
                Some(p) => p,
                None => old(row)@[x],
            }),
{
    let rect = &cover.screen_rect;
    let width: usize = row.len();
    if (y as i64) < rect.y as i64 || y as i64 >= rect.wide_bottom() {
        return;
    }
    let x0: usize = if rect.x < 0 {
        0
    } else {
        rect.x as usize
    };
    let right: i64 = rect.wide_right();
    let x1: usize = if right <= 0 {
        0
    } else if right < width as i64 {
        right as usize
    } else {
        width
    };
    let colour: Option<Pixel> = match cover.resolved_color {
        Some(c) => Some(Pixel { b: c.b, g: c.g, r: c.r, a: COVER_ALPHA }),
        None => None,
    };
    let ghost before = row@;
    match (cover.mode, &cover.blur_data) {
        (CoverMode::Blur, Some(data)) => {
            let rw: usize = rect.width as usize;
            let rh: usize = rect.height as usize;
            assert(0 <= rw * rh <= 0xffff_ffff * 0xffff_ffff) by (nonlinear_arith)
                requires
                    0 <= rw <= 0xffff_ffff,
                    0 <= rh <= 0xffff_ffff,
            ;
            let len: usize = data.len();
            if (len as u128) < rw as u128 * rh as u128 * 3 {
                return;
            }
            let mut x: usize = x0;
            while x < x1
                invariant
                    x0 <= x,
                    x1 <= width,
                    width == row@.len() == before.len(),
                    width < 0x4000_0000,
                    rect == &cover.screen_rect,
                    rw == rect.width,
                    rh == rect.height,
                    rect.x <= x0,
                    x1 <= rect.right_edge() || x1 == 0,
                    rect.y <= y < rect.bottom_edge(),
                    cover.mode == CoverMode::Blur,
                    cover.blur_data == Some(*data),
                    len == data@.len(),
                    len >= rw * rh * 3,
                    forall|i: int|
                        0 <= i < width ==> #[trigger] row@[i] == (if x0 <= i < x && i < x1 {
                            paint(cover@, i, y as int)->0
                        } else {
                            before[i]
                        }),
                decreases x1 - x,
            {
                proof {
                    lemma_blur_offset(cover@, x as int, y as int);
                }
                let src_x: usize = (x as i64 - rect.x as i64) as usize;
                let src_y: usize = (y as i64 - rect.y as i64) as usize;
                let at: usize = (src_y * rw + src_x) * 3;
                row.set(
                    x,
                    Pixel { b: data[at], g: data[at + 1], r: data[at + 2], a: COVER_ALPHA },
                );
                x = x + 1;
            }
        },
        _ => {
            let painted: Pixel = match colour {
                Some(p) => p,
                None => {
                    return;
                },
            };
            let mut x: usize = x0;
            while x < x1
                invariant
                    x0 <= x,
                    x1 <= width,
                    width == row@.len() == before.len(),
                    forall|i: int|
                        0 <= i < width ==> #[trigger] row@[i] == (if x0 <= i < x && i < x1 {
                            painted
                        } else {
                            before[i]
                        }),
                decreases x1 - x,
            {
                row.set(x, painted);
                x = x + 1;
            }
        },
    }
}

/// The buffer that some covers make: blue, green, red and opacity of each pixel, row by row.
/// Nothing is painted outside the buffer, and what no cover paints stays transparent.
pub fn build_shm_argb_data_from_covers(covers: &[CoverRect], width: u32, height: u32) -> (r: Vec<
    u8,
>)
    requires
        width * 4 <= u32::MAX,
        width * 4 * height <= u32::MAX,
    ensures
        r@ == buffer(cover::values(covers@), width as nat, height as nat),
{
    let ghost all = cover::values(covers@);
    let mut data: Vec<u8> = Vec::new();
    let mut y: u32 = 0;
    while y < height
        invariant
            y <= height,
            width * 4 <= u32::MAX,
            all == cover::values(covers@),
            data@ == buffer(all, width as nat, y as nat),
        decreases height - y,
    {
        let mut row: Vec<Pixel> = Vec::with_capacity(width as usize);
        let mut x: u32 = 0;
        while x < width
            invariant
                x <= width,
                row@.len() == x,
                forall|i: int| 0 <= i < x ==> row@[i] == transparent(),
            decreases width - x,
        {
            row.push(Pixel { b: 0, g: 0, r: 0, a: 0 });
            x = x + 1;
        }
        let mut k: usize = 0;
        while k < covers.len()
            invariant
                k <= covers.len(),
                width * 4 <= u32::MAX,
                all == cover::values(covers@),
                row@.len() == width,
                forall|i: int|
                    0 <= i < width ==> #[trigger] row@[i] == pixel(
                        all.take(k as int),
                        i,
                        y as int,
                    ),
            decreases covers.len() - k,
        {
            assert(all.take(k + 1).drop_last() =~= all.take(k as int));
            assert(all.take(k + 1).last() == covers@[k as int]@);
            paint_row(&covers[k], y, &mut row);
            k = k + 1;
        }
        assert(all.take(k as int) =~= all);
        assert(row@ =~= row_of(all, width as nat, y as int));
        let ghost before = data@;
        let mut i: usize = 0;
        while i < row.len()
            invariant
                i <= row@.len(),
                data@ == before + bytes_of(row@).take(i * 4),
            decreases row.len() - i,
        {
            let p: Pixel = row[i];
            data.push(p.b);
            data.push(p.g);
            data.push(p.r);
            data.push(p.a);
            proof {
                let bytes = bytes_of(row@);
                let at = i * 4;
                assert(at / 4 == i && (at + 1) / 4 == i && (at + 2) / 4 == i && (at + 3) / 4 == i);
                assert(bytes[at] == p.b && bytes[at + 1] == p.g && bytes[at + 2] == p.r && bytes[at
                    + 3] == p.a);
                assert(data@ =~= before + bytes.take((i + 1) * 4));
            }
            i = i + 1;
        }
        assert(bytes_of(row@).take(i * 4) =~= bytes_of(row@));
        y = y + 1;
    }
    data
}

/// A cover that says neither with which colour nor with which pixels, with a colour put in.
pub open spec fn with_color(cover: Cover, color: ColorRgb) -> Cover {
    if cover.resolved_color is None && cover.blur_data is None {
        Cover { resolved_color: Some(color), ..cover }
    } else {
        cover
    }
}

/// The same buffer, with a colour for the covers that have none of their own.
pub fn build_shm_argb_data(covers: &[CoverRect], color: ColorRgb, width: u32, height: u32) -> (r:
    Vec<u8>)
    requires
        width * 4 <= u32::MAX,
        width * 4 * height <= u32::MAX,
    ensures
        r@ == buffer(
            cover::values(covers@).map_values(|c: Cover| with_color(c, color)),
            width as nat,
            height as nat,
        ),
{
    let mut patched: Vec<CoverRect> = Vec::new();
    let mut i: usize = 0;
    while i < covers.len()
        invariant
            i <= covers.len(),
            patched@.len() == i,
            forall|k: int|
                0 <= k < i ==> (#[trigger] patched@[k])@ == with_color(covers@[k]@, color),
        decreases covers.len() - i,
    {
        let mut c = covers[i].clone();
        if c.resolved_color.is_none() && c.blur_data.is_none() {
            c.resolved_color = Some(color);
        }
        patched.push(c);
        i = i + 1;
    }
    assert(cover::values(patched@) =~= cover::values(covers@).map_values(
        |c: Cover| with_color(c, color),
    ));
    build_shm_argb_data_from_covers(&patched, width, height)
}

/// The bytes of a row and of the whole buffer, as the numbers that the protocol asks for.
pub fn shm_layout(width: u32, height: u32) -> (r: (i32, i32))
    requires
        width * 4 <= u32::MAX,
        width * 4 * height <= u32::MAX,
    ensures
        r.0 == geometry::as_signed((width * 4) as u32),
        r.1 == geometry::as_signed((width * 4 * height) as u32),
{
    assert(width * 4 * height >= 0) by (nonlinear_arith)
        requires
            width >= 0,
            height >= 0,
    ;
    (signed_size(width * 4) as i32, signed_size(width * 4 * height) as i32)
}

/// The length of a buffer: four bytes to the pixel.
pub proof fn law_buffer_len(covers: Seq<Cover>, width: nat, rows: nat)
    ensures
        buffer(covers, width, rows).len() == rows * (width * 4),
    decreases rows,
{
    if rows > 0 {
        law_buffer_len(covers, width, (rows - 1) as nat);
        assert(rows * (width * 4) == (rows - 1) * (width * 4) + width * 4) by (nonlinear_arith);
    } else {
        assert(0 * (width * 4) == 0) by (nonlinear_arith);
    }
}

/// The four bytes of the pixel in column `x` of row `y` stand at four times `y * width + x`.
pub proof fn law_buffer_pixel(
    covers: Seq<Cover>,
    width: nat,
    rows: nat,
    x: int,
    y: int,
    i: int,
)
    requires
        0 <= x < width,
        0 <= y < rows,
        0 <= i < 4,
    ensures
        0 <= y * (width * 4) + x * 4 + i < buffer(covers, width, rows).len(),
        buffer(covers, width, rows)[y * (width * 4) + x * 4 + i] == component(
            pixel(covers, x, y),
            i,
        ),
    decreases rows,
{
    law_buffer_len(covers, width, rows);
    law_buffer_len(covers, width, (rows - 1) as nat);
    let at = y * (width * 4) + x * 4 + i;
    let before = buffer(covers, width, (rows - 1) as nat);
    let row = row_of(covers, width, rows - 1);
    assert(0 <= y * (width * 4)) by (nonlinear_arith)
        requires
            y >= 0,
    ;
    assert(rows * (width * 4) == (rows - 1) * (width * 4) + width * 4) by (nonlinear_arith);
    if y < rows - 1 {
        law_buffer_pixel(covers, width, (rows - 1) as nat, x, y, i);
        assert(buffer(covers, width, rows)[at] == before[at]);
    } else {
        let k = x * 4 + i;
        assert(k / 4 == x && k % 4 == i);
        assert(buffer(covers, width, rows)[at] == bytes_of(row)[k]);
    }
}

/// Where covers overlap, the last one that paints a pixel wins.
pub proof fn law_last_cover_wins(covers: Seq<Cover>, last: Cover, x: int, y: int)
    ensures
        pixel(covers.push(last), x, y) == (match paint(last, x, y) {
            Some(p) => p,
            None => pixel(covers, x, y),
        }),
{
    assert(covers.push(last).drop_last() =~= covers);
}

/// A pixel over which no cover lies stays transparent.
pub proof fn law_uncovered_transparent(covers: Seq<Cover>, x: int, y: int)
    requires
        !cover::covered(covers, x, y),
    ensures
        pixel(covers, x, y) == transparent(),
    decreases covers.len(),
{
    if covers.len() > 0 {
        let front = covers.drop_last();
        assert(!covers[covers.len() - 1].screen_rect.covers(x, y));
        if cover::covered(front, x, y) {
            let i = choose|i: int|
                0 <= i < front.len() && #[trigger] front[i].screen_rect.covers(x, y);
            assert(covers[i].screen_rect.covers(x, y));
        }
        law_uncovered_transparent(front, x, y);
    }
}

/// A frame holds all bytes of all its rows.
pub open spec fn whole(frame: FrameData) -> bool {
    &&& frame.width * frame.format.width() <= frame.stride
    &&& frame.height * frame.stride <= frame.data@.len()
}

/// A cover paints every pixel over which it lies.
spec fn hides(cover: Cover) -> bool {
    forall|x: int, y: int| #[trigger]
        cover.screen_rect.covers(x, y) ==> paint(cover, x, y) is Some
}

proof fn lemma_rows_len(frame: FrameData, first: int, count: nat, x: int, n: int)
    requires
        whole(frame),
        0 <= first,
        first + count <= frame.height,
        0 <= x,
        0 <= n,
        x * frame.format.width() + n <= frame.stride,
    ensures
        frame.rows_part(first, count, x, n).len() == count * n,
    decreases count,
{
    if count > 0 {
        let before = (count - 1) as nat;
        lemma_rows_len(frame, first, before, x, n);
        let row = first + count - 1;
        assert(row * frame.stride + frame.stride <= frame.height * frame.stride)
            by (nonlinear_arith)
            requires
                row + 1 <= frame.height,
                0 <= frame.stride,
        ;
        assert(row * frame.stride >= 0) by (nonlinear_arith)
            requires
                row >= 0,
                frame.stride >= 0,
        ;
        assert(x * frame.format.width() >= 0) by (nonlinear_arith)
            requires
                x >= 0,
                frame.format.width() >= 0,
        ;
        assert(before * n + n == count * n) by (nonlinear_arith)
            requires
                before == count - 1,
        ;
    } else {
        assert(count * n == 0) by (nonlinear_arith)
            requires
                count == 0,
        ;
    }
}

/// The cover of a rectangle that is not empty hides it.
proof fn lemma_cover_hides(frame: FrameData, rect: ScreenRect, mode: CoverMode, color: ColorRgb)
    requires
        rect.width > 0,
        rect.height > 0,
        mode == CoverMode::Blur ==> whole(frame),
    ensures
        hides(cover::cover_of(frame, rect, mode, color)),
{
    if mode == CoverMode::Blur && cover::blurred_part(frame, rect) is Some {
        let bpp = frame.format.width();
        let (w, h) = (rect.width as int, rect.height as int);
        let left = detection::left_of(rect);
        assert(left * bpp + w * bpp <= frame.width * bpp) by (nonlinear_arith)
            requires
                left + w <= frame.width,
                bpp >= 0,
        ;
        assert(w * bpp >= 0) by (nonlinear_arith)
            requires
                w >= 0,
                bpp >= 0,
        ;
        lemma_rows_len(frame, detection::top_of(rect), rect.height as nat, left, w * bpp);
        let bytes = frame.region_bytes(rect);
        assert(h * (w * bpp) == (w * h) * bpp) by (nonlinear_arith);
        assert(bytes.len() / bpp as nat == w * h) by (nonlinear_arith)
            requires
                bytes.len() == (w * h) * bpp,
                bpp > 0,
        ;
        assert(detection::as_bgr(bytes, frame.format).len() == w * h * 3);
    }
}

proof fn lemma_parts_hide(
    parts: Seq<ScreenRect>,
    frame: FrameData,
    mode: CoverMode,
    color: ColorRgb,
)
    requires
        mode == CoverMode::Blur ==> whole(frame),
    ensures
        forall|i: int|
            0 <= i < cover::covers_of_parts(parts, frame, mode, color).len() ==> hides(
                #[trigger] cover::covers_of_parts(parts, frame, mode, color)[i],
            ),
    decreases parts.len(),
{
    if parts.len() > 0 {
        lemma_parts_hide(parts.drop_last(), frame, mode, color);
        let part = parts.last();
        let before = cover::covers_of_parts(parts.drop_last(), frame, mode, color);
        let all = cover::covers_of_parts(parts, frame, mode, color);
        if part.width > 0 && part.height > 0 {
            lemma_cover_hides(frame, part, mode, color);
        }
        assert forall|i: int| 0 <= i < all.len() implies hides(#[trigger] all[i]) by {
            if i < before.len() {
                assert(all[i] == before[i]);
            }
        }
    }
}

proof fn lemma_all_hide(
    detections: Seq<Detection>,
    frame: FrameData,
    mode: CoverMode,
    color: ColorRgb,
    windows: Seq<ScreenRect>,
)
    requires
        mode == CoverMode::Blur ==> whole(frame),
    ensures
        forall|i: int|
            0 <= i < cover::covers_of(detections, frame, mode, color, windows).len() ==> hides(
                #[trigger] cover::covers_of(detections, frame, mode, color, windows)[i],
            ),
    decreases detections.len(),
{
    if detections.len() > 0 {
        lemma_all_hide(detections.drop_last(), frame, mode, color, windows);
        let parts = cover::visible(detections.last().screen_rect, windows);
        lemma_parts_hide(parts, frame, mode, color);
        let before = cover::covers_of(detections.drop_last(), frame, mode, color, windows);
        let last = cover::covers_of_parts(parts, frame, mode, color);
        let all = cover::covers_of(detections, frame, mode, color, windows);
        assert forall|i: int| 0 <= i < all.len() implies hides(#[trigger] all[i]) by {
            if i < before.len() {
                assert(all[i] == before[i]);
            } else {
                assert(all[i] == last[i - before.len()]);
            }
        }
    }
}

proof fn lemma_covered_opaque(covers: Seq<Cover>, x: int, y: int)
    requires
        cover::covered(covers, x, y),
        forall|i: int| 0 <= i < covers.len() ==> hides(#[trigger] covers[i]),
    ensures
        pixel(covers, x, y).a == COVER_ALPHA,
    decreases covers.len(),
{
    let i = choose|i: int|
        0 <= i < covers.len() && #[trigger] covers[i].screen_rect.covers(x, y);
    assert(hides(covers.last()));
    if paint(covers.last(), x, y) is None {
        assert(!covers.last().screen_rect.covers(x, y));
        assert(covers.drop_last()[i].screen_rect.covers(x, y));
        lemma_covered_opaque(covers.drop_last(), x, y);
    }
}

/// Everything that is found is hidden, and nothing else: a pixel of the buffer is painted, with
/// the opacity of a cover, exactly if it belongs to a detection and to no window. The pixels of
/// blurred covers come from the frame, which must hold them.
pub proof fn law_detections_hidden(
    detections: Seq<Detection>,
    frame: FrameData,
    mode: CoverMode,
    color: ColorRgb,
    windows: Seq<ScreenRect>,
    x: int,
    y: int,
)
    requires
        forall|i: int|
            0 <= i < detections.len() ==> (#[trigger] detections[i]).screen_rect.right_edge()
                <= i32::MAX && detections[i].screen_rect.bottom_edge() <= i32::MAX,
        mode == CoverMode::Blur ==> whole(frame),
    ensures
        ({
            let p = pixel(cover::covers_of(detections, frame, mode, color, windows), x, y);
            let found = exists|i: int|
                0 <= i < detections.len() && #[trigger] detections[i].screen_rect.covers(x, y);
            if found && !geometry::any_covers(windows, x, y) {
                p.a == COVER_ALPHA
            } else {
                p == transparent()
            }
        }),
{
    let covers = cover::covers_of(detections, frame, mode, color, windows);
    cover::law_covers_exact(detections, frame, mode, color, windows, x, y);
    lemma_all_hide(detections, frame, mode, color, windows);
    if cover::covered(covers, x, y) {
        lemma_covered_opaque(covers, x, y);
    } else {
        law_uncovered_transparent(covers, x, y);
    }
}

/// A cover of one colour fills its pixels of the buffer with that colour, blue byte first, at an
/// opacity of 217 of 255.
pub proof fn law_plain_bytes(
    covers: Seq<Cover>,
    rect: ScreenRect,
    color: ColorRgb,
    width: nat,
    rows: nat,
    x: int,
    y: int,
)
    requires
        0 <= x < width,
        0 <= y < rows,
        rect.x <= x < rect.x + rect.width,
        rect.y <= y < rect.y + rect.height,
        rect.width < 0x8000_0000,
        rect.height < 0x8000_0000,
    ensures
        ({
            let out = buffer(covers.push(Cover::solid(rect, color)), width, rows);
            let at = 4 * (y * width + x);
            &&& at + 4 <= out.len()
            &&& out[at] == color.b
            &&& out[at + 1] == color.g
            &&& out[at + 2] == color.r
            &&& out[at + 3] == 217
        }),
{
    let all = covers.push(Cover::solid(rect, color));
    law_last_cover_wins(covers, Cover::solid(rect, color), x, y);
    law_buffer_pixel(all, width, rows, x, y, 0);
    law_buffer_pixel(all, width, rows, x, y, 1);
    law_buffer_pixel(all, width, rows, x, y, 2);
    law_buffer_pixel(all, width, rows, x, y, 3);
    assert(y * (width * 4) == 4 * (y * width)) by (nonlinear_arith);
}

/// A blurred cover shows its picture, pixel by pixel, at the same opacity.
pub proof fn law_blurred_bytes(
    covers: Seq<Cover>,
    rect: ScreenRect,
    picture: Seq<u8>,
    width: nat,
    rows: nat,
    x: int,
    y: int,
)
    requires
        0 <= x < width,
        0 <= y < rows,
        rect.x <= x < rect.x + rect.width,
        rect.y <= y < rect.y + rect.height,
        rect.width < 0x8000_0000,
        rect.height < 0x8000_0000,
        picture.len() == 3 * (rect.width * rect.height),
    ensures
        ({
            let out = buffer(covers.push(Cover::blurred(rect, picture)), width, rows);
            let at = 4 * (y * width + x);
            let from = 3 * ((y - rect.y) * rect.width + (x - rect.x));
            &&& at + 4 <= out.len()
            &&& out[at] == picture[from]
            &&& out[at + 1] == picture[from + 1]
            &&& out[at + 2] == picture[from + 2]
            &&& out[at + 3] == 217
        }),
{
    let all = covers.push(Cover::blurred(rect, picture));
    law_last_cover_wins(covers, Cover::blurred(rect, picture), x, y);
    law_buffer_pixel(all, width, rows, x, y, 0);
    law_buffer_pixel(all, width, rows, x, y, 1);
    law_buffer_pixel(all, width, rows, x, y, 2);
    law_buffer_pixel(all, width, rows, x, y, 3);
    assert(y * (width * 4) == 4 * (y * width)) by (nonlinear_arith);
}

} // verus!
