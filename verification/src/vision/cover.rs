//! Covers for what was detected.

use vstd::prelude::*;

use crate::vision::blur;
use crate::vision::blur::blur_region;
use crate::vision::detection;
use crate::vision::detection::{
    extract_dominant_color, Cover, CoverMode, CoverRect, Detection, FrameData,
};
use crate::vision::geometry;
use crate::vision::geometry::{ColorRgb, ScreenRect};

verus! {

/// The blurred pixels of a rectangle, if the frame has any of them.
pub open spec fn blurred_part(frame: FrameData, rect: ScreenRect) -> Option<Seq<u8>> {
    let bgr = detection::as_bgr(frame.region_bytes(rect), frame.format);
    if !frame.admits(rect) || rect.width == 0 || rect.height == 0 || bgr.len() == 0 {
        None
    } else {
        Some(blur::blurred(bgr, rect.width as int, rect.height as int))
    }
}

/// The cover of a rectangle. Where its background has no colour or there is nothing to blur,
/// it is covered with the plain colour.
pub open spec fn cover_of(
    frame: FrameData,
    rect: ScreenRect,
    mode: CoverMode,
    solid_color: ColorRgb,
) -> Cover {
    if rect.width == 0 || rect.height == 0 {
        Cover::bare(rect, mode)
    } else {
        match mode {
            CoverMode::SolidColor => Cover::solid(rect, solid_color),
            CoverMode::BackgroundColor => match detection::dominant_color(frame, rect) {
                Some(color) => Cover::dominant(rect, color),
                None => Cover::solid(rect, solid_color),
            },
            CoverMode::Blur => match blurred_part(frame, rect) {
                Some(data) => Cover::blurred(rect, data),
                None => Cover::solid(rect, solid_color),
            },
        }
    }
}

pub fn generate_cover(
    frame: &FrameData,
    rect: &ScreenRect,
    mode: CoverMode,
    solid_color: ColorRgb,
) -> (r: CoverRect)
    ensures
        r@ == cover_of(*frame, *rect, mode, solid_color),
{
    if rect.width == 0 || rect.height == 0 {
        return CoverRect::new_mode_only(*rect, mode);
    }
    match mode {
        CoverMode::SolidColor => CoverRect::new_solid(*rect, solid_color),
        CoverMode::BackgroundColor => match extract_dominant_color(frame, rect) {
            Some(c) => CoverRect::new_dominant(*rect, c),
            None => CoverRect::new_solid(*rect, solid_color),
        },
        CoverMode::Blur => match generate_blur_data(frame, rect) {
            Some(data) => CoverRect::new_blur(*rect, data),
            None => CoverRect::new_solid(*rect, solid_color),
        },
    }
}

pub fn generate_blur_data(frame: &FrameData, rect: &ScreenRect) -> (r: Option<Vec<u8>>)
    ensures
        match r {
            Some(data) => blurred_part(*frame, *rect) == Some(data@),
            None => blurred_part(*frame, *rect) is None,
        },
{
    match frame.region_bgr(rect) {
        Some(bgr) => {
            if rect.width == 0 || rect.height == 0 || bgr.len() == 0 {
                None
            } else {
                Some(blur_region(&bgr, rect.width, rect.height))
            }
        },
        None => None,
    }
}

/// What is left of some rectangles without the pixels of a window.
pub open spec fn without(parts: Seq<ScreenRect>, window: ScreenRect) -> Seq<ScreenRect>
    decreases parts.len(),
{
    if parts.len() == 0 {
        Seq::empty()
    } else {
        without(parts.drop_last(), window) + parts.last().difference(window)
    }
}

/// What is left of a rectangle without the pixels of any of some windows.
pub open spec fn visible(rect: ScreenRect, windows: Seq<ScreenRect>) -> Seq<ScreenRect>
    decreases windows.len(),
{
    if windows.len() == 0 {
        seq![rect]
    } else {
        without(visible(rect, windows.drop_last()), windows.last())
    }
}

/// The covers of some rectangles; those without any area get none.
pub open spec fn covers_of_parts(
    parts: Seq<ScreenRect>,
    frame: FrameData,
    mode: CoverMode,
    solid_color: ColorRgb,
) -> Seq<Cover>
    decreases parts.len(),
{
    if parts.len() == 0 {
        Seq::empty()
    } else {
        let before = covers_of_parts(parts.drop_last(), frame, mode, solid_color);
        let part = parts.last();
        if part.width == 0 || part.height == 0 {
            before
        } else {
            before.push(cover_of(frame, part, mode, solid_color))
        }
    }
}

/// The covers of all detections, each cut out along the windows in front of it.
pub open spec fn covers_of(
    detections: Seq<Detection>,
    frame: FrameData,
    mode: CoverMode,
    solid_color: ColorRgb,
    windows: Seq<ScreenRect>,
) -> Seq<Cover>
    decreases detections.len(),
{
    if detections.len() == 0 {
        Seq::empty()
    } else {
        covers_of(detections.drop_last(), frame, mode, solid_color, windows) + covers_of_parts(
            visible(detections.last().screen_rect, windows),
            frame,
            mode,
            solid_color,
        )
    }
}

/// Covers by value.
pub open spec fn values(covers: Seq<CoverRect>) -> Seq<Cover> {
    covers.map_values(|c: CoverRect| c@)
}

fn cut(parts: &Vec<ScreenRect>, window: &ScreenRect) -> (r: Vec<ScreenRect>)
    ensures
        r@ == without(parts@, *window),
{
    let mut r: Vec<ScreenRect> = Vec::new();
    let mut i: usize = 0;
    while i < parts.len()
        invariant
            i <= parts.len(),
            r@ == without(parts@.take(i as int), *window),
        decreases parts.len() - i,
    {
        assert(parts@.take(i + 1).drop_last() =~= parts@.take(i as int));
        let mut left = parts[i].subtract(window);
        r.append(&mut left);
        i = i + 1;
    }
    assert(parts@.take(i as int) =~= parts@);
    r
}

fn visible_parts(rect: &ScreenRect, windows: &[ScreenRect]) -> (r: Vec<ScreenRect>)
    ensures
        r@ == visible(*rect, windows@),
{
    let mut parts: Vec<ScreenRect> = vec![*rect];
    let mut i: usize = 0;
    assert(windows@.take(0) =~= Seq::empty());
    assert(parts@ =~= seq![*rect]);
    while i < windows.len()
        invariant
            i <= windows.len(),
            parts@ == visible(*rect, windows@.take(i as int)),
        decreases windows.len() - i,
    {
        assert(windows@.take(i + 1).drop_last() =~= windows@.take(i as int));
        parts = cut(&parts, &windows[i]);
        i = i + 1;
    }
    assert(windows@.take(i as int) =~= windows@);
    parts
}

/// The covers of all detections. Each detection is cut out along the windows, and each part
/// that is left gets a cover from its own pixels.
pub fn covers_for_detections(
    detections: &[Detection],
    frame: &FrameData,
    mode: CoverMode,
    solid_color: ColorRgb,
    window_rects: &[ScreenRect],
) -> (r: Vec<CoverRect>)
    ensures
        values(r@) == covers_of(detections@, *frame, mode, solid_color, window_rects@),
{
    let mut covers: Vec<CoverRect> = Vec::new();
    let mut i: usize = 0;
    while i < detections.len()
        invariant
            i <= detections.len(),
            values(covers@) =~= covers_of(
                detections@.take(i as int),
                *frame,
                mode,
                solid_color,
                window_rects@,
            ),
        decreases detections.len() - i,
    {
        assert(detections@.take(i + 1).drop_last() =~= detections@.take(i as int));
        let parts = visible_parts(&detections[i].screen_rect, window_rects);
        let ghost before = values(covers@);
        let mut k: usize = 0;
        while k < parts.len()
            invariant
                k <= parts.len(),
                values(covers@) =~= before + covers_of_parts(
                    parts@.take(k as int),
                    *frame,
                    mode,
                    solid_color,
                ),
            decreases parts.len() - k,
        {
            assert(parts@.take(k + 1).drop_last() =~= parts@.take(k as int));
            let part: ScreenRect = parts[k];
            if part.width != 0 && part.height != 0 {
                let ghost earlier = covers@;
                let cover = generate_cover(frame, &part, mode, solid_color);
                let ghost value = cover@;
                covers.push(cover);
                assert(values(covers@) =~= values(earlier).push(value));
            }
            k = k + 1;
        }
        assert(parts@.take(k as int) =~= parts@);
        i = i + 1;
    }
    assert(detections@.take(i as int) =~= detections@);
    covers
}

/// No part reaches beyond the right or lower edge of the rectangle it was cut from.
proof fn lemma_difference_within(a: ScreenRect, b: ScreenRect, i: int)
    requires
        a.right_edge() <= i32::MAX,
        a.bottom_edge() <= i32::MAX,
        0 <= i < a.difference(b).len(),
    ensures
        a.difference(b)[i].right_edge() <= i32::MAX,
        a.difference(b)[i].bottom_edge() <= i32::MAX,
{
    geometry::lemma_difference_edges(a, b, i);
}

/// All rectangles of a list end within the range of coordinates.
pub open spec fn in_range(parts: Seq<ScreenRect>) -> bool {
    forall|i: int|
        0 <= i < parts.len() ==> (#[trigger] parts[i]).right_edge() <= i32::MAX
            && parts[i].bottom_edge() <= i32::MAX
}

proof fn lemma_without_covers(parts: Seq<ScreenRect>, window: ScreenRect, px: int, py: int)
    requires
        in_range(parts),
    ensures
        in_range(without(parts, window)),
        geometry::any_covers(without(parts, window), px, py) <==> geometry::any_covers(
            parts,
            px,
            py,
        ) && !window.covers(px, py),
    decreases parts.len(),
{
    if parts.len() > 0 {
        let front = parts.drop_last();
        let last = parts.last();
        let cut = last.difference(window);
        let before = without(front, window);
        let after = without(parts, window);
        assert forall|i: int| 0 <= i < front.len() implies (#[trigger] front[i]).right_edge()
            <= i32::MAX && front[i].bottom_edge() <= i32::MAX by {
            assert(front[i] == parts[i]);
        }
        lemma_without_covers(front, window, px, py);
        assert(last == parts[parts.len() - 1]);
        geometry::law_difference_covers(last, window, px, py);
        assert forall|i: int| 0 <= i < after.len() implies (#[trigger] after[i]).right_edge()
            <= i32::MAX && after[i].bottom_edge() <= i32::MAX by {
            if i < before.len() {
                assert(after[i] == before[i]);
            } else {
                assert(after[i] == cut[i - before.len()]);
                lemma_difference_within(last, window, i - before.len());
            }
        }
        lemma_any_covers_add(before, cut, px, py);
        lemma_any_covers_add(front, seq![last], px, py);
        assert(front + seq![last] =~= parts);
        assert(geometry::any_covers(seq![last], px, py) <==> last.covers(px, py)) by {
            if last.covers(px, py) {
                assert(seq![last][0].covers(px, py));
            }
        }
    }
}

proof fn lemma_any_covers_add(p: Seq<ScreenRect>, q: Seq<ScreenRect>, px: int, py: int)
    ensures
        geometry::any_covers(p + q, px, py) <==> geometry::any_covers(p, px, py)
            || geometry::any_covers(q, px, py),
{
    let all = p + q;
    if geometry::any_covers(p, px, py) {
        let i = choose|i: int| 0 <= i < p.len() && #[trigger] p[i].covers(px, py);
        assert(all[i].covers(px, py));
    }
    if geometry::any_covers(q, px, py) {
        let i = choose|i: int| 0 <= i < q.len() && #[trigger] q[i].covers(px, py);
        assert(all[p.len() + i].covers(px, py));
    }
    if geometry::any_covers(all, px, py) {
        let i = choose|i: int| 0 <= i < all.len() && #[trigger] all[i].covers(px, py);
        if i < p.len() {
            assert(p[i].covers(px, py));
        } else {
            assert(q[i - p.len()].covers(px, py));
        }
    }
}

/// The parts of a rectangle that are visible hold exactly its pixels that lie in no window.
pub proof fn law_visible_covers(
    rect: ScreenRect,
    windows: Seq<ScreenRect>,
    px: int,
    py: int,
)
    requires
        rect.right_edge() <= i32::MAX,
        rect.bottom_edge() <= i32::MAX,
    ensures
        in_range(visible(rect, windows)),
        geometry::any_covers(visible(rect, windows), px, py) <==> rect.covers(px, py)
            && !geometry::any_covers(windows, px, py),
    decreases windows.len(),
{
    if windows.len() == 0 {
        let one = seq![rect];
        if rect.covers(px, py) {
            assert(one[0].covers(px, py));
        }
    } else {
        let front = windows.drop_last();
        let last = windows.last();
        law_visible_covers(rect, front, px, py);
        lemma_without_covers(visible(rect, front), last, px, py);
        lemma_any_covers_add(front, seq![last], px, py);
        assert(front + seq![last] =~= windows);
        if last.covers(px, py) {
            assert(seq![last][0].covers(px, py));
        }
    }
}

/// No two rectangles of a list share a pixel.
pub open spec fn apart(parts: Seq<ScreenRect>) -> bool {
    forall|i: int, j: int, px: int, py: int|
        #![trigger parts[i].covers(px, py), parts[j].covers(px, py)]
        0 <= i < j < parts.len() ==> !(parts[i].covers(px, py) && parts[j].covers(px, py))
}

proof fn lemma_without_apart(parts: Seq<ScreenRect>, window: ScreenRect)
    requires
        in_range(parts),
        apart(parts),
    ensures
        apart(without(parts, window)),
    decreases parts.len(),
{
    if parts.len() > 0 {
        let front = parts.drop_last();
        let last = parts.last();
        let cut = last.difference(window);
        let before = without(front, window);
        let after = without(parts, window);
        assert(in_range(front) && apart(front)) by {
            assert(forall|i: int| 0 <= i < front.len() ==> front[i] == parts[i]);
        }
        lemma_without_apart(front, window);
        assert(last == parts[parts.len() - 1]);
        assert forall|i: int, j: int, px: int, py: int|
            #![trigger after[i].covers(px, py), after[j].covers(px, py)]
            0 <= i < j < after.len() implies !(after[i].covers(px, py) && after[j].covers(
            px,
            py,
        )) by {
            if j < before.len() {
                assert(after[i] == before[i] && after[j] == before[j]);
                assert(!(before[i].covers(px, py) && before[j].covers(px, py)));
            } else if i < before.len() {
                if after[i].covers(px, py) && after[j].covers(px, py) {
                    assert(before[i].covers(px, py));
                    lemma_without_covers(front, window, px, py);
                    let k = choose|k: int| 0 <= k < front.len() && #[trigger] front[k].covers(
                        px,
                        py,
                    );
                    assert(cut[j - before.len()].covers(px, py));
                    geometry::law_difference_covers(last, window, px, py);
                    assert(parts[k].covers(px, py) && parts[parts.len() - 1].covers(px, py));
                }
            } else {
                geometry::law_difference_disjoint(
                    last,
                    window,
                    i - before.len(),
                    j - before.len(),
                    px,
                    py,
                );
            }
        }
    }
}

/// The visible parts of a rectangle share no pixel, so that none is covered twice.
pub proof fn law_visible_apart(rect: ScreenRect, windows: Seq<ScreenRect>)
    requires
        rect.right_edge() <= i32::MAX,
        rect.bottom_edge() <= i32::MAX,
    ensures
        apart(visible(rect, windows)),
    decreases windows.len(),
{
    if windows.len() > 0 {
        law_visible_apart(rect, windows.drop_last());
        law_visible_covers(rect, windows.drop_last(), 0, 0);
        lemma_without_apart(visible(rect, windows.drop_last()), windows.last());
    }
}

/// Some cover lies over the pixel.
pub open spec fn covered(covers: Seq<Cover>, px: int, py: int) -> bool {
    exists|i: int| 0 <= i < covers.len() && #[trigger] covers[i].screen_rect.covers(px, py)
}

proof fn lemma_covered_add(p: Seq<Cover>, q: Seq<Cover>, px: int, py: int)
    ensures
        covered(p + q, px, py) <==> covered(p, px, py) || covered(q, px, py),
{
    let all = p + q;
    if covered(p, px, py) {
        let i = choose|i: int| 0 <= i < p.len() && #[trigger] p[i].screen_rect.covers(px, py);
        assert(all[i].screen_rect.covers(px, py));
    }
    if covered(q, px, py) {
        let i = choose|i: int| 0 <= i < q.len() && #[trigger] q[i].screen_rect.covers(px, py);
        assert(all[p.len() + i].screen_rect.covers(px, py));
    }
    if covered(all, px, py) {
        let i = choose|i: int| 0 <= i < all.len() && #[trigger] all[i].screen_rect.covers(px, py);
        if i < p.len() {
            assert(p[i].screen_rect.covers(px, py));
        } else {
            assert(q[i - p.len()].screen_rect.covers(px, py));
        }
    }
}

proof fn lemma_parts_covered(
    parts: Seq<ScreenRect>,
    frame: FrameData,
    mode: CoverMode,
    solid_color: ColorRgb,
    px: int,
    py: int,
)
    ensures
        covered(covers_of_parts(parts, frame, mode, solid_color), px, py) <==> geometry::any_covers(
            parts,
            px,
            py,
        ),
    decreases parts.len(),
{
    if parts.len() > 0 {
        let front = parts.drop_last();
        let last = parts.last();
        let before = covers_of_parts(front, frame, mode, solid_color);
        lemma_parts_covered(front, frame, mode, solid_color, px, py);
        lemma_any_covers_add(front, seq![last], px, py);
        assert(front + seq![last] =~= parts);
        if last.covers(px, py) {
            assert(seq![last][0].covers(px, py));
        }
        if last.width != 0 && last.height != 0 {
            let cover = cover_of(frame, last, mode, solid_color);
            lemma_covered_add(before, seq![cover], px, py);
            assert(before + seq![cover] =~= before.push(cover));
            if last.covers(px, py) {
                assert(seq![cover][0].screen_rect.covers(px, py));
            }
        }
    }
}

/// Exactly those pixels get covered that belong to a detection and to no window.
pub proof fn law_covers_exact(
    detections: Seq<Detection>,
    frame: FrameData,
    mode: CoverMode,
    solid_color: ColorRgb,
    windows: Seq<ScreenRect>,
    px: int,
    py: int,
)
    requires
        forall|i: int|
            0 <= i < detections.len() ==> (#[trigger] detections[i]).screen_rect.right_edge()
                <= i32::MAX && detections[i].screen_rect.bottom_edge() <= i32::MAX,
    ensures
        covered(covers_of(detections, frame, mode, solid_color, windows), px, py) <==> (exists|
            i: int,
        |
            0 <= i < detections.len() && #[trigger] detections[i].screen_rect.covers(px, py))
            && !geometry::any_covers(windows, px, py),
    decreases detections.len(),
{
    if detections.len() > 0 {
        let front = detections.drop_last();
        let last = detections.last();
        assert(forall|i: int| 0 <= i < front.len() ==> front[i] == detections[i]);
        law_covers_exact(front, frame, mode, solid_color, windows, px, py);
        assert(last == detections[detections.len() - 1]);
        let parts = visible(last.screen_rect, windows);
        law_visible_covers(last.screen_rect, windows, px, py);
        lemma_parts_covered(parts, frame, mode, solid_color, px, py);
        lemma_covered_add(
            covers_of(front, frame, mode, solid_color, windows),
            covers_of_parts(parts, frame, mode, solid_color),
            px,
            py,
        );
        if exists|i: int|
            0 <= i < detections.len() && #[trigger] detections[i].screen_rect.covers(px, py) {
            let i = choose|i: int|
                0 <= i < detections.len() && #[trigger] detections[i].screen_rect.covers(px, py);
            if i < front.len() {
                assert(front[i].screen_rect.covers(px, py));
            }
        }
        if exists|i: int|
            0 <= i < front.len() && #[trigger] front[i].screen_rect.covers(px, py) {
            let i = choose|i: int|
                0 <= i < front.len() && #[trigger] front[i].screen_rect.covers(px, py);
            assert(detections[i].screen_rect.covers(px, py));
        }
    }
}

/// Where both a rectangle and the window by which its background is judged lie beyond an edge
/// of the frame, it is covered with the plain colour.
pub proof fn law_off_screen_plain(frame: FrameData, rect: ScreenRect, solid_color: ColorRgb)
    requires
        rect.x + 50 <= 0 || rect.y + 80 <= 0 || rect.x >= frame.width || rect.y >= frame.height,
        rect.width > 0,
        rect.height > 0,
    ensures
        cover_of(frame, rect, CoverMode::BackgroundColor, solid_color) == Cover::solid(
            rect,
            solid_color,
        ),
{
    detection::law_off_screen_no_color(frame, rect);
}

/// A blurred cover is the blurred picture of what the frame shows in its rectangle.
pub proof fn law_blur_cover(frame: FrameData, rect: ScreenRect, picture: Seq<u8>)
    requires
        frame.format is Bgr,
        0 <= rect.x,
        0 <= rect.y,
        0 < rect.width,
        0 < rect.height,
        rect.x + rect.width <= frame.width,
        rect.y + rect.height <= frame.height,
        3 * frame.width <= frame.stride,
        frame.height * frame.stride <= frame.data@.len(),
        picture.len() == 3 * (rect.width * rect.height),
        forall|j: int, k: int|
            #![trigger picture[j * (3 * rect.width) + k]]
            0 <= j < rect.height && 0 <= k < 3 * rect.width ==> picture[j * (3 * rect.width) + k]
                == frame.data@[(rect.y + j) * frame.stride + 3 * rect.x + k],
    ensures
        blurred_part(frame, rect) == Some(
            blur::blurred(picture, rect.width as int, rect.height as int),
        ),
{
    let (w, h) = (rect.width as int, rect.height as int);
    let n = 3 * w;
    let bytes = frame.region_bytes(rect);
    detection::law_region_bytes(frame, rect, 0, 0);
    assert(h * n == 3 * (w * h)) by (nonlinear_arith)
        requires
            n == 3 * w,
    ;
    assert(w * h > 0) by (nonlinear_arith)
        requires
            w > 0,
            h > 0,
    ;
    assert(bytes =~= picture) by {
        assert forall|i: int| 0 <= i < bytes.len() implies bytes[i] == picture[i] by {
            let (j, k) = (i / n, i % n);
            vstd::arithmetic::div_mod::lemma_fundamental_div_mod(i, n);
            assert(0 <= k < n && 0 <= j < h && j * n + k == i) by (nonlinear_arith)
                requires
                    i == n * j + k,
                    k == i % n,
                    0 <= i < h * n,
                    n > 0,
            ;
            detection::law_region_bytes(frame, rect, j, k);
            assert(picture[j * (3 * rect.width) + k] == frame.data@[(rect.y + j) * frame.stride + 3
                * rect.x + k]);
        }
    }
    let bgr = detection::as_bgr(bytes, frame.format);
    assert(bgr =~= bytes) by {
        let m = w * h;
        assert(bytes.len() == 3 * m);
        assert(bytes.len() / 3nat == m);
        assert(frame.format.width() as nat == 3nat);
        assert(bgr.len() == 3 * m);
        assert forall|i: int| 0 <= i < bgr.len() implies bgr[i] == bytes[i] by {
            let (q, d) = (i / 3, i % 3);
            assert(i == 3 * q + d && 0 <= d < 3);
            assert(0 <= q < m);
            detection::law_bgr_bytes(bytes, frame.format, q);
        }
    }
}

/// The cover of a rectangle lies where the rectangle lies. It has either a colour or pixels, never
/// both: the wanted colour where a plain one is wanted, that of the background or the blurred
/// pixels where these are wanted and there are any, and else the wanted colour again.
pub proof fn law_cover_look(
    frame: FrameData,
    rect: ScreenRect,
    mode: CoverMode,
    solid_color: ColorRgb,
)
    requires
        rect.width > 0,
        rect.height > 0,
    ensures
        ({
            let c = cover_of(frame, rect, mode, solid_color);
            &&& c.screen_rect == rect
            &&& c.resolved_color is Some != c.blur_data is Some
            &&& mode is SolidColor ==> c.resolved_color == Some(solid_color)
            &&& mode is BackgroundColor ==> c.resolved_color == (
            match detection::dominant_color(frame, rect) {
                Some(color) => Some(color),
                None => Some(solid_color),
            })
            &&& mode is Blur && c.resolved_color is Some ==> c.resolved_color == Some(solid_color)
                && blurred_part(frame, rect) is None
            &&& c.blur_data is Some ==> mode is Blur && c.blur_data == blurred_part(frame, rect)
        }),
{
}

} // verus!
