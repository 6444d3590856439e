//! Fitting frames to the network's input, and thinning out boxes.

use vstd::prelude::*;

use crate::numeric;
use crate::ranking;
use crate::ranking::order;
use crate::single::{Single, ONE_BITS};
use crate::vision::geometry::ScreenRect;
use crate::vision::suppression;
use crate::vision::suppression::exceeds;

verus! {

/// The factor that makes a picture as large as it can be within a target size.
pub open spec fn fit_scale(src_width: u32, src_height: u32, width: u32, height: u32) -> Single {
    let down = Single::of_int(height as int).quotient(Single::of_int(src_height as int));
    let across = Single::of_int(width as int).quotient(Single::of_int(src_width as int));
    if across.spec_gt(down) || across.is_nan() {
        down
    } else {
        across
    }
}

/// The width and height of a picture within a target size.
pub open spec fn fitted(src_width: u32, src_height: u32, width: u32, height: u32) -> (int, int) {
    let scale = fit_scale(src_width, src_height, width, height);
    (
        Single::of_int(src_width as int).product(scale).clamped(0, u32::MAX as int),
        Single::of_int(src_height as int).product(scale).clamped(0, u32::MAX as int),
    )
}

/// Whether a picture nearly fills the target, so that it is taken as it is.
pub open spec fn nearly_fills(right: int, bottom: int) -> bool {
    (bottom < 55 && right == 0) || (right < 70 && bottom == 0)
}

/// Whether every new pixel gets a sample of some weight when `from` pixels in a row or column
/// become `to`. The places of the samples are computed in single precision; beyond two to the
/// power 22 pixels on both sides they can be off by so much that all weights vanish.
pub open spec fn weighs(from: int, to: int) -> bool {
    from <= 0x40_0000 || to <= 0x40_0000
}

/// Whether a picture can be resampled to another size. One of the same size is copied. For
/// others the buffer between the two passes, of sixteen bytes to the pixel, and the list of
/// weights, of four bytes each and at most twice as long as needed, must be small enough to exist.
pub open spec fn can_sample(width: int, height: int, new_width: int, new_height: int) -> bool {
    (new_width == width && new_height == height) || {
        &&& weighs(width, new_width)
        &&& weighs(height, new_height)
        &&& width * new_height * 16 <= isize::MAX
        &&& height * 8 <= isize::MAX
    }
}

/// Whether a picture of one size can be brought to another: the fitted picture must not be
/// larger than the target, the buffers must be small enough to exist, and where the picture
/// does not nearly fill the target, it must be possible to resample it.
pub open spec fn can_resize(src_width: u32, src_height: u32, width: u32, height: u32) -> bool {
    src_width > 0 && src_height > 0 && width > 0 && height > 0 ==> {
        let (new_width, new_height) = fitted(src_width, src_height, width, height);
        if new_width == 0 || new_height == 0 {
            width * height * 3 <= u32::MAX
        } else {
            &&& new_width <= width
            &&& new_height <= height
            &&& !nearly_fills(width - new_width, height - new_height) ==> {
                &&& width * height * 3 <= u32::MAX
                &&& width * height * 3 <= isize::MAX
                &&& src_width * src_height * 3 <= isize::MAX
                &&& can_sample(src_width as int, src_height as int, new_width, new_height)
            }
        }
    }
}

/// What `image::imageops::resize` makes of an RGB picture with the triangle filter.
pub uninterp spec fn resized_rgb(
    pixels: Seq<u8>,
    width: u32,
    height: u32,
    new_width: u32,
    new_height: u32,
) -> Seq<u8>;

/// `image::imageops::resize` with the triangle filter, on a picture of three bytes to the
/// pixel that `ImageBuffer::from_raw` takes from its bytes. The result depends on the bytes and
/// the two sizes alone, and has three bytes for each pixel of the new size. The picture must
/// hold all its pixels, and left out are the sizes that `can_sample` excludes, where weights can
/// vanish or a buffer cannot exist.
#[verifier::external_body]
fn resize_rgb(
    pixels: Vec<u8>,
    width: u32,
    height: u32,
    new_width: u32,
    new_height: u32,
) -> (r: Vec<u8>)
    requires
        0 < width,
        0 < height,
        0 < new_width,
        0 < new_height,
        width * height * 3 <= pixels@.len(),
        new_width * new_height * 3 <= isize::MAX,
        can_sample(width as int, height as int, new_width as int, new_height as int),
    ensures
        r@ == resized_rgb(pixels@, width, height, new_width, new_height),
        r@.len() == new_width * new_height * 3,
{
    let filter = image::imageops::FilterType::Triangle;
    let image = image::ImageBuffer::<image::Rgb<u8>, Vec<u8>>::from_raw(width, height, pixels);
    image.map(|i| image::imageops::resize(&i, new_width, new_height, filter).into_raw())
        .unwrap_or_default()
}

/// A row of a target picture: what a smaller picture has in that row, and black behind it.
pub open spec fn padded_row(
    resized: Seq<u8>,
    new_width: int,
    new_height: int,
    width: int,
    y: int,
) -> Seq<u8> {
    Seq::new(
        (width * 3) as nat,
        |x: int|
            if y < new_height && x < new_width * 3 && (y + 1) * (new_width * 3) <= resized.len() {
                resized[y * (new_width * 3) + x]
            } else {
                0
            },
    )
}

/// The first `rows` rows of a target picture with a smaller picture in its left upper corner.
pub open spec fn padded(
    resized: Seq<u8>,
    new_width: int,
    new_height: int,
    width: int,
    rows: nat,
) -> Seq<u8>
    decreases rows,
{
    if rows == 0 {
        Seq::empty()
    } else {
        padded(resized, new_width, new_height, width, (rows - 1) as nat) + padded_row(
            resized,
            new_width,
            new_height,
            width,
            rows - 1,
        )
    }
}

/// `n` black bytes.
pub open spec fn black(n: nat) -> Seq<u8> {
    Seq::new(n, |i: int| 0u8)
}

fn black_bytes(n: usize) -> (r: Vec<u8>)
    ensures
        r@ == black(n as nat),
{
    let mut r: Vec<u8> = Vec::with_capacity(n);
    let mut i: usize = 0;
    while i < n
        invariant
            i <= n,
            r@ == black(i as nat),
        decreases n - i,
    {
        r.push(0);
        i = i + 1;
        assert(r@ =~= black(i as nat));
    }
    r
}

/// The picture that is resampled: the given bytes, or a black picture where they are too few.
pub open spec fn source(data: Seq<u8>, width: int, height: int) -> Seq<u8> {
    if data.len() >= width * height * 3 {
        data
    } else {
        black((width * height * 3) as nat)
    }
}

/// Puts a picture into the left upper corner of a black picture of the target size.
pub fn pad_to_target(
    resized: &[u8],
    new_width: u32,
    new_height: u32,
    width: u32,
    height: u32,
) -> (r: Vec<u8>)
    requires
        new_width <= width,
        new_height <= height,
        width * height * 3 <= u32::MAX,
    ensures
        r@ == padded(
            resized@,
            new_width as int,
            new_height as int,
            width as int,
            height as nat,
        ),
{
    let mut r: Vec<u8> = Vec::new();
    let mut y: u32 = 0;
    while y < height
        invariant
            y <= height,
            new_width <= width,
            new_height <= height,
            width * height * 3 <= u32::MAX,
            r@ == padded(resized@, new_width as int, new_height as int, width as int, y as nat),
        decreases height - y,
    {
        proof {
            assert(width * 3 <= width * height * 3) by (nonlinear_arith)
                requires
                    height >= 1,
                    width >= 0,
            ;
            assert((y + 1) * (new_width * 3) <= width * height * 3) by (nonlinear_arith)
                requires
                    0 <= y + 1 <= height,
                    0 <= new_width <= width,
            ;
            assert((y + 1) * (new_width * 3) == y * (new_width * 3) + new_width * 3)
                by (nonlinear_arith);
            assert(y * (new_width * 3) >= 0) by (nonlinear_arith)
                requires
                    y >= 0,
                    new_width >= 0,
            ;
        }
        let from: usize = (y * (new_width * 3)) as usize;
        let length: usize = (new_width * 3) as usize;
        let there: bool = y < new_height && from + length <= resized.len();
        let full: usize = (width * 3) as usize;
        let ghost before = r@;
        let ghost row = padded_row(
            resized@,
            new_width as int,
            new_height as int,
            width as int,
            y as int,
        );
        let mut x: usize = 0;
        while x < full
            invariant
                x <= full,
                full == width * 3,
                length == new_width * 3,
                from == y * (new_width * 3),
                from + length <= u32::MAX,
                there == (y < new_height && from + length <= resized@.len()),
                (y + 1) * (new_width * 3) == from + length,
                row == padded_row(
                    resized@,
                    new_width as int,
                    new_height as int,
                    width as int,
                    y as int,
                ),
                r@ == before + row.take(x as int),
            decreases full - x,
        {
            if there && x < length {
                r.push(resized[from + x]);
            } else {
                r.push(0);
            }
            x = x + 1;
            assert(r@ =~= before + row.take(x as int));
        }
        assert(row.take(x as int) =~= row);
        y = y + 1;
    }
    r
}

/// The size that a picture gets within a target size.
pub fn fitted_size(src_width: u32, src_height: u32, width: u32, height: u32) -> (r: (u32, u32))
    requires
        src_width > 0,
        src_height > 0,
        width > 0,
        height > 0,
    ensures
        r.0 == fitted(src_width, src_height, width, height).0,
        r.1 == fitted(src_width, src_height, width, height).1,
{
    let down = Single::from_u64(height as u64).over(Single::from_u64(src_height as u64));
    let across = Single::from_u64(width as u64).over(Single::from_u64(src_width as u64));
    let scale = down.min(across);
    (
        Single::from_u64(src_width as u64).times(scale).to_u32(),
        Single::from_u64(src_height as u64).times(scale).to_u32(),
    )
}

/// What a picture becomes for the network.
pub open spec fn resized_and_padded(
    data: Seq<u8>,
    src_width: u32,
    src_height: u32,
    width: u32,
    height: u32,
) -> (Seq<u8>, Single, Single) {
    let one = Single { bits: ONE_BITS };
    let (new_width, new_height) = fitted(src_width, src_height, width, height);
    if src_width == 0 || src_height == 0 || width == 0 || height == 0 {
        (Seq::empty(), one, one)
    } else if new_width == 0 || new_height == 0 {
        (black((width * height * 3) as nat), one, one)
    } else if nearly_fills(width - new_width, height - new_height) {
        (data, one, one)
    } else {
        (
            padded(
                resized_rgb(
                    source(data, src_width as int, src_height as int),
                    src_width,
                    src_height,
                    new_width as u32,
                    new_height as u32,
                ),
                new_width,
                new_height,
                width as int,
                height as nat,
            ),
            Single::of_int(src_width as int).quotient(Single::of_int(new_width)),
            Single::of_int(src_height as int).quotient(Single::of_int(new_height)),
        )
    }
}

/// Brings a picture of three bytes to the pixel to the size of the network's input, and says
/// by which factors its width and height have shrunk. The picture keeps its shape; what it does
/// not fill stays black. A picture that nearly fills the target anyway is left as it is, with
/// the factors one.
pub fn resize_and_pad(
    data: &[u8],
    src_width: u32,
    src_height: u32,
    target_width: u32,
    target_height: u32,
) -> (r: (Vec<u8>, Single, Single))
    requires
        can_resize(src_width, src_height, target_width, target_height),
    ensures
        (r.0@, r.1, r.2) == resized_and_padded(
            data@,
            src_width,
            src_height,
            target_width,
            target_height,
        ),
        ({
            let (w, h) = fitted(src_width, src_height, target_width, target_height);
            let (right, bottom) = (target_width - w, target_height - h);
            src_width > 0 && src_height > 0 && target_width > 0 && target_height > 0 && w > 0 && h
                > 0 && !(bottom < 55 && right == 0) && !(right < 70 && bottom == 0) ==> {
                &&& r.0@.len() == target_width * target_height * 3
                &&& forall|y: int, x: int, c: int|
                    #![trigger r.0@[(y * target_width + x) * 3 + c]]
                    0 <= y < target_height && 0 <= x < target_width && 0 <= c < 3 && (y >= h || x
                        >= w) ==> r.0@[(y * target_width + x) * 3 + c] == 0
            }
        }),
{
    let one = Single { bits: ONE_BITS };
    if src_width == 0 || src_height == 0 || target_width == 0 || target_height == 0 {
        return (Vec::new(), one, one);
    }
    let (new_w, new_h): (u32, u32) = fitted_size(
        src_width,
        src_height,
        target_width,
        target_height,
    );
    proof {
        assert(0 <= target_width * target_height) by (nonlinear_arith)
            requires
                target_width >= 0,
                target_height >= 0,
        ;
    }
    if new_w == 0 || new_h == 0 {
        return (black_bytes((target_width * target_height * 3) as usize), one, one);
    }
    let bottom: u32 = target_height - new_h;
    let right: u32 = target_width - new_w;
    if (bottom < 55 && right == 0) || (right < 70 && bottom == 0) {
        return (copied(data), one, one);
    }
    proof {
        assert(0 <= src_width * src_height) by (nonlinear_arith)
            requires
                src_width >= 0,
                src_height >= 0,
        ;
        assert(new_w * new_h <= target_width * target_height) by (nonlinear_arith)
            requires
                0 <= new_w <= target_width,
                0 <= new_h <= target_height,
        ;
    }
    let size: usize = src_width as usize * src_height as usize * 3;
    let pixels: Vec<u8> = if data.len() >= size {
        copied(data)
    } else {
        black_bytes(size)
    };
    let resized = resize_rgb(pixels, src_width, src_height, new_w, new_h);
    let out = pad_to_target(&resized, new_w, new_h, target_width, target_height);
    proof {
        law_padded_pixels(
            resized@,
            new_w as int,
            new_h as int,
            target_width as int,
            target_height as int,
        );
    }
    let x_ratio = Single::from_u64(src_width as u64).over(Single::from_u64(new_w as u64));
    let y_ratio = Single::from_u64(src_height as u64).over(Single::from_u64(new_h as u64));
    (out, x_ratio, y_ratio)
}

fn copied(data: &[u8]) -> (r: Vec<u8>)
    ensures
        r@ == data@,
{
    let mut r: Vec<u8> = Vec::with_capacity(data.len());
    let mut i: usize = 0;
    while i < data.len()
        invariant
            i <= data.len(),
            r@ == data@.take(i as int),
        decreases data.len() - i,
    {
        r.push(data[i]);
        i = i + 1;
    }
    assert(data@.take(i as int) =~= data@);
    r
}

/// Some of the first `n` scores is not a number.
pub open spec fn some_nan(scores: Seq<Single>, n: nat) -> bool {
    exists|i: int| 0 <= i < n && (#[trigger] scores[i]).is_nan()
}

/// The first `n` scores can be ordered. What is not a number counts as equal to every score, so
/// next to it the numbers must be equal as well.
pub open spec fn orderable(scores: Seq<Single>, n: nat) -> bool {
    some_nan(scores, n) ==> forall|i: int, j: int|
        0 <= i < n && 0 <= j < n && !(#[trigger] scores[i]).is_nan() && !(
        #[trigger] scores[j]).is_nan() ==> scores[i].rank() == scores[j].rank()
}

/// The places of the first `n` scores in their order; all the same where something is not a
/// number.
pub open spec fn ranks_of(scores: Seq<Single>, n: nat) -> Seq<i64> {
    Seq::new(
        n,
        |i: int|
            if some_nan(scores, n) {
                0
            } else {
                scores[i].rank() as i64
            },
    )
}

fn ranks_from(scores: &Vec<Single>, n: usize) -> (r: Vec<i64>)
    requires
        n <= scores@.len(),
    ensures
        r@ == ranks_of(scores@, n as nat),
{
    let mut same: bool = false;
    let mut i: usize = 0;
    while i < n
        invariant
            i <= n <= scores@.len(),
            same == some_nan(scores@, i as nat),
        decreases n - i,
    {
        if scores[i].nan() {
            same = true;
        }
        i = i + 1;
    }
    let mut ranks: Vec<i64> = Vec::new();
    let mut j: usize = 0;
    while j < n
        invariant
            j <= n <= scores@.len(),
            same == some_nan(scores@, n as nat),
            ranks@.len() == j,
            forall|k: int| 0 <= k < j ==> #[trigger] ranks@[k] == ranks_of(scores@, n as nat)[k],
        decreases n - j,
    {
        ranks.push(
            if same {
                0
            } else {
                scores[j].signed_size()
            },
        );
        j = j + 1;
    }
    assert(ranks@ =~= ranks_of(scores@, n as nat));
    ranks
}

/// Which of two boxes, by their place in the ranking, takes out the other.
pub open spec fn box_beats(
    boxes: Seq<ScreenRect>,
    places: Seq<int>,
    threshold: Single,
) -> spec_fn(int, int) -> bool {
    |i: int, j: int| suppression::overlaps_more(boxes[places[i]], boxes[places[j]], threshold)
}

/// The indices of the boxes that are left, from the best one on.
pub open spec fn kept_boxes(
    boxes: Seq<ScreenRect>,
    scores: Seq<Single>,
    threshold: Single,
) -> Seq<int> {
    let places = ranking::ranking(ranks_of(scores, boxes.len()));
    suppression::survivors(boxes.len(), box_beats(boxes, places, threshold)).map_values(|p: int| places[p])
}

/// Keeps the best boxes with their scores, from the best one on, and drops those that overlap a
/// better one that is kept by more than `threshold`. Where there are no boxes, the scores stay.
pub fn nms(boxes: &mut Vec<ScreenRect>, scores: &mut Vec<Single>, threshold: Single)
    requires
        old(boxes)@.len() <= old(scores)@.len(),
        orderable(old(scores)@, old(boxes)@.len()),
    ensures
        final(boxes)@ == kept_boxes(old(boxes)@, old(scores)@, threshold).map_values(
            |k: int| old(boxes)@[k],
        ),
        final(scores)@ == if old(boxes)@.len() == 0 {
            old(scores)@
        } else {
            kept_boxes(old(boxes)@, old(scores)@, threshold).map_values(|k: int| old(scores)@[k])
        },
{
    let n: usize = boxes.len();
    if n == 0 {
        return;
    }
    let ranks = ranks_from(scores, n);
    let places = order(&ranks);
    let ghost ranked = ranking::ranking(ranks@);
    let ghost beats = box_beats(boxes@, ranked, threshold);
    proof {
        ranking::lemma_ranking(ranks@);
        assert(places@.map_values(|k: usize| k as int) =~= ranked);
        assert(forall|p: int| 0 <= p < n ==> places@[p] == ranked[p]) by {
            assert(forall|p: int|
                0 <= p < n ==> places@.map_values(|k: usize| k as int)[p] == places@[p]);
        }
    }
    let mut kept: Vec<usize> = Vec::new();
    let mut j: usize = 0;
    while j < n
        invariant
            j <= n,
            n == boxes@.len(),
            places@.len() == n,
            ranked.len() == n,
            forall|p: int| 0 <= p < n ==> 0 <= #[trigger] ranked[p] < n && places@[p] == ranked[p],
            beats == box_beats(boxes@, ranked, threshold),
            kept@.map_values(|p: usize| p as int) == suppression::survivors(j as nat, beats),
            forall|p: int| 0 <= p < kept@.len() ==> #[trigger] kept@[p] < j,
            kept@.len() <= j,
        decreases n - j,
    {
        let ghost before = suppression::survivors(j as nat, beats);
        let mut beaten: bool = false;
        let mut q: usize = 0;
        while q < kept.len()
            invariant
                q <= kept@.len(),
                j < n,
                n == boxes@.len(),
                places@.len() == n,
                ranked.len() == n,
                forall|p: int|
                    0 <= p < n ==> 0 <= #[trigger] ranked[p] < n && places@[p] == ranked[p],
                beats == box_beats(boxes@, ranked, threshold),
                kept@.map_values(|p: usize| p as int) == before,
                forall|p: int| 0 <= p < kept@.len() ==> #[trigger] kept@[p] < j,
                beaten == (exists|p: int| 0 <= p < q && #[trigger] beats(before[p], j as int)),
            decreases kept.len() - q,
        {
            assert(before[q as int] == kept@[q as int]);
            assert(ranked[kept@[q as int] as int] == places@[kept@[q as int] as int]);
            assert(ranked[j as int] == places@[j as int]);
            let a: ScreenRect = boxes[places[kept[q]]];
            let b: ScreenRect = boxes[places[j]];
            if exceeds(&a, &b, threshold) {
                beaten = true;
                assert(beats(before[q as int], j as int));
            }
            q = q + 1;
        }
        if !beaten {
            kept.push(j);
            assert(kept@.map_values(|p: usize| p as int) =~= before.push(j as int));
        }
        assert(beaten == suppression::beaten(before, j as int, beats));
        j = j + 1;
    }
    let ghost from = kept_boxes(boxes@, scores@, threshold);
    proof {
        suppression::law_survivors_apart(n as nat, beats);
        assert(ranks@ =~= ranks_of(scores@, boxes@.len()));
        assert(from.len() == kept@.len());
        assert forall|p: int| 0 <= p < kept@.len() implies #[trigger] from[p]
            == places@[kept@[p] as int] by {
            assert(suppression::survivors(n as nat, beats)[p] == kept@[p]);
            assert(ranked[kept@[p] as int] == places@[kept@[p] as int]);
        }
        assert forall|p: int| 0 <= p < n implies #[trigger] places@[p] < n by {
            assert(ranked[p] == places@[p]);
        }
    }
    let mut best_boxes: Vec<ScreenRect> = Vec::new();
    let mut best_scores: Vec<Single> = Vec::new();
    let mut w: usize = 0;
    while w < kept.len()
        invariant
            w <= kept@.len(),
            boxes@ == old(boxes)@,
            scores@ == old(scores)@,
            n == boxes@.len(),
            n <= scores@.len(),
            from.len() == kept@.len(),
            forall|p: int| 0 <= p < kept@.len() ==> #[trigger] kept@[p] < n,
            forall|p: int| 0 <= p < kept@.len() ==> #[trigger] from[p] == places@[kept@[p] as int],
            places@.len() == n,
            forall|p: int| 0 <= p < n ==> #[trigger] places@[p] < n,
            best_boxes@ == from.map_values(|k: int| old(boxes)@[k]).take(w as int),
            best_scores@ == from.map_values(|k: int| old(scores)@[k]).take(w as int),
        decreases kept.len() - w,
    {
        assert(from[w as int] == places@[kept@[w as int] as int]);
        let source: usize = places[kept[w]];
        best_boxes.push(boxes[source]);
        best_scores.push(scores[source]);
        w = w + 1;
        assert(best_boxes@ =~= from.map_values(|k: int| old(boxes)@[k]).take(w as int));
        assert(best_scores@ =~= from.map_values(|k: int| old(scores)@[k]).take(w as int));
    }
    assert(best_boxes@ =~= from.map_values(|k: int| old(boxes)@[k]));
    assert(best_scores@ =~= from.map_values(|k: int| old(scores)@[k]));
    *boxes = best_boxes;
    *scores = best_scores;
}

/// What is kept are boxes of the list, none of them twice, and no later one has a higher score
/// than an earlier one. No two of them overlap by more than the threshold. Every box that is
/// dropped overlaps one that is kept by more than the threshold, and its score is not the higher
/// one.
pub proof fn law_nms(boxes: Seq<ScreenRect>, scores: Seq<Single>, threshold: Single)
    requires
        boxes.len() <= scores.len(),
        boxes.len() <= usize::MAX,
        orderable(scores, boxes.len()),
    ensures
        ({
            let kept = kept_boxes(boxes, scores, threshold);
            &&& forall|p: int| 0 <= p < kept.len() ==> 0 <= #[trigger] kept[p] < boxes.len()
            &&& kept.no_duplicates()
            &&& forall|p: int, q: int|
                #![trigger kept[p], kept[q]]
                0 <= p < q < kept.len() ==> !scores[kept[q]].spec_gt(scores[kept[p]])
            &&& forall|p: int, q: int|
                #![trigger kept[p], kept[q]]
                0 <= p < kept.len() && 0 <= q < kept.len() && p != q
                    ==> !suppression::overlaps_more(boxes[kept[p]], boxes[kept[q]], threshold)
            &&& forall|k: int|
                0 <= k < boxes.len() && !kept.contains(k) ==> exists|p: int|
                    0 <= p < kept.len() && !scores[k].spec_gt(scores[kept[p]])
                        && suppression::overlaps_more(
                        boxes[#[trigger] kept[p]],
                        boxes[k],
                        threshold,
                    )
        }),
{
    let n = boxes.len();
    let ranks = ranks_of(scores, n);
    let places = ranking::ranking(ranks);
    let beats = box_beats(boxes, places, threshold);
    let left = suppression::survivors(n, beats);
    let kept = kept_boxes(boxes, scores, threshold);
    ranking::lemma_ranking(ranks);
    suppression::law_survivors_apart(n, beats);
    assert forall|p: int| 0 <= p < kept.len() implies #[trigger] kept[p] == places[left[p]] && 0
        <= kept[p] < n by {
        assert(0 <= left[p] < n);
    }
    assert forall|p: int, q: int|
        #![trigger kept[p], kept[q]]
        0 <= p < q < kept.len() implies kept[p] != kept[q] && !scores[kept[q]].spec_gt(
        scores[kept[p]],
    ) && !suppression::overlaps_more(boxes[kept[p]], boxes[kept[q]], threshold)
        && !suppression::overlaps_more(boxes[kept[q]], boxes[kept[p]], threshold) by {
        let a = left[p];
        let b = left[q];
        assert(a < b && !beats(a, b));
        lemma_not_above(scores, n, places[a], places[b]);
        suppression::law_overlap_symmetric(boxes[kept[p]], boxes[kept[q]], threshold);
    }
    assert forall|k: int| 0 <= k < n && !kept.contains(k) implies exists|p: int|
        0 <= p < kept.len() && !scores[k].spec_gt(scores[kept[p]]) && suppression::overlaps_more(
            boxes[#[trigger] kept[p]],
            boxes[k],
            threshold,
        ) by {
        assert(places.contains(k));
        let j = choose|j: int| 0 <= j < places.len() && places[j] == k;
        if left.contains(j) {
            let p = choose|p: int| 0 <= p < left.len() && left[p] == j;
            assert(kept[p] == k);
        }
        suppression::law_suppressed_beaten(n, beats, j);
        let p = choose|p: int| 0 <= p < left.len() && left[p] < j && #[trigger] beats(left[p], j);
        assert(kept[p] == places[left[p]]);
        lemma_not_above(scores, n, places[left[p]], k);
    }
}

/// An index whose rank is not below that of another has a score that the other's is not above.
proof fn lemma_not_above(scores: Seq<Single>, n: nat, a: int, b: int)
    requires
        0 <= a < n,
        0 <= b < n,
        orderable(scores, n),
        ranks_of(scores, n)[a] >= ranks_of(scores, n)[b],
    ensures
        !scores[b].spec_gt(scores[a]),
{
    if !some_nan(scores, n) {
        assert(!scores[a].is_nan() && !scores[b].is_nan());
    }
}

proof fn lemma_padded_row_at(
    resized: Seq<u8>,
    new_width: int,
    new_height: int,
    width: int,
    y: int,
    x: int,
    c: int,
)
    requires
        0 <= new_width <= width,
        0 <= new_height,
        resized.len() == new_width * new_height * 3,
        0 <= y,
        0 <= x < width,
        0 <= c < 3,
    ensures
        padded_row(resized, new_width, new_height, width, y).len() == width * 3,
        padded_row(resized, new_width, new_height, width, y)[x * 3 + c] == if y < new_height && x
            < new_width {
            resized[(y * new_width + x) * 3 + c]
        } else {
            0
        },
{
    if y < new_height {
        assert((y + 1) * (new_width * 3) <= new_width * new_height * 3) by (nonlinear_arith)
            requires
                0 <= y < new_height,
                0 <= new_width,
        ;
        assert(y * (new_width * 3) == (y * new_width) * 3) by (nonlinear_arith);
    }
}

proof fn lemma_padded_at(
    resized: Seq<u8>,
    new_width: int,
    new_height: int,
    width: int,
    rows: nat,
    y: int,
    x: int,
    c: int,
)
    requires
        0 <= new_width <= width,
        0 <= new_height,
        resized.len() == new_width * new_height * 3,
        0 <= y < rows,
        0 <= x < width,
        0 <= c < 3,
    ensures
        padded(resized, new_width, new_height, width, rows).len() == width * rows * 3,
        padded(resized, new_width, new_height, width, rows)[(y * width + x) * 3 + c] == if y
            < new_height && x < new_width {
            resized[(y * new_width + x) * 3 + c]
        } else {
            0
        },
    decreases rows,
{
    let before = padded(resized, new_width, new_height, width, (rows - 1) as nat);
    lemma_padded_len(resized, new_width, new_height, width, (rows - 1) as nat);
    assert(width * rows * 3 == width * (rows - 1) * 3 + width * 3) by (nonlinear_arith);
    let at = (y * width + x) * 3 + c;
    if y < rows - 1 {
        assert(0 <= at < width * (rows - 1) * 3) by (nonlinear_arith)
            requires
                at == (y * width + x) * 3 + c,
                0 <= y < rows - 1,
                0 <= x < width,
                0 <= c < 3,
        ;
        lemma_padded_at(resized, new_width, new_height, width, (rows - 1) as nat, y, x, c);
    } else {
        assert(at == width * (rows - 1) * 3 + x * 3 + c) by (nonlinear_arith)
            requires
                at == (y * width + x) * 3 + c,
                y == rows - 1,
        ;
        lemma_padded_row_at(resized, new_width, new_height, width, y, x, c);
    }
}

proof fn lemma_padded_len(
    resized: Seq<u8>,
    new_width: int,
    new_height: int,
    width: int,
    rows: nat,
)
    requires
        0 <= width,
    ensures
        padded(resized, new_width, new_height, width, rows).len() == width * rows * 3,
    decreases rows,
{
    if rows > 0 {
        lemma_padded_len(resized, new_width, new_height, width, (rows - 1) as nat);
        assert(width * rows * 3 == width * (rows - 1) * 3 + width * 3) by (nonlinear_arith);
    } else {
        assert(width * 0 * 3 == 0) by (nonlinear_arith);
    }
}

/// A padded picture has the target's size. It shows the smaller picture pixel by pixel from its
/// left upper corner on, and everything right of it and below it is black.
pub proof fn law_padded_pixels(
    resized: Seq<u8>,
    new_width: int,
    new_height: int,
    width: int,
    height: int,
)
    requires
        0 <= new_width <= width,
        0 <= new_height <= height,
        resized.len() == new_width * new_height * 3,
    ensures
        ({
            let out = padded(resized, new_width, new_height, width, height as nat);
            &&& out.len() == width * height * 3
            &&& forall|y: int, x: int, c: int|
                #![trigger out[(y * width + x) * 3 + c]]
                0 <= y < height && 0 <= x < width && 0 <= c < 3 ==> out[(y * width + x) * 3 + c]
                    == if y < new_height && x < new_width {
                    resized[(y * new_width + x) * 3 + c]
                } else {
                    0
                }
        }),
{
    lemma_padded_len(resized, new_width, new_height, width, height as nat);
    let out = padded(resized, new_width, new_height, width, height as nat);
    assert forall|y: int, x: int, c: int|
        #![trigger out[(y * width + x) * 3 + c]]
        0 <= y < height && 0 <= x < width && 0 <= c < 3 implies out[(y * width + x) * 3 + c] == if y
        < new_height && x < new_width {
        resized[(y * new_width + x) * 3 + c]
    } else {
        0
    } by {
        lemma_padded_at(resized, new_width, new_height, width, height as nat, y, x, c);
    }
}

/// The quotient of two sizes, as a single.
proof fn lemma_size_quotient(a: u32, b: u32)
    requires
        0 < a <= 0x1_0000,
        0 < b <= 0x1_0000,
    ensures
        ({
            let q = Single::of_int(a as int).quotient(Single::of_int(b as int));
            let x = a as real / (b as real);
            &&& q.is_finite()
            &&& 0real < x && x <= 65536real
            &&& numeric::size_of(numeric::number(q) - x) <= (x + 1real / 1000000000000real)
                / 16777216real
        }),
{
    numeric::lemma_powers();
    numeric::lemma_power_rises(24, 127);
    numeric::law_of_int(a as int);
    numeric::law_of_int(b as int);
    let (ar, br) = (a as real, b as real);
    let x = ar / br;
    assert(0real < x && x <= 65536real) by (nonlinear_arith)
        requires
            x == ar / br,
            1real <= ar <= 65536real,
            br >= 1real,
    ;
    numeric::law_quotient(Single::of_int(a as int), Single::of_int(b as int));
    numeric::lemma_close(
        numeric::number(Single::of_int(a as int).quotient(Single::of_int(b as int))),
        x,
        x,
    );
}

/// A size times a factor that is near to `k`, as a whole number.
proof fn lemma_scaled_size(size: u32, scale: Single, k: real)
    requires
        0 < size <= 0x1_0000,
        scale.is_finite(),
        0real < k,
        size as real * k <= 65536real,
        numeric::size_of(numeric::number(scale) - k) <= (k + 1real / 1000000000000real) / 16777216real,
    ensures
        ({
            let n = Single::of_int(size as int).product(scale).clamped(0, u32::MAX as int);
            &&& (n as real) - size as real * k <= 1real / 64real
            &&& size as real * k - (n as real) <= 65real / 64real
        }),
{
    numeric::lemma_powers();
    numeric::lemma_power_rises(24, 127);
    numeric::law_of_int(size as int);
    let a = size as real;
    let v = numeric::number(scale);
    let x = a * v;
    let t = a * k;
    let e = (k + 1real / 1000000000000real) / 16777216real;
    assert(x - t <= a * e && t - x <= a * e && x > -1real / 128real) by (nonlinear_arith)
        requires
            x == a * v,
            t == a * k,
            -e <= v - k <= e,
            a >= 1real,
            a <= 65536real,
            e == (k + 1real / 1000000000000real) / 16777216real,
            k > 0real,
    ;
    assert(a * e <= 1real / 200real) by (nonlinear_arith)
        requires
            e * 16777216real == k + 1real / 1000000000000real,
            a * k <= 65536real,
            0real < a <= 65536real,
    ;
    numeric::law_product(Single::of_int(size as int), scale);
    let p = Single::of_int(size as int).product(scale);
    numeric::lemma_close(numeric::number(p), x, 65537real);
    numeric::law_clamped(p, 0, u32::MAX as int);
}

/// A fitted picture keeps its shape: it is as wide as the target or as high as the target,
/// whichever is reached first, and both sides are scaled by the same factor, up to the part of a
/// pixel that is cut off.
pub proof fn law_fitted_shape(src_width: u32, src_height: u32, width: u32, height: u32)
    requires
        0 < src_width <= 0x1_0000,
        0 < src_height <= 0x1_0000,
        0 < width <= 0x1_0000,
        0 < height <= 0x1_0000,
    ensures
        ({
            let (w, h) = fitted(src_width, src_height, width, height);
            let across = width as real / (src_width as real);
            let down = height as real / (src_height as real);
            let k = if across <= down {
                across
            } else {
                down
            };
            &&& 0 <= w <= width
            &&& 0 <= h <= height
            &&& across <= down ==> width - 1 <= w
            &&& across >= down ==> height - 1 <= h
            &&& (w as real) - src_width as real * k <= 1real / 64real
            &&& src_width as real * k - (w as real) <= 65real / 64real
            &&& (h as real) - src_height as real * k <= 1real / 64real
            &&& src_height as real * k - (h as real) <= 65real / 64real
        }),
{
    lemma_size_quotient(width, src_width);
    lemma_size_quotient(height, src_height);
    let qa = Single::of_int(width as int).quotient(Single::of_int(src_width as int));
    let qd = Single::of_int(height as int).quotient(Single::of_int(src_height as int));
    numeric::law_order(qa, qd);
    let across = width as real / (src_width as real);
    let down = height as real / (src_height as real);
    let k = if across <= down {
        across
    } else {
        down
    };
    let scale = fit_scale(src_width, src_height, width, height);
    let v = numeric::number(scale);
    let tiny = 1real / 1000000000000real;
    let e = (k + tiny) / 16777216real;
    assert(scale == if numeric::number(qa) > numeric::number(qd) {
        qd
    } else {
        qa
    });
    assert(v <= numeric::number(qa) && v <= numeric::number(qd));
    assert(v - k <= e);
    assert(k - v <= e) by {
        let other = if scale == qa {
            across
        } else {
            down
        };
        assert(other >= k);
        assert(other - v <= (other + tiny) / 16777216real);
        assert(k - v <= e) by (nonlinear_arith)
            requires
                other >= k,
                other - v <= (other + tiny) / 16777216real,
                e == (k + tiny) / 16777216real,
        ;
    }
    let (sw, sh, wr, hr) = (
        src_width as real,
        src_height as real,
        width as real,
        height as real,
    );
    assert(sw * k <= wr && (k == across ==> sw * k == wr)) by (nonlinear_arith)
        requires
            across == wr / sw,
            k <= across,
            sw > 0real,
    ;
    assert(sh * k <= hr && (k == down ==> sh * k == hr)) by (nonlinear_arith)
        requires
            down == hr / sh,
            k <= down,
            sh > 0real,
    ;
    lemma_scaled_size(src_width, scale, k);
    lemma_scaled_size(src_height, scale, k);
    numeric::law_clamped_range(Single::of_int(src_width as int).product(scale), 0, u32::MAX as int);
    numeric::law_clamped_range(Single::of_int(src_height as int).product(scale), 0, u32::MAX as int);
}

/// What is said of a picture that was fitted: one that nearly fills the target is handed on as it
/// is, with the factors one; otherwise the factors are those by which its sides have shrunk.
pub proof fn law_resize_factors(
    data: Seq<u8>,
    src_width: u32,
    src_height: u32,
    width: u32,
    height: u32,
)
    requires
        0 < src_width <= 0x1_0000,
        0 < src_height <= 0x1_0000,
        0 < width <= 0x1_0000,
        0 < height <= 0x1_0000,
        fitted(src_width, src_height, width, height).0 > 0,
        fitted(src_width, src_height, width, height).1 > 0,
    ensures
        ({
            let (w, h) = fitted(src_width, src_height, width, height);
            let (out, x, y) = resized_and_padded(data, src_width, src_height, width, height);
            let (right, bottom) = (width - w, height - h);
            let (across, down) = (src_width as real / (w as real), src_height as real / (h as real));
            if (right == 0 && bottom <= 54) || (bottom == 0 && right <= 69) {
                &&& out == data
                &&& numeric::number(x) == 1real
                &&& numeric::number(y) == 1real
            } else {
                &&& numeric::size_of(numeric::number(x) - across) <= 1real / 128real
                &&& numeric::size_of(numeric::number(y) - down) <= 1real / 128real
            }
        }),
{
    let (w, h) = fitted(src_width, src_height, width, height);
    law_fitted_shape(src_width, src_height, width, height);
    numeric::lemma_powers();
    lemma_size_quotient(src_width, w as u32);
    lemma_size_quotient(src_height, h as u32);
    numeric::lemma_one();
}

/// Nothing comes of a picture or a target without pixels. A picture of which nothing is left in
/// the target becomes a black one of the target's size. Either way the factors are one.
pub proof fn law_nothing_left(
    data: Seq<u8>,
    src_width: u32,
    src_height: u32,
    width: u32,
    height: u32,
    i: int,
)
    requires
        ({
            let (w, h) = fitted(src_width, src_height, width, height);
            src_width == 0 || src_height == 0 || width == 0 || height == 0 || w == 0 || h == 0
        }),
    ensures
        ({
            let (out, x, y) = resized_and_padded(data, src_width, src_height, width, height);
            &&& numeric::number(x) == 1real
            &&& numeric::number(y) == 1real
            &&& src_width == 0 || src_height == 0 ==> out.len() == 0
            &&& src_width > 0 && src_height > 0 ==> out.len() == 3 * (width * height)
            &&& 0 <= i < out.len() ==> out[i] == 0
        }),
{
    numeric::lemma_one();
    let (w, h) = (width as int, height as int);
    assert(0 <= w * h) by (nonlinear_arith)
        requires
            w >= 0,
            h >= 0,
    ;
    assert(w == 0 || h == 0 ==> w * h == 0) by (nonlinear_arith);
}

/// The picture that is resampled holds all pixels; it begins with the given ones where these are
/// enough, and is black where they are not.
pub proof fn law_source_pixels(data: Seq<u8>, width: u32, height: u32, i: int)
    requires
        0 <= i < 3 * (width * height),
    ensures
        ({
            let s = source(data, width as int, height as int);
            &&& s.len() >= 3 * (width * height)
            &&& s[i] == (if data.len() >= 3 * (width * height) {
                data[i]
            } else {
                0
            })
        }),
{
    let n = width * height;
    assert(width as int * height as int * 3 == 3 * n);
}

} // verus!
