//! Reading the heads of a YOLO network.
//!
//! The outputs of the network go through the exponential function before they are read here:
//! a head holds `e` to the power of each output, or to the power of its negative. Everything
//! after that is computed in single precision, bit for bit.

use vstd::prelude::*;

use crate::numeric;
use crate::ranking;
use crate::ranking::order;
use crate::single::{Single, ONE_BITS};
use crate::vision::geometry::ScreenRect;
use crate::vision::suppression;
use crate::vision::suppression::exceeds;

verus! {

/// The bits of 1.05, by which the centre of a box may leave its cell.
pub const SCALE_X_Y: u32 = 0x3f86_6666;

/// The bits of 0.5.
pub const HALF_BITS: u32 = 0x3f00_0000;

pub const NUM_CLASSES: usize = 2;

/// The outputs for one box: its centre, its size, whether it holds anything, and a number for
/// each class.
pub const CHANNELS_PER_ANCHOR: usize = 7;

/// The widths and heights that the boxes are measured by.
pub open spec fn anchor_size(i: int) -> (int, int) {
    if i == 0 {
        (10, 14)
    } else if i == 1 {
        (23, 27)
    } else if i == 2 {
        (37, 58)
    } else if i == 3 {
        (81, 82)
    } else if i == 4 {
        (135, 169)
    } else {
        (344, 319)
    }
}

pub fn anchor(i: usize) -> (r: (u32, u32))
    requires
        i < 6,
    ensures
        r.0 == anchor_size(i as int).0,
        r.1 == anchor_size(i as int).1,
{
    if i == 0 {
        (10, 14)
    } else if i == 1 {
        (23, 27)
    } else if i == 2 {
        (37, 58)
    } else if i == 3 {
        (81, 82)
    } else if i == 4 {
        (135, 169)
    } else {
        (344, 319)
    }
}

/// The anchors of a head: the large ones for the coarse grid, which comes first, and the small
/// ones for the fine grid.
pub open spec fn mask(head: int, a: int) -> int {
    if head == 0 {
        3 + a
    } else {
        a
    }
}

/// Whether a head holds the exponential of the negative of an output. The sizes of boxes are
/// the exception.
pub fn negates(channel: usize) -> (r: bool)
    ensures
        r == (channel % 7 != 2 && channel % 7 != 3),
{
    channel % CHANNELS_PER_ANCHOR != 2 && channel % CHANNELS_PER_ANCHOR != 3
}

/// A box that the network proposes, in the coordinates of its input.
#[derive(Debug, Clone, Copy, PartialEq, Eq, Structural)]
pub struct YoloCandidate {
    pub class_id: i32,
    pub confidence: Single,
    pub rect_network: ScreenRect,
}

/// The exponentials of an output of the network, channel by channel, row by row.
#[derive(Debug)]
pub struct YoloHead {
    pub data: Vec<Single>,
    pub height: u32,
    pub width: u32,
}

impl YoloHead {
    /// Whether all channels of all cells are there.
    pub open spec fn complete(&self) -> bool {
        21 * (self.height * self.width) <= self.data@.len()
    }

    /// The value of channel `c` for the cell in column `gw` of row `gh`.
    pub open spec fn at(&self, c: int, gh: int, gw: int) -> Single {
        self.data@[c * (self.height * self.width) + gh * self.width + gw]
    }
}

/// The logistic function, from the exponential of the negative of its argument.
pub open spec fn logistic(e: Single) -> Single {
    let one = Single { bits: ONE_BITS };
    one.quotient(one.sum(e))
}

pub fn sigmoid(e: Single) -> (r: Single)
    ensures
        r == logistic(e),
{
    let one = Single { bits: ONE_BITS };
    one.over(one.plus(e))
}

/// The centre of a box in the network's input, across or down.
pub open spec fn centre(e: Single, cell: int, cells: int, size: int) -> Single {
    let scale = Single { bits: SCALE_X_Y };
    let one = Single { bits: ONE_BITS };
    let half = Single { bits: HALF_BITS };
    logistic(e).product(scale).sum(half.product(scale.sum(one.negated())).negated()).sum(
        Single::of_int(cell),
    ).quotient(Single::of_int(cells)).product(Single::of_int(size))
}

fn centre_of(e: Single, cell: u32, cells: u32, size: u32) -> (r: Single)
    ensures
        r == centre(e, cell as int, cells as int, size as int),
{
    let scale = Single { bits: SCALE_X_Y };
    let one = Single { bits: ONE_BITS };
    let half = Single { bits: HALF_BITS };
    sigmoid(e).times(scale).minus(half.times(scale.minus(one))).plus(
        Single::from_u64(cell as u64),
    ).over(Single::from_u64(cells as u64)).times(Single::from_u64(size as u64))
}

/// The box of a cell and an anchor.
pub open spec fn cell_rect(
    head: YoloHead,
    number: int,
    network_width: int,
    network_height: int,
    gh: int,
    gw: int,
    a: int,
) -> ScreenRect {
    let base = a * 7;
    let half = Single { bits: HALF_BITS };
    let (anchor_w, anchor_h) = anchor_size(mask(number, a));
    let bx = centre(head.at(base, gh, gw), gw, head.width as int, network_width);
    let by = centre(head.at(base + 1, gh, gw), gh, head.height as int, network_height);
    let bw = head.at(base + 2, gh, gw).product(Single::of_int(anchor_w));
    let bh = head.at(base + 3, gh, gw).product(Single::of_int(anchor_h));
    ScreenRect {
        x: bx.sum(bw.product(half).negated()).clamped(i32::MIN as int, i32::MAX as int) as i32,
        y: by.sum(bh.product(half).negated()).clamped(i32::MIN as int, i32::MAX as int) as i32,
        width: bw.clamped(0, u32::MAX as int) as u32,
        height: bh.clamped(0, u32::MAX as int) as u32,
    }
}

/// How sure the network is that the box of a cell and an anchor holds something of a class.
pub open spec fn cell_confidence(head: YoloHead, gh: int, gw: int, a: int, class: int) -> Single {
    logistic(head.at(a * 7 + 4, gh, gw)).product(logistic(head.at(a * 7 + 5 + class, gh, gw)))
}

/// The candidates of a cell and an anchor: one for each class, unless the box is empty.
pub open spec fn cell_candidates(
    head: YoloHead,
    number: int,
    network_width: int,
    network_height: int,
    gh: int,
    gw: int,
    a: int,
) -> Seq<YoloCandidate> {
    let rect = cell_rect(head, number, network_width, network_height, gh, gw, a);
    if rect.width == 0 || rect.height == 0 {
        Seq::empty()
    } else {
        seq![
            YoloCandidate {
                class_id: 0,
                confidence: cell_confidence(head, gh, gw, a, 0),
                rect_network: rect,
            },
            YoloCandidate {
                class_id: 1,
                confidence: cell_confidence(head, gh, gw, a, 1),
                rect_network: rect,
            },
        ]
    }
}

/// The candidates of a cell, for its first `n` anchors.
pub open spec fn anchor_candidates(
    head: YoloHead,
    number: int,
    network_width: int,
    network_height: int,
    gh: int,
    gw: int,
    n: nat,
) -> Seq<YoloCandidate>
    decreases n,
{
    if n == 0 {
        Seq::empty()
    } else {
        anchor_candidates(head, number, network_width, network_height, gh, gw, (n - 1) as nat)
            + cell_candidates(head, number, network_width, network_height, gh, gw, n - 1)
    }
}

/// The candidates of the first `n` cells of a row.
pub open spec fn row_candidates(
    head: YoloHead,
    number: int,
    network_width: int,
    network_height: int,
    gh: int,
    n: nat,
) -> Seq<YoloCandidate>
    decreases n,
{
    if n == 0 {
        Seq::empty()
    } else {
        row_candidates(head, number, network_width, network_height, gh, (n - 1) as nat)
            + anchor_candidates(head, number, network_width, network_height, gh, n - 1, 3)
    }
}

/// The candidates of the first `n` rows of a head.
pub open spec fn head_candidates(
    head: YoloHead,
    number: int,
    network_width: int,
    network_height: int,
    n: nat,
) -> Seq<YoloCandidate>
    decreases n,
{
    if n == 0 {
        Seq::empty()
    } else {
        head_candidates(head, number, network_width, network_height, (n - 1) as nat)
            + row_candidates(
            head,
            number,
            network_width,
            network_height,
            n - 1,
            head.width as nat,
        )
    }
}

/// The candidates of all heads.
pub open spec fn candidates_of(
    heads: Seq<YoloHead>,
    network_width: int,
    network_height: int,
) -> Seq<YoloCandidate>
    decreases heads.len(),
{
    if heads.len() == 0 {
        Seq::empty()
    } else {
        candidates_of(heads.drop_last(), network_width, network_height) + head_candidates(
            heads.last(),
            heads.len() - 1,
            network_width,
            network_height,
            heads.last().height as nat,
        )
    }
}

/// The value of channel `c` of a cell.
fn value_at(head: &YoloHead, c: usize, gh: u32, gw: u32) -> (r: Single)
    requires
        head.complete(),
        c < 21,
        gh < head.height,
        gw < head.width,
    ensures
        r == head.at(c as int, gh as int, gw as int),
{
    let len: usize = head.data.len();
    let h: usize = head.height as usize;
    let w: usize = head.width as usize;
    assert(0 <= gh * w && gh * w + gw < h * w) by (nonlinear_arith)
        requires
            0 <= gh < h,
            0 <= gw < w,
    ;
    assert(0 <= c * (h * w) <= 20 * (h * w)) by (nonlinear_arith)
        requires
            0 <= c <= 20,
            0 <= h * w,
    ;
    assert(0 <= h * w) by (nonlinear_arith)
        requires
            h >= 0,
            w >= 0,
    ;
    head.data[c * (h * w) + gh as usize * w + gw as usize]
}

fn push_cell(
    head: &YoloHead,
    number: usize,
    network_width: u32,
    network_height: u32,
    gh: u32,
    gw: u32,
    a: usize,
    out: &mut Vec<YoloCandidate>,
)
    requires
        head.complete(),
        number < 2,
        a < 3,
        gh < head.height,
        gw < head.width,
    ensures
        final(out)@ == old(out)@ + cell_candidates(
            *head,
            number as int,
            network_width as int,
            network_height as int,
            gh as int,
            gw as int,
            a as int,
        ),
{
    let base: usize = a * CHANNELS_PER_ANCHOR;
    let half = Single { bits: HALF_BITS };
    let (anchor_w, anchor_h): (u32, u32) = anchor(
        if number == 0 {
            3 + a
        } else {
            a
        },
    );
    let bx = centre_of(value_at(head, base, gh, gw), gw, head.width, network_width);
    let by = centre_of(value_at(head, base + 1, gh, gw), gh, head.height, network_height);
    let bw = value_at(head, base + 2, gh, gw).times(Single::from_u64(anchor_w as u64));
    let bh = value_at(head, base + 3, gh, gw).times(Single::from_u64(anchor_h as u64));
    let x: i32 = bx.minus(bw.times(half)).to_i32();
    let y: i32 = by.minus(bh.times(half)).to_i32();
    let rect = ScreenRect::new(x, y, bw.to_u32(), bh.to_u32());
    if rect.width == 0 || rect.height == 0 {
        assert(out@ =~= old(out)@ + Seq::<YoloCandidate>::empty());
        return;
    }
    let sure = sigmoid(value_at(head, base + 4, gh, gw));
    let male = sigmoid(value_at(head, base + 5, gh, gw));
    let female = sigmoid(value_at(head, base + 6, gh, gw));
    out.push(YoloCandidate { class_id: 0, confidence: sure.times(male), rect_network: rect });
    out.push(YoloCandidate { class_id: 1, confidence: sure.times(female), rect_network: rect });
    assert(out@ =~= old(out)@ + cell_candidates(
        *head,
        number as int,
        network_width as int,
        network_height as int,
        gh as int,
        gw as int,
        a as int,
    ));
}

fn push_head(
    head: &YoloHead,
    number: usize,
    network_width: u32,
    network_height: u32,
    out: &mut Vec<YoloCandidate>,
)
    requires
        head.complete(),
        number < 2,
    ensures
        final(out)@ == old(out)@ + head_candidates(
            *head,
            number as int,
            network_width as int,
            network_height as int,
            head.height as nat,
        ),
{
    let ghost k = number as int;
    let ghost nw = network_width as int;
    let ghost nh = network_height as int;
    let ghost start = out@;
    assert(out@ =~= start + head_candidates(*head, k, nw, nh, 0));
    let mut gh: u32 = 0;
    while gh < head.height
        invariant
            gh <= head.height,
            head.complete(),
            number < 2,
            k == number,
            nw == network_width,
            nh == network_height,
            out@ == start + head_candidates(*head, k, nw, nh, gh as nat),
        decreases head.height - gh,
    {
        let ghost before = out@;
        let mut gw: u32 = 0;
        assert(out@ =~= before + row_candidates(*head, k, nw, nh, gh as int, 0));
        while gw < head.width
            invariant
                gw <= head.width,
                gh < head.height,
                head.complete(),
                number < 2,
                k == number,
                nw == network_width,
                nh == network_height,
                out@ == before + row_candidates(*head, k, nw, nh, gh as int, gw as nat),
            decreases head.width - gw,
        {
            let ghost row = out@;
            let mut a: usize = 0;
            assert(out@ =~= row + anchor_candidates(*head, k, nw, nh, gh as int, gw as int, 0));
            while a < 3
                invariant
                    a <= 3,
                    gw < head.width,
                    gh < head.height,
                    head.complete(),
                    number < 2,
                    k == number,
                    nw == network_width,
                    nh == network_height,
                    out@ == row + anchor_candidates(
                        *head,
                        k,
                        nw,
                        nh,
                        gh as int,
                        gw as int,
                        a as nat,
                    ),
                decreases 3 - a,
            {
                push_cell(head, number, network_width, network_height, gh, gw, a, out);
                a = a + 1;
                assert(out@ =~= row + anchor_candidates(
                    *head,
                    k,
                    nw,
                    nh,
                    gh as int,
                    gw as int,
                    a as nat,
                ));
            }
            gw = gw + 1;
            assert(out@ =~= before + row_candidates(*head, k, nw, nh, gh as int, gw as nat));
        }
        gh = gh + 1;
        assert(out@ =~= start + head_candidates(*head, k, nw, nh, gh as nat));
    }
}

/// All boxes that the heads propose, head by head, row by row, with both classes to each box.
pub fn decode_heads(heads: &[YoloHead], network_width: u32, network_height: u32) -> (r: Vec<
    YoloCandidate,
>)
    requires
        heads@.len() <= 2,
        forall|i: int| 0 <= i < heads@.len() ==> (#[trigger] heads@[i]).complete(),
    ensures
        r@ == candidates_of(heads@, network_width as int, network_height as int),
{
    let mut out: Vec<YoloCandidate> = Vec::new();
    let mut i: usize = 0;
    while i < heads.len()
        invariant
            i <= heads@.len() <= 2,
            forall|k: int| 0 <= k < heads@.len() ==> (#[trigger] heads@[k]).complete(),
            out@ == candidates_of(
                heads@.take(i as int),
                network_width as int,
                network_height as int,
            ),
        decreases heads.len() - i,
    {
        assert(heads@.take(i + 1).drop_last() =~= heads@.take(i as int));
        push_head(&heads[i], i, network_width, network_height, &mut out);
        i = i + 1;
    }
    assert(heads@.take(i as int) =~= heads@);
    out
}

/// The candidates that are sure enough and of a wanted class.
pub open spec fn wanted(
    candidates: Seq<YoloCandidate>,
    confidence_threshold: Single,
    target_classes: Seq<i32>,
) -> Seq<YoloCandidate>
    decreases candidates.len(),
{
    if candidates.len() == 0 {
        Seq::empty()
    } else {
        let before = wanted(candidates.drop_last(), confidence_threshold, target_classes);
        let c = candidates.last();
        if c.confidence.spec_ge(confidence_threshold) && target_classes.contains(c.class_id) {
            before.push(c)
        } else {
            before
        }
    }
}

/// The candidates from the surest one to the least sure one.
pub open spec fn by_confidence(candidates: Seq<YoloCandidate>) -> Seq<YoloCandidate> {
    ranking::ranking(confidence_ranks(candidates)).map_values(|i: int| candidates[i])
}

pub open spec fn confidence_ranks(candidates: Seq<YoloCandidate>) -> Seq<i64> {
    candidates.map_values(|c: YoloCandidate| c.confidence.rank() as i64)
}

/// Whether one candidate takes out another: both are of one class and overlap too much.
pub open spec fn takes_out(
    candidates: Seq<YoloCandidate>,
    nms_threshold: Single,
) -> spec_fn(int, int) -> bool {
    |i: int, j: int|
        candidates[i].class_id == candidates[j].class_id && suppression::overlaps_more(
            candidates[i].rect_network,
            candidates[j].rect_network,
            nms_threshold,
        )
}

/// What is left of candidates after thinning out.
pub open spec fn best(
    candidates: Seq<YoloCandidate>,
    confidence_threshold: Single,
    nms_threshold: Single,
    target_classes: Seq<i32>,
) -> Seq<YoloCandidate> {
    let sorted = by_confidence(wanted(candidates, confidence_threshold, target_classes));
    suppression::survivors(sorted.len(), takes_out(sorted, nms_threshold)).map_values(
        |p: int| sorted[p],
    )
}

pub fn holds(classes: &[i32], id: i32) -> (r: bool)
    ensures
        r == classes@.contains(id),
{
    let mut i: usize = 0;
    while i < classes.len()
        invariant
            i <= classes.len(),
            forall|k: int| 0 <= k < i ==> classes@[k] != id,
        decreases classes.len() - i,
    {
        if classes[i] == id {
            return true;
        }
        i = i + 1;
    }
    false
}

fn keep_wanted(
    candidates: &Vec<YoloCandidate>,
    confidence_threshold: Single,
    target_classes: &[i32],
) -> (r: Vec<YoloCandidate>)
    ensures
        r@ == wanted(candidates@, confidence_threshold, target_classes@),
{
    let mut r: Vec<YoloCandidate> = Vec::new();
    let mut i: usize = 0;
    while i < candidates.len()
        invariant
            i <= candidates.len(),
            r@ == wanted(candidates@.take(i as int), confidence_threshold, target_classes@),
        decreases candidates.len() - i,
    {
        assert(candidates@.take(i + 1).drop_last() =~= candidates@.take(i as int));
        let c: YoloCandidate = candidates[i];
        if c.confidence.ge(confidence_threshold) && holds(target_classes, c.class_id) {
            r.push(c);
        }
        i = i + 1;
    }
    assert(candidates@.take(i as int) =~= candidates@);
    r
}

fn sort_by_confidence(candidates: &Vec<YoloCandidate>) -> (r: Vec<YoloCandidate>)
    ensures
        r@ == by_confidence(candidates@),
{
    let mut ranks: Vec<i64> = Vec::new();
    let mut i: usize = 0;
    while i < candidates.len()
        invariant
            i <= candidates.len(),
            ranks@ == confidence_ranks(candidates@).take(i as int),
        decreases candidates.len() - i,
    {
        ranks.push(candidates[i].confidence.signed_size());
        i = i + 1;
        assert(ranks@ =~= confidence_ranks(candidates@).take(i as int));
    }
    assert(ranks@ =~= confidence_ranks(candidates@));
    let places = order(&ranks);
    proof {
        ranking::lemma_ranking(ranks@);
        assert(places@.map_values(|k: usize| k as int) =~= ranking::ranking(ranks@));
        assert forall|p: int| 0 <= p < places@.len() implies places@[p] == ranking::ranking(
            ranks@,
        )[p] && #[trigger] places@[p] < candidates@.len() by {
            assert(places@.map_values(|k: usize| k as int)[p] == places@[p]);
        }
    }
    let mut r: Vec<YoloCandidate> = Vec::new();
    let mut k: usize = 0;
    while k < places.len()
        invariant
            k <= places.len(),
            places@.len() == ranking::ranking(confidence_ranks(candidates@)).len(),
            forall|p: int|
                0 <= p < places@.len() ==> #[trigger] places@[p] < candidates@.len() && places@[p]
                    == ranking::ranking(confidence_ranks(candidates@))[p],
            r@ == by_confidence(candidates@).take(k as int),
        decreases places.len() - k,
    {
        r.push(candidates[places[k]]);
        k = k + 1;
        assert(r@ =~= by_confidence(candidates@).take(k as int));
    }
    assert(r@ =~= by_confidence(candidates@));
    r
}

/// Keeps the candidates that are sure enough and of a wanted class, from the surest one to the
/// least sure one, without those that overlap a surer one of their class by more than
/// `nms_threshold`.
pub fn filter_and_nms(
    candidates: Vec<YoloCandidate>,
    confidence_threshold: Single,
    nms_threshold: Single,
    target_classes: &[i32],
) -> (r: Vec<YoloCandidate>)
    ensures
        r@ == best(candidates@, confidence_threshold, nms_threshold, target_classes@),
{
    let kept_classes = keep_wanted(&candidates, confidence_threshold, target_classes);
    let sorted = sort_by_confidence(&kept_classes);
    let ghost beats = takes_out(sorted@, nms_threshold);
    let mut kept: Vec<usize> = Vec::new();
    let mut j: usize = 0;
    while j < sorted.len()
        invariant
            j <= sorted@.len(),
            beats == takes_out(sorted@, nms_threshold),
            kept@.map_values(|p: usize| p as int) == suppression::survivors(j as nat, beats),
            forall|p: int| 0 <= p < kept@.len() ==> #[trigger] kept@[p] < j,
        decreases sorted.len() - j,
    {
        let ghost before = suppression::survivors(j as nat, beats);
        let mut beaten: bool = false;
        let mut q: usize = 0;
        while q < kept.len()
            invariant
                q <= kept@.len(),
                j < sorted@.len(),
                beats == takes_out(sorted@, nms_threshold),
                kept@.map_values(|p: usize| p as int) == before,
                forall|p: int| 0 <= p < kept@.len() ==> #[trigger] kept@[p] < j,
                beaten == (exists|p: int| 0 <= p < q && #[trigger] beats(before[p], j as int)),
            decreases kept.len() - q,
        {
            assert(before[q as int] == kept@[q as int]);
            let a: YoloCandidate = sorted[kept[q]];
            let b: YoloCandidate = sorted[j];
            if a.class_id == b.class_id && exceeds(&a.rect_network, &b.rect_network, nms_threshold) {
                beaten = true;
                assert(beats(before[q as int], j as int));
            }
            q = q + 1;
        }
        if !beaten {
            kept.push(j);
            assert(kept@.map_values(|p: usize| p as int) =~= before.push(j as int));
        }
        assert(beaten == suppression::beaten(before, j as int, beats));
        j = j + 1;
    }
    let ghost left = suppression::survivors(sorted@.len(), beats);
    let mut r: Vec<YoloCandidate> = Vec::new();
    let mut k: usize = 0;
    while k < kept.len()
        invariant
            k <= kept@.len(),
            kept@.map_values(|p: usize| p as int) == left,
            forall|p: int| 0 <= p < kept@.len() ==> #[trigger] kept@[p] < sorted@.len(),
            r@ == left.map_values(|p: int| sorted@[p]).take(k as int),
        decreases kept.len() - k,
    {
        assert(left[k as int] == kept@[k as int]);
        r.push(sorted[kept[k]]);
        k = k + 1;
        assert(r@ =~= left.map_values(|p: int| sorted@[p]).take(k as int));
    }
    assert(r@ =~= left.map_values(|p: int| sorted@[p]));
    r
}

/// The entries of `picked` stand in `list`, each at an index of its own: those in `places`.
pub open spec fn picked_at(
    picked: Seq<YoloCandidate>,
    list: Seq<YoloCandidate>,
    places: Seq<int>,
) -> bool {
    &&& places.no_duplicates()
    &&& forall|i: int| 0 <= i < places.len() ==> 0 <= #[trigger] places[i] < list.len()
    &&& picked == places.map_values(|k: int| list[k])
}

/// Where the wanted candidates stand.
spec fn wanted_places(
    candidates: Seq<YoloCandidate>,
    confidence_threshold: Single,
    target_classes: Seq<i32>,
) -> Seq<int>
    decreases candidates.len(),
{
    if candidates.len() == 0 {
        Seq::empty()
    } else {
        let before = wanted_places(candidates.drop_last(), confidence_threshold, target_classes);
        let c = candidates.last();
        if c.confidence.spec_ge(confidence_threshold) && target_classes.contains(c.class_id) {
            before.push(candidates.len() - 1)
        } else {
            before
        }
    }
}

proof fn lemma_wanted_places(
    candidates: Seq<YoloCandidate>,
    confidence_threshold: Single,
    target_classes: Seq<i32>,
)
    ensures
        picked_at(
            wanted(candidates, confidence_threshold, target_classes),
            candidates,
            wanted_places(candidates, confidence_threshold, target_classes),
        ),
    decreases candidates.len(),
{
    let after = wanted_places(candidates, confidence_threshold, target_classes);
    if candidates.len() > 0 {
        let front = candidates.drop_last();
        lemma_wanted_places(front, confidence_threshold, target_classes);
        let before = wanted_places(front, confidence_threshold, target_classes);
        assert(forall|i: int| 0 <= i < before.len() ==> after[i] == before[i]);
        assert forall|i: int| 0 <= i < after.len() implies 0 <= #[trigger] after[i]
            < candidates.len() by {
            if i < before.len() {
                assert(0 <= before[i] < front.len());
            }
        }
    }
    assert(wanted(candidates, confidence_threshold, target_classes) =~= after.map_values(
        |k: int| candidates[k],
    ));
}

/// The candidates that are wanted are those that are sure enough and of a wanted class.
proof fn lemma_wanted(
    candidates: Seq<YoloCandidate>,
    confidence_threshold: Single,
    target_classes: Seq<i32>,
)
    ensures
        wanted(candidates, confidence_threshold, target_classes).len() <= candidates.len(),
        forall|i: int|
            #![trigger wanted(candidates, confidence_threshold, target_classes)[i]]
            0 <= i < wanted(candidates, confidence_threshold, target_classes).len() ==> {
                let c = wanted(candidates, confidence_threshold, target_classes)[i];
                &&& c.confidence.spec_ge(confidence_threshold)
                &&& target_classes.contains(c.class_id)
            },
        forall|k: int|
            0 <= k < candidates.len() && (#[trigger] candidates[k]).confidence.spec_ge(
                confidence_threshold,
            ) && target_classes.contains(candidates[k].class_id) ==> wanted(
                candidates,
                confidence_threshold,
                target_classes,
            ).contains(candidates[k]),
    decreases candidates.len(),
{
    if candidates.len() > 0 {
        let front = candidates.drop_last();
        lemma_wanted(front, confidence_threshold, target_classes);
        let before = wanted(front, confidence_threshold, target_classes);
        let after = wanted(candidates, confidence_threshold, target_classes);
        assert forall|i: int| 0 <= i < after.len() implies {
            let c = #[trigger] after[i];
            &&& c.confidence.spec_ge(confidence_threshold)
            &&& target_classes.contains(c.class_id)
        } by {
            if i < before.len() {
                assert(after[i] == before[i]);
            }
        }
        assert forall|k: int|
            0 <= k < candidates.len() && (#[trigger] candidates[k]).confidence.spec_ge(
                confidence_threshold,
            ) && target_classes.contains(candidates[k].class_id) implies after.contains(
            candidates[k],
        ) by {
            if k < front.len() {
                assert(front[k] == candidates[k]);
                let i = choose|i: int| 0 <= i < before.len() && before[i] == candidates[k];
                assert(after[i] == candidates[k]);
            } else {
                assert(after.last() == candidates[k]);
            }
        }
    }
}

/// Whatever is left was proposed, and at least as often; it is sure enough and of a wanted class;
/// surer candidates come first; and no two of one class overlap by more than the threshold.
/// Whatever is sure enough and of a wanted class is left, unless it overlaps by more than the
/// threshold one of its class that is left and at least as sure.
pub proof fn law_best(
    candidates: Seq<YoloCandidate>,
    confidence_threshold: Single,
    nms_threshold: Single,
    target_classes: Seq<i32>,
)
    requires
        candidates.len() <= usize::MAX,
    ensures
        ({
            let left = best(candidates, confidence_threshold, nms_threshold, target_classes);
            &&& exists|places: Seq<int>| picked_at(left, candidates, places)
            &&& forall|i: int|
                0 <= i < left.len() ==> (#[trigger] left[i]).confidence.spec_ge(
                    confidence_threshold,
                ) && target_classes.contains(left[i].class_id)
            &&& forall|i: int, j: int|
                #![trigger left[i], left[j]]
                0 <= i < j < left.len() ==> left[i].confidence.rank() >= left[j].confidence.rank()
                    && (left[i].class_id == left[j].class_id ==> !suppression::overlaps_more(
                    left[i].rect_network,
                    left[j].rect_network,
                    nms_threshold,
                ) && !suppression::overlaps_more(
                    left[j].rect_network,
                    left[i].rect_network,
                    nms_threshold,
                ))
            &&& forall|k: int|
                0 <= k < candidates.len() && (#[trigger] candidates[k]).confidence.spec_ge(
                    confidence_threshold,
                ) && target_classes.contains(candidates[k].class_id) && !left.contains(
                    candidates[k],
                ) ==> exists|i: int|
                    {
                        &&& 0 <= i < left.len()
                        &&& (#[trigger] left[i]).class_id == candidates[k].class_id
                        &&& left[i].confidence.spec_ge(candidates[k].confidence)
                        &&& suppression::overlaps_more(
                            left[i].rect_network,
                            candidates[k].rect_network,
                            nms_threshold,
                        )
                    }
        }),
{
    let kept = wanted(candidates, confidence_threshold, target_classes);
    let ranks = confidence_ranks(kept);
    let sorted = by_confidence(kept);
    let beats = takes_out(sorted, nms_threshold);
    let places = suppression::survivors(sorted.len(), beats);
    let left = best(candidates, confidence_threshold, nms_threshold, target_classes);
    lemma_wanted(candidates, confidence_threshold, target_classes);
    ranking::lemma_ranking(ranks);
    suppression::law_survivors_apart(sorted.len(), beats);
    assert forall|i: int| 0 <= i < left.len() implies (#[trigger] left[i]).confidence.spec_ge(
        confidence_threshold,
    ) && target_classes.contains(left[i].class_id) by {
        let k = ranking::ranking(ranks)[places[i]];
        assert(left[i] == kept[k]);
    }
    lemma_wanted_places(candidates, confidence_threshold, target_classes);
    let from = wanted_places(candidates, confidence_threshold, target_classes);
    let origins = places.map_values(|p: int| from[ranking::ranking(ranks)[p]]);
    assert(picked_at(left, candidates, origins)) by {
        assert forall|i: int, j: int| 0 <= i < j < origins.len() implies origins[i]
            != origins[j] by {
            assert(places[i] < places[j]);
            let a = ranking::ranking(ranks)[places[i]];
            let b = ranking::ranking(ranks)[places[j]];
            assert(a != b);
            assert(from[a] != from[b]);
        }
        assert forall|i: int| 0 <= i < origins.len() implies 0 <= #[trigger] origins[i]
            < candidates.len() && left[i] == candidates[origins[i]] by {
            let k = ranking::ranking(ranks)[places[i]];
            assert(0 <= from[k] < candidates.len());
            assert(left[i] == kept[k]);
        }
        assert(left =~= origins.map_values(|k: int| candidates[k]));
    }
    assert forall|i: int, j: int|
        #![trigger left[i], left[j]]
        0 <= i < j < left.len() implies left[i].confidence.rank() >= left[j].confidence.rank() && (
    left[i].class_id == left[j].class_id ==> !suppression::overlaps_more(
        left[i].rect_network,
        left[j].rect_network,
        nms_threshold,
    ) && !suppression::overlaps_more(
        left[j].rect_network,
        left[i].rect_network,
        nms_threshold,
    )) by {
        suppression::law_overlap_symmetric(
            left[i].rect_network,
            left[j].rect_network,
            nms_threshold,
        );
        let p = places[i];
        let q = places[j];
        assert(p < q && !beats(p, q));
        let a = ranking::ranking(ranks)[p];
        let b = ranking::ranking(ranks)[q];
        assert(left[i] == kept[a] && left[j] == kept[b]);
        assert(ranks[a] >= ranks[b]);
        assert(ranks[a] == kept[a].confidence.rank() && ranks[b] == kept[b].confidence.rank());
    }
    assert forall|k: int|
        0 <= k < candidates.len() && (#[trigger] candidates[k]).confidence.spec_ge(
            confidence_threshold,
        ) && target_classes.contains(candidates[k].class_id) && !left.contains(
            candidates[k],
        ) implies exists|i: int|
        {
            &&& 0 <= i < left.len()
            &&& (#[trigger] left[i]).class_id == candidates[k].class_id
            &&& left[i].confidence.spec_ge(candidates[k].confidence)
            &&& suppression::overlaps_more(
                left[i].rect_network,
                candidates[k].rect_network,
                nms_threshold,
            )
        } by {
        let c = candidates[k];
        let m = choose|m: int| 0 <= m < kept.len() && kept[m] == c;
        assert(ranking::ranking(ranks).contains(m));
        let j = choose|j: int| 0 <= j < ranks.len() && ranking::ranking(ranks)[j] == m;
        assert(sorted[j] == c);
        if places.contains(j) {
            let p = choose|p: int| 0 <= p < places.len() && places[p] == j;
            assert(left[p] == c);
        }
        suppression::law_suppressed_beaten(sorted.len(), beats, j);
        let p = choose|p: int|
            0 <= p < places.len() && places[p] < j && #[trigger] beats(places[p], j);
        let a = ranking::ranking(ranks)[places[p]];
        assert(left[p] == kept[a]);
        assert(ranks[a] >= ranks[m]);
        assert(ranks[a] == kept[a].confidence.rank() && ranks[m] == kept[m].confidence.rank());
        assert(kept[a].confidence.spec_ge(confidence_threshold));
    }
}

/// The numbers of the constants.
proof fn lemma_constants()
    ensures
        (Single { bits: SCALE_X_Y }).is_finite(),
        (Single { bits: HALF_BITS }).is_finite(),
        numeric::number(Single { bits: HALF_BITS }) == 1real / 2real,
        numeric::number(Single { bits: SCALE_X_Y }) == 8808038real / 8388608real,
{
    reveal(numeric::number);
    assert(0x3f86_6666int / 0x80_0000 == 127 && 0x3f86_6666int % 0x80_0000 == 0x06_6666);
    assert(0x3f00_0000int / 0x80_0000 == 126 && 0x3f00_0000int % 0x80_0000 == 0);
    numeric::lemma_powers();
    numeric::lemma_power_sum(-23, 23);
    numeric::lemma_power_step(-24);
    let p = numeric::power(-23);
    assert(8388608real * p == 1real);
    assert(numeric::number(Single { bits: SCALE_X_Y }) == 8808038real * p);
    assert(numeric::number(Single { bits: HALF_BITS }) == 8388608real * numeric::power(-24));
}

/// The logistic function is one by one and the exponential, up to rounding.
pub proof fn law_logistic(e: Single)
    requires
        e.is_finite(),
        0real <= numeric::number(e) < numeric::power(126),
    ensures
        logistic(e).is_finite(),
        numeric::size_of(
            numeric::number(logistic(e)) - 1real / (1real + numeric::number(e)),
        ) <= 20real / 16777216real,
        0real < 1real / (1real + numeric::number(e)) <= 1real,
{
    numeric::lemma_powers();
    numeric::lemma_one();
    numeric::lemma_power_rises(1, 126);
    numeric::lemma_power_step(126);
    let one = Single { bits: ONE_BITS };
    let v = numeric::number(e);
    numeric::law_sum(one, e);
    let s1 = numeric::number(one.sum(e));
    numeric::lemma_close(s1, 1real + v, 1real + v);
    suppression::lemma_share(1real, 1real + v, 1real, s1);
    let y = 1real / s1;
    numeric::law_quotient(one, one.sum(e));
    numeric::lemma_close(numeric::number(logistic(e)), y, 3real / 2real);
}

/// The part of a cell by which a scaled centre starts too far on.
proof fn lemma_offset()
    ensures
        ({
            let scale = Single { bits: SCALE_X_Y };
            let one = Single { bits: ONE_BITS };
            let half = Single { bits: HALF_BITS };
            let o = half.product(scale.sum(one.negated()));
            &&& o.is_finite()
            &&& numeric::size_of(numeric::number(o) - 1real / 40real) <= 2real / 16777216real
        }),
{
    numeric::lemma_powers();
    numeric::lemma_power_rises(24, 127);
    numeric::lemma_one();
    lemma_constants();
    let scale = Single { bits: SCALE_X_Y };
    let one = Single { bits: ONE_BITS };
    let half = Single { bits: HALF_BITS };
    let c = 8808038real / 8388608real;
    numeric::law_negated(one);
    numeric::law_sum(scale, one.negated());
    let d = scale.sum(one.negated());
    numeric::lemma_close(numeric::number(d), c - 1real, 1real / 10real);
    let dv = numeric::number(d);
    let h = dv / 2real;
    assert(1real / 2real * dv == h) by (nonlinear_arith)
        requires
            h == dv / 2real,
    ;
    numeric::law_product(half, d);
    numeric::lemma_close(numeric::number(half.product(d)), h, 1real / 10real);
}

proof fn lemma_scaled_logistic(e: Single)
    requires
        e.is_finite(),
        0real <= numeric::number(e) < numeric::power(126),
    ensures
        ({
            let p = logistic(e).product(Single { bits: SCALE_X_Y });
            let g = 1real / (1real + numeric::number(e));
            &&& p.is_finite()
            &&& numeric::size_of(numeric::number(p) - 21real / 20real * g) <= 26real / 16777216real
            &&& 0real < g <= 1real
        }),
{
    numeric::lemma_powers();
    numeric::lemma_power_rises(24, 127);
    lemma_constants();
    law_logistic(e);
    let scale = Single { bits: SCALE_X_Y };
    let l = numeric::number(logistic(e));
    let g = 1real / (1real + numeric::number(e));
    let c = 8808038real / 8388608real;
    assert(numeric::size_of(l * c - 21real / 20real * g) <= 23real / 16777216real) by (
    nonlinear_arith)
        requires
            c == 8808038real / 8388608real,
            0real < g <= 1real,
            -20real <= (l - g) * 16777216real <= 20real,
            numeric::size_of(l * c - 21real / 20real * g) == if l * c - 21real / 20real * g
                < 0real {
                -(l * c - 21real / 20real * g)
            } else {
                l * c - 21real / 20real * g
            },
    ;
    numeric::law_product(logistic(e), scale);
    numeric::lemma_close(numeric::number(logistic(e).product(scale)), l * c, 2real);
}

/// The place of a box's centre within the grid, counted in cells.
proof fn lemma_centre_cells(e: Single, cell: int)
    requires
        e.is_finite(),
        0real <= numeric::number(e) < numeric::power(126),
        0 <= cell < 0x1_0000,
    ensures
        ({
            let scale = Single { bits: SCALE_X_Y };
            let one = Single { bits: ONE_BITS };
            let half = Single { bits: HALF_BITS };
            let t = logistic(e).product(scale).sum(
                half.product(scale.sum(one.negated())).negated(),
            ).sum(Single::of_int(cell));
            let x = 21real / 20real / (1real + numeric::number(e)) - 1real / 40real + cell as real;
            &&& t.is_finite()
            &&& numeric::size_of(numeric::number(t) - x) <= (40real + cell as real) / 16777216real
        }),
{
    numeric::lemma_powers();
    numeric::lemma_power_rises(24, 127);
    lemma_offset();
    lemma_scaled_logistic(e);
    numeric::law_of_int(cell);
    let scale = Single { bits: SCALE_X_Y };
    let one = Single { bits: ONE_BITS };
    let half = Single { bits: HALF_BITS };
    let v = numeric::number(e);
    let g = 1real / (1real + v);
    assert(21real / 20real / (1real + v) == 21real / 20real * g) by (nonlinear_arith)
        requires
            g == 1real / (1real + v),
            1real + v > 0real,
    ;
    let p = logistic(e).product(scale);
    let o = half.product(scale.sum(one.negated()));
    numeric::law_negated(o);
    numeric::law_sum(p, o.negated());
    let t = p.sum(o.negated());
    numeric::lemma_close(
        numeric::number(t),
        numeric::number(p) - numeric::number(o),
        3real / 2real,
    );
    numeric::law_sum(t, Single::of_int(cell));
    numeric::lemma_close(
        numeric::number(t.sum(Single::of_int(cell))),
        numeric::number(t) + cell as real,
        cell as real + 2real,
    );
}

/// The centre of a box is where its cell and the logistic function put it, up to rounding.
pub proof fn law_centre(e: Single, cell: int, cells: int, size: int)
    requires
        e.is_finite(),
        0real <= numeric::number(e) < numeric::power(126),
        0 <= cell < cells <= 0x1_0000,
        0 <= size <= 0x1_0000,
    ensures
        ({
            let x = 21real / 20real / (1real + numeric::number(e)) - 1real / 40real + cell as real;
            &&& centre(e, cell, cells, size).is_finite()
            &&& numeric::size_of(
                numeric::number(centre(e, cell, cells, size)) - x / (cells as real) * (size as real),
            ) <= 1real / 4real
            &&& -1real <= x / (cells as real) <= 3real
        }),
{
    lemma_centre_cells(e, cell);
    law_logistic(e);
    numeric::lemma_powers();
    numeric::lemma_power_rises(24, 127);
    numeric::law_of_int(cells);
    numeric::law_of_int(size);
    let scale = Single { bits: SCALE_X_Y };
    let one = Single { bits: ONE_BITS };
    let half = Single { bits: HALF_BITS };
    let t = logistic(e).product(scale).sum(half.product(scale.sum(one.negated())).negated()).sum(
        Single::of_int(cell),
    );
    let v = numeric::number(e);
    let g = 1real / (1real + v);
    assert(21real / 20real / (1real + v) == 21real / 20real * g) by (nonlinear_arith)
        requires
            g == 1real / (1real + v),
            1real + v > 0real,
    ;
    let x = 21real / 20real / (1real + v) - 1real / 40real + cell as real;
    let tv = numeric::number(t);
    let (cr, w, n) = (cell as real, cells as real, size as real);
    let y = tv / w;
    let z = x / w;
    assert(-46real <= (y - z) * 16777216real && (y - z) * 16777216real <= 46real
        && -1real <= z <= 3real && -1real <= y <= 3real) by (nonlinear_arith)
        requires
            y == tv / w,
            z == x / w,
            w >= 1real,
            cr <= w - 1real,
            cr >= 0real,
            -(40real + cr) <= (tv - x) * 16777216real <= 40real + cr,
            cr - 1real / 40real <= x <= cr + 2real,
            cr - 1real / 20real <= tv <= cr + 2real,
    ;
    numeric::law_quotient(t, Single::of_int(cells));
    let q = t.quotient(Single::of_int(cells));
    let qv = numeric::number(q);
    numeric::lemma_close(qv, y, 3real);
    assert(-50real * n <= (qv * n - z * n) * 16777216real <= 50real * n && -4real * n <= qv * n
        <= 4real * n) by (nonlinear_arith)
        requires
            -50real <= (qv - z) * 16777216real <= 50real,
            -4real <= qv <= 4real,
            n >= 0real,
    ;
    numeric::law_product(q, Single::of_int(size));
    numeric::lemma_close(numeric::number(q.product(Single::of_int(size))), qv * n, 4real * n);
}

/// A side of a box: where it begins and how long it is.
proof fn lemma_side(e: Single, f: Single, cell: int, cells: int, size: int, anchor: int)
    requires
        e.is_finite(),
        0real <= numeric::number(e) < numeric::power(126),
        f.is_finite(),
        0real <= numeric::number(f),
        0 <= cell < cells <= 0x1_0000,
        0 <= size <= 0x1_0000,
        0 < anchor < 1000,
        numeric::number(f) * (anchor as real) <= 65536real,
    ensures
        ({
            let half = Single { bits: HALF_BITS };
            let mid = (21real / 20real / (1real + numeric::number(e)) - 1real / 40real
                + cell as real) / (cells as real) * (size as real);
            let long = numeric::number(f) * (anchor as real);
            let b = f.product(Single::of_int(anchor));
            let start = centre(e, cell, cells, size).sum(b.product(half).negated()).clamped(
                i32::MIN as int,
                i32::MAX as int,
            );
            let length = b.clamped(0, u32::MAX as int);
            &&& i32::MIN <= start <= i32::MAX
            &&& 0 <= length <= u32::MAX
            &&& numeric::size_of(start as real - (mid - long / 2real)) <= 4real / 3real
            &&& numeric::size_of(length as real - long) <= 4real / 3real
        }),
{
    numeric::lemma_powers();
    numeric::lemma_power_rises(24, 127);
    lemma_constants();
    law_centre(e, cell, cells, size);
    numeric::law_of_int(anchor);
    let half = Single { bits: HALF_BITS };
    let part = (21real / 20real / (1real + numeric::number(e)) - 1real / 40real + cell as real) / (
    cells as real);
    let n = size as real;
    let mid = part * n;
    assert(-65536real <= mid <= 200000real) by (nonlinear_arith)
        requires
            mid == part * n,
            -1real <= part <= 3real,
            0real <= n <= 65536real,
    ;
    let fv = numeric::number(f);
    let ar = anchor as real;
    let long = fv * ar;
    assert(long >= 0real) by (nonlinear_arith)
        requires
            long == fv * ar,
            fv >= 0real,
            ar >= 0real,
    ;
    numeric::law_product(f, Single::of_int(anchor));
    let b = f.product(Single::of_int(anchor));
    let bv = numeric::number(b);
    numeric::lemma_close(bv, long, 65536real);
    let h = bv / 2real;
    assert(bv * (1real / 2real) == h) by (nonlinear_arith)
        requires
            h == bv / 2real,
    ;
    numeric::law_product(b, half);
    let bh = b.product(half);
    numeric::lemma_close(numeric::number(bh), h, 32769real);
    numeric::law_negated(bh);
    let c = centre(e, cell, cells, size);
    numeric::law_sum(c, bh.negated());
    let d = c.sum(bh.negated());
    numeric::lemma_close(
        numeric::number(d),
        numeric::number(c) - numeric::number(bh),
        300000real,
    );
    numeric::law_clamped(d, i32::MIN as int, i32::MAX as int);
    numeric::law_clamped(b, 0, u32::MAX as int);
}

/// A rectangle lies around a point: its middle is the point, and its sides have the given
/// lengths, up to what is cut off behind the point.
pub open spec fn lies_around(
    r: ScreenRect,
    x: real,
    y: real,
    width: real,
    height: real,
) -> bool {
    &&& numeric::size_of(r.x as real - (x - width / 2real)) <= 4real / 3real
    &&& numeric::size_of(r.y as real - (y - height / 2real)) <= 4real / 3real
    &&& numeric::size_of(r.width as real - width) <= 4real / 3real
    &&& numeric::size_of(r.height as real - height) <= 4real / 3real
}

/// A list holds another one from an index on.
spec fn part_of(part: Seq<YoloCandidate>, whole: Seq<YoloCandidate>, at: int) -> bool {
    &&& 0 <= at
    &&& at + part.len() <= whole.len()
    &&& forall|i: int| 0 <= i < part.len() ==> whole[at + i] == #[trigger] part[i]
}

proof fn lemma_part_of_part(
    a: Seq<YoloCandidate>,
    b: Seq<YoloCandidate>,
    c: Seq<YoloCandidate>,
    i: int,
    j: int,
)
    requires
        part_of(a, b, i),
        part_of(b, c, j),
    ensures
        part_of(a, c, j + i),
{
    assert forall|k: int| 0 <= k < a.len() implies c[j + i + k] == #[trigger] a[k] by {
        assert(b[i + k] == a[k]);
        assert(c[j + (i + k)] == b[i + k]);
    }
}

proof fn lemma_anchor_part(
    head: YoloHead,
    number: int,
    nw: int,
    nh: int,
    gh: int,
    gw: int,
    a: int,
    n: nat,
) -> (at: int)
    requires
        0 <= a < n,
    ensures
        part_of(
            cell_candidates(head, number, nw, nh, gh, gw, a),
            anchor_candidates(head, number, nw, nh, gh, gw, n),
            at,
        ),
    decreases n,
{
    let before = anchor_candidates(head, number, nw, nh, gh, gw, (n - 1) as nat);
    if a == n - 1 {
        before.len() as int
    } else {
        let at = lemma_anchor_part(head, number, nw, nh, gh, gw, a, (n - 1) as nat);
        at
    }
}

proof fn lemma_row_part(
    head: YoloHead,
    number: int,
    nw: int,
    nh: int,
    gh: int,
    gw: int,
    n: nat,
) -> (at: int)
    requires
        0 <= gw < n,
    ensures
        part_of(
            anchor_candidates(head, number, nw, nh, gh, gw, 3),
            row_candidates(head, number, nw, nh, gh, n),
            at,
        ),
    decreases n,
{
    let before = row_candidates(head, number, nw, nh, gh, (n - 1) as nat);
    if gw == n - 1 {
        before.len() as int
    } else {
        let at = lemma_row_part(head, number, nw, nh, gh, gw, (n - 1) as nat);
        at
    }
}

proof fn lemma_head_part(
    head: YoloHead,
    number: int,
    nw: int,
    nh: int,
    gh: int,
    n: nat,
) -> (at: int)
    requires
        0 <= gh < n,
    ensures
        part_of(
            row_candidates(head, number, nw, nh, gh, head.width as nat),
            head_candidates(head, number, nw, nh, n),
            at,
        ),
    decreases n,
{
    let before = head_candidates(head, number, nw, nh, (n - 1) as nat);
    if gh == n - 1 {
        before.len() as int
    } else {
        let at = lemma_head_part(head, number, nw, nh, gh, (n - 1) as nat);
        at
    }
}

proof fn lemma_heads_part(heads: Seq<YoloHead>, nw: int, nh: int, k: int) -> (at: int)
    requires
        0 <= k < heads.len(),
    ensures
        part_of(
            head_candidates(heads[k], k, nw, nh, heads[k].height as nat),
            candidates_of(heads, nw, nh),
            at,
        ),
    decreases heads.len(),
{
    let front = heads.drop_last();
    let before = candidates_of(front, nw, nh);
    if k == heads.len() - 1 {
        before.len() as int
    } else {
        assert(front[k] == heads[k]);
        let at = lemma_heads_part(front, nw, nh, k);
        at
    }
}

/// The candidates of one cell and anchor stand next to each other in the list of all.
proof fn lemma_cell_part(
    heads: Seq<YoloHead>,
    nw: int,
    nh: int,
    k: int,
    gh: int,
    gw: int,
    a: int,
) -> (at: int)
    requires
        0 <= k < heads.len(),
        0 <= gh < heads[k].height,
        0 <= gw < heads[k].width,
        0 <= a < 3,
    ensures
        part_of(
            cell_candidates(heads[k], k, nw, nh, gh, gw, a),
            candidates_of(heads, nw, nh),
            at,
        ),
{
    let head = heads[k];
    let cell = cell_candidates(head, k, nw, nh, gh, gw, a);
    let anchors = anchor_candidates(head, k, nw, nh, gh, gw, 3);
    let row = row_candidates(head, k, nw, nh, gh, head.width as nat);
    let all = head_candidates(head, k, nw, nh, head.height as nat);
    let p = lemma_anchor_part(head, k, nw, nh, gh, gw, a, 3);
    let q = lemma_row_part(head, k, nw, nh, gh, gw, head.width as nat);
    let r = lemma_head_part(head, k, nw, nh, gh, head.height as nat);
    let s = lemma_heads_part(heads, nw, nh, k);
    lemma_part_of_part(cell, anchors, row, p, q);
    lemma_part_of_part(cell, row, all, q + p, r);
    lemma_part_of_part(cell, all, candidates_of(heads, nw, nh), r + (q + p), s);
    s + (r + (q + p))
}

/// The size of the box that a network with two heads measures by: the coarse grid comes first
/// and has the large ones.
pub open spec fn measure(head: int, a: int) -> (real, real) {
    if head == 0 && a == 0 {
        (81real, 82real)
    } else if head == 0 && a == 1 {
        (135real, 169real)
    } else if head == 0 {
        (344real, 319real)
    } else if a == 0 {
        (10real, 14real)
    } else if a == 1 {
        (23real, 27real)
    } else {
        (37real, 58real)
    }
}

/// The number of an output of a head for a cell; `c` counts the seven outputs of an anchor.
pub open spec fn output(head: YoloHead, gh: int, gw: int, a: int, c: int) -> real {
    numeric::number(head.data@[(7 * a + c) * (head.height * head.width) + gh * head.width + gw])
}

/// All outputs of a head for a cell and an anchor are exponentials of numbers of moderate size.
pub open spec fn moderate(head: YoloHead, gh: int, gw: int, a: int) -> bool {
    forall|c: int|
        0 <= c < 7 ==> (#[trigger] head.data@[(7 * a + c) * (head.height * head.width) + gh
            * head.width + gw]).is_finite() && 0real <= output(head, gh, gw, a, c)
            < numeric::power(126)
}

/// Two candidates stand for what the network says of a box: a man, then a woman, in the same
/// place, each as likely as that there is anything and that it is of the class.
pub open spec fn stands_for(
    male: YoloCandidate,
    female: YoloCandidate,
    thing: real,
    man: real,
    woman: real,
) -> bool {
    &&& male.class_id == 0
    &&& female.class_id == 1
    &&& male.rect_network == female.rect_network
    &&& numeric::size_of(numeric::number(male.confidence) - thing * man) <= 1real / 100000real
    &&& numeric::size_of(numeric::number(female.confidence) - thing * woman) <= 1real / 100000real
}

proof fn lemma_confidence(e: Single, f: Single)
    requires
        e.is_finite(),
        f.is_finite(),
        0real <= numeric::number(e) < numeric::power(126),
        0real <= numeric::number(f) < numeric::power(126),
    ensures
        numeric::size_of(
            numeric::number(logistic(e).product(logistic(f))) - 1real / (1real + numeric::number(e))
                * (1real / (1real + numeric::number(f))),
        ) <= 1real / 100000real,
{
    numeric::lemma_powers();
    numeric::lemma_power_rises(24, 127);
    law_logistic(e);
    law_logistic(f);
    let (l, m) = (numeric::number(logistic(e)), numeric::number(logistic(f)));
    let (g, h) = (1real / (1real + numeric::number(e)), 1real / (1real + numeric::number(f)));
    assert(-1real <= (l * m - g * h) * 300000real <= 1real && -2real <= l * m <= 2real)
        by (nonlinear_arith)
        requires
            0real < g <= 1real,
            0real < h <= 1real,
            -20real <= (l - g) * 16777216real <= 20real,
            -20real <= (m - h) * 16777216real <= 20real,
    ;
    numeric::law_product(logistic(e), logistic(f));
    numeric::lemma_close(numeric::number(logistic(e).product(logistic(f))), l * m, 2real);
}

/// Every cell of a head proposes a box for each of its three anchors. The box lies around the
/// point where the cell and the first two outputs put its centre; the next two outputs scale the
/// sides of the anchor. It is listed for both classes.
pub proof fn law_decoded_box(
    heads: Seq<YoloHead>,
    network_width: int,
    network_height: int,
    k: int,
    gh: int,
    gw: int,
    a: int,
)
    requires
        0 <= k < heads.len() <= 2,
        0 < heads[k].width <= 0x1_0000,
        0 < heads[k].height <= 0x1_0000,
        0 <= network_width <= 0x1_0000,
        0 <= network_height <= 0x1_0000,
        0 <= gh < heads[k].height,
        0 <= gw < heads[k].width,
        0 <= a < 3,
        moderate(heads[k], gh, gw, a),
        7real / 3real < output(heads[k], gh, gw, a, 2) * measure(k, a).0 <= 65536real,
        7real / 3real < output(heads[k], gh, gw, a, 3) * measure(k, a).1 <= 65536real,
    ensures
        ({
            let head = heads[k];
            let all = candidates_of(heads, network_width, network_height);
            let x = (21real / 20real / (1real + output(head, gh, gw, a, 0)) - 1real / 40real
                + gw as real) / (head.width as real) * (network_width as real);
            let y = (21real / 20real / (1real + output(head, gh, gw, a, 1)) - 1real / 40real
                + gh as real) / (head.height as real) * (network_height as real);
            let width = output(head, gh, gw, a, 2) * measure(k, a).0;
            let height = output(head, gh, gw, a, 3) * measure(k, a).1;
            exists|i: int|
                {
                    &&& 0 <= i < all.len() - 1
                    &&& lies_around((#[trigger] all[i]).rect_network, x, y, width, height)
                    &&& stands_for(
                        all[i],
                        all[i + 1],
                        1real / (1real + output(head, gh, gw, a, 4)),
                        1real / (1real + output(head, gh, gw, a, 5)),
                        1real / (1real + output(head, gh, gw, a, 6)),
                    )
                }
        }),
{
    let head = heads[k];
    let (nw, nh) = (network_width, network_height);
    let plane = head.height * head.width;
    let n = gh * head.width;
    assert(forall|c: int|
        0 <= c < 7 ==> (#[trigger] head.at(7 * a + c, gh, gw)) == head.data@[(7 * a + c) * (
        head.height * head.width) + gh * head.width + gw]);
    let e0 = head.at(a * 7, gh, gw);
    let e1 = head.at(a * 7 + 1, gh, gw);
    let e2 = head.at(a * 7 + 2, gh, gw);
    let e3 = head.at(a * 7 + 3, gh, gw);
    let e4 = head.at(a * 7 + 4, gh, gw);
    let e5 = head.at(a * 7 + 5, gh, gw);
    let e6 = head.at(a * 7 + 6, gh, gw);
    assert(e0 == head.at(7 * a + 0, gh, gw));
    assert(e1 == head.at(7 * a + 1, gh, gw));
    assert(e2 == head.at(7 * a + 2, gh, gw));
    assert(e3 == head.at(7 * a + 3, gh, gw));
    assert(e4 == head.at(7 * a + 4, gh, gw));
    assert(e5 == head.at(7 * a + 5, gh, gw));
    assert(e6 == head.at(7 * a + 6, gh, gw));
    let (aw, ah) = anchor_size(mask(k, a));
    lemma_side(e0, e2, gw, head.width as int, nw, aw);
    lemma_side(e1, e3, gh, head.height as int, nh, ah);
    lemma_confidence(e4, e5);
    lemma_confidence(e4, e6);
    let cell = cell_candidates(head, k, nw, nh, gh, gw, a);
    let at = lemma_cell_part(heads, nw, nh, k, gh, gw, a);
    let all = candidates_of(heads, nw, nh);
    assert(cell.len() == 2);
    assert(all[at + 0] == cell[0]);
    assert(all[at + 1] == cell[1]);
}

/// Candidates are of one of the two classes, and none has an empty box.
pub open spec fn sound(candidates: Seq<YoloCandidate>) -> bool {
    forall|i: int|
        0 <= i < candidates.len() ==> {
            &&& (#[trigger] candidates[i]).rect_network.width > 0
            &&& candidates[i].rect_network.height > 0
            &&& candidates[i].class_id == 0 || candidates[i].class_id == 1
        }
}

proof fn lemma_anchor_count(
    head: YoloHead,
    number: int,
    nw: int,
    nh: int,
    gh: int,
    gw: int,
    n: nat,
)
    ensures
        anchor_candidates(head, number, nw, nh, gh, gw, n).len() <= 2 * n,
        sound(anchor_candidates(head, number, nw, nh, gh, gw, n)),
    decreases n,
{
    if n > 0 {
        lemma_anchor_count(head, number, nw, nh, gh, gw, (n - 1) as nat);
    }
}

proof fn lemma_row_count(head: YoloHead, number: int, nw: int, nh: int, gh: int, n: nat)
    ensures
        row_candidates(head, number, nw, nh, gh, n).len() <= 6 * n,
        sound(row_candidates(head, number, nw, nh, gh, n)),
    decreases n,
{
    if n > 0 {
        lemma_row_count(head, number, nw, nh, gh, (n - 1) as nat);
        lemma_anchor_count(head, number, nw, nh, gh, n - 1, 3);
    }
}

proof fn lemma_head_count(head: YoloHead, number: int, nw: int, nh: int, n: nat)
    ensures
        head_candidates(head, number, nw, nh, n).len() <= 6 * (n * head.width),
        sound(head_candidates(head, number, nw, nh, n)),
    decreases n,
{
    if n > 0 {
        lemma_head_count(head, number, nw, nh, (n - 1) as nat);
        lemma_row_count(head, number, nw, nh, n - 1, head.width as nat);
        assert(n * head.width == (n - 1) * head.width + head.width) by (nonlinear_arith);
    } else {
        assert(n * head.width == 0) by (nonlinear_arith)
            requires
                n == 0,
        ;
    }
}

/// A cell gives at most six candidates: one of each class for each of its three boxes. None of
/// them has an empty box.
pub proof fn law_decoded_count(heads: Seq<YoloHead>, network_width: int, network_height: int)
    ensures
        candidates_of(heads, network_width, network_height).len() <= 6 * numeric::total(
            |k: int| heads[k].height * heads[k].width,
            0,
            heads.len() as int,
        ),
        sound(candidates_of(heads, network_width, network_height)),
{
    let f = |k: int| heads[k].height * heads[k].width;
    lemma_heads_count(heads, network_width, network_height, f);
}

proof fn lemma_heads_count(heads: Seq<YoloHead>, nw: int, nh: int, f: spec_fn(int) -> int)
    requires
        forall|k: int|
            0 <= k < heads.len() ==> #[trigger] f(k) == heads[k].height * heads[k].width,
    ensures
        candidates_of(heads, nw, nh).len() <= 6 * numeric::total(f, 0, heads.len() as int),
        sound(candidates_of(heads, nw, nh)),
    decreases heads.len(),
{
    if heads.len() > 0 {
        let front = heads.drop_last();
        assert forall|k: int| 0 <= k < front.len() implies #[trigger] f(k) == front[k].height
            * front[k].width by {
            assert(front[k] == heads[k]);
        }
        lemma_heads_count(front, nw, nh, f);
        let last = heads.last();
        lemma_head_count(last, heads.len() - 1, nw, nh, last.height as nat);
        assert(f(heads.len() - 1) == last.height * last.width);
    }
}

} // verus!
