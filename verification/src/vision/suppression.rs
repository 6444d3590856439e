//! Suppressing overlapping boxes.

use vstd::prelude::*;

use crate::numeric;
use crate::single;
use crate::single::Single;
use crate::vision::geometry::ScreenRect;

verus! {

/// What two rectangles cover together, counted in single precision.
pub open spec fn union_area(a: ScreenRect, b: ScreenRect, inter: ScreenRect) -> Single {
    Single::of_int(a.spec_area()).sum(Single::of_int(b.spec_area())).sum(
        Single::of_int(inter.spec_area()).negated(),
    )
}

/// The share that an overlap has in what two rectangles cover together.
pub open spec fn overlap_share(a: ScreenRect, b: ScreenRect, inter: ScreenRect) -> Single {
    let union = union_area(a, b, inter);
    if union.spec_gt(Single { bits: 0 }) {
        Single::of_int(inter.spec_area()).quotient(union)
    } else {
        Single { bits: 0 }
    }
}

/// Whether two rectangles overlap by more than a given share.
pub open spec fn overlaps_more(a: ScreenRect, b: ScreenRect, threshold: Single) -> bool {
    match a.overlap(b) {
        Some(inter) => overlap_share(a, b, inter).spec_gt(threshold),
        None => false,
    }
}

/// It does not matter which of two rectangles comes first.
pub proof fn law_overlap_symmetric(a: ScreenRect, b: ScreenRect, threshold: Single)
    ensures
        overlaps_more(a, b, threshold) == overlaps_more(b, a, threshold),
{
    single::law_sum_commutes(Single::of_int(a.spec_area()), Single::of_int(b.spec_area()));
}

/// Whether two rectangles overlap by more than a given share of what they cover together.
pub fn exceeds(a: &ScreenRect, b: &ScreenRect, threshold: Single) -> (r: bool)
    ensures
        r == overlaps_more(*a, *b, threshold),
{
    match a.intersection(b) {
        Some(inter) => {
            let shared = Single::from_u64(inter.area());
            let union = Single::from_u64(a.area()).plus(Single::from_u64(b.area())).minus(shared);
            let share = if union.gt(Single { bits: 0 }) {
                shared.over(union)
            } else {
                Single { bits: 0 }
            };
            share.gt(threshold)
        },
        None => false,
    }
}

/// The number of pixels that two rectangles have in common.
pub open spec fn common_pixels(a: ScreenRect, b: ScreenRect) -> int {
    let right = if a.x + a.width <= b.x + b.width {
        a.x + a.width
    } else {
        b.x + b.width
    };
    let bottom = if a.y + a.height <= b.y + b.height {
        a.y + a.height
    } else {
        b.y + b.height
    };
    let across = right - (if a.x >= b.x {
        a.x
    } else {
        b.x
    });
    let down = bottom - (if a.y >= b.y {
        a.y
    } else {
        b.y
    });
    if across > 0 && down > 0 {
        across * down
    } else {
        0
    }
}

/// A count of pixels as a single.
proof fn lemma_count(n: int)
    requires
        0 < n < 0x1_0000_0000_0000_0000,
    ensures
        Single::of_int(n).is_finite(),
        numeric::size_of(numeric::number(Single::of_int(n)) - n as real) <= 2real * (n as real)
            / 16777216real,
{
    numeric::lemma_powers();
    numeric::lemma_power_rises(64, 127);
    vstd::arithmetic::power2::lemma2_to64();
    assert(numeric::power(64) == 18446744073709551616real);
    numeric::law_of_int(n);
    numeric::lemma_close(numeric::number(Single::of_int(n)), n as real, n as real);
}

/// The quotient of two numbers that are near to `i` and `u`.
pub proof fn lemma_share(i: real, u: real, i1: real, u1: real)
    requires
        0real < i <= u,
        -2real * i <= (i1 - i) * 16777216real <= 2real * i,
        -15real * u <= (u1 - u) * 16777216real <= 15real * u,
    ensures
        u1 > 0real,
        numeric::size_of(i1 / u1 - i / u) * 16777216real <= 18real,
        0real < i / u <= 1real,
{
    let r = i / u;
    let y = i1 / u1;
    assert(u1 >= u * 99real / 100real);
    assert(r * u == i && 0real < r <= 1real) by (nonlinear_arith)
        requires
            r == i / u,
            0real < i <= u,
    ;
    assert(y * u1 == i1) by (nonlinear_arith)
        requires
            y == i1 / u1,
            u1 > 0real,
    ;
    let w = u1 - u;
    assert((y - r) * u1 == (i1 - i) - r * w) by (nonlinear_arith)
        requires
            y * u1 == i1,
            r * u == i,
            w == u1 - u,
    ;
    assert(-15real * i <= r * w * 16777216real <= 15real * i) by (nonlinear_arith)
        requires
            r * u == i,
            r > 0real,
            -15real * u <= w * 16777216real <= 15real * u,
    ;
    let t = y - r;
    assert(-17real * u <= t * u1 * 16777216real <= 17real * u);
    assert(t * 16777216real <= 18real) by (nonlinear_arith)
        requires
            t * u1 * 16777216real <= 17real * u,
            u1 >= u * 99real / 100real,
            u > 0real,
    ;
    assert(t * 16777216real >= -18real) by (nonlinear_arith)
        requires
            t * u1 * 16777216real >= -17real * u,
            u1 >= u * 99real / 100real,
            u > 0real,
    ;
}

/// The share of an overlap is that of the pixels in common among all pixels of the two
/// rectangles, up to rounding.
proof fn lemma_overlap_share(a: ScreenRect, b: ScreenRect, inter: ScreenRect)
    requires
        0 < inter.spec_area() <= a.spec_area() < 0x4000_0000_0000_0000,
        inter.spec_area() <= b.spec_area() < 0x4000_0000_0000_0000,
    ensures
        ({
            let share = overlap_share(a, b, inter);
            let whole = a.spec_area() + b.spec_area() - inter.spec_area();
            &&& share.is_finite()
            &&& numeric::size_of(
                numeric::number(share) - inter.spec_area() as real / (whole as real),
            ) <= 1real / 500000real
        }),
{
    let (aa, bb, ii) = (a.spec_area(), b.spec_area(), inter.spec_area());
    let (ar, br, ir) = (aa as real, bb as real, ii as real);
    numeric::lemma_powers();
    numeric::lemma_power_rises(64, 127);
    vstd::arithmetic::power2::lemma2_to64();
    assert(numeric::power(64) == 18446744073709551616real);
    lemma_count(aa);
    lemma_count(bb);
    lemma_count(ii);
    let (sa, sb, si) = (Single::of_int(aa), Single::of_int(bb), Single::of_int(ii));
    let (a1, b1, i1) = (numeric::number(sa), numeric::number(sb), numeric::number(si));
    numeric::law_sum(sa, sb);
    let both = sa.sum(sb);
    let s1 = numeric::number(both);
    numeric::lemma_close(s1, a1 + b1, a1 + b1);
    numeric::law_negated(si);
    numeric::law_sum(both, si.negated());
    let union = union_area(a, b, inter);
    let u1 = numeric::number(union);
    let ur = ar + br - ir;
    numeric::lemma_close(u1, s1 - i1, s1 - i1);
    assert(-15real * ur <= (u1 - ur) * 16777216real <= 15real * ur);
    lemma_share(ir, ur, i1, u1);
    let zero = Single { bits: 0 };
    numeric::lemma_one();
    numeric::law_order(union, zero);
    let y = i1 / u1;
    numeric::law_quotient(si, union);
    numeric::lemma_close(numeric::number(si.quotient(union)), y, 2real);
}

/// Two rectangles overlap by more than a share where the pixels that they have in common are more
/// than that share of all their pixels. At the share itself, rounding to single precision decides.
/// Rectangles without a pixel in common never do.
pub proof fn law_overlaps_more(a: ScreenRect, b: ScreenRect, threshold: Single)
    requires
        a.width < 0x8000_0000,
        a.height < 0x8000_0000,
        b.width < 0x8000_0000,
        b.height < 0x8000_0000,
        threshold.is_finite(),
    ensures
        ({
            let common = common_pixels(a, b);
            let whole = a.width * a.height + b.width * b.height - common;
            let share = common as real / (whole as real);
            let t = numeric::number(threshold);
            &&& common == 0 ==> !overlaps_more(a, b, threshold)
            &&& common > 0 && share > t + 1real / 500000real ==> overlaps_more(a, b, threshold)
            &&& common > 0 && share < t - 1real / 500000real ==> !overlaps_more(a, b, threshold)
        }),
{
    match a.overlap(b) {
        Some(inter) => {
            let (w, h) = (inter.width as int, inter.height as int);
            assert(w * h == common_pixels(a, b));
            assert(0 < w * h) by (nonlinear_arith)
                requires
                    w > 0,
                    h > 0,
            ;
            assert(w * h <= a.width * a.height && a.width * a.height < 0x4000_0000_0000_0000)
                by (nonlinear_arith)
                requires
                    0 < w <= a.width < 0x8000_0000,
                    0 < h <= a.height < 0x8000_0000,
            ;
            assert(w * h <= b.width * b.height && b.width * b.height < 0x4000_0000_0000_0000)
                by (nonlinear_arith)
                requires
                    0 < w <= b.width < 0x8000_0000,
                    0 < h <= b.height < 0x8000_0000,
            ;
            lemma_overlap_share(a, b, inter);
            numeric::law_order(overlap_share(a, b, inter), threshold);
        },
        None => {
            assert(common_pixels(a, b) == 0);
        },
    }
}

/// What overlaps by more than a share overlaps by more than any smaller one, and no overlap is
/// more than its own share.
pub proof fn law_threshold(a: ScreenRect, b: ScreenRect, low: Single, high: Single)
    requires
        !low.is_nan(),
        high.spec_ge(low),
    ensures
        overlaps_more(a, b, high) ==> overlaps_more(a, b, low),
        a.overlap(b) matches Some(inter) ==> !overlaps_more(a, b, overlap_share(a, b, inter)),
{
}

/// The entries of a list of `n` that are left when each one that is left, from the first on,
/// takes out all later ones that it beats.
pub open spec fn survivors(n: nat, beats: spec_fn(int, int) -> bool) -> Seq<int>
    decreases n,
{
    if n == 0 {
        Seq::empty()
    } else {
        let before = survivors((n - 1) as nat, beats);
        if beaten(before, n - 1, beats) {
            before
        } else {
            before.push(n - 1)
        }
    }
}

/// Some entry of `kept` beats entry `j`.
pub open spec fn beaten(kept: Seq<int>, j: int, beats: spec_fn(int, int) -> bool) -> bool {
    exists|q: int| 0 <= q < kept.len() && #[trigger] beats(kept[q], j)
}

/// What is left keeps its order, and nothing that is left beats anything else that is left.
pub proof fn law_survivors_apart(n: nat, beats: spec_fn(int, int) -> bool)
    ensures
        forall|p: int|
            0 <= p < survivors(n, beats).len() ==> 0 <= #[trigger] survivors(n, beats)[p] < n,
        forall|p: int, q: int|
            #![trigger survivors(n, beats)[p], survivors(n, beats)[q]]
            0 <= p < q < survivors(n, beats).len() ==> survivors(n, beats)[p] < survivors(
                n,
                beats,
            )[q] && !beats(survivors(n, beats)[p], survivors(n, beats)[q]),
    decreases n,
{
    if n > 0 {
        law_survivors_apart((n - 1) as nat, beats);
        let before = survivors((n - 1) as nat, beats);
        let after = survivors(n, beats);
        assert forall|p: int| 0 <= p < after.len() implies 0 <= #[trigger] after[p] < n by {
            if p < before.len() {
                assert(after[p] == before[p]);
            }
        }
        assert forall|p: int, q: int|
            #![trigger after[p], after[q]]
            0 <= p < q < after.len() implies after[p] < after[q] && !beats(after[p], after[q]) by {
            assert(after[p] == before[p]);
            if q < before.len() {
                assert(after[q] == before[q]);
            }
        }
    }
}

/// Whatever is gone was beaten by an earlier entry that is left.
pub proof fn law_suppressed_beaten(n: nat, beats: spec_fn(int, int) -> bool, j: int)
    requires
        0 <= j < n,
    ensures
        survivors(n, beats).contains(j) || exists|p: int|
            0 <= p < survivors(n, beats).len() && survivors(n, beats)[p] < j
                && #[trigger] beats(survivors(n, beats)[p], j),
    decreases n,
{
    let before = survivors((n - 1) as nat, beats);
    let after = survivors(n, beats);
    law_survivors_apart((n - 1) as nat, beats);
    assert(forall|p: int| 0 <= p < before.len() ==> after[p] == before[p]);
    if j < n - 1 {
        law_suppressed_beaten((n - 1) as nat, beats, j);
        if before.contains(j) {
            let p = choose|p: int| 0 <= p < before.len() && before[p] == j;
            assert(after[p] == j);
        } else {
            let p = choose|p: int|
                0 <= p < before.len() && before[p] < j && #[trigger] beats(before[p], j);
            assert(beats(after[p], j));
        }
    } else {
        if beaten(before, j, beats) {
            let q = choose|q: int| 0 <= q < before.len() && #[trigger] beats(before[q], j);
            assert(beats(after[q], j));
        } else {
            assert(after.last() == j);
        }
    }
}

/// The best one of all is never taken out.
pub proof fn law_first_survives(n: nat, beats: spec_fn(int, int) -> bool)
    requires
        n > 0,
    ensures
        survivors(n, beats).len() > 0,
        survivors(n, beats)[0] == 0,
    decreases n,
{
    if n > 1 {
        law_first_survives((n - 1) as nat, beats);
    } else {
        assert(survivors(0, beats).len() == 0);
    }
}

} // verus!
