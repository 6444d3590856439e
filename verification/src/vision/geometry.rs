//! Screen rectangles and colours.

use vstd::prelude::*;

use crate::single::Single;
use crate::text;
use crate::text::{chars_of, push_hex_byte, value_of_hex};

verus! {

/// The value that a `u32` has once it is read as an `i32`: sizes from two to the
/// thirty-first power on turn negative.
pub open spec fn as_signed(n: u32) -> int {
    if n < 0x8000_0000 {
        n as int
    } else {
        n as int - 0x1_0000_0000
    }
}

/// Reads a size as a signed number, in a type wide enough to go on computing with it.
pub fn signed_size(n: u32) -> (r: i64)
    ensures
        r == as_signed(n),
{
    if n < 0x8000_0000 {
        n as i64
    } else {
        n as i64 - 0x1_0000_0000
    }
}

/// Half of a size that is read as a signed number, cut off behind the point.
pub open spec fn half(size: u32) -> int {
    let n = as_signed(size);
    if n >= 0 {
        n / 2
    } else {
        -((-n) / 2)
    }
}

pub fn half_of(size: u32) -> (r: i32)
    ensures
        r == half(size),
        -0x4000_0000 <= r <= 0x4000_0000,
{
    let n: i64 = signed_size(size);
    if n >= 0 {
        (n / 2) as i32
    } else {
        -(((-n) / 2) as i32)
    }
}

pub open spec fn max_int(a: int, b: int) -> int {
    if a >= b {
        a
    } else {
        b
    }
}

pub open spec fn min_int(a: int, b: int) -> int {
    if a <= b {
        a
    } else {
        b
    }
}

fn max_i64(a: i64, b: i64) -> (r: i64)
    ensures
        r == max_int(a as int, b as int),
{
    if a >= b {
        a
    } else {
        b
    }
}

fn min_i64(a: i64, b: i64) -> (r: i64)
    ensures
        r == min_int(a as int, b as int),
{
    if a <= b {
        a
    } else {
        b
    }
}

/// A rectangle of the desktop: its left upper corner and its size in pixels.
#[derive(Debug, Clone, Copy, PartialEq, Eq, Structural)]
pub struct ScreenRect {
    pub x: i32,
    pub y: i32,
    pub width: u32,
    pub height: u32,
}

impl ScreenRect {
    /// The first column right of the rectangle. A width that is negative as an `i32`
    /// puts it left of `x`: such a rectangle holds no pixel.
    pub open spec fn right_edge(self) -> int {
        self.x + as_signed(self.width)
    }

    /// The first row below the rectangle.
    pub open spec fn bottom_edge(self) -> int {
        self.y + as_signed(self.height)
    }

    /// Whether the pixel in column `px` and row `py` belongs to the rectangle.
    pub open spec fn covers(self, px: int, py: int) -> bool {
        self.x <= px < self.right_edge() && self.y <= py < self.bottom_edge()
    }

    pub open spec fn spec_area(self) -> int {
        self.width * self.height
    }

    /// The rectangle of the pixels that belong to both rectangles, if there is any.
    pub open spec fn overlap(self, other: ScreenRect) -> Option<ScreenRect> {
        let x1 = max_int(self.x as int, other.x as int);
        let y1 = max_int(self.y as int, other.y as int);
        let x2 = min_int(self.right_edge(), other.right_edge());
        let y2 = min_int(self.bottom_edge(), other.bottom_edge());
        if x2 > x1 && y2 > y1 {
            Some(
                ScreenRect {
                    x: x1 as i32,
                    y: y1 as i32,
                    width: (x2 - x1) as u32,
                    height: (y2 - y1) as u32,
                },
            )
        } else {
            None
        }
    }

    /// What is left of the rectangle beside an inner rectangle `hole`: the columns left
    /// of it, the columns right of it, and above and below it the rest of its own columns.
    pub open spec fn around(self, hole: ScreenRect) -> Seq<ScreenRect> {
        let left = if hole.x > self.x {
            seq![
                ScreenRect {
                    x: self.x,
                    y: self.y,
                    width: (hole.x - self.x) as u32,
                    height: self.height,
                },
            ]
        } else {
            seq![]
        };
        let right = if hole.right_edge() < self.right_edge() {
            seq![
                ScreenRect {
                    x: hole.right_edge() as i32,
                    y: self.y,
                    width: (self.right_edge() - hole.right_edge()) as u32,
                    height: self.height,
                },
            ]
        } else {
            seq![]
        };
        let above = if hole.y > self.y {
            seq![
                ScreenRect {
                    x: hole.x,
                    y: self.y,
                    width: hole.width,
                    height: (hole.y - self.y) as u32,
                },
            ]
        } else {
            seq![]
        };
        let below = if hole.bottom_edge() < self.bottom_edge() {
            seq![
                ScreenRect {
                    x: hole.x,
                    y: hole.bottom_edge() as i32,
                    width: hole.width,
                    height: (self.bottom_edge() - hole.bottom_edge()) as u32,
                },
            ]
        } else {
            seq![]
        };
        left + right + above + below
    }

    /// The rectangle without the pixels of `other`, as rectangles.
    pub open spec fn difference(self, other: ScreenRect) -> Seq<ScreenRect> {
        match self.overlap(other) {
            None => seq![self],
            Some(hole) => self.around(hole),
        }
    }

    pub fn new(x: i32, y: i32, width: u32, height: u32) -> (r: Self)
        ensures
            r == (ScreenRect { x, y, width, height }),
    {
        ScreenRect { x, y, width, height }
    }

    pub fn right(&self) -> (r: i32)
        requires
            i32::MIN <= self.right_edge() <= i32::MAX,
        ensures
            r == self.right_edge(),
    {
        (self.x as i64 + signed_size(self.width)) as i32
    }

    pub fn bottom(&self) -> (r: i32)
        requires
            i32::MIN <= self.bottom_edge() <= i32::MAX,
        ensures
            r == self.bottom_edge(),
    {
        (self.y as i64 + signed_size(self.height)) as i32
    }

    /// `right` where it may lie beyond the range of an `i32`.
    pub fn wide_right(&self) -> (r: i64)
        ensures
            r == self.right_edge(),
    {
        self.x as i64 + signed_size(self.width)
    }

    /// `bottom` where it may lie beyond the range of an `i32`.
    pub fn wide_bottom(&self) -> (r: i64)
        ensures
            r == self.bottom_edge(),
    {
        self.y as i64 + signed_size(self.height)
    }

    pub fn contains_point(&self, px: i32, py: i32) -> (r: bool)
        ensures
            r == self.covers(px as int, py as int),
    {
        px >= self.x && (px as i64) < self.wide_right() && py >= self.y && (py as i64)
            < self.wide_bottom()
    }

    pub fn area(&self) -> (r: u64)
        ensures
            r == self.spec_area(),
    {
        assert(0 <= self.width * self.height <= 0xffff_ffff * 0xffff_ffff) by (nonlinear_arith)
            requires
                0 <= self.width <= 0xffff_ffff,
                0 <= self.height <= 0xffff_ffff,
        ;
        self.width as u64 * self.height as u64
    }

    pub fn intersection(&self, other: &ScreenRect) -> (r: Option<ScreenRect>)
        ensures
            r == self.overlap(*other),
    {
        let x1: i64 = max_i64(self.x as i64, other.x as i64);
        let y1: i64 = max_i64(self.y as i64, other.y as i64);
        let x2: i64 = min_i64(self.wide_right(), other.wide_right());
        let y2: i64 = min_i64(self.wide_bottom(), other.wide_bottom());
        if x2 > x1 && y2 > y1 {
            Some(
                ScreenRect {
                    x: x1 as i32,
                    y: y1 as i32,
                    width: (x2 - x1) as u32,
                    height: (y2 - y1) as u32,
                },
            )
        } else {
            None
        }
    }

    /// Whether the edges of `other` lie within those of this rectangle.
    pub fn contains(&self, other: &ScreenRect) -> (r: bool)
        ensures
            r == (other.x >= self.x && other.y >= self.y && other.right_edge() <= self.right_edge()
                && other.bottom_edge() <= self.bottom_edge()),
    {
        other.x >= self.x && other.y >= self.y && other.wide_right() <= self.wide_right()
            && other.wide_bottom() <= self.wide_bottom()
    }

    pub fn subtract(&self, other: &ScreenRect) -> (r: Vec<ScreenRect>)
        ensures
            r@ == self.difference(*other),
    {
        match self.intersection(other) {
            None => vec![*self],
            Some(hole) => {
                let mut rects: Vec<ScreenRect> = Vec::with_capacity(4);
                proof {
                    lemma_overlap_inside(*self, *other);
                }
                if hole.x > self.x {
                    rects.push(
                        ScreenRect {
                            x: self.x,
                            y: self.y,
                            width: (hole.x as i64 - self.x as i64) as u32,
                            height: self.height,
                        },
                    );
                }
                if hole.wide_right() < self.wide_right() {
                    rects.push(
                        ScreenRect {
                            x: hole.wide_right() as i32,
                            y: self.y,
                            width: (self.wide_right() - hole.wide_right()) as u32,
                            height: self.height,
                        },
                    );
                }
                if hole.y > self.y {
                    rects.push(
                        ScreenRect {
                            x: hole.x,
                            y: self.y,
                            width: hole.width,
                            height: (hole.y as i64 - self.y as i64) as u32,
                        },
                    );
                }
                if hole.wide_bottom() < self.wide_bottom() {
                    rects.push(
                        ScreenRect {
                            x: hole.x,
                            y: hole.wide_bottom() as i32,
                            width: hole.width,
                            height: (self.wide_bottom() - hole.wide_bottom()) as u32,
                        },
                    );
                }
                assert(rects@ =~= self.around(hole));
                rects
            },
        }
    }

    /// The rectangle with a margin of `padding` pixels added on each side.
    pub fn pad(&self, padding: u32) -> (r: ScreenRect)
        requires
            i32::MIN <= self.x - as_signed(padding) <= i32::MAX,
            i32::MIN <= self.y - as_signed(padding) <= i32::MAX,
            self.width + padding * 2 <= u32::MAX,
            self.height + padding * 2 <= u32::MAX,
        ensures
            r.x == self.x - as_signed(padding),
            r.y == self.y - as_signed(padding),
            r.width == self.width + padding * 2,
            r.height == self.height + padding * 2,
    {
        ScreenRect {
            x: (self.x as i64 - signed_size(padding)) as i32,
            y: (self.y as i64 - signed_size(padding)) as i32,
            width: self.width + padding * 2,
            height: self.height + padding * 2,
        }
    }

    /// The rectangle with its horizontal numbers multiplied by `sx` and its vertical ones by
    /// `sy`, in single precision, and cut off behind the point.
    pub open spec fn scaled(self, sx: Single, sy: Single) -> ScreenRect {
        ScreenRect {
            x: Single::of_int(self.x as int).product(sx).clamped(
                i32::MIN as int,
                i32::MAX as int,
            ) as i32,
            y: Single::of_int(self.y as int).product(sy).clamped(
                i32::MIN as int,
                i32::MAX as int,
            ) as i32,
            width: Single::of_int(self.width as int).product(sx).clamped(0, u32::MAX as int) as u32,
            height: Single::of_int(self.height as int).product(sy).clamped(
                0,
                u32::MAX as int,
            ) as u32,
        }
    }

    pub fn scale(&self, sx: Single, sy: Single) -> (r: ScreenRect)
        ensures
            r == self.scaled(sx, sy),
    {
        ScreenRect {
            x: Single::from_i32(self.x).times(sx).to_i32(),
            y: Single::from_i32(self.y).times(sy).to_i32(),
            width: Single::from_u64(self.width as u64).times(sx).to_u32(),
            height: Single::from_u64(self.height as u64).times(sy).to_u32(),
        }
    }
}

/// A pixel of the desktop.
#[derive(Debug, Clone, Copy, PartialEq, Eq, Structural)]
pub struct ScreenPoint {
    pub x: i32,
    pub y: i32,
}

impl ScreenPoint {
    pub fn new(x: i32, y: i32) -> (r: Self)
        ensures
            r == (ScreenPoint { x, y }),
    {
        ScreenPoint { x, y }
    }
}

/// A colour by its red, green and blue part.
#[derive(Debug, Clone, Copy, PartialEq, Eq, Structural)]
pub struct ColorRgb {
    pub r: u8,
    pub g: u8,
    pub b: u8,
}

/// The value of two hexadecimal digits. A plus sign may stand in place of the first.
pub open spec fn hex_pair(first: char, second: char) -> Option<int> {
    match (text::hex_value(first), text::hex_value(second)) {
        (Some(a), Some(b)) => Some(16 * a + b),
        (None, Some(b)) => if first == '+' {
            Some(b)
        } else {
            None
        },
        _ => None,
    }
}

/// The text without the number signs in front of it.
pub open spec fn without_signs(hex: Seq<char>) -> Seq<char>
    decreases hex.len(),
{
    if hex.len() > 0 && hex.first() == '#' {
        without_signs(hex.drop_first())
    } else {
        hex
    }
}

fn read_hex_pair(first: char, second: char) -> (r: Option<u8>)
    ensures
        match r {
            Some(v) => hex_pair(first, second) == Some(v as int),
            None => hex_pair(first, second) is None,
        },
{
    match (value_of_hex(first), value_of_hex(second)) {
        (Some(a), Some(b)) => Some(16 * a + b),
        (None, Some(b)) => if first == '+' {
            Some(b)
        } else {
            None
        },
        _ => None,
    }
}

impl ColorRgb {
    /// The colour as a number sign and six hexadecimal digits.
    pub open spec fn hex(self) -> Seq<char> {
        seq!['#'] + text::hex_byte(self.r) + text::hex_byte(self.g)
            + text::hex_byte(self.b)
    }

    /// The colour that six hexadecimal digits stand for.
    pub open spec fn of_hex(hex: Seq<char>) -> Option<ColorRgb> {
        let digits = without_signs(hex);
        if digits.len() != 6 {
            None
        } else {
            match (
                hex_pair(digits[0], digits[1]),
                hex_pair(digits[2], digits[3]),
                hex_pair(digits[4], digits[5]),
            ) {
                (Some(r), Some(g), Some(b)) => Some(
                    ColorRgb { r: r as u8, g: g as u8, b: b as u8 },
                ),
                _ => None,
            }
        }
    }

    pub fn new(r: u8, g: u8, b: u8) -> (c: Self)
        ensures
            c == (ColorRgb { r, g, b }),
    {
        ColorRgb { r, g, b }
    }

    pub fn from_tuple(rgb: (u8, u8, u8)) -> (c: Self)
        ensures
            c == (ColorRgb { r: rgb.0, g: rgb.1, b: rgb.2 }),
    {
        ColorRgb { r: rgb.0, g: rgb.1, b: rgb.2 }
    }

    pub fn to_tuple(self) -> (rgb: (u8, u8, u8))
        ensures
            rgb == (self.r, self.g, self.b),
    {
        (self.r, self.g, self.b)
    }

    pub fn to_hex(self) -> (s: String)
        ensures
            s@ == self.hex(),
    {
        let mut s = String::new();
        s.push('#');
        push_hex_byte(&mut s, self.r);
        push_hex_byte(&mut s, self.g);
        push_hex_byte(&mut s, self.b);
        assert(s@ =~= self.hex());
        s
    }

    pub fn from_hex(hex: &str) -> (c: Option<Self>)
        ensures
            c == ColorRgb::of_hex(hex@),
    {
        let chars = chars_of(hex);
        let mut from: usize = 0;
        assert(chars@.skip(0) =~= hex@);
        while from < chars.len() && chars[from] == '#'
            invariant
                from <= chars.len(),
                without_signs(chars@.skip(from as int)) == without_signs(hex@),
            decreases chars.len() - from,
        {
            assert(chars@.skip(from as int).drop_first() =~= chars@.skip(from + 1));
            from = from + 1;
        }
        assert(without_signs(hex@) == chars@.skip(from as int));
        if chars.len() - from != 6 {
            return None;
        }
        match (
            read_hex_pair(chars[from], chars[from + 1]),
            read_hex_pair(chars[from + 2], chars[from + 3]),
            read_hex_pair(chars[from + 4], chars[from + 5]),
        ) {
            (Some(r), Some(g), Some(b)) => Some(ColorRgb { r, g, b }),
            _ => None,
        }
    }
}

impl Default for ColorRgb {
    /// Blue.
    fn default() -> (c: Self)
        ensures
            c == (ColorRgb { r: 0, g: 0, b: 255 }),
    {
        ColorRgb { r: 0, g: 0, b: 255 }
    }
}

/// A monitor: where it lies on the desktop, and the part of it that windows may fill.
#[derive(Debug, Clone, Copy, PartialEq, Eq, Structural)]
pub struct MonitorInfo {
    pub id: u32,
    pub bounds: ScreenRect,
    pub work_area: ScreenRect,
    pub is_primary: bool,
}

/// Reading back a written colour gives the colour.
pub proof fn law_hex_round_trip(c: ColorRgb)
    ensures
        ColorRgb::of_hex(c.hex()) == Some(c),
{
    let s = c.hex();
    let rest = s.drop_first();
    assert(without_signs(s) == without_signs(rest));
    assert(rest[0] == text::digit_char((c.r / 16) as int));
    assert(without_signs(rest) == rest);
}

/// An overlap lies inside both rectangles, and its size is positive as an `i32` too.
pub proof fn lemma_overlap_inside(a: ScreenRect, b: ScreenRect)
    ensures
        a.overlap(b) matches Some(o) ==> {
            &&& a.x <= o.x && o.right_edge() <= a.right_edge()
            &&& a.y <= o.y && o.bottom_edge() <= a.bottom_edge()
            &&& b.x <= o.x && o.right_edge() <= b.right_edge()
            &&& b.y <= o.y && o.bottom_edge() <= b.bottom_edge()
            &&& 0 < o.width < 0x8000_0000
            &&& 0 < o.height < 0x8000_0000
            &&& 0 < a.width < 0x8000_0000
            &&& 0 < a.height < 0x8000_0000
        },
{
}

/// Some rectangle of `parts` holds the pixel.
pub open spec fn any_covers(parts: Seq<ScreenRect>, px: int, py: int) -> bool {
    exists|i: int| 0 <= i < parts.len() && #[trigger] parts[i].covers(px, py)
}

/// The number of pixels of all rectangles of `parts` together.
pub open spec fn total_area(parts: Seq<ScreenRect>) -> int
    decreases parts.len(),
{
    if parts.len() == 0 {
        0
    } else {
        total_area(parts.drop_last()) + parts.last().spec_area()
    }
}

/// The overlap of two rectangles holds exactly the pixels that belong to both.
pub proof fn law_overlap_covers(a: ScreenRect, b: ScreenRect, px: int, py: int)
    ensures
        match a.overlap(b) {
            Some(o) => o.covers(px, py) <==> a.covers(px, py) && b.covers(px, py),
            None => !(a.covers(px, py) && b.covers(px, py)),
        },
{
}

/// It does not matter which of two rectangles is asked for the overlap.
pub proof fn law_overlap_commutes(a: ScreenRect, b: ScreenRect)
    ensures
        a.overlap(b) == b.overlap(a),
{
}

/// A rectangle whose edges lie within those of another holds no pixel that the other lacks.
pub proof fn law_contains_covers(outer: ScreenRect, inner: ScreenRect, px: int, py: int)
    requires
        inner.x >= outer.x,
        inner.y >= outer.y,
        inner.right_edge() <= outer.right_edge(),
        inner.bottom_edge() <= outer.bottom_edge(),
    ensures
        inner.covers(px, py) ==> outer.covers(px, py),
{
}

/// Subtracting a rectangle leaves exactly the pixels that it does not hold.
pub proof fn law_difference_covers(a: ScreenRect, b: ScreenRect, px: int, py: int)
    requires
        a.right_edge() <= i32::MAX,
        a.bottom_edge() <= i32::MAX,
    ensures
        any_covers(a.difference(b), px, py) <==> a.covers(px, py) && !b.covers(px, py),
{
    let parts = a.difference(b);
    match a.overlap(b) {
        None => {
            assert(parts[0] == a);
        },
        Some(hole) => {
            lemma_overlap_inside(a, b);
            lemma_around_parts(a, hole);
            if a.covers(px, py) && !b.covers(px, py) {
                let (nl, nr, na) = around_counts(a, hole);
                if px < hole.x {
                    assert(parts[0].covers(px, py));
                } else if px >= hole.right_edge() {
                    assert(parts[nl].covers(px, py));
                } else if py < hole.y {
                    assert(parts[nl + nr].covers(px, py));
                } else {
                    assert(parts[nl + nr + na].covers(px, py));
                }
            }
        },
    }
}

/// The rectangles that a subtraction leaves share no pixel.
pub proof fn law_difference_disjoint(
    a: ScreenRect,
    b: ScreenRect,
    i: int,
    j: int,
    px: int,
    py: int,
)
    requires
        a.right_edge() <= i32::MAX,
        a.bottom_edge() <= i32::MAX,
        0 <= i < j < a.difference(b).len(),
    ensures
        !(a.difference(b)[i].covers(px, py) && a.difference(b)[j].covers(px, py)),
{
    match a.overlap(b) {
        None => {},
        Some(hole) => {
            lemma_overlap_inside(a, b);
            lemma_around_parts(a, hole);
            let (nl, nr, na) = around_counts(a, hole);
            let first = a.around(hole)[i];
            let second = a.around(hole)[j];
            if i < nl {
                assert(first.right_edge() == hole.x);
                assert(second.x >= hole.x);
            } else if i < nl + nr {
                assert(first.x == hole.right_edge());
                assert(second.right_edge() == hole.right_edge());
            } else {
                assert(first.bottom_edge() == hole.y);
                assert(second.y == hole.bottom_edge());
            }
        },
    }
}

/// What a subtraction leaves ends where the rectangle ends, or earlier.
pub proof fn lemma_difference_edges(a: ScreenRect, b: ScreenRect, i: int)
    requires
        a.right_edge() <= i32::MAX,
        a.bottom_edge() <= i32::MAX,
        0 <= i < a.difference(b).len(),
    ensures
        a.difference(b)[i].right_edge() <= a.right_edge(),
        a.difference(b)[i].bottom_edge() <= a.bottom_edge(),
{
    match a.overlap(b) {
        None => {},
        Some(hole) => {
            lemma_overlap_inside(a, b);
            lemma_around_parts(a, hole);
            let (nl, nr, na) = around_counts(a, hole);
            let part = a.around(hole)[i];
            if i < nl {
                assert(part.right_edge() == hole.x);
            } else if i < nl + nr {
                assert(part.right_edge() == a.right_edge());
            } else if i < nl + nr + na {
                assert(part.bottom_edge() == hole.y);
            } else {
                assert(part.bottom_edge() == a.bottom_edge());
            }
        },
    }
}

/// No pixel gets lost: what a subtraction leaves and the overlap add up to the rectangle.
pub proof fn law_difference_area(a: ScreenRect, b: ScreenRect)
    requires
        a.right_edge() <= i32::MAX,
        a.bottom_edge() <= i32::MAX,
    ensures
        total_area(a.difference(b)) + (match a.overlap(b) {
            Some(o) => o.spec_area(),
            None => 0,
        }) == a.spec_area(),
{
    reveal_with_fuel(total_area, 6);
    match a.overlap(b) {
        None => {
            assert(seq![a].drop_last() =~= Seq::<ScreenRect>::empty());
        },
        Some(hole) => {
            lemma_overlap_inside(a, b);
            let left: int = hole.x - a.x;
            let right: int = a.right_edge() - hole.right_edge();
            let above: int = hole.y - a.y;
            let below: int = a.bottom_edge() - hole.bottom_edge();
            let w = hole.width as int;
            let h = hole.height as int;
            let full = a.height as int;
            assert(left * full + right * full + w * above + w * below + w * h == (left + right + w)
                * full) by (nonlinear_arith)
                requires
                    full == above + below + h,
            ;
            assert(left == 0 ==> left * full == 0) by (nonlinear_arith);
            assert(right == 0 ==> right * full == 0) by (nonlinear_arith);
            assert(above == 0 ==> w * above == 0) by (nonlinear_arith);
            assert(below == 0 ==> w * below == 0) by (nonlinear_arith);
            let l: Seq<ScreenRect> = if left > 0 {
                seq![ScreenRect { x: a.x, y: a.y, width: left as u32, height: a.height }]
            } else {
                seq![]
            };
            let r: Seq<ScreenRect> = if right > 0 {
                seq![
                    ScreenRect {
                        x: hole.right_edge() as i32,
                        y: a.y,
                        width: right as u32,
                        height: a.height,
                    },
                ]
            } else {
                seq![]
            };
            let u: Seq<ScreenRect> = if above > 0 {
                seq![ScreenRect { x: hole.x, y: a.y, width: hole.width, height: above as u32 }]
            } else {
                seq![]
            };
            let d: Seq<ScreenRect> = if below > 0 {
                seq![
                    ScreenRect {
                        x: hole.x,
                        y: hole.bottom_edge() as i32,
                        width: hole.width,
                        height: below as u32,
                    },
                ]
            } else {
                seq![]
            };
            lemma_total_area_add(l, r);
            lemma_total_area_add(l + r, u);
            lemma_total_area_add(l + r + u, d);
            assert(a.around(hole) =~= l + r + u + d);
            assert(l.drop_last() =~= Seq::<ScreenRect>::empty() || left == 0);
            assert(r.drop_last() =~= Seq::<ScreenRect>::empty() || right == 0);
            assert(u.drop_last() =~= Seq::<ScreenRect>::empty() || above == 0);
            assert(d.drop_last() =~= Seq::<ScreenRect>::empty() || below == 0);
        },
    }
}

proof fn lemma_total_area_add(p: Seq<ScreenRect>, q: Seq<ScreenRect>)
    ensures
        total_area(p + q) == total_area(p) + total_area(q),
    decreases q.len(),
{
    if q.len() == 0 {
        assert(p + q =~= p);
    } else {
        lemma_total_area_add(p, q.drop_last());
        assert((p + q).drop_last() =~= p + q.drop_last());
    }
}

/// How many of the parts of `around` lie left of, right of and above the hole.
spec fn around_counts(a: ScreenRect, hole: ScreenRect) -> (int, int, int) {
    (
        if hole.x > a.x {
            1
        } else {
            0
        },
        if hole.right_edge() < a.right_edge() {
            1
        } else {
            0
        },
        if hole.y > a.y {
            1
        } else {
            0
        },
    )
}

/// Where each part of `around` stands in the sequence.
proof fn lemma_around_parts(a: ScreenRect, hole: ScreenRect)
    ensures
        ({
            let (nl, nr, na) = around_counts(a, hole);
            let parts = a.around(hole);
            let nb: int = if hole.bottom_edge() < a.bottom_edge() {
                1
            } else {
                0
            };
            &&& parts.len() == nl + nr + na + nb
            &&& nl == 1 ==> parts[0] == (ScreenRect {
                x: a.x,
                y: a.y,
                width: (hole.x - a.x) as u32,
                height: a.height,
            })
            &&& nr == 1 ==> parts[nl] == (ScreenRect {
                x: hole.right_edge() as i32,
                y: a.y,
                width: (a.right_edge() - hole.right_edge()) as u32,
                height: a.height,
            })
            &&& na == 1 ==> parts[nl + nr] == (ScreenRect {
                x: hole.x,
                y: a.y,
                width: hole.width,
                height: (hole.y - a.y) as u32,
            })
            &&& nb == 1 ==> parts[nl + nr + na] == (ScreenRect {
                x: hole.x,
                y: hole.bottom_edge() as i32,
                width: hole.width,
                height: (a.bottom_edge() - hole.bottom_edge()) as u32,
            })
        }),
{
}

/// A rectangle of an ordinary size covers the pixels that lie less than its width right of its
/// left edge and less than its height below its upper edge.
pub proof fn law_covers_span(r: ScreenRect, dx: int, dy: int)
    requires
        r.width < 0x8000_0000,
        r.height < 0x8000_0000,
    ensures
        r.covers(r.x + dx, r.y + dy) == (0 <= dx < r.width && 0 <= dy < r.height),
{
}

/// Half of a size is the number of which two make the size, or one less.
pub proof fn law_half(size: u32)
    requires
        size < 0x8000_0000,
    ensures
        2 * half(size) <= size <= 2 * half(size) + 1,
{
}

/// Number signs in front of a colour do not count.
pub proof fn law_hex_signs(hex: Seq<char>)
    ensures
        ColorRgb::of_hex(seq!['#'] + hex) == ColorRgb::of_hex(hex),
{
    let more = seq!['#'] + hex;
    assert(more.drop_first() =~= hex);
    assert(more.first() == '#');
}

/// A hexadecimal digit counts the same in either case, and stands for its place among the sixteen.
pub proof fn law_hex_digit(d: int)
    requires
        0 <= d < 16,
    ensures
        d < 10 ==> text::hex_value((48 + d) as char) == Some(d),
        d >= 10 ==> text::hex_value((97 + d - 10) as char) == Some(d) && text::hex_value(
            (65 + d - 10) as char,
        ) == Some(d),
{
}

/// A colour is read from six digits that may be in either case: two each for red, green and blue,
/// the one that counts sixteen times first.
pub proof fn law_hex_read(digits: Seq<char>, values: Seq<int>)
    requires
        digits.len() == 6,
        values.len() == 6,
        forall|i: int|
            0 <= i < 6 ==> 0 <= #[trigger] values[i] < 16 && {
                let (c, d) = (digits[i] as int, values[i]);
                (d < 10 && c == 48 + d) || (d >= 10 && (c == 87 + d || c == 55 + d))
            },
    ensures
        ColorRgb::of_hex(digits) == Some(
            ColorRgb {
                r: (16 * values[0] + values[1]) as u8,
                g: (16 * values[2] + values[3]) as u8,
                b: (16 * values[4] + values[5]) as u8,
            },
        ),
{
    assert forall|i: int| 0 <= i < 6 implies text::hex_value(#[trigger] digits[i]) == Some(
        values[i],
    ) by {
        assert(0 <= values[i] < 16);
    }
    assert(0 <= values[0] < 16);
    assert(digits.first() == digits[0]);
    assert(without_signs(digits) == digits);
}

} // verus!
