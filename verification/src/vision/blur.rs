//! Blurring by box means.
//!
//! The mean of a box is taken from tables that hold, for each corner, the sum of everything
//! above and left of it: four look-ups give the sum of any box.

use vstd::arithmetic::div_mod::*;
use vstd::prelude::*;

use crate::numeric;
use crate::vision::geometry;

verus! {

/// The channel of `sample` that counts pixels.
pub open spec fn presence() -> int {
    3
}

/// A byte of the pixel in column `x` of row `y`, or 1 for the channel that counts pixels.
/// Nothing where the data ends before the pixel does.
pub open spec fn sample(data: Seq<u8>, width: int, channel: int, y: int, x: int) -> int {
    let at = 3 * (y * width + x);
    if at + 2 >= data.len() {
        0
    } else if channel == presence() {
        1
    } else {
        data[at + channel] as int
    }
}

/// The sum of the samples of row `y` in the columns from `x0` up to `x1`.
pub open spec fn row_sum(
    data: Seq<u8>,
    width: int,
    channel: int,
    y: int,
    x0: int,
    x1: int,
) -> int
    decreases x1 - x0,
{
    if x1 <= x0 {
        0
    } else {
        row_sum(data, width, channel, y, x0, x1 - 1) + sample(data, width, channel, y, x1 - 1)
    }
}

/// The sum of the samples in the rows from `y0` up to `y1` and the columns from `x0` up to
/// `x1`.
pub open spec fn box_sum(
    data: Seq<u8>,
    width: int,
    channel: int,
    y0: int,
    y1: int,
    x0: int,
    x1: int,
) -> int
    decreases y1 - y0,
{
    if y1 <= y0 {
        0
    } else {
        box_sum(data, width, channel, y0, y1 - 1, x0, x1) + row_sum(
            data,
            width,
            channel,
            y1 - 1,
            x0,
            x1,
        )
    }
}

/// How far a box reaches beyond its centre.
pub open spec fn reach(width: int) -> int {
    geometry::max_int(width / 2, 1)
}

/// The sum of a channel over the part of the picture around a pixel.
pub open spec fn sum_around(
    data: Seq<u8>,
    width: int,
    height: int,
    channel: int,
    y: int,
    x: int,
) -> int {
    let k = reach(width);
    box_sum(
        data,
        width,
        channel,
        geometry::max_int(y - k, 0),
        geometry::min_int(y + k + 1, height),
        geometry::max_int(x - k, 0),
        geometry::min_int(x + k + 1, width),
    )
}

/// The mean of a channel around a pixel, over the pixels that are there.
pub open spec fn mean_around(
    data: Seq<u8>,
    width: int,
    height: int,
    channel: int,
    y: int,
    x: int,
) -> int {
    sum_around(data, width, height, channel, y, x) / sum_around(
        data,
        width,
        height,
        presence(),
        y,
        x,
    )
}

/// The blurred picture: each pixel holds the means around it. Bytes behind the last pixel are
/// zero.
pub open spec fn blurred(data: Seq<u8>, width: int, height: int) -> Seq<u8> {
    Seq::new(
        data.len(),
        |i: int|
            {
                let p = i / 3;
                if p < data.len() / 3 && p < width * height {
                    mean_around(data, width, height, i % 3, p / width, p % width) as u8
                } else {
                    0
                }
            },
    )
}

proof fn lemma_row_split(data: Seq<u8>, width: int, channel: int, y: int, x0: int, x1: int)
    requires
        0 <= x0 <= x1,
    ensures
        row_sum(data, width, channel, y, x0, x1) == row_sum(data, width, channel, y, 0, x1)
            - row_sum(data, width, channel, y, 0, x0),
    decreases x1 - x0,
{
    if x0 < x1 {
        lemma_row_split(data, width, channel, y, x0, x1 - 1);
    }
}

proof fn lemma_box_columns(data: Seq<u8>, width: int, channel: int, y: int, x0: int, x1: int)
    requires
        0 <= x0 <= x1,
        0 <= y,
    ensures
        box_sum(data, width, channel, 0, y, x0, x1) == box_sum(data, width, channel, 0, y, 0, x1)
            - box_sum(data, width, channel, 0, y, 0, x0),
    decreases y,
{
    if y > 0 {
        lemma_box_columns(data, width, channel, y - 1, x0, x1);
        lemma_row_split(data, width, channel, y - 1, x0, x1);
    }
}

proof fn lemma_box_rows(
    data: Seq<u8>,
    width: int,
    channel: int,
    y0: int,
    y1: int,
    x0: int,
    x1: int,
)
    requires
        0 <= y0 <= y1,
    ensures
        box_sum(data, width, channel, y0, y1, x0, x1) == box_sum(
            data,
            width,
            channel,
            0,
            y1,
            x0,
            x1,
        ) - box_sum(data, width, channel, 0, y0, x0, x1),
    decreases y1 - y0,
{
    if y0 < y1 {
        lemma_box_rows(data, width, channel, y0, y1 - 1, x0, x1);
    }
}

/// Columns without data add nothing to a row.
proof fn lemma_row_clip(
    data: Seq<u8>,
    width: int,
    channel: int,
    y: int,
    x0: int,
    x1: int,
    limit: int,
)
    requires
        0 <= x0 <= limit <= x1 <= width,
        0 <= y,
        limit < x1 ==> 3 * limit + 2 >= data.len(),
    ensures
        row_sum(data, width, channel, y, x0, x1) == row_sum(data, width, channel, y, x0, limit),
    decreases x1 - limit,
{
    if limit < x1 {
        lemma_row_clip(data, width, channel, y, x0, x1 - 1, limit);
        assert(y * width >= 0) by (nonlinear_arith)
            requires
                y >= 0,
                width >= 0,
        ;
    }
}

proof fn lemma_box_clip_columns(
    data: Seq<u8>,
    width: int,
    channel: int,
    y0: int,
    y1: int,
    x0: int,
    x1: int,
    limit: int,
)
    requires
        0 <= x0 <= limit <= x1 <= width,
        0 <= y0,
        limit < x1 ==> 3 * limit + 2 >= data.len(),
    ensures
        box_sum(data, width, channel, y0, y1, x0, x1) == box_sum(
            data,
            width,
            channel,
            y0,
            y1,
            x0,
            limit,
        ),
    decreases y1 - y0,
{
    if y0 < y1 {
        lemma_box_clip_columns(data, width, channel, y0, y1 - 1, x0, x1, limit);
        lemma_row_clip(data, width, channel, y1 - 1, x0, x1, limit);
    }
}

proof fn lemma_row_empty(data: Seq<u8>, width: int, channel: int, y: int, x0: int, x1: int)
    requires
        0 <= x0,
        3 * (y * width) + 2 >= data.len(),
    ensures
        row_sum(data, width, channel, y, x0, x1) == 0,
    decreases x1 - x0,
{
    if x0 < x1 {
        lemma_row_empty(data, width, channel, y, x0, x1 - 1);
    }
}

/// Rows without data add nothing to a box.
proof fn lemma_box_clip_rows(
    data: Seq<u8>,
    width: int,
    channel: int,
    y0: int,
    y1: int,
    x0: int,
    x1: int,
    limit: int,
)
    requires
        0 <= y0 <= limit <= y1,
        0 <= x0,
        width > 0,
        limit < y1 ==> 3 * (limit * width) + 2 >= data.len(),
    ensures
        box_sum(data, width, channel, y0, y1, x0, x1) == box_sum(
            data,
            width,
            channel,
            y0,
            limit,
            x0,
            x1,
        ),
    decreases y1 - limit,
{
    if limit < y1 {
        lemma_box_clip_rows(data, width, channel, y0, y1 - 1, x0, x1, limit);
        assert((y1 - 1) * width >= limit * width) by (nonlinear_arith)
            requires
                y1 - 1 >= limit,
                width > 0,
        ;
        lemma_row_empty(data, width, channel, y1 - 1, x0, x1);
    }
}

proof fn lemma_row_bounds(data: Seq<u8>, width: int, channel: int, y: int, x0: int, x1: int)
    requires
        0 <= channel <= 3,
        x0 <= x1,
    ensures
        0 <= row_sum(data, width, channel, y, x0, x1) <= 255 * row_sum(
            data,
            width,
            presence(),
            y,
            x0,
            x1,
        ),
        row_sum(data, width, presence(), y, x0, x1) <= x1 - x0,
    decreases x1 - x0,
{
    if x0 < x1 {
        lemma_row_bounds(data, width, channel, y, x0, x1 - 1);
    }
}

proof fn lemma_box_bounds(
    data: Seq<u8>,
    width: int,
    channel: int,
    y0: int,
    y1: int,
    x0: int,
    x1: int,
)
    requires
        0 <= channel <= 3,
        x0 <= x1,
        y0 <= y1,
    ensures
        0 <= box_sum(data, width, channel, y0, y1, x0, x1) <= 255 * box_sum(
            data,
            width,
            presence(),
            y0,
            y1,
            x0,
            x1,
        ),
        box_sum(data, width, presence(), y0, y1, x0, x1) <= (y1 - y0) * (x1 - x0),
    decreases y1 - y0,
{
    if y0 < y1 {
        lemma_box_bounds(data, width, channel, y0, y1 - 1, x0, x1);
        lemma_row_bounds(data, width, channel, y1 - 1, x0, x1);
        assert((y1 - y0) * (x1 - x0) == (y1 - 1 - y0) * (x1 - x0) + (x1 - x0)) by (nonlinear_arith);
    } else {
        assert((y1 - y0) * (x1 - x0) == 0) by (nonlinear_arith)
            requires
                y1 == y0,
        ;
    }
}

proof fn lemma_row_positive(data: Seq<u8>, width: int, y: int, x0: int, x1: int, x: int)
    requires
        x0 <= x < x1,
        sample(data, width, presence(), y, x) == 1,
    ensures
        row_sum(data, width, presence(), y, x0, x1) > 0,
    decreases x1 - x,
{
    if x == x1 - 1 {
        lemma_row_bounds(data, width, presence(), y, x0, x1 - 1);
    } else {
        lemma_row_positive(data, width, y, x0, x1 - 1, x);
    }
}

/// A box around a pixel that is there holds at least that one.
proof fn lemma_box_positive(
    data: Seq<u8>,
    width: int,
    y0: int,
    y1: int,
    x0: int,
    x1: int,
    y: int,
    x: int,
)
    requires
        x0 <= x < x1,
        y0 <= y < y1,
        sample(data, width, presence(), y, x) == 1,
    ensures
        box_sum(data, width, presence(), y0, y1, x0, x1) > 0,
    decreases y1 - y,
{
    lemma_row_bounds(data, width, presence(), y1 - 1, x0, x1);
    if y == y1 - 1 {
        lemma_box_bounds(data, width, presence(), y0, y1 - 1, x0, x1);
        lemma_row_positive(data, width, y, x0, x1, x);
    } else {
        lemma_box_positive(data, width, y0, y1 - 1, x0, x1, y, x);
    }
}

/// The sums of a channel above and left of each corner of the first `rows` rows and
/// `columns` columns.
struct Table {
    sums: Vec<Vec<u128>>,
}

impl Table {
    spec fn holds(
        &self,
        data: Seq<u8>,
        width: int,
        channel: int,
        rows: int,
        columns: int,
    ) -> bool {
        &&& self.sums@.len() == rows + 1
        &&& forall|y: int| #![auto] 0 <= y <= rows ==> self.sums@[y]@.len() == columns + 1
        &&& forall|y: int, x: int|
            #![trigger self.sums@[y]@[x]]
            0 <= y <= rows && 0 <= x <= columns ==> self.sums@[y]@[x] == box_sum(
                data,
                width,
                channel,
                0,
                y,
                0,
                x,
            )
    }

    fn build(data: &[u8], width: usize, channel: usize, rows: usize, columns: usize) -> (r: Table)
        requires
            channel <= 3,
            rows < usize::MAX,
            columns < usize::MAX,
            columns <= width,
            rows > 0 ==> (rows - 1) * width <= data@.len(),
        ensures
            r.holds(data@, width as int, channel as int, rows as int, columns as int),
    {
        let len: usize = data.len();
        let n: usize = len / 3;
        let mut sums: Vec<Vec<u128>> = Vec::new();
        let mut first: Vec<u128> = Vec::new();
        let mut x: usize = 0;
        while x <= columns
            invariant
                x <= columns + 1,
                columns < usize::MAX,
                first@.len() == x,
                forall|i: int| 0 <= i < x ==> first@[i] == 0,
            decreases columns + 1 - x,
        {
            first.push(0);
            x = x + 1;
        }
        sums.push(first);
        let mut y: usize = 0;
        while y < rows
            invariant
                y <= rows < usize::MAX,
                len == data@.len(),
                n == len / 3,
                columns < usize::MAX,
                columns <= width,
                channel <= 3,
                rows > 0 ==> (rows - 1) * width <= data@.len(),
                sums@.len() == y + 1,
                forall|i: int| #![auto] 0 <= i <= y ==> sums@[i]@.len() == columns + 1,
                forall|i: int, j: int|
                    #![trigger sums@[i]@[j]]
                    0 <= i <= y && 0 <= j <= columns ==> sums@[i]@[j] == box_sum(
                        data@,
                        width as int,
                        channel as int,
                        0,
                        i,
                        0,
                        j,
                    ),
            decreases rows - y,
        {
            proof {
                assert(0 <= y * width <= (rows - 1) * width) by (nonlinear_arith)
                    requires
                        0 <= y <= rows - 1,
                        width >= 0,
                ;
                lemma_box_bounds(data@, width as int, channel as int, 0, y + 1, 0, 0);
                assert((y + 1) * 0 == 0) by (nonlinear_arith);
            }
            let start: usize = y * width;
            let mut row: Vec<u128> = Vec::new();
            row.push(0);
            let mut in_row: u128 = 0;
            let mut x: usize = 0;
            while x < columns
                invariant
                    x <= columns < usize::MAX,
                    columns <= width,
                    len == data@.len(),
                    n == len / 3,
                    channel <= 3,
                    start == y * width,
                    0 <= y < rows < usize::MAX,
                    sums@.len() == y + 1,
                    sums@[y as int]@.len() == columns + 1,
                    forall|j: int|
                        #![trigger sums@[y as int]@[j]]
                        0 <= j <= columns ==> sums@[y as int]@[j] == box_sum(
                            data@,
                            width as int,
                            channel as int,
                            0,
                            y as int,
                            0,
                            j,
                        ),
                    row@.len() == x + 1,
                    in_row == row_sum(
                        data@,
                        width as int,
                        channel as int,
                        y as int,
                        0,
                        x as int,
                    ),
                    forall|j: int|
                        #![trigger row@[j]]
                        0 <= j <= x ==> row@[j] == box_sum(
                            data@,
                            width as int,
                            channel as int,
                            0,
                            y + 1,
                            0,
                            j,
                        ),
                decreases columns - x,
            {
                let value: u128 = if start < n && x < n - start {
                    if channel == 3 {
                        1
                    } else {
                        data[3 * (start + x) + channel] as u128
                    }
                } else {
                    0
                };
                proof {
                    lemma_row_bounds(
                        data@,
                        width as int,
                        channel as int,
                        y as int,
                        0,
                        x as int,
                    );
                    lemma_box_bounds(
                        data@,
                        width as int,
                        channel as int,
                        0,
                        y as int,
                        0,
                        x + 1,
                    );
                    assert(y * (x + 1) <= y * width) by (nonlinear_arith)
                        requires
                            0 <= y,
                            x + 1 <= width,
                    ;
                }
                in_row = in_row + value;
                row.push(sums[y][x + 1] + in_row);
                x = x + 1;
            }
            sums.push(row);
            y = y + 1;
        }
        Table { sums }
    }

    /// The sum over a box, from the sums at its corners.
    fn sum(
        &self,
        Ghost(data): Ghost<Seq<u8>>,
        Ghost(width): Ghost<int>,
        Ghost(channel): Ghost<int>,
        Ghost(rows): Ghost<int>,
        Ghost(columns): Ghost<int>,
        y0: usize,
        y1: usize,
        x0: usize,
        x1: usize,
    ) -> (r: u128)
        requires
            self.holds(data, width, channel, rows, columns),
            0 <= channel <= 3,
            y0 <= y1 <= rows,
            x0 <= x1 <= columns,
        ensures
            r == box_sum(data, width, channel, y0 as int, y1 as int, x0 as int, x1 as int),
    {
        proof {
            let (a, b) = (y0 as int, y1 as int);
            let (c, d) = (x0 as int, x1 as int);
            lemma_box_rows(data, width, channel, a, b, 0, c);
            lemma_box_rows(data, width, channel, a, b, 0, d);
            lemma_box_rows(data, width, channel, a, b, c, d);
            lemma_box_columns(data, width, channel, a, c, d);
            lemma_box_columns(data, width, channel, b, c, d);
            lemma_box_bounds(data, width, channel, a, b, 0, c);
            lemma_box_bounds(data, width, channel, a, b, 0, d);
            lemma_box_bounds(data, width, channel, a, b, c, d);
        }
        let right: u128 = self.sums[y1][x1] - self.sums[y0][x1];
        let left: u128 = self.sums[y1][x0] - self.sums[y0][x0];
        right - left
    }

    /// The sum over the box around a pixel.
    fn around(
        &self,
        Ghost(data): Ghost<Seq<u8>>,
        Ghost(channel): Ghost<int>,
        w: usize,
        h: usize,
        rows: usize,
        columns: usize,
        y: usize,
        x: usize,
    ) -> (r: u128)
        requires
            self.holds(data, w as int, channel, rows as int, columns as int),
            0 <= channel <= 3,
            0 < w <= u32::MAX,
            0 < h,
            rows == geometry::min_int(data.len() as int / 3 / (w as int) + 1, h as int),
            columns == geometry::min_int(data.len() as int / 3, w as int),
            y < rows,
            x < columns,
            y + w / 2 + 2 <= usize::MAX,
        ensures
            r == sum_around(data, w as int, h as int, channel, y as int, x as int),
    {
        let k: usize = if w / 2 > 1 {
            w / 2
        } else {
            1
        };
        let y0: usize = if y > k {
            y - k
        } else {
            0
        };
        let y1: usize = if rows - y > k + 1 {
            y + k + 1
        } else {
            rows
        };
        let x0: usize = if x > k {
            x - k
        } else {
            0
        };
        let x1: usize = if columns - x > k + 1 {
            x + k + 1
        } else {
            columns
        };
        proof {
            lemma_clipped(
                data,
                w as int,
                h as int,
                channel,
                y as int,
                x as int,
                rows as int,
                columns as int,
            );
        }
        self.sum(
            Ghost(data),
            Ghost(w as int),
            Ghost(channel),
            Ghost(rows as int),
            Ghost(columns as int),
            y0,
            y1,
            x0,
            x1,
        )
    }
}

/// The tables of all channels.
struct Tables {
    blue: Table,
    green: Table,
    red: Table,
    present: Table,
}

impl Tables {
    spec fn hold(&self, data: Seq<u8>, width: int, rows: int, columns: int) -> bool {
        &&& self.blue.holds(data, width, 0, rows, columns)
        &&& self.green.holds(data, width, 1, rows, columns)
        &&& self.red.holds(data, width, 2, rows, columns)
        &&& self.present.holds(data, width, presence(), rows, columns)
    }

    /// The means of the three colours around a pixel.
    fn means(
        &self,
        Ghost(data): Ghost<Seq<u8>>,
        w: usize,
        h: usize,
        rows: usize,
        columns: usize,
        y: usize,
        x: usize,
    ) -> (r: (u8, u8, u8))
        requires
            self.hold(data, w as int, rows as int, columns as int),
            0 < w <= u32::MAX,
            0 < h,
            data.len() <= usize::MAX,
            rows == geometry::min_int(data.len() as int / 3 / (w as int) + 1, h as int),
            columns == geometry::min_int(data.len() as int / 3, w as int),
            y < rows,
            x < columns,
            y + w / 2 + 2 <= usize::MAX,
            sample(data, w as int, presence(), y as int, x as int) == 1,
        ensures
            r.0 == mean_around(data, w as int, h as int, 0, y as int, x as int),
            r.1 == mean_around(data, w as int, h as int, 1, y as int, x as int),
            r.2 == mean_around(data, w as int, h as int, 2, y as int, x as int),
    {
        let b: u128 = self.blue.around(Ghost(data), Ghost(0), w, h, rows, columns, y, x);
        let g: u128 = self.green.around(Ghost(data), Ghost(1), w, h, rows, columns, y, x);
        let r: u128 = self.red.around(Ghost(data), Ghost(2), w, h, rows, columns, y, x);
        let count: u128 = self.present.around(
            Ghost(data),
            Ghost(presence()),
            w,
            h,
            rows,
            columns,
            y,
            x,
        );
        proof {
            lemma_mean_small(data, w as int, h as int, 0, y as int, x as int);
            lemma_mean_small(data, w as int, h as int, 1, y as int, x as int);
            lemma_mean_small(data, w as int, h as int, 2, y as int, x as int);
        }
        ((b / count) as u8, (g / count) as u8, (r / count) as u8)
    }
}

/// The picture with each pixel replaced by the means over the box around it, which reaches
/// half the width of the picture to each side.
pub fn blur_region(data: &[u8], width: u32, height: u32) -> (r: Vec<u8>)
    ensures
        r@ == (if width == 0 || height == 0 {
            Seq::empty()
        } else {
            blurred(data@, width as int, height as int)
        }),
{
    if data.len() == 0 || width == 0 || height == 0 {
        assert(blurred(data@, width as int, height as int).len() == data@.len());
        return Vec::new();
    }
    let len: usize = data.len();
    let n: usize = len / 3;
    let w: usize = width as usize;
    let h: usize = height as usize;
    let rows: usize = if n / w + 1 < h {
        n / w + 1
    } else {
        h
    };
    let columns: usize = if n < w {
        n
    } else {
        w
    };
    proof {
        lemma_fundamental_div_mod(n as int, w as int);
        assert((rows - 1) * w <= (n / w) * w) by (nonlinear_arith)
            requires
                rows - 1 <= n / w,
                w > 0,
        ;
        assert((n / w) * w <= n) by (nonlinear_arith)
            requires
                n == w * (n / w) + n % w,
                0 <= n % w,
        ;
        assert(n / w <= n) by (nonlinear_arith)
            requires
                w > 0,
        ;
    }
    let tables = Tables {
        blue: Table::build(data, w, 0, rows, columns),
        green: Table::build(data, w, 1, rows, columns),
        red: Table::build(data, w, 2, rows, columns),
        present: Table::build(data, w, 3, rows, columns),
    };
    assert(0 <= width * height <= 0xffff_ffff * 0xffff_ffff) by (nonlinear_arith)
        requires
            0 <= width <= 0xffff_ffff,
            0 <= height <= 0xffff_ffff,
    ;
    let area: u64 = width as u64 * height as u64;
    let pixels: usize = if area < n as u64 {
        area as usize
    } else {
        n
    };
    let ghost whole = blurred(data@, width as int, height as int);
    let mut out: Vec<u8> = Vec::new();
    let mut p: usize = 0;
    let mut y: usize = 0;
    let mut x: usize = 0;
    while p < pixels
        invariant
            len == data@.len(),
            n == len / 3,
            w == width,
            h == height,
            w > 0,
            rows == geometry::min_int(n / w + 1, h as int),
            columns == geometry::min_int(n as int, w as int),
            pixels == geometry::min_int(n as int, w * h),
            tables.hold(data@, w as int, rows as int, columns as int),
            whole == blurred(data@, width as int, height as int),
            p <= pixels,
            p == y * w + x,
            x < w,
            n / w <= n,
            out@ == whole.take(3 * p),
        decreases pixels - p,
    {
        proof {
            lemma_fundamental_div_mod_converse(p as int, w as int, y as int, x as int);
            assert(y < h) by (nonlinear_arith)
                requires
                    y * w + x < w * h,
                    x >= 0,
                    w > 0,
            ;
            assert(y <= n / w) by {
                lemma_div_is_ordered(p as int, n as int, w as int);
            }
            assert(x <= p) by (nonlinear_arith)
                requires
                    p == y * w + x,
                    y >= 0,
                    w > 0,
            ;
        }
        let (b, g, r): (u8, u8, u8) = tables.means(Ghost(data@), w, h, rows, columns, y, x);
        let ghost before = out@;
        out.push(b);
        out.push(g);
        out.push(r);
        proof {
            let i = 3 * p as int;
            assert(i / 3 == p && (i + 1) / 3 == p && (i + 2) / 3 == p);
            assert(whole[i] == b && whole[i + 1] == g && whole[i + 2] == r);
            assert(out@ =~= whole.take(3 * (p + 1)));
            assert((y + 1) * w == y * w + w) by (nonlinear_arith);
        }
        p = p + 1;
        x = x + 1;
        if x == w {
            x = 0;
            y = y + 1;
        }
    }
    while out.len() < len
        invariant
            len == data@.len(),
            n == len / 3,
            pixels == geometry::min_int(n as int, width * height),
            whole == blurred(data@, width as int, height as int),
            3 * pixels <= out@.len() <= len,
            out@ == whole.take(out@.len() as int),
        decreases len - out.len(),
    {
        let ghost before = out@;
        out.push(0);
        proof {
            let i = before.len() as int;
            assert(whole[i] == 0);
            assert(out@ =~= whole.take(i + 1));
        }
    }
    assert(out@ =~= whole);
    out
}

/// A box around a pixel may be cut off where the data ends.
proof fn lemma_clipped(
    data: Seq<u8>,
    width: int,
    height: int,
    channel: int,
    y: int,
    x: int,
    rows: int,
    columns: int,
)
    requires
        width > 0,
        height > 0,
        0 <= channel <= 3,
        0 <= y < rows,
        0 <= x < columns,
        rows == geometry::min_int(data.len() as int / 3 / width + 1, height),
        columns == geometry::min_int(data.len() as int / 3, width),
    ensures
        sum_around(data, width, height, channel, y, x) == box_sum(
            data,
            width,
            channel,
            geometry::max_int(y - reach(width), 0),
            geometry::min_int(y + reach(width) + 1, rows),
            geometry::max_int(x - reach(width), 0),
            geometry::min_int(x + reach(width) + 1, columns),
        ),
{
    let n = data.len() as int / 3;
    let k = reach(width);
    let y0 = geometry::max_int(y - k, 0);
    let x0 = geometry::max_int(x - k, 0);
    let far_y = geometry::min_int(y + k + 1, height);
    let far_x = geometry::min_int(x + k + 1, width);
    let near_y = geometry::min_int(y + k + 1, rows);
    let near_x = geometry::min_int(x + k + 1, columns);
    if near_y < far_y {
        lemma_fundamental_div_mod(n, width);
        assert(near_y * width > n) by (nonlinear_arith)
            requires
                near_y == n / width + 1,
                n == width * (n / width) + n % width,
                n % width < width,
        ;
    }
    lemma_box_clip_rows(data, width, channel, y0, far_y, x0, far_x, near_y);
    lemma_box_clip_columns(data, width, channel, y0, near_y, x0, far_x, near_x);
}

/// The means around a pixel that is there are bytes.
proof fn lemma_mean_small(data: Seq<u8>, width: int, height: int, channel: int, y: int, x: int)
    requires
        0 <= channel <= 3,
        0 <= y < height,
        0 <= x < width,
        sample(data, width, presence(), y, x) == 1,
    ensures
        0 <= mean_around(data, width, height, channel, y, x) <= 255,
        sum_around(data, width, height, presence(), y, x) > 0,
        sum_around(data, width, height, channel, y, x) >= 0,
{
    let k = reach(width);
    let y0 = geometry::max_int(y - k, 0);
    let y1 = geometry::min_int(y + k + 1, height);
    let x0 = geometry::max_int(x - k, 0);
    let x1 = geometry::min_int(x + k + 1, width);
    lemma_box_positive(data, width, y0, y1, x0, x1, y, x);
    lemma_box_bounds(data, width, channel, y0, y1, x0, x1);
    let sum = sum_around(data, width, height, channel, y, x);
    let count = sum_around(data, width, height, presence(), y, x);
    assert(0 <= sum / count <= 255) by (nonlinear_arith)
        requires
            count > 0,
            0 <= sum <= 255 * count,
    ;
}

proof fn lemma_uniform_row(data: Seq<u8>, width: int, channel: int, y: int, x0: int, x1: int, v: u8)
    requires
        0 <= channel < 3,
        0 <= x0,
        0 <= y,
        0 <= width,
        forall|i: int| 0 <= i < data.len() ==> data[i] == v,
    ensures
        row_sum(data, width, channel, y, x0, x1) == v * row_sum(
            data,
            width,
            presence(),
            y,
            x0,
            x1,
        ),
    decreases x1 - x0,
{
    if x0 < x1 {
        lemma_uniform_row(data, width, channel, y, x0, x1 - 1, v);
        assert(y * width >= 0) by (nonlinear_arith)
            requires
                y >= 0,
                width >= 0,
        ;
        let a = row_sum(data, width, presence(), y, x0, x1 - 1);
        let b = sample(data, width, presence(), y, x1 - 1);
        assert(v * (a + b) == v * a + v * b) by (nonlinear_arith);
    }
}

proof fn lemma_uniform_box(
    data: Seq<u8>,
    width: int,
    channel: int,
    y0: int,
    y1: int,
    x0: int,
    x1: int,
    v: u8,
)
    requires
        0 <= channel < 3,
        0 <= x0,
        0 <= y0,
        0 <= width,
        forall|i: int| 0 <= i < data.len() ==> data[i] == v,
    ensures
        box_sum(data, width, channel, y0, y1, x0, x1) == v * box_sum(
            data,
            width,
            presence(),
            y0,
            y1,
            x0,
            x1,
        ),
    decreases y1 - y0,
{
    if y0 < y1 {
        lemma_uniform_box(data, width, channel, y0, y1 - 1, x0, x1, v);
        lemma_uniform_row(data, width, channel, y1 - 1, x0, x1, v);
        let a = box_sum(data, width, presence(), y0, y1 - 1, x0, x1);
        let b = row_sum(data, width, presence(), y1 - 1, x0, x1);
        assert(v * (a + b) == v * a + v * b) by (nonlinear_arith);
    }
}

/// A picture of one grey stays as it is.
pub proof fn law_blur_uniform(data: Seq<u8>, width: int, height: int, v: u8)
    requires
        width > 0,
        height > 0,
        data.len() == 3 * (width * height),
        forall|i: int| 0 <= i < data.len() ==> data[i] == v,
    ensures
        blurred(data, width, height) == data,
{
    let whole = blurred(data, width, height);
    assert forall|i: int| 0 <= i < data.len() implies whole[i] == data[i] by {
        let p = i / 3;
        let y = p / width;
        let x = p % width;
        let k = reach(width);
        lemma_fundamental_div_mod(p, width);
        assert(0 <= x < width && 0 <= y < height) by (nonlinear_arith)
            requires
                p == width * y + x,
                x == p % width,
                0 <= p < width * height,
                width > 0,
        ;
        assert(width * y == y * width) by (nonlinear_arith);
        let y0 = geometry::max_int(y - k, 0);
        let y1 = geometry::min_int(y + k + 1, height);
        let x0 = geometry::max_int(x - k, 0);
        let x1 = geometry::min_int(x + k + 1, width);
        lemma_uniform_box(data, width, i % 3, y0, y1, x0, x1, v);
        lemma_box_positive(data, width, y0, y1, x0, x1, y, x);
        let count = box_sum(data, width, presence(), y0, y1, x0, x1);
        assert((v * count) / count == v) by (nonlinear_arith)
            requires
                count > 0,
        ;
    }
    assert(whole =~= data);
}

proof fn lemma_row_total(data: Seq<u8>, width: int, height: int, channel: int, y: int, x0: int, x1: int)
    requires
        data.len() == 3 * (width * height),
        0 <= y < height,
        0 <= x0 <= x1 <= width,
        0 <= channel < 3,
    ensures
        row_sum(data, width, channel, y, x0, x1) == numeric::total(
            |i: int| data[3 * (y * width + i) + channel] as int,
            x0,
            x1,
        ),
        row_sum(data, width, presence(), y, x0, x1) == x1 - x0,
    decreases x1 - x0,
{
    if x0 < x1 {
        lemma_row_total(data, width, height, channel, y, x0, x1 - 1);
        assert(0 <= y * width + x1 - 1 < width * height) by (nonlinear_arith)
            requires
                0 <= y < height,
                0 < x1 <= width,
        ;
    }
}

proof fn lemma_box_total(
    data: Seq<u8>,
    width: int,
    height: int,
    channel: int,
    y0: int,
    y1: int,
    x0: int,
    x1: int,
)
    requires
        data.len() == 3 * (width * height),
        0 <= y0 <= y1 <= height,
        0 <= x0 <= x1 <= width,
        0 <= channel < 3,
    ensures
        box_sum(data, width, channel, y0, y1, x0, x1) == numeric::total(
            |j: int|
                numeric::total(|i: int| data[3 * (j * width + i) + channel] as int, x0, x1),
            y0,
            y1,
        ),
        box_sum(data, width, presence(), y0, y1, x0, x1) == (y1 - y0) * (x1 - x0),
    decreases y1 - y0,
{
    if y0 < y1 {
        lemma_box_total(data, width, height, channel, y0, y1 - 1, x0, x1);
        lemma_row_total(data, width, height, channel, y1 - 1, x0, x1);
        assert((y1 - y0) * (x1 - x0) == (y1 - 1 - y0) * (x1 - x0) + (x1 - x0)) by (nonlinear_arith);
    } else {
        assert(0 * (x1 - x0) == 0) by (nonlinear_arith);
    }
}

/// Every byte of a blurred picture is the mean, rounded down, of that channel over all pixels of
/// the picture that lie at most half its width away, across and down; in a picture of less than
/// four columns, over all that touch the pixel.
pub proof fn law_blur_means(data: Seq<u8>, width: int, height: int, y: int, x: int, c: int)
    requires
        data.len() == 3 * (width * height),
        0 <= y < height,
        0 <= x < width,
        0 <= c < 3,
    ensures
        ({
            let k = if width < 4 {
                1
            } else {
                width / 2
            };
            let left = if x < k {
                0
            } else {
                x - k
            };
            let right = if x + k >= width {
                width - 1
            } else {
                x + k
            };
            let top = if y < k {
                0
            } else {
                y - k
            };
            let bottom = if y + k >= height {
                height - 1
            } else {
                y + k
            };
            let count = (bottom - top + 1) * (right - left + 1);
            let sum = numeric::total(
                |j: int|
                    numeric::total(
                        |i: int| data[3 * (j * width + i) + c] as int,
                        left,
                        right + 1,
                    ),
                top,
                bottom + 1,
            );
            let mean = blurred(data, width, height)[3 * (y * width + x) + c] as int;
            &&& blurred(data, width, height).len() == data.len()
            &&& count > 0
            &&& mean * count <= sum < (mean + 1) * count
        }),
{
    let k = reach(width);
    let y0 = geometry::max_int(y - k, 0);
    let y1 = geometry::min_int(y + k + 1, height);
    let x0 = geometry::max_int(x - k, 0);
    let x1 = geometry::min_int(x + k + 1, width);
    lemma_box_total(data, width, height, c, y0, y1, x0, x1);
    let p = y * width + x;
    let i = 3 * p + c;
    assert(0 <= p < width * height) by (nonlinear_arith)
        requires
            p == y * width + x,
            0 <= y < height,
            0 <= x < width,
    ;
    lemma_fundamental_div_mod_converse(p, width, y, x);
    assert(i / 3 == p && i % 3 == c);
    let count = (y1 - y0) * (x1 - x0);
    assert(count > 0) by (nonlinear_arith)
        requires
            count == (y1 - y0) * (x1 - x0),
            y1 > y0,
            x1 > x0,
    ;
    lemma_mean_small(data, width, height, c, y, x);
    let sum = box_sum(data, width, c, y0, y1, x0, x1);
    let mean = sum / count;
    assert(mean * count <= sum < (mean + 1) * count) by (nonlinear_arith)
        requires
            mean == sum / count,
            count > 0,
    ;
}

/// In the middle of a square picture with an odd number of rows stands the mean of the whole
/// picture.
pub proof fn law_blur_middle(data: Seq<u8>, size: int, c: int)
    requires
        size > 0,
        size % 2 == 1,
        data.len() == 3 * (size * size),
        0 <= c < 3,
    ensures
        ({
            let middle = size / 2;
            let sum = numeric::total(
                |j: int|
                    numeric::total(|i: int| data[3 * (j * size + i) + c] as int, 0, size),
                0,
                size,
            );
            let mean = blurred(data, size, size)[3 * (middle * size + middle) + c] as int;
            mean * (size * size) <= sum < (mean + 1) * (size * size)
        }),
{
    let middle = size / 2;
    law_blur_means(data, size, size, middle, middle, c);
}

} // verus!
