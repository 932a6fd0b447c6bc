use vstd::prelude::*;
use crate::geom::{fits_coord, Point, Rect, UNIT};
use crate::Implicit;

verus! {

/// A coarse raster of the field of a shape: samples on a regular grid.
pub struct Bitmap {
    data: Vec<i64>,
    width: usize,
    height: usize,
    resolution: i32,
    offset: (i32, i32),
}

/// The largest whole number of units that is not above `v` ticks, in
/// ticks.
pub open spec fn floor_unit(v: int) -> int {
    (v / (UNIT as int)) * UNIT
}

/// The smallest whole number of units that is not below `v` ticks, in
/// ticks.
pub open spec fn ceil_unit(v: int) -> int {
    -floor_unit(-v)
}

/// The number of steps of size `step` that it takes to cover `span`.
pub open spec fn steps(span: int, step: int) -> int {
    (span + step - 1) / step
}

/// The number of columns of the raster of a shape with box `bb`: enough
/// to cover the box, widened by one step and out to whole units on both
/// sides.
pub open spec fn columns(bb: Rect, resolution: i32) -> int {
    steps(
        ceil_unit(bb.bottom_right.x + resolution) - floor_unit(bb.top_left.x - resolution),
        resolution as int,
    )
}

/// The number of rows of the raster of a shape with box `bb`.
pub open spec fn rows(bb: Rect, resolution: i32) -> int {
    steps(
        ceil_unit(bb.bottom_right.y + resolution) - floor_unit(bb.top_left.y - resolution),
        resolution as int,
    )
}

/// Whether a raster of this box at this resolution can be held: its cells
/// can be counted, and all of them lie on the grid.
pub open spec fn raster_fits(bb: Rect, resolution: i32) -> bool {
    &&& resolution > 0
    &&& bb.wf()
    &&& !bb.null
    &&& columns(bb, resolution) * rows(bb, resolution) <= usize::MAX
    &&& fits_coord(bb.top_left.x + columns(bb, resolution) * resolution)
    &&& fits_coord(bb.top_left.y + rows(bb, resolution) * resolution)
}

/// `v` brought into the range from `lo` to `hi`.
pub open spec fn clamp_int(v: int, lo: int, hi: int) -> int {
    if v < lo {
        lo
    } else if v > hi {
        hi
    } else {
        v
    }
}

/// Division that rounds down.
pub fn floor_div(n: i64, d: i64) -> (r: i64)
    requires
        d > 0,
        n > i64::MIN + d,
    ensures
        r == (n as int) / (d as int),
        n >= 0 ==> 0 <= r <= n,
        n < 0 ==> n <= r <= 0,
{
    if n >= 0 {
        proof {
            let ni = n as int;
            let di = d as int;
            assert(0 <= ni / di <= ni) by (nonlinear_arith)
                requires
                    ni >= 0,
                    di > 0,
            ;
        }
        n / d
    } else {
        let m: i64 = -n;
        let q: i64 = (m + (d - 1)) / d;
        proof {
            let mi = m as int;
            let di = d as int;
            assert(-((mi + (di - 1)) / di) == (-mi) / di) by (nonlinear_arith)
                requires
                    mi > 0,
                    di > 0,
            ;
            assert(0 <= (mi + (di - 1)) / di <= mi) by (nonlinear_arith)
                requires
                    mi > 0,
                    di > 0,
            ;
        }
        -q
    }
}

/// Division that rounds up.
pub fn ceil_div(n: i64, d: i64) -> (r: i64)
    requires
        d > 0,
        i64::MIN + d < n < i64::MAX - d,
    ensures
        r == -((-(n as int)) / (d as int)),
{
    -floor_div(-n, d)
}

/// Whether a raster of this box at this resolution can be held.
#[verifier::rlimit(40)]
pub fn check_raster(bb: &Rect, resolution: i32) -> (r: bool)
    ensures
        r == raster_fits(*bb, resolution),
{
    if resolution <= 0 || bb.null || bb.top_left.x > bb.bottom_right.x || bb.top_left.y
        > bb.bottom_right.y {
        return false;
    }
    let unit: i64 = 10_000;
    let res: i64 = resolution as i64;
    let min_x: i64 = floor_div(bb.top_left.x as i64 - res, unit) * unit;
    let min_y: i64 = floor_div(bb.top_left.y as i64 - res, unit) * unit;
    let max_x: i64 = -(floor_div(-(bb.bottom_right.x as i64 + res), unit) * unit);
    let max_y: i64 = -(floor_div(-(bb.bottom_right.y as i64 + res), unit) * unit);
    proof {
        let u = UNIT as int;
        let ax = bb.top_left.x - res;
        let bx = -(bb.bottom_right.x + res);
        let ay = bb.top_left.y - res;
        let by = -(bb.bottom_right.y + res);
        assert(ax - u < (ax / u) * u <= ax) by (nonlinear_arith)
            requires
                u > 0,
        ;
        assert(bx - u < (bx / u) * u <= bx) by (nonlinear_arith)
            requires
                u > 0,
        ;
        assert(ay - u < (ay / u) * u <= ay) by (nonlinear_arith)
            requires
                u > 0,
        ;
        assert(by - u < (by / u) * u <= by) by (nonlinear_arith)
            requires
                u > 0,
        ;
    }
    let span_x: i64 = max_x - min_x;
    let span_y: i64 = max_y - min_y;
    let wide: i64 = (span_x + (res - 1)) / res;
    let high: i64 = (span_y + (res - 1)) / res;
    proof {
        assert(wide == columns(*bb, resolution));
        assert(high == rows(*bb, resolution));
        assert(0 < wide <= span_x + res) by (nonlinear_arith)
            requires
                wide == (span_x + (res - 1)) / (res as int),
                span_x >= 2 * res,
                res > 0,
        ;
        assert(0 < high <= span_y + res) by (nonlinear_arith)
            requires
                high == (span_y + (res - 1)) / (res as int),
                span_y >= 2 * res,
                res > 0,
        ;
        crate::arith::lemma_product_bound(wide as int, high as int, 0x4_0000_0000, 0x4_0000_0000);
        crate::arith::lemma_product_bound(wide as int, res as int, 0x4_0000_0000, 0x8000_0000);
        crate::arith::lemma_product_bound(high as int, res as int, 0x4_0000_0000, 0x8000_0000);
        assert(wide * high >= 0) by (nonlinear_arith)
            requires
                wide > 0,
                high > 0,
        ;
    }
    let cells: i128 = (wide as i128) * (high as i128);
    let far_x: i128 = bb.top_left.x as i128 + (wide as i128) * (res as i128);
    let far_y: i128 = bb.top_left.y as i128 + (high as i128) * (res as i128);
    cells <= usize::MAX as i128 && far_x <= i32::MAX as i128 && far_x >= i32::MIN as i128 && far_y
        <= i32::MAX as i128 && far_y >= i32::MIN as i128
}

impl Bitmap {
    /// The number of columns.
    pub closed spec fn spec_width(&self) -> int {
        self.width as int
    }

    /// The number of rows.
    pub closed spec fn spec_height(&self) -> int {
        self.height as int
    }

    /// The distance between neighbouring samples.
    pub closed spec fn spec_resolution(&self) -> i32 {
        self.resolution
    }

    /// The place of the sample at column 0 and row 0.
    pub closed spec fn spec_offset(&self) -> Point {
        Point { x: self.offset.0, y: self.offset.1 }
    }

    /// The sample at the given column and row.
    pub closed spec fn at(&self, x: int, y: int) -> i64 {
        self.data@[x + y * self.width]
    }

    /// The raster has a sample for each column of each row, at least one of
    /// each, and a step above zero.
    pub closed spec fn wf(&self) -> bool {
        &&& self.data@.len() == self.width * self.height
        &&& self.width > 0
        &&& self.height > 0
        &&& self.resolution > 0
    }

    /// The place of the sample at the given column and row.
    pub open spec fn place(&self, x: int, y: int) -> Point {
        Point {
            x: (self.spec_offset().x + x * self.spec_resolution()) as i32,
            y: (self.spec_offset().y + y * self.spec_resolution()) as i32,
        }
    }

    /// Samples the shape on the grid that starts at the top-left corner
    /// of its box and has the given resolution.
    pub fn new<I: Implicit>(shape: &I, resolution: i32) -> (r: Bitmap)
        requires
            resolution > 0,
            shape.bounds() is Some,
            raster_fits(shape.bounds()->0, resolution),
        ensures
            r.wf(),
            r.spec_resolution() == resolution,
            r.spec_offset() == shape.bounds()->0.top_left,
            r.spec_width() == columns(shape.bounds()->0, resolution),
            r.spec_height() == rows(shape.bounds()->0, resolution),
            forall|x: int, y: int|
                0 <= x < r.spec_width() && 0 <= y < r.spec_height() ==> #[trigger] r.at(x, y)
                    == shape.value(r.place(x, y)),
    {
        let bb = match shape.bounding_box() {
            Some(bb) => bb,
            None => {
                proof {
                    assert(false);
                }
                Rect::null()
            },
        };
        let offset = (bb.top_left().x, bb.top_left().y);
        let unit: i64 = 10_000;
        let res: i64 = resolution as i64;

        let min_x: i64 = floor_div(bb.top_left().x as i64 - res, unit) * unit;
        let min_y: i64 = floor_div(bb.top_left().y as i64 - res, unit) * unit;
        let max_x: i64 = -(floor_div(-(bb.bottom_right().x as i64 + res), unit) * unit);
        let max_y: i64 = -(floor_div(-(bb.bottom_right().y as i64 + res), unit) * unit);
        proof {
            let u = UNIT as int;
            let ax = bb.top_left.x - res;
            let bx = -(bb.bottom_right.x + res);
            let ay = bb.top_left.y - res;
            let by = -(bb.bottom_right.y + res);
            assert(ax - u < (ax / u) * u <= ax) by (nonlinear_arith)
                requires
                    u > 0,
            ;
            assert(bx - u < (bx / u) * u <= bx) by (nonlinear_arith)
                requires
                    u > 0,
            ;
            assert(ay - u < (ay / u) * u <= ay) by (nonlinear_arith)
                requires
                    u > 0,
            ;
            assert(by - u < (by / u) * u <= by) by (nonlinear_arith)
                requires
                    u > 0,
            ;
        }
        let span_x: i64 = max_x - min_x;
        let span_y: i64 = max_y - min_y;
        let wide: i64 = (span_x + (res - 1)) / res;
        let high: i64 = (span_y + (res - 1)) / res;
        proof {
            assert(wide == columns(bb, resolution));
            assert(high == rows(bb, resolution));
            assert(wide > 0) by (nonlinear_arith)
                requires
                    wide == (span_x + (res - 1)) / (res as int),
                    span_x >= 2 * res,
                    res > 0,
            ;
            assert(high > 0) by (nonlinear_arith)
                requires
                    high == (span_y + (res - 1)) / (res as int),
                    span_y >= 2 * res,
                    res > 0,
            ;
            assert(wide <= usize::MAX && high <= usize::MAX) by (nonlinear_arith)
                requires
                    wide * high <= usize::MAX,
                    wide > 0,
                    high > 0,
            ;
            assert(wide <= 0x1_0000_0000) by (nonlinear_arith)
                requires
                    wide * res <= 0x1_0000_0000,
                    res >= 1,
                    wide > 0,
            ;
            assert(high <= 0x1_0000_0000) by (nonlinear_arith)
                requires
                    high * res <= 0x1_0000_0000,
                    res >= 1,
                    high > 0,
            ;
        }
        let width: usize = wide as usize;
        let height: usize = high as usize;

        let mut data: Vec<i64> = Vec::new();
        let mut y: usize = 0;
        while y < height
            invariant
                y <= height,
                width > 0,
                height > 0,
                resolution > 0,
                res == resolution,
                width <= 0x1_0000_0000,
                height <= 0x1_0000_0000,
                width * height <= usize::MAX,
                fits_coord(offset.0 + width * resolution),
                fits_coord(offset.1 + height * resolution),
                data@.len() == y * width,
                forall|cx: int, cy: int|
                    0 <= cx < width && 0 <= cy < y ==> #[trigger] data@[cx + cy * width]
                        == shape.value(
                        Point {
                            x: (offset.0 + cx * resolution) as i32,
                            y: (offset.1 + cy * resolution) as i32,
                        },
                    ),
            decreases height - y,
        {
            let mut x: usize = 0;
            proof {
                assert(0 <= y * res < height * res) by (nonlinear_arith)
                    requires
                        0 <= y < height,
                        res > 0,
                ;
            }
            let sy: i32 = (y as i64 * res + offset.1 as i64) as i32;
            while x < width
                invariant
                    x <= width,
                    y < height,
                    width > 0,
                    resolution > 0,
                    res == resolution,
                    width <= 0x1_0000_0000,
                    width * height <= usize::MAX,
                    fits_coord(offset.0 + width * resolution),
                    sy == offset.1 + y * resolution,
                    data@.len() == y * width + x,
                    forall|cx: int, cy: int|
                        0 <= cx < width && 0 <= cy < y ==> #[trigger] data@[cx + cy * width]
                            == shape.value(
                            Point {
                                x: (offset.0 + cx * resolution) as i32,
                                y: (offset.1 + cy * resolution) as i32,
                            },
                        ),
                    forall|cx: int|
                        0 <= cx < x ==> #[trigger] data@[cx + y * width] == shape.value(
                            Point { x: (offset.0 + cx * resolution) as i32, y: sy },
                        ),
                decreases width - x,
            {
                proof {
                    assert(0 <= x * res < width * res) by (nonlinear_arith)
                        requires
                            0 <= x < width,
                            res > 0,
                    ;
                    assert(y * width + x < width * height) by (nonlinear_arith)
                        requires
                            0 <= x < width,
                            0 <= y < height,
                    ;
                }
                let sx: i32 = (x as i64 * res + offset.0 as i64) as i32;
                let sample = shape.sample(Point { x: sx, y: sy });
                let ghost before = data@;
                data.push(sample);
                proof {
                    assert forall|cx: int, cy: int|
                        0 <= cx < width && 0 <= cy < y implies #[trigger] data@[cx + cy * width]
                        == shape.value(
                        Point {
                            x: (offset.0 + cx * resolution) as i32,
                            y: (offset.1 + cy * resolution) as i32,
                        },
                    ) by {
                        assert(cx + cy * width < y * width) by (nonlinear_arith)
                            requires
                                0 <= cx < width,
                                0 <= cy < y,
                        ;
                        assert(data@[cx + cy * width] == before[cx + cy * width]);
                    }
                    assert forall|cx: int| 0 <= cx < x + 1 implies #[trigger] data@[cx + y * width]
                        == shape.value(Point { x: (offset.0 + cx * resolution) as i32, y: sy }) by {
                        if cx < x {
                            assert(data@[cx + y * width] == before[cx + y * width]);
                        }
                    }
                }
                x += 1;
            }
            proof {
                assert((y + 1) * width == y * width + width) by (nonlinear_arith);
            }
            y += 1;
        }
        proof {
            assert(height * width == width * height) by (nonlinear_arith);
        }
        Bitmap { data, width, height, resolution, offset }
    }

    /// The sample at the given column and row.
    pub fn get(&self, x: usize, y: usize) -> (r: i64)
        requires
            self.wf(),
            x < self.spec_width(),
            y < self.spec_height(),
        ensures
            r == self.at(x as int, y as int),
    {
        let n: usize = self.data.len();
        proof {
            let w = self.width as int;
            let h = self.height as int;
            assert(x + y * w < w * h) by (nonlinear_arith)
                requires
                    0 <= x < w,
                    0 <= y < h,
            ;
            assert(0 <= y * w) by (nonlinear_arith)
                requires
                    0 <= y,
                    0 <= w,
            ;
            assert(n == w * h);
        }
        self.data[x + y * self.width]
    }

    /// The distance between neighbouring samples.
    pub fn resolution(&self) -> (r: i32)
        ensures
            r == self.spec_resolution(),
    {
        self.resolution
    }

    /// The number of columns and the number of rows.
    pub fn size(&self) -> (r: (usize, usize))
        ensures
            r.0 == self.spec_width(),
            r.1 == self.spec_height(),
    {
        (self.width, self.height)
    }

    /// The column at or before the place `x`, within the raster.
    pub open spec fn low_column(&self, x: i32) -> int {
        clamp_int(
            (x - self.spec_offset().x) / (self.spec_resolution() as int),
            0,
            self.spec_width() - 1,
        )
    }

    /// The column at or after the place `x`, within the raster.
    pub open spec fn high_column(&self, x: i32) -> int {
        clamp_int(
            -((-(x - self.spec_offset().x)) / (self.spec_resolution() as int)),
            0,
            self.spec_width() - 1,
        )
    }

    /// The row at or before the place `y`, within the raster.
    pub open spec fn low_row(&self, y: i32) -> int {
        clamp_int(
            (y - self.spec_offset().y) / (self.spec_resolution() as int),
            0,
            self.spec_height() - 1,
        )
    }

    /// The row at or after the place `y`, within the raster.
    pub open spec fn high_row(&self, y: i32) -> int {
        clamp_int(
            -((-(y - self.spec_offset().y)) / (self.spec_resolution() as int)),
            0,
            self.spec_height() - 1,
        )
    }

    /// The samples at the four grid points around the place `(x, y)`: low
    /// column and low row, low column and high row, high column and low
    /// row, high column and high row.
    pub fn corners(&self, x: i32, y: i32) -> (r: (i64, i64, i64, i64))
        requires
            self.wf(),
        ensures
            r.0 == self.at(self.low_column(x), self.low_row(y)),
            r.1 == self.at(self.low_column(x), self.high_row(y)),
            r.2 == self.at(self.high_column(x), self.low_row(y)),
            r.3 == self.at(self.high_column(x), self.high_row(y)),
    {
        let res: i64 = self.resolution as i64;
        let dx: i64 = x as i64 - self.offset.0 as i64;
        let dy: i64 = y as i64 - self.offset.1 as i64;
        let x_low = Bitmap::clamp_index(floor_div(dx, res), self.width);
        let x_high = Bitmap::clamp_index(ceil_div(dx, res), self.width);
        let y_low = Bitmap::clamp_index(floor_div(dy, res), self.height);
        let y_high = Bitmap::clamp_index(ceil_div(dy, res), self.height);
        let value_1 = self.get(x_low, y_low);
        let value_2 = self.get(x_low, y_high);
        let value_3 = self.get(x_high, y_low);
        let value_4 = self.get(x_high, y_high);
        (value_1, value_2, value_3, value_4)
    }

    fn clamp_index(v: i64, count: usize) -> (r: usize)
        requires
            count > 0,
        ensures
            r == clamp_int(v as int, 0, count - 1),
            r < count,
    {
        if v < 0 {
            0
        } else if v as u64 > (count - 1) as u64 {
            count - 1
        } else {
            v as usize
        }
    }

    /// What `func` makes of the samples at the four grid points around the
    /// place `(x, y)`.
    pub fn sample<F>(&self, x: i32, y: i32, func: F) -> (r: i64) where
        F: FnOnce(i64, i64, i64, i64) -> i64,

        requires
            self.wf(),
            forall|a: i64, b: i64, c: i64, d: i64| func.requires((a, b, c, d)),
        ensures
            func.ensures(
                (
                    self.at(self.low_column(x), self.low_row(y)),
                    self.at(self.low_column(x), self.high_row(y)),
                    self.at(self.high_column(x), self.low_row(y)),
                    self.at(self.high_column(x), self.high_row(y)),
                ),
                r,
            ),
    {
        let (value_1, value_2, value_3, value_4) = self.corners(x, y);
        func(value_1, value_2, value_3, value_4)
    }
}

} // verus!
