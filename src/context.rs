//! Mapping a rectangular pixel grid onto the region of the plane that a
//! viewport shows.
//!
//! Real quantities are exact rationals: the viewport holds its center and
//! width as integer multiples of `1 / unit`, and every pixel coordinate is a
//! pair of numerators over one shared positive denominator.
use vstd::prelude::*;

verus! {

/// A viewport: center `(x / unit, y / unit)`, plane width `scale / unit`,
/// iteration cap `max_iter` and resolution `x_px` by `y_px`.
#[derive(Clone, Copy, Debug)]
pub struct RenderingContext {
    pub x: i64,
    pub y: i64,
    pub scale: u64,
    pub unit: u64,
    pub max_iter: u64,
    pub x_px: u32,
    pub y_px: u32,
}

/// The plane point `(x_num / den, y_num / den)` shown by pixel `(px, py)`.
#[derive(Clone, Copy, Debug, PartialEq, Eq, Structural)]
pub struct PixelCoordinate {
    pub x_num: i128,
    pub y_num: i128,
    pub den: i128,
    pub px: u32,
    pub py: u32,
}

impl RenderingContext {
    /// The viewport invariants: a positive resolution, width, unit and cap.
    pub open spec fn wf(&self) -> bool {
        &&& self.x_px > 0
        &&& self.y_px > 0
        &&& self.scale > 0
        &&& self.unit > 0
        &&& self.max_iter > 0
    }

    /// Number of pixels of the grid.
    pub open spec fn total(&self) -> nat {
        (self.x_px * self.y_px) as nat
    }

    /// Shared denominator of all plane coordinates: `2 * x_px * unit`.
    pub open spec fn den_spec(&self) -> int {
        2 * self.x_px * self.unit
    }

    /// Numerator of `x_offset = x - x_scale / 2` over `den_spec`.
    pub open spec fn x_offset_num(&self) -> int {
        2 * self.x_px * self.x - self.x_px * self.scale
    }

    /// Numerator of `y_offset = y - y_scale / 2` over `den_spec`, where
    /// `y_scale = scale * y_px / x_px` keeps the aspect ratio.
    pub open spec fn y_offset_num(&self) -> int {
        2 * self.x_px * self.y - self.y_px * self.scale
    }

    /// Numerator of `plane_x(px) = x_scale * px / x_px + x_offset`.
    pub open spec fn plane_x_num(&self, px: int) -> int {
        self.x_offset_num() + 2 * self.scale * px
    }

    /// Numerator of `plane_y(py) = y_scale * py / y_px + y_offset`.
    pub open spec fn plane_y_num(&self, py: int) -> int {
        self.y_offset_num() + 2 * self.scale * py
    }

    /// The coordinate of pixel `(px, py)`.
    pub open spec fn coordinate(&self, px: int, py: int) -> PixelCoordinate {
        PixelCoordinate {
            x_num: self.plane_x_num(px) as i128,
            y_num: self.plane_y_num(py) as i128,
            den: self.den_spec() as i128,
            px: px as u32,
            py: py as u32,
        }
    }

    /// The `k`-th coordinate of the row-major enumeration.
    pub open spec fn point_at(&self, k: int) -> PixelCoordinate {
        self.coordinate(k % (self.x_px as int), k / (self.x_px as int))
    }

    /// Computes the coordinate of pixel `(px, py)`.
    pub fn coordinate_of(&self, px: u32, py: u32) -> (r: PixelCoordinate)
        requires
            self.wf(),
            px < self.x_px,
            py < self.y_px,
        ensures
            r == self.coordinate(px as int, py as int),
            r.x_num == self.plane_x_num(px as int),
            r.y_num == self.plane_y_num(py as int),
            r.den == self.den_spec(),
    {
        proof { lemma_coordinate_bounds(*self, px as int, py as int); }
        let xp = self.x_px as i128;
        let yp = self.y_px as i128;
        let s = self.scale as i128;
        let x_num = 2 * xp * (self.x as i128) - xp * s + 2 * s * (px as i128);
        let y_num = 2 * xp * (self.y as i128) - yp * s + 2 * s * (py as i128);
        let den = 2 * xp * (self.unit as i128);
        PixelCoordinate { x_num, y_num, den, px, py }
    }

    /// Enumerates every pixel in row-major order.
    pub fn enumerate_points(&self) -> (r: ImageIterator)
        requires
            self.wf(),
        ensures
            r.wf(),
            r.context() == *self,
            r.position() == 0,
    {
        ImageIterator { ctx: *self, cur_x: 0, cur_y: 0 }
    }

    /// Enumerates the rows of the grid, top to bottom.
    pub fn enumerate_rows(&self) -> (r: RowIterator)
        requires
            self.wf(),
        ensures
            r.wf(),
            r.context() == *self,
            r.position() == 0,
    {
        RowIterator { ctx: *self, cur_y: 0 }
    }
}

/// The numerators and denominator of every pixel's coordinate fit an
/// `i128`, so `coordinate` holds them exactly.
pub proof fn lemma_coordinate_bounds(ctx: RenderingContext, px: int, py: int)
    requires
        ctx.wf(),
        0 <= px < ctx.x_px,
        0 <= py < ctx.y_px,
    ensures
        ctx.coordinate(px, py).x_num == ctx.plane_x_num(px),
        ctx.coordinate(px, py).y_num == ctx.plane_y_num(py),
        ctx.coordinate(px, py).den == ctx.den_spec(),
        ctx.coordinate(px, py).px == px,
        ctx.coordinate(px, py).py == py,
        -0x1_0000_0000_0000_0000_0000_0000_0000 < ctx.plane_x_num(px) < 0x1_0000_0000_0000_0000_0000_0000_0000,
        -0x1_0000_0000_0000_0000_0000_0000_0000 < ctx.plane_y_num(py) < 0x1_0000_0000_0000_0000_0000_0000_0000,
        0 < ctx.den_spec() < 0x1_0000_0000_0000_0000_0000_0000_0000,
        -0x10_0000_0000_0000_0000_0000_0000 <= 2 * ctx.x_px * ctx.x <= 0x10_0000_0000_0000_0000_0000_0000,
        -0x10_0000_0000_0000_0000_0000_0000 <= 2 * ctx.x_px * ctx.y <= 0x10_0000_0000_0000_0000_0000_0000,
        0 <= ctx.x_px * ctx.scale <= 0x10_0000_0000_0000_0000_0000_0000,
        0 <= ctx.y_px * ctx.scale <= 0x10_0000_0000_0000_0000_0000_0000,
        0 <= 2 * ctx.scale * px <= 0x10_0000_0000_0000_0000_0000_0000,
        0 <= 2 * ctx.scale * py <= 0x10_0000_0000_0000_0000_0000_0000,
{
    let xp = ctx.x_px as int;
    let yp = ctx.y_px as int;
    let s = ctx.scale as int;
    let x = ctx.x as int;
    let y = ctx.y as int;
    let u = ctx.unit as int;
    assert(-0x10_0000_0000_0000_0000_0000_0000 <= 2 * xp * x <= 0x10_0000_0000_0000_0000_0000_0000) by (nonlinear_arith)
        requires 0 < xp < 0x1_0000_0000, -0x8000_0000_0000_0000 <= x < 0x8000_0000_0000_0000;
    assert(-0x10_0000_0000_0000_0000_0000_0000 <= 2 * xp * y <= 0x10_0000_0000_0000_0000_0000_0000) by (nonlinear_arith)
        requires 0 < xp < 0x1_0000_0000, -0x8000_0000_0000_0000 <= y < 0x8000_0000_0000_0000;
    assert(0 <= xp * s <= 0x10_0000_0000_0000_0000_0000_0000) by (nonlinear_arith)
        requires 0 < xp < 0x1_0000_0000, 0 < s < 0x1_0000_0000_0000_0000;
    assert(0 <= yp * s <= 0x10_0000_0000_0000_0000_0000_0000) by (nonlinear_arith)
        requires 0 < yp < 0x1_0000_0000, 0 < s < 0x1_0000_0000_0000_0000;
    assert(0 <= 2 * s * px <= 0x10_0000_0000_0000_0000_0000_0000) by (nonlinear_arith)
        requires 0 <= px < 0x1_0000_0000, 0 < s < 0x1_0000_0000_0000_0000;
    assert(0 <= 2 * s * py <= 0x10_0000_0000_0000_0000_0000_0000) by (nonlinear_arith)
        requires 0 <= py < 0x1_0000_0000, 0 < s < 0x1_0000_0000_0000_0000;
    assert(0 < 2 * xp * u <= 0x10_0000_0000_0000_0000_0000_0000) by (nonlinear_arith)
        requires 0 < xp < 0x1_0000_0000, 0 < u < 0x1_0000_0000_0000_0000;
}

/// Row-major enumeration of all pixels of a viewport. It is restartable:
/// after the last pixel it answers `None` once and starts over.
pub struct ImageIterator {
    ctx: RenderingContext,
    cur_x: u32,
    cur_y: u32,
}

impl ImageIterator {
    pub closed spec fn context(&self) -> RenderingContext {
        self.ctx
    }

    /// How many pixels have been handed out since the last restart.
    pub closed spec fn position(&self) -> int {
        self.cur_y * self.ctx.x_px + self.cur_x
    }

    pub closed spec fn wf(&self) -> bool {
        &&& self.ctx.wf()
        &&& self.cur_x <= self.ctx.x_px
        &&& self.cur_y < self.ctx.y_px
    }

    /// Hands out the coordinate at the current position, or `None` after the
    /// last pixel (and then starts over).
    pub fn next(&mut self) -> (r: Option<PixelCoordinate>)
        requires
            old(self).wf(),
        ensures
            final(self).wf(),
            final(self).context() == old(self).context(),
            0 <= old(self).position() <= old(self).context().total(),
            old(self).position() < old(self).context().total() ==> {
                &&& r == Some(old(self).context().point_at(old(self).position()))
                &&& final(self).position() == old(self).position() + 1
            },
            old(self).position() == old(self).context().total() ==> {
                &&& r is None
                &&& final(self).position() == 0
            },
    {
        let ghost pos = self.position();
        let xp = self.ctx.x_px;
        let yp = self.ctx.y_px;
        proof {
            assert(pos <= self.ctx.total()) by (nonlinear_arith)
                requires
                    pos == self.cur_y * xp + self.cur_x,
                    self.cur_x <= xp,
                    self.cur_y < yp,
                    self.ctx.total() == xp * yp,
            ;
        }
        if self.cur_x >= xp {
            if self.cur_y + 1 >= yp {
                self.cur_x = 0;
                self.cur_y = 0;
                proof {
                    assert(pos == xp * yp) by (nonlinear_arith)
                        requires pos == (yp - 1) * xp + xp;
                }
                return None;
            }
            self.cur_x = 0;
            self.cur_y = self.cur_y + 1;
            proof {
                assert(pos == self.cur_y * xp) by (nonlinear_arith)
                    requires pos == (self.cur_y - 1) * xp + xp;
            }
        }
        proof {
            assert(pos < self.ctx.total()) by (nonlinear_arith)
                requires
                    pos == self.cur_y * xp + self.cur_x,
                    self.cur_x < xp,
                    self.cur_y < yp,
                    self.ctx.total() == xp * yp,
            ;
            lemma_div_mod_row(pos, xp as int, self.cur_y as int, self.cur_x as int);
        }
        let r = self.ctx.coordinate_of(self.cur_x, self.cur_y);
        self.cur_x = self.cur_x + 1;
        Some(r)
    }
}

/// The flat enumeration visits every pixel of the grid exactly once: each of
/// its `x_px * y_px` positions `k` names pixel `(k % x_px, k / x_px)` of the
/// grid, and distinct positions name distinct pixels (see
/// `lemma_pixel_position` for the converse).
pub proof fn lemma_points_cover_grid_once(ctx: RenderingContext)
    requires
        ctx.wf(),
    ensures
        ctx.total() == ctx.x_px * ctx.y_px,
        forall|k: int|
            0 <= k < ctx.total() ==> 0 <= #[trigger] (k % (ctx.x_px as int)) < ctx.x_px,
        forall|k: int|
            0 <= k < ctx.total() ==> 0 <= #[trigger] (k / (ctx.x_px as int)) < ctx.y_px,
        forall|k: int|
            0 <= k < ctx.total() ==> #[trigger] ctx.point_at(k) == ctx.coordinate(
                k % (ctx.x_px as int),
                k / (ctx.x_px as int),
            ),
        forall|k: int|
            0 <= k < ctx.total() ==> (#[trigger] ctx.point_at(k)).px == k % (ctx.x_px as int)
                && ctx.point_at(k).py == k / (ctx.x_px as int),
        forall|j: int, k: int|
            0 <= j < ctx.total() && 0 <= k < ctx.total() && j != k ==> #[trigger] ctx.point_at(j).px
                != #[trigger] ctx.point_at(k).px || ctx.point_at(j).py != ctx.point_at(k).py,
{
    let w = ctx.x_px as int;
    let h = ctx.y_px as int;
    assert(w * h > 0) by (nonlinear_arith)
        requires w > 0, h > 0;
    assert forall|k: int| 0 <= k < ctx.total() implies 0 <= #[trigger] (k % w) < w by {
        lemma_index_in_grid(k, w, h);
    }
    assert forall|k: int| 0 <= k < ctx.total() implies 0 <= #[trigger] (k / w) < h by {
        lemma_index_in_grid(k, w, h);
    }
    assert forall|k: int| 0 <= k < ctx.total() implies (#[trigger] ctx.point_at(k)).px == k % w
        && ctx.point_at(k).py == k / w by {
        lemma_index_in_grid(k, w, h);
    }
    assert forall|j: int, k: int|
        0 <= j < ctx.total() && 0 <= k < ctx.total() && j != k implies #[trigger] ctx.point_at(j).px
            != #[trigger] ctx.point_at(k).px || ctx.point_at(j).py != ctx.point_at(k).py by {
        lemma_index_in_grid(j, w, h);
        lemma_index_in_grid(k, w, h);
        vstd::arithmetic::div_mod::lemma_fundamental_div_mod(j, w);
        vstd::arithmetic::div_mod::lemma_fundamental_div_mod(k, w);
        if j % w == k % w && j / w == k / w {
            assert(j == k);
        }
    }
}

/// Pixel `(px, py)` comes at position `py * x_px + px` of the flat
/// enumeration, and it is the coordinate that a row enumeration hands out as
/// pixel `px` of row `py`: grouping by rows changes nothing.
pub proof fn lemma_pixel_position(ctx: RenderingContext, px: int, py: int)
    requires
        ctx.wf(),
        0 <= px < ctx.x_px,
        0 <= py < ctx.y_px,
    ensures
        0 <= py * ctx.x_px + px < ctx.total(),
        ctx.point_at(py * ctx.x_px + px) == ctx.coordinate(px, py),
{
    let w = ctx.x_px as int;
    let h = ctx.y_px as int;
    assert(0 <= py * w + px < w * h) by (nonlinear_arith)
        requires 0 <= px < w, 0 <= py < h;
    lemma_div_mod_row(py * w + px, w, py, px);
}

/// The first column lies at `x_offset = x - x_scale / 2` and the last one at
/// `x_offset + x_scale * (x_px - 1) / x_px`; the first row lies at
/// `y_offset = y - y_scale / 2` with `y_scale = scale * y_px / x_px`. Each
/// equation is between rationals, cross-multiplied.
pub proof fn lemma_plane_edges(ctx: RenderingContext)
    requires
        ctx.wf(),
    ensures
        ctx.plane_x_num(0) * (2 * ctx.unit) == (2 * ctx.x - ctx.scale) * ctx.den_spec(),
        ctx.plane_x_num(ctx.x_px - 1) * (2 * ctx.unit * ctx.x_px)
            == ((2 * ctx.x - ctx.scale) * ctx.x_px + 2 * ctx.scale * (ctx.x_px - 1)) * ctx.den_spec(),
        ctx.plane_y_num(0) * (2 * ctx.unit * ctx.x_px)
            == (2 * ctx.y * ctx.x_px - ctx.scale * ctx.y_px) * ctx.den_spec(),
{
    let xp = ctx.x_px as int;
    let yp = ctx.y_px as int;
    let s = ctx.scale as int;
    let x = ctx.x as int;
    let y = ctx.y as int;
    let u = ctx.unit as int;
    assert((2 * xp * x - xp * s) * (2 * u) == (2 * x - s) * (2 * xp * u)) by (nonlinear_arith);
    assert((2 * xp * x - xp * s + 2 * s * (xp - 1)) * (2 * u * xp)
        == ((2 * x - s) * xp + 2 * s * (xp - 1)) * (2 * xp * u)) by (nonlinear_arith);
    assert((2 * xp * y - yp * s) * (2 * u * xp) == (2 * y * xp - s * yp) * (2 * xp * u)) by (nonlinear_arith);
}

/// Position `k < w * h` lies in row `k / w < h` at column `k % w < w`.
proof fn lemma_index_in_grid(k: int, w: int, h: int)
    requires
        w > 0,
        h > 0,
        0 <= k < w * h,
    ensures
        0 <= k % w < w,
        0 <= k / w < h,
{
    vstd::arithmetic::div_mod::lemma_fundamental_div_mod(k, w);
    assert(0 <= k / w) by {
        vstd::arithmetic::div_mod::lemma_div_pos_is_pos(k, w);
    }
    let q = k / w;
    if q >= h {
        assert(w * q >= w * h) by (nonlinear_arith)
            requires q >= h, w > 0;
    }
}

/// Row `py` and column `px` of the `k`-th position, `k == py * w + px`.
proof fn lemma_div_mod_row(k: int, w: int, py: int, px: int)
    requires
        w > 0,
        0 <= px < w,
        0 <= py,
        k == py * w + px,
    ensures
        k % w == px,
        k / w == py,
{
    vstd::arithmetic::div_mod::lemma_fundamental_div_mod_converse(k, w, py, px);
}

/// Enumeration of the rows of a viewport, each a unit of work. It is
/// restartable like `ImageIterator`.
pub struct RowIterator {
    ctx: RenderingContext,
    cur_y: u32,
}

impl RowIterator {
    pub closed spec fn context(&self) -> RenderingContext {
        self.ctx
    }

    /// How many rows have been handed out since the last restart.
    pub closed spec fn position(&self) -> int {
        self.cur_y as int
    }

    pub closed spec fn wf(&self) -> bool {
        &&& self.ctx.wf()
        &&& self.cur_y <= self.ctx.y_px
    }

    /// Hands out the pixels of the current row and its index, or `None` after
    /// the last row (and then starts over).
    pub fn next(&mut self) -> (r: Option<(RowPixelIterator, u32)>)
        requires
            old(self).wf(),
        ensures
            final(self).wf(),
            final(self).context() == old(self).context(),
            0 <= old(self).position() <= old(self).context().y_px,
            old(self).position() < old(self).context().y_px ==> {
                &&& r is Some
                &&& (r->0).1 == old(self).position()
                &&& (r->0).0.wf()
                &&& (r->0).0.context() == old(self).context()
                &&& (r->0).0.row() == old(self).position()
                &&& (r->0).0.position() == 0
                &&& final(self).position() == old(self).position() + 1
            },
            old(self).position() == old(self).context().y_px ==> {
                &&& r is None
                &&& final(self).position() == 0
            },
    {
        if self.cur_y >= self.ctx.y_px {
            self.cur_y = 0;
            return None;
        }
        let row = RowPixelIterator { ctx: self.ctx, cur_y: self.cur_y, cur_x: 0 };
        let y = self.cur_y;
        self.cur_y = self.cur_y + 1;
        Some((row, y))
    }
}

/// Enumeration of the pixels of one row, left to right. It is restartable
/// like `ImageIterator`.
pub struct RowPixelIterator {
    ctx: RenderingContext,
    cur_y: u32,
    cur_x: u32,
}

impl RowPixelIterator {
    pub closed spec fn context(&self) -> RenderingContext {
        self.ctx
    }

    /// The index of the row.
    pub closed spec fn row(&self) -> int {
        self.cur_y as int
    }

    /// How many pixels have been handed out since the last restart.
    pub closed spec fn position(&self) -> int {
        self.cur_x as int
    }

    pub closed spec fn wf(&self) -> bool {
        &&& self.ctx.wf()
        &&& self.cur_y < self.ctx.y_px
        &&& self.cur_x <= self.ctx.x_px
    }

    /// Hands out the coordinate of the current pixel of the row, or `None`
    /// after the last one (and then starts over).
    pub fn next(&mut self) -> (r: Option<PixelCoordinate>)
        requires
            old(self).wf(),
        ensures
            final(self).wf(),
            final(self).context() == old(self).context(),
            final(self).row() == old(self).row(),
            0 <= old(self).position() <= old(self).context().x_px,
            old(self).position() < old(self).context().x_px ==> {
                &&& r == Some(old(self).context().coordinate(old(self).position(), old(self).row()))
                &&& final(self).position() == old(self).position() + 1
            },
            old(self).position() == old(self).context().x_px ==> {
                &&& r is None
                &&& final(self).position() == 0
            },
    {
        if self.cur_x >= self.ctx.x_px {
            self.cur_x = 0;
            return None;
        }
        let r = self.ctx.coordinate_of(self.cur_x, self.cur_y);
        self.cur_x = self.cur_x + 1;
        Some(r)
    }
}

} // verus!
