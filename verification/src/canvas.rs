//! Pixel canvas and the rasterizer.
//!
//! The canvas is a dense row-major buffer of colors with bounds-checked
//! reads and writes. Edges are drawn with a single-direction digital
//! differential analyzer that steps along x (or along y for vertical
//! edges); this exact stepping policy is part of the contract.

use vstd::prelude::*;

use crate::geometry::{
    blueprint_non_negative, color_rgba, lemma_shapes_bottom_right_ge, shapes_bottom_right,
    Blueprint, Bound, Color, Edge, Point, Shape,
};

verus! {

/// A dense row-major pixel buffer with fixed dimensions.
#[derive(Debug, Clone)]
pub struct Canvas {
    width: usize,
    height: usize,
    pixels: Vec<Color>,
}

impl Canvas {
    pub closed spec fn spec_width(&self) -> int {
        self.width as int
    }

    pub closed spec fn spec_height(&self) -> int {
        self.height as int
    }

    pub closed spec fn pixels(&self) -> Seq<Color> {
        self.pixels@
    }

    /// The buffer holds exactly one color per canvas cell.
    pub open spec fn wf(&self) -> bool {
        self.pixels().len() == self.spec_width() * self.spec_height()
    }

    /// The color of the cell at `(x, y)`.
    pub open spec fn pix(&self, x: int, y: int) -> Color {
        self.pixels()[x + y * self.spec_width()]
    }

    pub fn width(&self) -> (r: usize)
        ensures
            r == self.spec_width(),
    {
        self.width
    }

    pub fn height(&self) -> (r: usize)
        ensures
            r == self.spec_height(),
    {
        self.height
    }

    /// A canvas of the given dimensions, pre-filled with white.
    pub fn new(width: usize, height: usize) -> (c: Canvas)
        requires
            width * height <= usize::MAX,
        ensures
            c.wf(),
            c.spec_width() == width,
            c.spec_height() == height,
            c.pixels() =~= Seq::new((width * height) as nat, |i: int| Color::White),
    {
        proof {
            assert(width * height >= 0) by (nonlinear_arith);
        }
        let total: usize = width * height;
        let mut pixels: Vec<Color> = Vec::new();
        let mut i: usize = 0;
        while i < total
            invariant
                i <= total,
                pixels@.len() == i,
                forall|j: int| 0 <= j < i ==> pixels@[j] == Color::White,
            decreases total - i,
        {
            pixels.push(Color::White);
            i += 1;
        }
        Canvas { width, height, pixels }
    }

    /// Write one pixel; the coordinates must be strictly within bounds.
    pub fn set(&mut self, x: usize, y: usize, color: Color)
        requires
            old(self).wf(),
            x < old(self).spec_width(),
            y < old(self).spec_height(),
        ensures
            final(self).wf(),
            final(self).spec_width() == old(self).spec_width(),
            final(self).spec_height() == old(self).spec_height(),
            final(self).pixels() == old(self).pixels().update(
                x + y * old(self).spec_width(),
                color,
            ),
    {
        let _total = self.pixels.len();
        proof {
            lemma_rowmajor_in_range(x as int, y as int, self.spec_width(), self.spec_height());
        }
        let idx: usize = x + y * self.width;
        self.pixels.set(idx, color);
    }

    /// Read one pixel; the coordinates must be strictly within bounds.
    pub fn get(&self, x: usize, y: usize) -> (r: Color)
        requires
            self.wf(),
            x < self.spec_width(),
            y < self.spec_height(),
        ensures
            r == self.pix(x as int, y as int),
    {
        let _total = self.pixels.len();
        proof {
            lemma_rowmajor_in_range(x as int, y as int, self.spec_width(), self.spec_height());
        }
        let idx: usize = x + y * self.width;
        self.pixels[idx]
    }
}

/// A row-major index lies inside the buffer and below `usize::MAX`.
proof fn lemma_rowmajor_in_range(x: int, y: int, w: int, h: int)
    requires
        0 <= x < w,
        0 <= y < h,
    ensures
        0 <= x + y * w < w * h,
{
    assert(0 <= x + y * w < w * h) by (nonlinear_arith)
        requires
            0 <= x < w,
            0 <= y < h,
    ;
}

/// Row-major indexing is injective: the cell determines the index and the
/// index determines the cell.
proof fn lemma_rowmajor_unique(x: int, y: int, w: int)
    requires
        0 <= x < w,
        0 <= y,
    ensures
        (x + y * w) % w == x,
        (x + y * w) / w == y,
{
    vstd::arithmetic::div_mod::lemma_fundamental_div_mod_converse(x + y * w, w, y, x);
}

/// A cell-indexed description of a buffer equals its row-major form.
proof fn lemma_grid_seq(
    s: Seq<Color>,
    pre: Seq<Color>,
    w: int,
    h: int,
    cov: spec_fn(int, int) -> bool,
    color: Color,
)
    requires
        w >= 1,
        h >= 0,
        pre.len() == w * h,
        s.len() == w * h,
        forall|x: int, y: int|
            0 <= x < w && 0 <= y < h ==> s[x + y * w] == (if #[trigger] cov(x, y) {
                color
            } else {
                pre[x + y * w]
            }),
    ensures
        s =~= Seq::new(pre.len(), |i: int| if cov(i % w, i / w) {
            color
        } else {
            pre[i]
        }),
{
    assert forall|i: int| 0 <= i < s.len() implies s[i] == (if cov(i % w, i / w) {
        color
    } else {
        pre[i]
    }) by {
        vstd::arithmetic::div_mod::lemma_mod_bound(i, w);
        vstd::arithmetic::div_mod::lemma_fundamental_div_mod(i, w);
        vstd::arithmetic::div_mod::lemma_div_pos_is_pos(i, w);
        vstd::arithmetic::div_mod::lemma_multiply_divide_lt(i, w, h);
        let x = i % w;
        let y = i / w;
        assert(i == w * y + x);
        assert(x + y * w == i) by (nonlinear_arith)
            requires
                i == w * y + x,
        ;
        assert(s[x + y * w] == (if cov(x, y) {
            color
        } else {
            pre[x + y * w]
        }));
    }
}

pub open spec fn abs_int(v: int) -> int {
    if v >= 0 {
        v
    } else {
        -v
    }
}

pub open spec fn min_int(a: int, b: int) -> int {
    if a <= b {
        a
    } else {
        b
    }
}

pub open spec fn max_int(a: int, b: int) -> int {
    if a >= b {
        a
    } else {
        b
    }
}

/// The pixel row lit `step` x-steps away from the starting endpoint of a
/// non-vertical edge: `from.y + step * dy / dx`, truncated. (With all
/// coordinates non-negative, truncation toward zero is plain floor.)
pub open spec fn edge_y_at(e: Edge, step: int) -> int {
    let adx = abs_int(e.to.x - e.from.x);
    (e.from.y * adx + step * (e.to.y - e.from.y)) / adx
}

/// Whether rasterizing `e` lights the cell `(x, y)`. A vertical edge fills
/// the whole column between its endpoints; any other edge is walked one
/// x-step at a time from its `from` endpoint, lighting one row per column.
pub open spec fn edge_covers(e: Edge, x: int, y: int) -> bool {
    if e.to.x == e.from.x {
        x == e.from.x && min_int(e.from.y as int, e.to.y as int) <= y <= max_int(
            e.from.y as int,
            e.to.y as int,
        )
    } else {
        min_int(e.from.x as int, e.to.x as int) <= x <= max_int(e.from.x as int, e.to.x as int)
            && y == edge_y_at(e, abs_int(x - e.from.x))
    }
}

/// Like `edge_covers`, restricted to the first `steps` steps of the walk.
pub open spec fn edge_covers_upto(e: Edge, x: int, y: int, steps: int) -> bool {
    if e.to.x == e.from.x {
        x == e.from.x && min_int(e.from.y as int, e.to.y as int) <= y && y < min_int(
            e.from.y as int,
            e.to.y as int,
        ) + steps
    } else {
        edge_covers(e, x, y) && abs_int(x - e.from.x) < steps
    }
}

/// A drawable edge either is invisible (alpha zero) or lies entirely within
/// the canvas, whose dimensions are small enough for exact arithmetic.
pub open spec fn edge_fits(e: Edge, w: int, h: int) -> bool {
    color_rgba(e.color).3 == 0 || {
        &&& 0 <= e.from.x < w
        &&& 0 <= e.to.x < w
        &&& 0 <= e.from.y < h
        &&& 0 <= e.to.y < h
        &&& w <= 0x8000_0000
        &&& h <= 0x8000_0000
    }
}

/// The buffer after rasterizing `e` over `pre`: invisible edges change
/// nothing; otherwise exactly the covered cells take the edge's color.
pub open spec fn edge_rendered(e: Edge, pre: Seq<Color>, w: int) -> Seq<Color> {
    if color_rgba(e.color).3 == 0 {
        pre
    } else {
        Seq::new(
            pre.len(),
            |i: int| if edge_covers(e, i % w, i / w) {
                e.color
            } else {
                pre[i]
            },
        )
    }
}

/// An entity that can be rasterized onto a canvas.
pub trait Draw {
    /// The entity may be drawn on a `w` by `h` canvas.
    spec fn fits(&self, w: int, h: int) -> bool;

    /// The exact buffer contents after drawing over `pre`.
    spec fn rendered(&self, pre: Seq<Color>, w: int, h: int) -> Seq<Color>;

    fn draw(&self, canvas: &mut Canvas)
        requires
            old(canvas).wf(),
            self.fits(old(canvas).spec_width(), old(canvas).spec_height()),
        ensures
            final(canvas).wf(),
            final(canvas).spec_width() == old(canvas).spec_width(),
            final(canvas).spec_height() == old(canvas).spec_height(),
            final(canvas).pixels() == self.rendered(
                old(canvas).pixels(),
                old(canvas).spec_width(),
                old(canvas).spec_height(),
            ),
    ;
}

/// The walked row stays between the two endpoint rows.
proof fn lemma_y_step_bounds(y1: int, dy: int, adx: int, step: int)
    requires
        adx >= 1,
        0 <= step <= adx,
        0 <= y1,
        0 <= y1 + dy,
    ensures
        min_int(y1, y1 + dy) * adx <= y1 * adx + step * dy,
        y1 * adx + step * dy <= max_int(y1, y1 + dy) * adx,
        min_int(y1, y1 + dy) <= (y1 * adx + step * dy) / adx,
        (y1 * adx + step * dy) / adx <= max_int(y1, y1 + dy),
{
    let lo = min_int(y1, y1 + dy);
    let hi = max_int(y1, y1 + dy);
    let num = y1 * adx + step * dy;
    assert(dy >= 0 ==> y1 * adx <= num <= (y1 + dy) * adx) by (nonlinear_arith)
        requires
            num == y1 * adx + step * dy,
            0 <= step <= adx,
    ;
    assert(dy < 0 ==> (y1 + dy) * adx <= num <= y1 * adx) by (nonlinear_arith)
        requires
            num == y1 * adx + step * dy,
            0 <= step <= adx,
    ;
    vstd::arithmetic::div_mod::lemma_div_is_ordered(lo * adx, num, adx);
    vstd::arithmetic::div_mod::lemma_div_is_ordered(num, hi * adx, adx);
    vstd::arithmetic::div_mod::lemma_div_by_multiple(lo, adx);
    vstd::arithmetic::div_mod::lemma_div_by_multiple(hi, adx);
}

impl Draw for Edge {
    open spec fn fits(&self, w: int, h: int) -> bool {
        edge_fits(*self, w, h)
    }

    open spec fn rendered(&self, pre: Seq<Color>, w: int, h: int) -> Seq<Color> {
        edge_rendered(*self, pre, w)
    }

    /// Rasterize this edge: a vertical run for `dx == 0`, otherwise an
    /// x-stepping walk that truncates `from.y + step * slope` to a row.
    #[verifier::rlimit(60)]
    fn draw(&self, canvas: &mut Canvas) {
        let color = self.color;
        if color.as_rgba().3 == 0 {
            return ;
        }
        let w = canvas.width();
        let h = canvas.height();
        let ghost pre = canvas.pixels();
        let ghost e = *self;
        let x1 = self.from.x;
        let y1 = self.from.y;
        let x2 = self.to.x;
        let y2 = self.to.y;
        let dx = x2 - x1;
        let dy = y2 - y1;
        if dx == 0 {
            let lo = if y1 <= y2 {
                y1
            } else {
                y2
            };
            let hi = if y1 <= y2 {
                y2
            } else {
                y1
            };
            let mut y = lo;
            while y <= hi
                invariant
                    canvas.wf(),
                    canvas.spec_width() == w,
                    canvas.spec_height() == h,
                    canvas.pixels().len() == pre.len(),
                    pre.len() == w as int * h as int,
                    e == *self,
                    e.to.x == e.from.x,
                    x1 == e.from.x,
                    lo == min_int(e.from.y as int, e.to.y as int),
                    hi == max_int(e.from.y as int, e.to.y as int),
                    0 <= x1 < w,
                    0 <= lo <= hi < h,
                    w <= 0x8000_0000,
                    h <= 0x8000_0000,
                    lo <= y <= hi + 1,
                    color == e.color,
                    forall|xi: int, yi: int|
                        0 <= xi < w && 0 <= yi < h ==> #[trigger] canvas.pix(xi, yi) == (
                        if edge_covers_upto(e, xi, yi, y - lo) {
                            color
                        } else {
                            pre[xi + yi * w]
                        }),
                decreases hi + 1 - y,
            {
                let ghost before = *canvas;
                canvas.set(x1 as usize, y as usize, color);
                proof {
                    assert forall|xi: int, yi: int|
                        0 <= xi < w && 0 <= yi < h implies #[trigger] canvas.pix(xi, yi) == (
                    if edge_covers_upto(e, xi, yi, y + 1 - lo) {
                        color
                    } else {
                        pre[xi + yi * w]
                    }) by {
                        lemma_rowmajor_unique(xi, yi, w as int);
                        lemma_rowmajor_unique(x1 as int, y as int, w as int);
                        lemma_rowmajor_in_range(xi, yi, w as int, h as int);
                        lemma_rowmajor_in_range(x1 as int, y as int, w as int, h as int);
                        assert(before.spec_width() == w as int);
                        assert(before.pixels().len() == w as int * h as int);
                        assert(before.pix(xi, yi) == (if edge_covers_upto(e, xi, yi, y - lo) {
                            color
                        } else {
                            pre[xi + yi * w]
                        }));
                        assert(canvas.pixels() == before.pixels().update(
                            x1 as int + y as int * w as int,
                            color,
                        ));
                        if xi == x1 as int && yi == y as int {
                            assert(canvas.pix(xi, yi) == color);
                            assert(edge_covers_upto(e, xi, yi, y + 1 - lo));
                        } else {
                            assert(xi + yi * (w as int) != x1 as int + (y as int) * (w as int));
                            assert(canvas.pix(xi, yi) == before.pix(xi, yi));
                            assert(edge_covers_upto(e, xi, yi, y + 1 - lo) == edge_covers_upto(
                                e,
                                xi,
                                yi,
                                y - lo,
                            ));
                        }
                    }
                }
                y = y + 1;
            }
            proof {
                assert forall|xi: int, yi: int|
                    0 <= xi < w && 0 <= yi < h implies canvas.pixels()[xi + yi * (w as int)] == (
                if edge_covers(e, xi, yi) {
                    color
                } else {
                    pre[xi + yi * w]
                }) by {
                    assert(canvas.pix(xi, yi) == (if edge_covers_upto(e, xi, yi, y - lo) {
                        color
                    } else {
                        pre[xi + yi * w]
                    }));
                    assert(edge_covers_upto(e, xi, yi, y - lo) == edge_covers(e, xi, yi));
                }
                lemma_grid_seq(
                    canvas.pixels(),
                    pre,
                    w as int,
                    h as int,
                    |xi: int, yi: int| edge_covers(e, xi, yi),
                    color,
                );
                assert(canvas.pixels() =~= edge_rendered(e, pre, w as int));
            }
            return ;
        }
        let adx = if dx >= 0 {
            dx
        } else {
            -dx
        };
        let mut step: i64 = 0;
        proof {
            assert(forall|a: i64, b: i64|
                0 <= a < 0x8000_0000i64 && -0x8000_0000i64 <= b < 0x8000_0000i64
                    ==> -0x4000_0000_0000_0000i64 <= #[trigger] (a as int * b as int)
                    <= 0x4000_0000_0000_0000i64) by (nonlinear_arith);
        }
        while step <= adx
            invariant
                canvas.wf(),
                canvas.spec_width() == w,
                canvas.spec_height() == h,
                canvas.pixels().len() == pre.len(),
                pre.len() == w as int * h as int,
                e == *self,
                e.to.x != e.from.x,
                x1 == e.from.x,
                y1 == e.from.y,
                x2 == e.to.x,
                y2 == e.to.y,
                dx == e.to.x - e.from.x,
                dy == e.to.y - e.from.y,
                adx == abs_int(dx as int),
                0 <= x1 < w,
                0 <= x2 < w,
                0 <= y1 < h,
                0 <= y2 < h,
                w <= 0x8000_0000,
                h <= 0x8000_0000,
                0 <= step <= adx + 1,
                color == e.color,
                forall|a: i64, b: i64|
                    0 <= a < 0x8000_0000i64 && -0x8000_0000i64 <= b < 0x8000_0000i64
                        ==> -0x4000_0000_0000_0000i64 <= #[trigger] (a as int * b as int)
                        <= 0x4000_0000_0000_0000i64,
                forall|xi: int, yi: int|
                    0 <= xi < w && 0 <= yi < h ==> #[trigger] canvas.pix(xi, yi) == (
                    if edge_covers_upto(e, xi, yi, step as int) {
                        color
                    } else {
                        pre[xi + yi * w]
                    }),
            decreases adx + 1 - step,
        {
            let x = if dx > 0 {
                x1 + step
            } else {
                x1 - step
            };
            proof {
                lemma_y_step_bounds(y1 as int, dy as int, adx as int, step as int);
            }
            let num: i128 = y1 as i128 * adx as i128 + step as i128 * dy as i128;
            let yq: u128 = (num as u128) / (adx as u128);
            let y: i64 = yq as i64;
            proof {
                assert(y as int == edge_y_at(e, step as int));
                assert(min_int(y1 as int, y2 as int) <= y as int <= max_int(
                    y1 as int,
                    y2 as int,
                ));
                assert(min_int(e.from.x as int, e.to.x as int) <= x as int <= max_int(
                    e.from.x as int,
                    e.to.x as int,
                ));
                assert(abs_int(x as int - e.from.x as int) == step as int);
            }
            let ghost before = *canvas;
            canvas.set(x as usize, y as usize, color);
            proof {
                assert forall|xi: int, yi: int|
                    0 <= xi < w && 0 <= yi < h implies #[trigger] canvas.pix(xi, yi) == (
                if edge_covers_upto(e, xi, yi, step as int + 1) {
                    color
                } else {
                    pre[xi + yi * w]
                }) by {
                    lemma_rowmajor_unique(xi, yi, w as int);
                    lemma_rowmajor_unique(x as int, y as int, w as int);
                    lemma_rowmajor_in_range(xi, yi, w as int, h as int);
                    lemma_rowmajor_in_range(x as int, y as int, w as int, h as int);
                    assert(before.spec_width() == w as int);
                    assert(before.pixels().len() == w as int * h as int);
                    assert(before.pix(xi, yi) == (if edge_covers_upto(e, xi, yi, step as int) {
                        color
                    } else {
                        pre[xi + yi * w]
                    }));
                    assert(canvas.pixels() == before.pixels().update(
                        x as int + y as int * w as int,
                        color,
                    ));
                    if xi == x as int && yi == y as int {
                        assert(canvas.pix(xi, yi) == color);
                        assert(edge_covers_upto(e, xi, yi, step as int + 1));
                    } else {
                        assert(xi + yi * (w as int) != x as int + (y as int) * (w as int));
                        assert(canvas.pix(xi, yi) == before.pix(xi, yi));
                        if edge_covers_upto(e, xi, yi, step as int + 1) && !edge_covers_upto(
                            e,
                            xi,
                            yi,
                            step as int,
                        ) {
                            assert(abs_int(xi - e.from.x as int) == step as int);
                            assert(xi == x as int);
                            assert(yi == edge_y_at(e, step as int));
                            assert(false);
                        }
                        assert(edge_covers_upto(e, xi, yi, step as int + 1) == edge_covers_upto(
                            e,
                            xi,
                            yi,
                            step as int,
                        ));
                    }
                }
            }
            step = step + 1;
        }
        proof {
            assert forall|xi: int, yi: int|
                0 <= xi < w && 0 <= yi < h implies canvas.pixels()[xi + yi * (w as int)] == (
            if edge_covers(e, xi, yi) {
                color
            } else {
                pre[xi + yi * w]
            }) by {
                assert(canvas.pix(xi, yi) == (if edge_covers_upto(e, xi, yi, step as int) {
                    color
                } else {
                    pre[xi + yi * w]
                }));
                assert(edge_covers_upto(e, xi, yi, step as int) == edge_covers(e, xi, yi));
            }
            lemma_grid_seq(
                canvas.pixels(),
                pre,
                w as int,
                h as int,
                |xi: int, yi: int| edge_covers(e, xi, yi),
                color,
            );
            assert(canvas.pixels() =~= edge_rendered(e, pre, w as int));
        }
    }
}

impl Draw for Point {
    open spec fn fits(&self, w: int, h: int) -> bool {
        0 <= self.x < w && 0 <= self.y < h
    }

    open spec fn rendered(&self, pre: Seq<Color>, w: int, h: int) -> Seq<Color> {
        pre.update(self.x + self.y * w, Color::Black)
    }

    /// A lone point is drawn as a single black pixel.
    fn draw(&self, canvas: &mut Canvas) {
        canvas.set(self.x as usize, self.y as usize, Color::Black);
    }
}

/// The buffer after rasterizing each edge of `edges` in order over `pre`.
pub open spec fn edges_rendered(edges: Seq<Edge>, pre: Seq<Color>, w: int) -> Seq<Color>
    decreases edges.len(),
{
    if edges.len() == 0 {
        pre
    } else {
        edge_rendered(edges.last(), edges_rendered(edges.drop_last(), pre, w), w)
    }
}

/// The buffer after rasterizing every shape of `shapes` in order over `pre`.
pub open spec fn shapes_rendered(shapes: Seq<Shape>, pre: Seq<Color>, w: int) -> Seq<Color>
    decreases shapes.len(),
{
    if shapes.len() == 0 {
        pre
    } else {
        edges_rendered(shapes.last()@, shapes_rendered(shapes.drop_last(), pre, w), w)
    }
}

impl Draw for Shape {
    open spec fn fits(&self, w: int, h: int) -> bool {
        forall|j: int| 0 <= j < self@.len() ==> edge_fits(#[trigger] self@[j], w, h)
    }

    open spec fn rendered(&self, pre: Seq<Color>, w: int, h: int) -> Seq<Color> {
        edges_rendered(self@, pre, w)
    }

    /// Rasterize every edge of the shape, in insertion order.
    fn draw(&self, canvas: &mut Canvas) {
        let ghost pre = canvas.pixels();
        let ghost w = canvas.spec_width();
        let ghost h = canvas.spec_height();
        let n = self.edges_iter().len();
        for i in 0..n
            invariant
                n == self@.len(),
                canvas.wf(),
                canvas.spec_width() == w,
                canvas.spec_height() == h,
                self.fits(w, h),
                canvas.pixels() == edges_rendered(self@.take(i as int), pre, w),
        {
            let edge = &self.edges_iter()[i];
            edge.draw(canvas);
            proof {
                assert(self@.take(i + 1).drop_last() =~= self@.take(i as int));
                assert(self@.take(i + 1).last() == self@[i as int]);
            }
        }
        proof {
            assert(self@.take(n as int) =~= self@);
        }
    }
}

impl Draw for Blueprint {
    open spec fn fits(&self, w: int, h: int) -> bool {
        forall|i: int| 0 <= i < self@.len() ==> (#[trigger] self@[i]).fits(w, h)
    }

    open spec fn rendered(&self, pre: Seq<Color>, w: int, h: int) -> Seq<Color> {
        shapes_rendered(self@, pre, w)
    }

    /// Rasterize every shape of the blueprint, in insertion order.
    fn draw(&self, canvas: &mut Canvas) {
        let ghost pre = canvas.pixels();
        let ghost w = canvas.spec_width();
        let ghost h = canvas.spec_height();
        let n = self.shapes_iter().len();
        for i in 0..n
            invariant
                n == self@.len(),
                canvas.wf(),
                canvas.spec_width() == w,
                canvas.spec_height() == h,
                self.fits(w, h),
                canvas.pixels() == shapes_rendered(self@.take(i as int), pre, w),
        {
            let shape = &self.shapes_iter()[i];
            shape.draw(canvas);
            proof {
                assert(self@.take(i + 1).drop_last() =~= self@.take(i as int));
                assert(self@.take(i + 1).last() == self@[i as int]);
            }
        }
        proof {
            assert(self@.take(n as int) =~= self@);
        }
    }
}

/// The cell of the padded canvas at `(x, y)`: the original blitted at the
/// margin offset, white elsewhere.
pub open spec fn pad_cell(orig: Canvas, x: int, y: int, hm: int, vm: int) -> Color {
    if hm <= x < hm + orig.spec_width() && vm <= y < vm + orig.spec_height() {
        orig.pix(x - hm, y - vm)
    } else {
        Color::White
    }
}

impl Canvas {
    /// A new canvas enlarged by the given margins on every side, with this
    /// canvas blitted at the margin offset over a white background.
    pub fn pad(&self, horizontal: usize, vertical: usize) -> (c: Canvas)
        requires
            self.wf(),
            self.spec_width() + 2 * horizontal <= usize::MAX,
            self.spec_height() + 2 * vertical <= usize::MAX,
            (self.spec_width() + 2 * horizontal) * (self.spec_height() + 2 * vertical)
                <= usize::MAX,
        ensures
            c.wf(),
            c.spec_width() == self.spec_width() + 2 * horizontal,
            c.spec_height() == self.spec_height() + 2 * vertical,
            forall|x: int, y: int|
                0 <= x < c.spec_width() && 0 <= y < c.spec_height() ==> #[trigger] c.pix(x, y)
                    == pad_cell(*self, x, y, horizontal as int, vertical as int),
    {
        let nw: usize = self.width + 2 * horizontal;
        let nh: usize = self.height + 2 * vertical;
        let mut canvas = Canvas::new(nw, nh);
        proof {
            assert forall|x: int, y: int|
                0 <= x < nw && 0 <= y < nh implies #[trigger] canvas.pix(x, y) == Color::White by {
                lemma_rowmajor_in_range(x, y, nw as int, nh as int);
            }
        }
        let mut y: usize = 0;
        while y < self.height
            invariant
                nw == self.spec_width() + 2 * horizontal,
                nh == self.spec_height() + 2 * vertical,
                self.wf(),
                canvas.wf(),
                canvas.spec_width() == nw,
                canvas.spec_height() == nh,
                0 <= y <= self.spec_height(),
                forall|xi: int, yi: int|
                    0 <= xi < nw && 0 <= yi < nh ==> #[trigger] canvas.pix(xi, yi) == (
                    if yi < vertical + y {
                        pad_cell(*self, xi, yi, horizontal as int, vertical as int)
                    } else {
                        Color::White
                    }),
            decreases self.spec_height() - y,
        {
            let mut x: usize = 0;
            while x < self.width
                invariant
                    nw == self.spec_width() + 2 * horizontal,
                    nh == self.spec_height() + 2 * vertical,
                    self.wf(),
                    canvas.wf(),
                    canvas.spec_width() == nw,
                    canvas.spec_height() == nh,
                    0 <= y < self.spec_height(),
                    0 <= x <= self.spec_width(),
                    forall|xi: int, yi: int|
                        0 <= xi < nw && 0 <= yi < nh ==> #[trigger] canvas.pix(xi, yi) == (
                        if yi < vertical + y || (yi == vertical + y && xi < horizontal + x) {
                            pad_cell(*self, xi, yi, horizontal as int, vertical as int)
                        } else {
                            Color::White
                        }),
                decreases self.spec_width() - x,
            {
                let ghost before = canvas;
                let px = x + horizontal;
                let py = y + vertical;
                canvas.set(px, py, self.get(x, y));
                proof {
                    assert forall|xi: int, yi: int|
                        0 <= xi < nw && 0 <= yi < nh implies #[trigger] canvas.pix(xi, yi) == (
                    if yi < vertical + y || (yi == vertical + y && xi < horizontal + x + 1) {
                        pad_cell(*self, xi, yi, horizontal as int, vertical as int)
                    } else {
                        Color::White
                    }) by {
                        lemma_rowmajor_unique(xi, yi, nw as int);
                        lemma_rowmajor_unique(px as int, py as int, nw as int);
                        lemma_rowmajor_in_range(xi, yi, nw as int, nh as int);
                        lemma_rowmajor_in_range(px as int, py as int, nw as int, nh as int);
                        assert(before.pix(xi, yi) == (if yi < vertical + y || (yi == vertical + y
                            && xi < horizontal + x) {
                            pad_cell(*self, xi, yi, horizontal as int, vertical as int)
                        } else {
                            Color::White
                        }));
                        assert(canvas.pixels() == before.pixels().update(
                            px as int + py as int * nw as int,
                            color_at(*self, x as int, y as int),
                        ));
                        if xi == px as int && yi == py as int {
                            assert(canvas.pix(xi, yi) == color_at(*self, x as int, y as int));
                            assert(pad_cell(*self, xi, yi, horizontal as int, vertical as int)
                                == color_at(*self, x as int, y as int));
                        } else {
                            assert(xi + yi * (nw as int) != px as int + (py as int) * (
                            nw as int));
                            assert(canvas.pix(xi, yi) == before.pix(xi, yi));
                        }
                    }
                }
                x = x + 1;
            }
            y = y + 1;
        }
        canvas
    }
}

/// The color of `c` at `(x, y)`; a synonym of `pix` used where the borrow
/// checker wants a value.
pub open spec fn color_at(c: Canvas, x: int, y: int) -> Color {
    c.pix(x, y)
}

/// The width of the canvas a blueprint renders onto: one more than its
/// bottom-right x bound, or zero for a model with no geometry.
pub open spec fn blueprint_canvas_width(bp: Blueprint) -> int {
    if shapes_bottom_right(bp@).x < 0 {
        0
    } else {
        shapes_bottom_right(bp@).x + 1
    }
}

pub open spec fn blueprint_canvas_height(bp: Blueprint) -> int {
    if shapes_bottom_right(bp@).y < 0 {
        0
    } else {
        shapes_bottom_right(bp@).y + 1
    }
}

impl Canvas {
    /// A canvas just large enough for a normalized (non-negative) blueprint,
    /// with the blueprint rasterized onto a white background.
    pub fn from_blueprint(blueprint: &Blueprint) -> (c: Canvas)
        requires
            blueprint_non_negative(*blueprint),
            shapes_bottom_right(blueprint@).x < 0x8000_0000,
            shapes_bottom_right(blueprint@).y < 0x8000_0000,
            blueprint_canvas_width(*blueprint) * blueprint_canvas_height(*blueprint)
                <= usize::MAX,
        ensures
            c.wf(),
            c.spec_width() == blueprint_canvas_width(*blueprint),
            c.spec_height() == blueprint_canvas_height(*blueprint),
            c.pixels() == blueprint.rendered(
                Seq::new(
                    (blueprint_canvas_width(*blueprint) * blueprint_canvas_height(
                        *blueprint,
                    )) as nat,
                    |i: int| Color::White,
                ),
                c.spec_width(),
                c.spec_height(),
            ),
    {
        let boundaries = blueprint.boundaries();
        let wx: usize = if boundaries.1.x < 0 {
            0
        } else {
            (boundaries.1.x + 1) as usize
        };
        let hy: usize = if boundaries.1.y < 0 {
            0
        } else {
            (boundaries.1.y + 1) as usize
        };
        let mut canvas = Canvas::new(wx, hy);
        proof {
            lemma_shapes_bottom_right_ge(blueprint@);
            assert forall|i: int| 0 <= i < blueprint@.len() implies (#[trigger] blueprint@[i]).fits(
                wx as int,
                hy as int,
            ) by {
                assert forall|j: int| 0 <= j < blueprint@[i]@.len() implies edge_fits(
                    #[trigger] blueprint@[i]@[j],
                    wx as int,
                    hy as int,
                ) by {
                    let e = blueprint@[i]@[j];
                    assert(e.from.x >= 0 && e.from.y >= 0 && e.to.x >= 0 && e.to.y >= 0);
                }
            }
        }
        blueprint.draw(&mut canvas);
        canvas
    }
}

} // verus!
