//! Geometric model: points with exact signed integer coordinates.
//!
//! All coordinate arithmetic is exact integer arithmetic. Additions saturate
//! at the representable limits instead of overflowing; coordinate resolution
//! additionally keeps values inside `COORD_LIMIT` so that a later
//! translate-to-origin pass can never overflow.

use vstd::prelude::*;

verus! {

/// Largest coordinate magnitude the resolver ever produces. Half of the
/// `i64` range, so that the difference of two resolved coordinates always
/// fits in an `i64`.
pub const COORD_LIMIT: i64 = 0x3fff_ffff_ffff_ffff;

/// Clamp a mathematical integer into `[lo, hi]`.
pub open spec fn clamp_int(v: int, lo: int, hi: int) -> int {
    if v < lo {
        lo
    } else if v > hi {
        hi
    } else {
        v
    }
}

/// Saturate a mathematical integer at the `i64` limits.
pub open spec fn sat_i64(v: int) -> int {
    clamp_int(v, i64::MIN as int, i64::MAX as int)
}

/// Clamp a mathematical integer into the resolver's coordinate range.
pub open spec fn clamp_coord(v: int) -> int {
    clamp_int(v, -COORD_LIMIT as int, COORD_LIMIT as int)
}

/// `a + b`, saturating at the `i64` limits.
pub fn add_sat_i64(a: i64, b: i64) -> (r: i64)
    ensures
        r as int == sat_i64(a + b),
{
    let wide: i128 = a as i128 + b as i128;
    if wide < i64::MIN as i128 {
        i64::MIN
    } else if wide > i64::MAX as i128 {
        i64::MAX
    } else {
        wide as i64
    }
}

/// `a + b`, clamped into the resolver's coordinate range.
pub fn add_clamped(a: i64, b: i64) -> (r: i64)
    ensures
        r as int == clamp_coord(a + b),
{
    let wide: i128 = a as i128 + b as i128;
    if wide < -COORD_LIMIT as i128 {
        -COORD_LIMIT
    } else if wide > COORD_LIMIT as i128 {
        COORD_LIMIT
    } else {
        wide as i64
    }
}

/// A point of the signed coordinate plane.
#[derive(Debug, Copy, Clone, PartialEq, Eq, Structural)]
pub struct Point {
    pub x: i64,
    pub y: i64,
}

impl Point {
    pub fn new(x: i64, y: i64) -> (p: Point)
        ensures
            p == (Point { x, y }),
    {
        Point { x, y }
    }

    /// Offset by `(dx, dy)`; the result is clamped into the resolver's
    /// coordinate range.
    pub fn add(&self, dx: i64, dy: i64) -> (p: Point)
        ensures
            p.x as int == clamp_coord(self.x + dx),
            p.y as int == clamp_coord(self.y + dy),
    {
        Point { x: add_clamped(self.x, dx), y: add_clamped(self.y, dy) }
    }
}

/// Red, green, blue and alpha channels; alpha 0 means fully transparent.
pub type RgbaColor = (u8, u8, u8, u8);

/// The closed color vocabulary of the language, plus arbitrary RGBA values.
#[derive(Debug, Copy, Clone, PartialEq, Eq, Structural, Hash)]
pub enum Color {
    Transparent,
    White,
    Black,
    Red,
    Green,
    Blue,
    Yellow,
    Magenta,
    Cyan,
    Custom(u8, u8, u8, u8),
}

/// The RGBA channels of each color.
pub open spec fn color_rgba(c: Color) -> RgbaColor {
    match c {
        Color::Transparent => (0u8, 0u8, 0u8, 0u8),
        Color::White => (255u8, 255u8, 255u8, 255u8),
        Color::Black => (0u8, 0u8, 0u8, 255u8),
        Color::Red => (255u8, 0u8, 0u8, 255u8),
        Color::Green => (0u8, 255u8, 0u8, 255u8),
        Color::Blue => (0u8, 0u8, 255u8, 255u8),
        Color::Yellow => (255u8, 255u8, 0u8, 255u8),
        Color::Magenta => (255u8, 0u8, 255u8, 255u8),
        Color::Cyan => (0u8, 255u8, 255u8, 255u8),
        Color::Custom(r, g, b, a) => (r, g, b, a),
    }
}

impl Color {
    pub fn as_rgba(&self) -> (r: RgbaColor)
        ensures
            r == color_rgba(*self),
    {
        match self {
            Color::Transparent => (0, 0, 0, 0),
            Color::White => (255, 255, 255, 255),
            Color::Black => (0, 0, 0, 255),
            Color::Red => (255, 0, 0, 255),
            Color::Green => (0, 255, 0, 255),
            Color::Blue => (0, 0, 255, 255),
            Color::Yellow => (255, 255, 0, 255),
            Color::Magenta => (255, 0, 255, 255),
            Color::Cyan => (0, 255, 255, 255),
            Color::Custom(r, g, b, a) => (*r, *g, *b, *a),
        }
    }

    pub fn is_transparent(&self) -> (r: bool)
        ensures
            r == (*self == Color::Transparent),
    {
        matches!(self, Color::Transparent)
    }
}

impl Default for Color {
    /// The default color of a drawn edge is black.
    fn default() -> (c: Color)
        ensures
            c == Color::Black,
    {
        Color::Black
    }
}

/// One straight, colored line segment between two resolved points, tagged
/// with the 1-based source line it came from.
#[derive(Debug, Copy, Clone, PartialEq, Eq, Structural)]
pub struct Edge {
    pub from: Point,
    pub to: Point,
    pub color: Color,
    pub line: usize,
}

impl Edge {
    pub fn new(x1: i64, y1: i64, x2: i64, y2: i64, color: Color, line: usize) -> (e: Edge)
        ensures
            e == (Edge { from: Point { x: x1, y: y1 }, to: Point { x: x2, y: y2 }, color, line }),
    {
        Edge { from: Point::new(x1, y1), to: Point::new(x2, y2), color, line }
    }

    pub fn new_from_points(from: Point, to: Point, color: Color, line: usize) -> (e: Edge)
        ensures
            e == (Edge { from, to, color, line }),
    {
        Edge { from, to, color, line }
    }
}

/// An ordered sequence of edges; insertion order is rendering order.
#[derive(Debug, Clone, PartialEq)]
pub struct Shape {
    edges: Vec<Edge>,
}

impl View for Shape {
    type V = Seq<Edge>;

    closed spec fn view(&self) -> Seq<Edge> {
        self.edges@
    }
}

impl Shape {
    /// Build a shape from its ordered edge list.
    pub fn from_edges(edges: Vec<Edge>) -> (s: Shape)
        ensures
            s@ == edges@,
    {
        Shape { edges }
    }

    pub fn edges_iter(&self) -> (r: &Vec<Edge>)
        ensures
            r@ == self@,
    {
        &self.edges
    }
}

/// The fully resolved model: an ordered sequence of shapes.
#[derive(Debug, Clone)]
pub struct Blueprint {
    shapes: Vec<Shape>,
}

impl View for Blueprint {
    type V = Seq<Shape>;

    closed spec fn view(&self) -> Seq<Shape> {
        self.shapes@
    }
}

impl Default for Blueprint {
    /// An empty blueprint.
    fn default() -> (b: Blueprint)
        ensures
            b@ == Seq::<Shape>::empty(),
    {
        Blueprint { shapes: Vec::new() }
    }
}

impl Blueprint {
    pub fn push(&mut self, shape: Shape)
        ensures
            final(self)@ == old(self)@.push(shape),
    {
        self.shapes.push(shape);
    }

    pub fn shapes_iter(&self) -> (r: &Vec<Shape>)
        ensures
            r@ == self@,
    {
        &self.shapes
    }
}

pub open spec fn min_i64(a: i64, b: i64) -> i64 {
    if a <= b {
        a
    } else {
        b
    }
}

pub open spec fn max_i64(a: i64, b: i64) -> i64 {
    if a >= b {
        a
    } else {
        b
    }
}

pub open spec fn point_min(a: Point, b: Point) -> Point {
    Point { x: min_i64(a.x, b.x), y: min_i64(a.y, b.y) }
}

pub open spec fn point_max(a: Point, b: Point) -> Point {
    Point { x: max_i64(a.x, b.x), y: max_i64(a.y, b.y) }
}

/// Start value of the bounding-box fold: an inverse-extremal sentinel.
/// An empty model keeps it; callers must treat that as "no geometry".
pub open spec fn sentinel_top_left() -> Point {
    Point { x: i64::MAX, y: i64::MAX }
}

pub open spec fn sentinel_bottom_right() -> Point {
    Point { x: i64::MIN, y: i64::MIN }
}

pub open spec fn edge_top_left(e: Edge) -> Point {
    point_min(e.from, e.to)
}

pub open spec fn edge_bottom_right(e: Edge) -> Point {
    point_max(e.from, e.to)
}

pub open spec fn edges_top_left(edges: Seq<Edge>) -> Point
    decreases edges.len(),
{
    if edges.len() == 0 {
        sentinel_top_left()
    } else {
        point_min(edges_top_left(edges.drop_last()), edge_top_left(edges.last()))
    }
}

pub open spec fn edges_bottom_right(edges: Seq<Edge>) -> Point
    decreases edges.len(),
{
    if edges.len() == 0 {
        sentinel_bottom_right()
    } else {
        point_max(edges_bottom_right(edges.drop_last()), edge_bottom_right(edges.last()))
    }
}

pub open spec fn shapes_top_left(shapes: Seq<Shape>) -> Point
    decreases shapes.len(),
{
    if shapes.len() == 0 {
        sentinel_top_left()
    } else {
        point_min(shapes_top_left(shapes.drop_last()), edges_top_left(shapes.last()@))
    }
}

pub open spec fn shapes_bottom_right(shapes: Seq<Shape>) -> Point
    decreases shapes.len(),
{
    if shapes.len() == 0 {
        sentinel_bottom_right()
    } else {
        point_max(shapes_bottom_right(shapes.drop_last()), edges_bottom_right(shapes.last()@))
    }
}

/// An entity whose bounding box can be computed: the component-wise fold of
/// minima and maxima over all of its points.
pub trait Bound {
    spec fn top_left_spec(&self) -> Point;

    spec fn bottom_right_spec(&self) -> Point;

    /// The `(top-left, bottom-right)` corners of the bounding box.
    fn boundaries(&self) -> (r: (Point, Point))
        ensures
            r.0 == self.top_left_spec(),
            r.1 == self.bottom_right_spec(),
    ;
}

fn min_i64_exec(a: i64, b: i64) -> (r: i64)
    ensures
        r == min_i64(a, b),
{
    if a <= b {
        a
    } else {
        b
    }
}

fn max_i64_exec(a: i64, b: i64) -> (r: i64)
    ensures
        r == max_i64(a, b),
{
    if a >= b {
        a
    } else {
        b
    }
}

impl Bound for Edge {
    open spec fn top_left_spec(&self) -> Point {
        edge_top_left(*self)
    }

    open spec fn bottom_right_spec(&self) -> Point {
        edge_bottom_right(*self)
    }

    fn boundaries(&self) -> (r: (Point, Point)) {
        (
            Point { x: min_i64_exec(self.from.x, self.to.x), y: min_i64_exec(self.from.y, self.to.y) },
            Point { x: max_i64_exec(self.from.x, self.to.x), y: max_i64_exec(self.from.y, self.to.y) },
        )
    }
}

impl Bound for Shape {
    open spec fn top_left_spec(&self) -> Point {
        edges_top_left(self@)
    }

    open spec fn bottom_right_spec(&self) -> Point {
        edges_bottom_right(self@)
    }

    fn boundaries(&self) -> (r: (Point, Point)) {
        let mut top_left = Point { x: i64::MAX, y: i64::MAX };
        let mut bottom_right = Point { x: i64::MIN, y: i64::MIN };
        let n = self.edges.len();
        for i in 0..n
            invariant
                n == self.edges.len(),
                top_left == edges_top_left(self@.take(i as int)),
                bottom_right == edges_bottom_right(self@.take(i as int)),
        {
            let e = &self.edges[i];
            let (etl, ebr) = e.boundaries();
            top_left = Point { x: min_i64_exec(top_left.x, etl.x), y: min_i64_exec(top_left.y, etl.y) };
            bottom_right = Point {
                x: max_i64_exec(bottom_right.x, ebr.x),
                y: max_i64_exec(bottom_right.y, ebr.y),
            };
            proof {
                assert(self@.take(i + 1).drop_last() =~= self@.take(i as int));
                assert(self@.take(i + 1).last() == self@[i as int]);
            }
        }
        proof {
            assert(self@.take(n as int) =~= self@);
        }
        (top_left, bottom_right)
    }
}

impl Bound for Blueprint {
    open spec fn top_left_spec(&self) -> Point {
        shapes_top_left(self@)
    }

    open spec fn bottom_right_spec(&self) -> Point {
        shapes_bottom_right(self@)
    }

    fn boundaries(&self) -> (r: (Point, Point)) {
        let mut top_left = Point { x: i64::MAX, y: i64::MAX };
        let mut bottom_right = Point { x: i64::MIN, y: i64::MIN };
        let n = self.shapes.len();
        for i in 0..n
            invariant
                n == self.shapes.len(),
                top_left == shapes_top_left(self@.take(i as int)),
                bottom_right == shapes_bottom_right(self@.take(i as int)),
        {
            let (stl, sbr) = self.shapes[i].boundaries();
            top_left = Point { x: min_i64_exec(top_left.x, stl.x), y: min_i64_exec(top_left.y, stl.y) };
            bottom_right = Point {
                x: max_i64_exec(bottom_right.x, sbr.x),
                y: max_i64_exec(bottom_right.y, sbr.y),
            };
            proof {
                assert(self@.take(i + 1).drop_last() =~= self@.take(i as int));
                assert(self@.take(i + 1).last() == self@[i as int]);
            }
        }
        proof {
            assert(self@.take(n as int) =~= self@);
        }
        (top_left, bottom_right)
    }
}

/// `p` shifted by `(dx, dy)`, saturating at the `i64` limits.
pub open spec fn point_translated(p: Point, dx: int, dy: int) -> Point {
    Point { x: sat_i64(p.x + dx) as i64, y: sat_i64(p.y + dy) as i64 }
}

/// `e` with both endpoints shifted by `(dx, dy)`.
pub open spec fn edge_translated(e: Edge, dx: int, dy: int) -> Edge {
    Edge {
        from: point_translated(e.from, dx, dy),
        to: point_translated(e.to, dx, dy),
        color: e.color,
        line: e.line,
    }
}

/// An entity that can be shifted in place by an integer offset.
pub trait Translate: Sized {
    /// Exact relation between the value before and after `translate`.
    spec fn is_translated(pre: Self, post: Self, dx: int, dy: int) -> bool;

    fn translate(&mut self, dx: i64, dy: i64)
        ensures
            Self::is_translated(*old(self), *final(self), dx as int, dy as int),
    ;
}

impl Translate for Point {
    open spec fn is_translated(pre: Point, post: Point, dx: int, dy: int) -> bool {
        post == point_translated(pre, dx, dy)
    }

    fn translate(&mut self, dx: i64, dy: i64) {
        self.x = add_sat_i64(self.x, dx);
        self.y = add_sat_i64(self.y, dy);
    }
}

impl Translate for Edge {
    open spec fn is_translated(pre: Edge, post: Edge, dx: int, dy: int) -> bool {
        post == edge_translated(pre, dx, dy)
    }

    fn translate(&mut self, dx: i64, dy: i64) {
        self.from.translate(dx, dy);
        self.to.translate(dx, dy);
    }
}

impl Translate for Shape {
    open spec fn is_translated(pre: Shape, post: Shape, dx: int, dy: int) -> bool {
        post@ == pre@.map_values(|e: Edge| edge_translated(e, dx, dy))
    }

    fn translate(&mut self, dx: i64, dy: i64) {
        let n = self.edges.len();
        for i in 0..n
            invariant
                n == self.edges.len(),
                self@.len() == old(self)@.len(),
                forall|j: int| 0 <= j < i ==> self@[j] == edge_translated(old(self)@[j], dx as int, dy as int),
                forall|j: int| i <= j < n ==> self@[j] == old(self)@[j],
        {
            let mut e = self.edges[i];
            e.translate(dx, dy);
            self.edges.set(i, e);
        }
        proof {
            assert(self@ =~= old(self)@.map_values(|e: Edge| edge_translated(e, dx as int, dy as int)));
        }
    }
}

impl Translate for Blueprint {
    open spec fn is_translated(pre: Blueprint, post: Blueprint, dx: int, dy: int) -> bool {
        &&& post@.len() == pre@.len()
        &&& forall|i: int|
            0 <= i < pre@.len() ==> post@[i]@ == pre@[i]@.map_values(
                |e: Edge| edge_translated(e, dx, dy),
            )
    }

    fn translate(&mut self, dx: i64, dy: i64) {
        let ghost orig = self.shapes@;
        let mut out: Vec<Shape> = Vec::new();
        while self.shapes.len() > 0
            invariant
                out@.len() + self.shapes@.len() == orig.len(),
                self.shapes@ == orig.skip(out@.len() as int),
                forall|j: int|
                    0 <= j < out@.len() ==> out@[j]@ == orig[j]@.map_values(
                        |e: Edge| edge_translated(e, dx as int, dy as int),
                    ),
            decreases self.shapes.len(),
        {
            let mut s = self.shapes.remove(0);
            s.translate(dx, dy);
            out.push(s);
            proof {
                assert(self.shapes@ =~= orig.skip(out@.len() as int));
            }
        }
        self.shapes = out;
    }
}

/// Rounded division `num / den` for `den > 0`, rounding halves away from
/// zero (the rounding used when scaling coordinates).
pub open spec fn rdiv(num: int, den: int) -> int
    recommends
        den > 0,
{
    if num >= 0 {
        (2 * num + den) / (2 * den)
    } else {
        -((2 * (-num) + den) / (2 * den))
    }
}

/// `p` scaled by the rational factor `num / den`, each coordinate rounded
/// to the nearest integer (halves away from zero) and saturated.
pub open spec fn point_scaled(p: Point, num: int, den: int) -> Point {
    Point {
        x: sat_i64(rdiv(p.x * num, den)) as i64,
        y: sat_i64(rdiv(p.y * num, den)) as i64,
    }
}

pub open spec fn edge_scaled(e: Edge, num: int, den: int) -> Edge {
    Edge {
        from: point_scaled(e.from, num, den),
        to: point_scaled(e.to, num, den),
        color: e.color,
        line: e.line,
    }
}

/// One coordinate scaled by `num / den`, rounded half away from zero.
fn scale_coord(v: i64, num: u32, den: u32) -> (r: i64)
    requires
        den > 0,
    ensures
        r as int == sat_i64(rdiv(v as int * num as int, den as int)),
{
    let vi: i128 = v as i128;
    let ni: i128 = num as i128;
    proof {
        assert(vi * ni <= 0x8000_0000_0000_0000_0000_0000i128 && vi * ni
            >= -0x8000_0000_0000_0000_0000_0000i128) by (nonlinear_arith)
            requires
                -0x8000_0000_0000_0000i128 <= vi <= 0x7fff_ffff_ffff_ffffi128,
                0 <= ni <= 0xffff_ffffi128,
        ;
    }
    let wide: i128 = vi * ni;
    let d: u128 = den as u128;
    let mag: u128 = if wide >= 0 {
        wide as u128
    } else {
        (-wide) as u128
    };
    let q_mag: u128 = (2 * mag + d) / (2 * d);
    let q: i128 = if wide >= 0 {
        q_mag as i128
    } else {
        -(q_mag as i128)
    };
    if q < i64::MIN as i128 {
        i64::MIN
    } else if q > i64::MAX as i128 {
        i64::MAX
    } else {
        q as i64
    }
}

impl Point {
    fn scale(&self, num: u32, den: u32) -> (p: Point)
        requires
            den > 0,
        ensures
            p == point_scaled(*self, num as int, den as int),
    {
        Point { x: scale_coord(self.x, num, den), y: scale_coord(self.y, num, den) }
    }
}

impl Edge {
    /// This edge scaled by the rational factor `num / den`.
    pub fn scale(&self, num: u32, den: u32) -> (e: Edge)
        requires
            den > 0,
        ensures
            e == edge_scaled(*self, num as int, den as int),
    {
        Edge {
            from: self.from.scale(num, den),
            to: self.to.scale(num, den),
            color: self.color,
            line: self.line,
        }
    }
}

impl Shape {
    /// This shape scaled by the rational factor `num / den`.
    pub fn scale(&self, num: u32, den: u32) -> (s: Shape)
        requires
            den > 0,
        ensures
            s@ == self@.map_values(|e: Edge| edge_scaled(e, num as int, den as int)),
    {
        let mut edges: Vec<Edge> = Vec::new();
        let n = self.edges.len();
        for i in 0..n
            invariant
                n == self.edges.len(),
                den > 0,
                edges@ == self@.take(i as int).map_values(
                    |e: Edge| edge_scaled(e, num as int, den as int),
                ),
        {
            edges.push(self.edges[i].scale(num, den));
            proof {
                assert(self@.take(i + 1).drop_last() =~= self@.take(i as int));
                assert(edges@ =~= self@.take(i + 1).map_values(
                    |e: Edge| edge_scaled(e, num as int, den as int),
                ));
            }
        }
        proof {
            assert(self@.take(n as int) =~= self@);
        }
        Shape { edges }
    }
}

impl Blueprint {
    /// This blueprint scaled by the rational factor `num / den`: every
    /// coordinate of every edge is multiplied by `num / den` and rounded to
    /// the nearest integer, halves away from zero.
    pub fn scale(&self, num: u32, den: u32) -> (b: Blueprint)
        requires
            den > 0,
        ensures
            b@.len() == self@.len(),
            forall|i: int|
                0 <= i < self@.len() ==> b@[i]@ == self@[i]@.map_values(
                    |e: Edge| edge_scaled(e, num as int, den as int),
                ),
    {
        let mut shapes: Vec<Shape> = Vec::new();
        let n = self.shapes.len();
        for i in 0..n
            invariant
                n == self.shapes.len(),
                den > 0,
                shapes@.len() == i,
                forall|j: int|
                    0 <= j < i ==> shapes@[j]@ == self@[j]@.map_values(
                        |e: Edge| edge_scaled(e, num as int, den as int),
                    ),
        {
            shapes.push(self.shapes[i].scale(num, den));
        }
        Blueprint { shapes }
    }
}

/// Every coordinate of every edge of the blueprint is non-negative.
pub open spec fn blueprint_non_negative(bp: Blueprint) -> bool {
    forall|i: int, j: int|
        0 <= i < bp@.len() && 0 <= j < bp@[i]@.len() ==> {
            let e = #[trigger] bp@[i]@[j];
            e.from.x >= 0 && e.from.y >= 0 && e.to.x >= 0 && e.to.y >= 0
        }
}

/// The top-left bound of an edge fold is a lower bound of every coordinate.
pub proof fn lemma_edges_top_left_le(edges: Seq<Edge>)
    ensures
        forall|j: int|
            0 <= j < edges.len() ==> {
                let e = #[trigger] edges[j];
                edges_top_left(edges).x <= e.from.x && edges_top_left(edges).x <= e.to.x
                    && edges_top_left(edges).y <= e.from.y && edges_top_left(edges).y <= e.to.y
            },
    decreases edges.len(),
{
    if edges.len() > 0 {
        lemma_edges_top_left_le(edges.drop_last());
        assert forall|j: int| 0 <= j < edges.len() - 1 implies edges[j] == edges.drop_last()[j] by {}
    }
}

/// The top-left bound of a blueprint is a lower bound of every coordinate
/// of every edge of every shape.
pub proof fn lemma_shapes_top_left_le(shapes: Seq<Shape>)
    ensures
        forall|i: int, j: int|
            0 <= i < shapes.len() && 0 <= j < shapes[i]@.len() ==> {
                let e = #[trigger] shapes[i]@[j];
                shapes_top_left(shapes).x <= e.from.x && shapes_top_left(shapes).x <= e.to.x
                    && shapes_top_left(shapes).y <= e.from.y && shapes_top_left(shapes).y
                    <= e.to.y
            },
    decreases shapes.len(),
{
    if shapes.len() > 0 {
        lemma_shapes_top_left_le(shapes.drop_last());
        lemma_edges_top_left_le(shapes.last()@);
        assert forall|i: int| 0 <= i < shapes.len() - 1 implies shapes[i] == shapes.drop_last()[i] by {}
    }
}

/// The edge lists of a sequence of shapes.
pub open spec fn shapes_views(shapes: Seq<Shape>) -> Seq<Seq<Edge>> {
    shapes.map_values(|sh: Shape| sh@)
}

/// The top-left bound of a sequence of edge lists: the same fold as
/// `shapes_top_left`, stated on the shapes' views.
pub open spec fn views_top_left(views: Seq<Seq<Edge>>) -> Point
    decreases views.len(),
{
    if views.len() == 0 {
        sentinel_top_left()
    } else {
        point_min(views_top_left(views.drop_last()), edges_top_left(views.last()))
    }
}

/// The two top-left folds agree.
pub proof fn lemma_views_top_left(shapes: Seq<Shape>)
    ensures
        views_top_left(shapes_views(shapes)) == shapes_top_left(shapes),
    decreases shapes.len(),
{
    if shapes.len() > 0 {
        lemma_views_top_left(shapes.drop_last());
        assert(shapes_views(shapes).drop_last() =~= shapes_views(shapes.drop_last()));
        assert(shapes_views(shapes).last() == shapes.last()@);
    }
}

/// The bottom-right bound of an edge fold is an upper bound of every
/// coordinate.
pub proof fn lemma_edges_bottom_right_ge(edges: Seq<Edge>)
    ensures
        forall|j: int|
            0 <= j < edges.len() ==> {
                let e = #[trigger] edges[j];
                e.from.x <= edges_bottom_right(edges).x && e.to.x <= edges_bottom_right(edges).x
                    && e.from.y <= edges_bottom_right(edges).y && e.to.y <= edges_bottom_right(
                    edges,
                ).y
            },
    decreases edges.len(),
{
    if edges.len() > 0 {
        lemma_edges_bottom_right_ge(edges.drop_last());
        assert forall|j: int| 0 <= j < edges.len() - 1 implies edges[j] == edges.drop_last()[j] by {}
    }
}

/// The bottom-right bound of a blueprint is an upper bound of every
/// coordinate of every edge of every shape.
pub proof fn lemma_shapes_bottom_right_ge(shapes: Seq<Shape>)
    ensures
        forall|i: int, j: int|
            0 <= i < shapes.len() && 0 <= j < shapes[i]@.len() ==> {
                let e = #[trigger] shapes[i]@[j];
                e.from.x <= shapes_bottom_right(shapes).x && e.to.x <= shapes_bottom_right(
                    shapes,
                ).x && e.from.y <= shapes_bottom_right(shapes).y && e.to.y
                    <= shapes_bottom_right(shapes).y
            },
    decreases shapes.len(),
{
    if shapes.len() > 0 {
        lemma_shapes_bottom_right_ge(shapes.drop_last());
        lemma_edges_bottom_right_ge(shapes.last()@);
        assert forall|i: int| 0 <= i < shapes.len() - 1 implies shapes[i] == shapes.drop_last()[i] by {}
    }
}

/// `-v`, saturating at the `i64` limits.
fn neg_sat_i64(v: i64) -> (r: i64)
    ensures
        r as int == sat_i64(-v),
{
    if v == i64::MIN {
        i64::MAX
    } else {
        -v
    }
}

impl Blueprint {
    /// Shift the whole model so that the top-left corner of its bounding box
    /// sits at the origin. Unless a coordinate sits at the very edge of the
    /// representable range, every coordinate is non-negative afterwards.
    pub fn translate_to_origin(&mut self)
        ensures
            Blueprint::is_translated(
                *old(self),
                *final(self),
                sat_i64(-old(self).top_left_spec().x),
                sat_i64(-old(self).top_left_spec().y),
            ),
            old(self).top_left_spec().x > i64::MIN && old(self).top_left_spec().y > i64::MIN
                ==> blueprint_non_negative(*final(self)),
    {
        let boundaries = self.boundaries();
        let dx = neg_sat_i64(boundaries.0.x);
        let dy = neg_sat_i64(boundaries.0.y);
        self.translate(dx, dy);
        proof {
            let pre = *old(self);
            let tl = pre.top_left_spec();
            if tl.x > i64::MIN && tl.y > i64::MIN {
                lemma_shapes_top_left_le(pre@);
                assert forall|i: int, j: int|
                    0 <= i < self@.len() && 0 <= j < self@[i]@.len() implies {
                    let e = #[trigger] self@[i]@[j];
                    e.from.x >= 0 && e.from.y >= 0 && e.to.x >= 0 && e.to.y >= 0
                } by {
                    let f = |e: Edge| edge_translated(e, dx as int, dy as int);
                    assert(self@[i]@ == pre@[i]@.map_values(f));
                    assert(self@[i]@[j] == f(pre@[i]@[j]));
                }
            }
        }
    }
}

/// Coordinate bound inside which projection and distance computations stay
/// exact in the machine arithmetic below.
pub const PROJ_LIMIT: i64 = 0x4000_0000;

pub open spec fn bounded_point(p: Point) -> bool {
    &&& -PROJ_LIMIT <= p.x <= PROJ_LIMIT
    &&& -PROJ_LIMIT <= p.y <= PROJ_LIMIT
}

pub open spec fn bounded_edge(e: Edge) -> bool {
    bounded_point(e.from) && bounded_point(e.to)
}

/// Squared Euclidean distance between two points.
pub open spec fn dist2(a: Point, b: Point) -> int {
    (a.x - b.x) * (a.x - b.x) + (a.y - b.y) * (a.y - b.y)
}

/// The projection of `q` onto the infinite line through `e`'s endpoints,
/// with each coordinate rounded half away from zero.
pub open spec fn projected_point(q: Point, e: Edge) -> Point
    recommends
        e.from != e.to,
{
    let abx = e.to.x - e.from.x;
    let aby = e.to.y - e.from.y;
    let acx = q.x - e.from.x;
    let acy = q.y - e.from.y;
    let dot = abx * acx + aby * acy;
    let len2 = abx * abx + aby * aby;
    Point {
        x: sat_i64(e.from.x + rdiv(abx * dot, len2)) as i64,
        y: sat_i64(e.from.y + rdiv(aby * dot, len2)) as i64,
    }
}

/// The closest point of the segment `e` to `q`: the raw projection when it
/// falls inside the edge's bounding box, else the box corner it left by.
/// A degenerate edge is its own closest point.
pub open spec fn closest_point_spec(q: Point, e: Edge) -> Point {
    if e.from == e.to {
        e.from
    } else {
        let p = projected_point(q, e);
        let tl = edge_top_left(e);
        let br = edge_bottom_right(e);
        if p.x < tl.x || p.y < tl.y {
            tl
        } else if p.x > br.x || p.y > br.y {
            br
        } else {
            p
        }
    }
}

/// Rounded division on wide integers, rounding halves away from zero.
fn rdiv_i128(num: i128, den: i128) -> (r: i128)
    requires
        0 < den <= 0x4000_0000_0000_0000_0000_0000_0000_0000i128,
        -0x4000_0000_0000_0000_0000_0000_0000_0000i128 <= num,
        num <= 0x4000_0000_0000_0000_0000_0000_0000_0000i128,
    ensures
        r as int == rdiv(num as int, den as int),
        num >= 0 ==> 0 <= r <= num,
        num < 0 ==> num <= r <= 0,
{
    let d: u128 = den as u128;
    let mag: u128 = if num >= 0 {
        num as u128
    } else {
        (-num) as u128
    };
    proof {
        let m = mag as int;
        let dd = d as int;
        assert(2 * m + dd <= 2 * dd * m + dd) by (nonlinear_arith)
            requires
                m >= 0,
                dd >= 1,
        ;
        vstd::arithmetic::div_mod::lemma_div_is_ordered(2 * m + dd, 2 * dd * m + dd, 2 * dd);
        vstd::arithmetic::div_mod::lemma_div_multiples_vanish_fancy(m, dd, 2 * dd);
        assert((2 * dd) * m + dd == 2 * dd * m + dd);
        assert((2 * m + dd) / (2 * dd) >= 0) by {
            vstd::arithmetic::div_mod::lemma_div_pos_is_pos(2 * m + dd, 2 * dd);
        }
    }
    let q_mag: u128 = (2 * mag + d) / (2 * d);
    if num >= 0 {
        q_mag as i128
    } else {
        -(q_mag as i128)
    }
}

impl Point {
    /// Squared distance to another point (exact within `PROJ_LIMIT`).
    pub fn distance_squared_to_point(&self, point: &Point) -> (r: u64)
        requires
            bounded_point(*self),
            bounded_point(*point),
        ensures
            r as int == dist2(*self, *point),
    {
        let dx: i128 = self.x as i128 - point.x as i128;
        let dy: i128 = self.y as i128 - point.y as i128;
        proof {
            assert(0 <= dx * dx <= 0x4000_0000_0000_0000i128 && 0 <= dy * dy
                <= 0x4000_0000_0000_0000i128) by (nonlinear_arith)
                requires
                    -0x8000_0000i128 <= dx <= 0x8000_0000i128,
                    -0x8000_0000i128 <= dy <= 0x8000_0000i128,
            ;
        }
        (dx * dx + dy * dy) as u64
    }

    /// The projection of this point onto the infinite line through the
    /// edge's endpoints, rounded half away from zero.
    pub fn project_on_edge(&self, edge: &Edge) -> (r: Point)
        requires
            bounded_point(*self),
            bounded_edge(*edge),
            edge.from != edge.to,
        ensures
            r == projected_point(*self, *edge),
    {
        let abx: i128 = edge.to.x as i128 - edge.from.x as i128;
        let aby: i128 = edge.to.y as i128 - edge.from.y as i128;
        let acx: i128 = self.x as i128 - edge.from.x as i128;
        let acy: i128 = self.y as i128 - edge.from.y as i128;
        proof {
            assert(forall|a: i128, b: i128|
                -0x1_0000_0000i128 <= a <= 0x1_0000_0000i128 && -0x1_0000_0000i128 <= b
                    <= 0x1_0000_0000i128 ==> -0x1_0000_0000_0000_0000i128 <= #[trigger] (a * b)
                    <= 0x1_0000_0000_0000_0000i128) by (nonlinear_arith);
        }
        let dot: i128 = abx * acx + aby * acy;
        let len2: i128 = abx * abx + aby * aby;
        proof {
            assert(len2 > 0) by (nonlinear_arith)
                requires
                    len2 == abx * abx + aby * aby,
                    !(abx == 0 && aby == 0),
            ;
            assert(forall|a: i128, b: i128|
                -0x2_0000_0000i128 <= a <= 0x2_0000_0000i128 && -0x2_0000_0000_0000_0000i128 <= b
                    <= 0x2_0000_0000_0000_0000i128 ==> -0x4_0000_0000_0000_0000_0000_0000i128
                    <= #[trigger] (a * b) <= 0x4_0000_0000_0000_0000_0000_0000i128)
                by (nonlinear_arith);
        }
        let px: i128 = edge.from.x as i128 + rdiv_i128(abx * dot, len2);
        let py: i128 = edge.from.y as i128 + rdiv_i128(aby * dot, len2);
        Point { x: sat_i128_to_i64(px), y: sat_i128_to_i64(py) }
    }

    /// The closest point of the segment to this point. The result always
    /// lies inside the edge's own bounding box.
    pub fn closest_point_on_edge(&self, edge: &Edge) -> (r: Point)
        requires
            bounded_point(*self),
            bounded_edge(*edge),
        ensures
            r == closest_point_spec(*self, *edge),
            edge_top_left(*edge).x <= r.x <= edge_bottom_right(*edge).x,
            edge_top_left(*edge).y <= r.y <= edge_bottom_right(*edge).y,
    {
        if edge.from.x == edge.to.x && edge.from.y == edge.to.y {
            return edge.from;
        }
        let projection = self.project_on_edge(edge);
        let edge_box = edge.boundaries();
        if projection.x < edge_box.0.x || projection.y < edge_box.0.y {
            return edge_box.0;
        }
        if projection.x > edge_box.1.x || projection.y > edge_box.1.y {
            return edge_box.1;
        }
        projection
    }

    /// The squared distance from this point to the segment, together with
    /// the closest point of the segment.
    pub fn distance_squared_to_edge(&self, edge: &Edge) -> (r: Option<(u64, Point)>)
        requires
            bounded_point(*self),
            bounded_edge(*edge),
        ensures
            ({
                let closest = closest_point_spec(*self, *edge);
                r == Some((dist2(*self, closest) as u64, closest))
            }),
    {
        let point = self.closest_point_on_edge(edge);
        Some((self.distance_squared_to_point(&point), point))
    }
}

/// Saturate a wide value at the `i64` limits.
fn sat_i128_to_i64(v: i128) -> (r: i64)
    ensures
        r as int == sat_i64(v as int),
{
    if v < i64::MIN as i128 {
        i64::MIN
    } else if v > i64::MAX as i128 {
        i64::MAX
    } else {
        v as i64
    }
}

/// The running result of the closest-edge search after considering `edges`,
/// starting from `acc`: the first edge attaining the minimal squared
/// distance, with its closest point, skipping transparent edges.
pub open spec fn find_closest_in_edges(
    q: Point,
    edges: Seq<Edge>,
    acc: Option<(Edge, Point, u64)>,
) -> Option<(Edge, Point, u64)>
    decreases edges.len(),
{
    if edges.len() == 0 {
        acc
    } else {
        let e = edges[0];
        let next = if e.color == Color::Transparent {
            acc
        } else {
            let cp = closest_point_spec(q, e);
            let d2 = dist2(q, cp) as u64;
            match acc {
                None => Some((e, cp, d2)),
                Some(best) => if d2 < best.2 {
                    Some((e, cp, d2))
                } else {
                    acc
                },
            }
        };
        find_closest_in_edges(q, edges.drop_first(), next)
    }
}

pub open spec fn find_closest_in_shapes(
    q: Point,
    shapes: Seq<Shape>,
    acc: Option<(Edge, Point, u64)>,
) -> Option<(Edge, Point, u64)>
    decreases shapes.len(),
{
    if shapes.len() == 0 {
        acc
    } else {
        find_closest_in_shapes(
            q,
            shapes.drop_first(),
            find_closest_in_edges(q, shapes[0]@, acc),
        )
    }
}

/// Every edge of the blueprint lies inside the projection range.
pub open spec fn bounded_blueprint(bp: Blueprint) -> bool {
    forall|i: int, j: int|
        0 <= i < bp@.len() && 0 <= j < bp@[i]@.len() ==> bounded_edge(#[trigger] bp@[i]@[j])
}

impl Blueprint {
    /// The non-transparent edge closest to `p` (the first one, if several
    /// are equally close), with the closest point of that edge and the
    /// squared distance to it; `None` when every edge is transparent.
    pub fn find_closest_edge(&self, p: Point) -> (r: Option<(Edge, Point, u64)>)
        requires
            bounded_point(p),
            bounded_blueprint(*self),
        ensures
            r == find_closest_in_shapes(p, self@, None::<(Edge, Point, u64)>),
    {
        let mut closest: Option<(Edge, Point, u64)> = None;
        let n = self.shapes.len();
        proof {
            assert(self@.skip(0) =~= self@);
        }
        for i in 0..n
            invariant
                n == self.shapes.len(),
                bounded_point(p),
                bounded_blueprint(*self),
                find_closest_in_shapes(p, self@, None::<(Edge, Point, u64)>)
                    == find_closest_in_shapes(p, self@.skip(i as int), closest),
        {
            let shape = &self.shapes[i];
            proof {
                assert(self@.skip(i as int)[0] == self@[i as int]);
                assert(self@.skip(i as int).drop_first() =~= self@.skip(i as int + 1));
                assert(shape@.skip(0) =~= shape@);
            }
            let m = shape.edges.len();
            for j in 0..m
                invariant
                    n == self.shapes.len(),
                    m == shape.edges.len(),
                    0 <= i < n,
                    *shape == self@[i as int],
                    bounded_point(p),
                    bounded_blueprint(*self),
                    find_closest_in_shapes(p, self@, None::<(Edge, Point, u64)>)
                        == find_closest_in_shapes(
                        p,
                        self@.skip(i as int + 1),
                        find_closest_in_edges(p, shape@.skip(j as int), closest),
                    ),
            {
                let edge = &shape.edges[j];
                proof {
                    assert(bounded_edge(self@[i as int]@[j as int]));
                    assert(shape@.skip(j as int)[0] == shape@[j as int]);
                    assert(shape@.skip(j as int).drop_first() =~= shape@.skip(j as int + 1));
                }
                if !(edge.color.is_transparent()) {
                    let (d, point) = p.distance_squared_to_edge(edge).unwrap();
                    let better = match &closest {
                        None => true,
                        Some(best) => d < best.2,
                    };
                    if better {
                        closest = Some((*edge, point, d));
                    }
                }
            }
            proof {
                assert(shape@.skip(m as int) =~= Seq::<Edge>::empty());
            }
        }
        proof {
            assert(self@.skip(n as int) =~= Seq::<Shape>::empty());
        }
        closest
    }
}

} // verus!
