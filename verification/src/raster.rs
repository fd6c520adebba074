//! Shapes as pixels: which points lie inside a shape, and the picture that
//! comes of it.

use vstd::prelude::*;
use crate::document::ShapeKind;
use crate::fixed::{floor_div, larger, max, min, smaller, HORIZON, UNIT};

verus! {

/// Largest magnitude of a coordinate, in billionths of a pixel.
pub const FAR: i128 = 4_000_000_000_000_000_000;

/// A point, in billionths of a pixel.
#[derive(Debug, Clone, Copy, PartialEq, Eq, Structural)]
pub struct Point {
    pub x: i128,
    pub y: i128,
}

pub open spec fn near(p: Point) -> bool {
    -FAR <= p.x <= FAR && -FAR <= p.y <= FAR
}

/// The side of the edge from `a` to `b` that `p` lies on: positive to its
/// left, negative to its right.
pub open spec fn side(a: Point, b: Point, p: Point) -> int {
    (b.x - a.x) * (p.y - a.y) - (p.x - a.x) * (b.y - a.y)
}

/// What the edge from `a` to `b` adds to the winding number about `p`.
pub open spec fn turn(a: Point, b: Point, p: Point) -> int {
    if a.y <= p.y {
        if b.y > p.y && side(a, b, p) > 0 {
            1
        } else {
            0
        }
    } else if b.y <= p.y && side(a, b, p) < 0 {
        -1
    } else {
        0
    }
}

/// The vertex after vertex `i`.
pub open spec fn next_vertex(v: Seq<Point>, i: int) -> Point {
    if i + 1 < v.len() {
        v[i + 1]
    } else {
        v[0]
    }
}

/// The winding number of the first `n` edges about `p`.
pub open spec fn winding(v: Seq<Point>, p: Point, n: int) -> int
    decreases n,
{
    if n <= 0 {
        0
    } else {
        winding(v, p, n - 1) + turn(v[n - 1], next_vertex(v, n - 1), p)
    }
}

/// The point lies inside the polygon: it winds about the point.
pub open spec fn in_polygon(v: Seq<Point>, p: Point) -> bool {
    winding(v, p, v.len() as int) != 0
}

proof fn lemma_product(a: int, b: int)
    requires
        -8_000_000_000_000_000_000 <= a <= 8_000_000_000_000_000_000,
        -8_000_000_000_000_000_000 <= b <= 8_000_000_000_000_000_000,
    ensures
        -64_000_000_000_000_000_000_000_000_000_000_000_000 <= a * b
            <= 64_000_000_000_000_000_000_000_000_000_000_000_000,
{
    assert(a * b <= 64_000_000_000_000_000_000_000_000_000_000_000_000 && a * b
        >= -64_000_000_000_000_000_000_000_000_000_000_000_000) by (nonlinear_arith)
        requires
            -8_000_000_000_000_000_000 <= a <= 8_000_000_000_000_000_000,
            -8_000_000_000_000_000_000 <= b <= 8_000_000_000_000_000_000,
    ;
}

fn side_of(a: Point, b: Point, p: Point) -> (r: i128)
    requires
        near(a),
        near(b),
        near(p),
    ensures
        r == side(a, b, p),
{
    proof {
        lemma_product(b.x - a.x, p.y - a.y);
        lemma_product(p.x - a.x, b.y - a.y);
    }
    (b.x - a.x) * (p.y - a.y) - (p.x - a.x) * (b.y - a.y)
}

/// Whether a point lies inside a polygon.
pub fn point_in_polygon(v: &Vec<Point>, p: Point) -> (r: bool)
    requires
        near(p),
        forall|i: int| 0 <= i < v@.len() ==> near(#[trigger] v@[i]),
    ensures
        r == in_polygon(v@, p),
{
    let mut wn: i128 = 0;
    let n: usize = v.len();
    let mut i: usize = 0;
    while i < n
        invariant
            i <= n,
            n == v@.len(),
            near(p),
            forall|i: int| 0 <= i < v@.len() ==> near(#[trigger] v@[i]),
            wn == winding(v@, p, i as int),
            -i <= wn <= i,
        decreases n - i,
    {
        let a: Point = v[i];
        let b: Point = if i + 1 < n {
            v[i + 1]
        } else {
            v[0]
        };
        assert(near(v@[i as int]));
        assert(b == next_vertex(v@, i as int));
        let s: i128 = side_of(a, b, p);
        if a.y <= p.y {
            if b.y > p.y && s > 0 {
                wn = wn + 1;
            }
        } else if b.y <= p.y && s < 0 {
            wn = wn - 1;
        }
        i += 1;
    }
    wn != 0
}

/// Half of an extent in pixels.
pub open spec fn half(n: int) -> int {
    n * 500_000_000
}

/// Radius of the shapes that are round: two pixels short of the edge.
pub open spec fn radius(w: int, h: int) -> int {
    half(min(w, h)) - 2_000_000_000
}

/// The point lies within `r` of the center.
pub open spec fn in_circle(dx: int, dy: int, r: int) -> bool {
    r >= 0 && dx * dx + dy * dy <= r * r
}

/// Distance from the center as a fraction of the radius, in billionths.
pub open spec fn fraction_of(d: int, r: int) -> int {
    (if d >= 0 {
        d
    } else {
        -d
    }) * UNIT / (if r >= 0 {
        r
    } else {
        -r
    })
}

/// The point lies in the ellipse with the given radii.
pub open spec fn in_ellipse(dx: int, dy: int, rx: int, ry: int) -> bool {
    let a = fraction_of(dx, rx);
    let b = fraction_of(dy, ry);
    rx != 0 && ry != 0 && a <= UNIT && b <= UNIT && a * a + b * b <= UNIT * UNIT
}

/// The point lies in the rectangle from the origin, whose corners have the
/// radius `r`.
pub open spec fn in_rounded(x: int, y: int, w: int, h: int, r: int) -> bool {
    if x < 0 || x > w || y < 0 || y > h {
        false
    } else if r <= x <= w - r || r <= y <= h - r {
        true
    } else {
        let cx = if x < r {
            r
        } else {
            w - r
        };
        let cy = if y < r {
            r
        } else {
            h - r
        };
        in_circle(x - cx, y - cy, r)
    }
}

/// Unit vectors to the tips and notches of a five-pointed star, in billionths,
/// from the top clockwise.
pub open spec fn star_ray(i: int) -> (int, int) {
    if i == 0 {
        (0, -1_000_000_000)
    } else if i == 1 {
        (587_785_252, -809_016_994)
    } else if i == 2 {
        (951_056_516, -309_016_994)
    } else if i == 3 {
        (951_056_516, 309_016_994)
    } else if i == 4 {
        (587_785_252, 809_016_994)
    } else if i == 5 {
        (0, 1_000_000_000)
    } else if i == 6 {
        (-587_785_252, 809_016_994)
    } else if i == 7 {
        (-951_056_516, 309_016_994)
    } else if i == 8 {
        (-951_056_516, -309_016_994)
    } else {
        (-587_785_252, -809_016_994)
    }
}

/// Unit vectors to the corners of a hexagon, in billionths, from the top
/// clockwise.
pub open spec fn hexagon_ray(i: int) -> (int, int) {
    if i == 0 {
        (0, -1_000_000_000)
    } else if i == 1 {
        (866_025_404, -500_000_000)
    } else if i == 2 {
        (866_025_404, 500_000_000)
    } else if i == 3 {
        (0, 1_000_000_000)
    } else if i == 4 {
        (-866_025_404, 500_000_000)
    } else {
        (-866_025_404, -500_000_000)
    }
}

/// The point at a distance from the center along a ray.
pub open spec fn along(cx: int, cy: int, r: int, ray: (int, int)) -> (int, int) {
    (cx + r * ray.0 / (UNIT as int), cy + r * ray.1 / (UNIT as int))
}

pub open spec fn point_of(p: (int, int)) -> Point {
    Point { x: p.0 as i128, y: p.1 as i128 }
}

/// The corners of the star of a canvas: tips at the radius, notches at 0.42
/// of it.
pub open spec fn star(w: int, h: int) -> Seq<Point> {
    Seq::new(
        10,
        |i: int|
            point_of(
                along(
                    half(w),
                    half(h),
                    if i % 2 == 0 {
                        radius(w, h)
                    } else {
                        radius(w, h) * 42 / 100
                    },
                    star_ray(i),
                ),
            ),
    )
}

/// The corners of the hexagon of a canvas.
pub open spec fn hexagon(w: int, h: int) -> Seq<Point> {
    Seq::new(6, |i: int| point_of(along(half(w), half(h), radius(w, h), hexagon_ray(i))))
}

/// Length of an arrow's head.
pub open spec fn arrow_head(w: int, h: int) -> int {
    min(w * 280_000_000, h * UNIT)
}

/// The corners of an arrow's head.
pub open spec fn arrow_tip(w: int, h: int) -> Seq<Point> {
    let neck = w * UNIT - arrow_head(w, h);
    seq![
        point_of((neck, 2_000_000_000)),
        point_of((neck, h * UNIT - 2_000_000_000)),
        point_of((w * UNIT - 2_000_000_000, half(h))),
    ]
}

pub open spec fn in_arrow(x: int, y: int, w: int, h: int) -> bool {
    ||| 2_000_000_000 <= x <= w * UNIT - arrow_head(w, h) && half(h) - h * 140_000_000 <= y
        <= half(h) + h * 140_000_000
    ||| in_polygon(arrow_tip(w, h), point_of((x, y)))
}

/// The point lies inside the shape that fills a canvas of `w` by `h` pixels.
pub open spec fn inside(kind: ShapeKind, x: int, y: int, w: int, h: int) -> bool {
    let dx = x - half(w);
    let dy = y - half(h);
    match kind {
        ShapeKind::Rect => in_rounded(x, y, w * UNIT, h * UNIT, min(w, h) * 80_000_000),
        ShapeKind::Circle => in_circle(dx, dy, radius(w, h)),
        ShapeKind::Ellipse => in_ellipse(
            dx,
            dy,
            half(w) - 2_000_000_000,
            half(h) - 2_000_000_000,
        ),
        ShapeKind::Star => in_polygon(star(w, h), point_of((x, y))),
        ShapeKind::Polygon => in_polygon(hexagon(w, h), point_of((x, y))),
        ShapeKind::Line => -max(h, 4) * 175_000_000 <= dy <= max(h, 4) * 175_000_000,
        ShapeKind::Arrow => in_arrow(x, y, w, h),
    }
}

fn in_circle_exec(dx: i128, dy: i128, r: i128) -> (r_: bool)
    requires
        -FAR <= dx <= FAR,
        -FAR <= dy <= FAR,
        -FAR <= r <= FAR,
    ensures
        r_ == in_circle(dx as int, dy as int, r as int),
{
    proof {
        lemma_product(dx as int, dx as int);
        lemma_product(dy as int, dy as int);
        lemma_product(r as int, r as int);
    }
    r >= 0 && dx * dx + dy * dy <= r * r
}

fn fraction(d: i128, r: i128) -> (f: i128)
    requires
        -FAR <= d <= FAR,
        -FAR <= r <= FAR,
        r != 0,
    ensures
        f == fraction_of(d as int, r as int),
        f >= 0,
{
    let m: i128 = if d >= 0 {
        d
    } else {
        -d
    };
    let q: i128 = if r >= 0 {
        r
    } else {
        -r
    };
    proof {
        vstd::arithmetic::div_mod::lemma_div_pos_is_pos(m * UNIT, q as int);
    }
    m * UNIT / q
}

fn in_ellipse_exec(dx: i128, dy: i128, rx: i128, ry: i128) -> (r: bool)
    requires
        -FAR <= dx <= FAR,
        -FAR <= dy <= FAR,
        -FAR <= rx <= FAR,
        -FAR <= ry <= FAR,
    ensures
        r == in_ellipse(dx as int, dy as int, rx as int, ry as int),
{
    if rx == 0 || ry == 0 {
        return false;
    }
    let a: i128 = fraction(dx, rx);
    let b: i128 = fraction(dy, ry);
    if a > UNIT || b > UNIT {
        return false;
    }
    proof {
        lemma_product(a as int, a as int);
        lemma_product(b as int, b as int);
    }
    a * a + b * b <= UNIT * UNIT
}

fn in_rounded_exec(x: i128, y: i128, w: i128, h: i128, r: i128) -> (b: bool)
    requires
        -FAR <= x <= FAR,
        -FAR <= y <= FAR,
        0 <= w <= FAR,
        0 <= h <= FAR,
        0 <= r <= FAR / 4,
    ensures
        b == in_rounded(x as int, y as int, w as int, h as int, r as int),
{
    if x < 0 || x > w || y < 0 || y > h {
        return false;
    }
    if (r <= x && x <= w - r) || (r <= y && y <= h - r) {
        return true;
    }
    let cx: i128 = if x < r {
        r
    } else {
        w - r
    };
    let cy: i128 = if y < r {
        r
    } else {
        h - r
    };
    in_circle_exec(x - cx, y - cy, r)
}

/// A side of a canvas, in pixels.
pub const SIDE: u32 = 1_073_741_824;

fn star_ray_exec(i: usize) -> (r: (i128, i128))
    requires
        i < 10,
    ensures
        (r.0 as int, r.1 as int) == star_ray(i as int),
        -UNIT <= r.0 <= UNIT,
        -UNIT <= r.1 <= UNIT,
{
    match i {
        0 => (0, -1_000_000_000),
        1 => (587_785_252, -809_016_994),
        2 => (951_056_516, -309_016_994),
        3 => (951_056_516, 309_016_994),
        4 => (587_785_252, 809_016_994),
        5 => (0, 1_000_000_000),
        6 => (-587_785_252, 809_016_994),
        7 => (-951_056_516, 309_016_994),
        8 => (-951_056_516, -309_016_994),
        _ => (-587_785_252, -809_016_994),
    }
}

fn hexagon_ray_exec(i: usize) -> (r: (i128, i128))
    requires
        i < 6,
    ensures
        (r.0 as int, r.1 as int) == hexagon_ray(i as int),
        -UNIT <= r.0 <= UNIT,
        -UNIT <= r.1 <= UNIT,
{
    match i {
        0 => (0, -1_000_000_000),
        1 => (866_025_404, -500_000_000),
        2 => (866_025_404, 500_000_000),
        3 => (0, 1_000_000_000),
        4 => (-866_025_404, 500_000_000),
        _ => (-866_025_404, -500_000_000),
    }
}

proof fn lemma_along(r: int, u: int)
    requires
        -FAR / 4 <= r <= FAR / 4,
        -UNIT <= u <= UNIT,
    ensures
        -FAR / 2 <= r * u / (UNIT as int) <= FAR / 2,
        -HORIZON <= r * u <= HORIZON,
{
    assert(-1_000_000_000_000_000_000_000_000_000 <= r * u && r * u
        <= 1_000_000_000_000_000_000_000_000_000) by (nonlinear_arith)
        requires
            -1_000_000_000_000_000_000 <= r <= 1_000_000_000_000_000_000,
            -1_000_000_000 <= u <= 1_000_000_000,
    ;
}

fn along_exec(cx: i128, cy: i128, r: i128, ray: (i128, i128)) -> (p: Point)
    requires
        0 <= cx <= FAR / 4,
        0 <= cy <= FAR / 4,
        -FAR / 4 <= r <= FAR / 4,
        -UNIT <= ray.0 <= UNIT,
        -UNIT <= ray.1 <= UNIT,
    ensures
        p == point_of(along(cx as int, cy as int, r as int, (ray.0 as int, ray.1 as int))),
        near(p),
{
    proof {
        lemma_along(r as int, ray.0 as int);
        lemma_along(r as int, ray.1 as int);
    }
    Point { x: cx + floor_div(r * ray.0, UNIT), y: cy + floor_div(r * ray.1, UNIT) }
}

fn star_corners(w: u32, h: u32) -> (v: Vec<Point>)
    requires
        w <= SIDE,
        h <= SIDE,
    ensures
        v@ == star(w as int, h as int),
        forall|i: int| 0 <= i < v@.len() ==> near(#[trigger] v@[i]),
{
    let cx: i128 = w as i128 * 500_000_000;
    let cy: i128 = h as i128 * 500_000_000;
    let r: i128 = smaller(w as i128, h as i128) * 500_000_000 - 2_000_000_000;
    let mut v: Vec<Point> = Vec::new();
    let mut i: usize = 0;
    while i < 10
        invariant
            i <= 10,
            w <= SIDE,
            h <= SIDE,
            cx == half(w as int),
            cy == half(h as int),
            r == radius(w as int, h as int),
            v@ == star(w as int, h as int).take(i as int),
            forall|k: int| 0 <= k < v@.len() ==> near(#[trigger] v@[k]),
        decreases 10 - i,
    {
        let length: i128 = if i % 2 == 0 {
            r
        } else {
            floor_div(r * 42, 100)
        };
        v.push(along_exec(cx, cy, length, star_ray_exec(i)));
        assert(v@ =~= star(w as int, h as int).take(i + 1));
        i += 1;
    }
    assert(star(w as int, h as int).take(10) =~= star(w as int, h as int));
    v
}

fn hexagon_corners(w: u32, h: u32) -> (v: Vec<Point>)
    requires
        w <= SIDE,
        h <= SIDE,
    ensures
        v@ == hexagon(w as int, h as int),
        forall|i: int| 0 <= i < v@.len() ==> near(#[trigger] v@[i]),
{
    let cx: i128 = w as i128 * 500_000_000;
    let cy: i128 = h as i128 * 500_000_000;
    let r: i128 = smaller(w as i128, h as i128) * 500_000_000 - 2_000_000_000;
    let mut v: Vec<Point> = Vec::new();
    let mut i: usize = 0;
    while i < 6
        invariant
            i <= 6,
            w <= SIDE,
            h <= SIDE,
            cx == half(w as int),
            cy == half(h as int),
            r == radius(w as int, h as int),
            v@ == hexagon(w as int, h as int).take(i as int),
            forall|k: int| 0 <= k < v@.len() ==> near(#[trigger] v@[k]),
        decreases 6 - i,
    {
        v.push(along_exec(cx, cy, r, hexagon_ray_exec(i)));
        assert(v@ =~= hexagon(w as int, h as int).take(i + 1));
        i += 1;
    }
    assert(hexagon(w as int, h as int).take(6) =~= hexagon(w as int, h as int));
    v
}

fn in_arrow_exec(p: Point, w: u32, h: u32) -> (r: bool)
    requires
        near(p),
        w <= SIDE,
        h <= SIDE,
    ensures
        r == in_arrow(p.x as int, p.y as int, w as int, h as int),
{
    let full_w: i128 = w as i128 * UNIT;
    let full_h: i128 = h as i128 * UNIT;
    let mid: i128 = h as i128 * 500_000_000;
    let shaft: i128 = h as i128 * 140_000_000;
    let neck: i128 = full_w - smaller(w as i128 * 280_000_000, full_h);
    if 2_000_000_000 <= p.x && p.x <= neck && mid - shaft <= p.y && p.y <= mid + shaft {
        return true;
    }
    let mut v: Vec<Point> = Vec::new();
    v.push(Point { x: neck, y: 2_000_000_000 });
    v.push(Point { x: neck, y: full_h - 2_000_000_000 });
    v.push(Point { x: full_w - 2_000_000_000, y: mid });
    assert(v@ =~= arrow_tip(w as int, h as int));
    point_in_polygon(&v, p)
}

/// Whether a point lies inside the shape that fills a canvas of `w` by `h`
/// pixels.
pub fn shape_contains(kind: ShapeKind, p: Point, w: u32, h: u32) -> (r: bool)
    requires
        -FAR / 2 <= p.x <= FAR / 2,
        -FAR / 2 <= p.y <= FAR / 2,
        w <= SIDE,
        h <= SIDE,
    ensures
        r == inside(kind, p.x as int, p.y as int, w as int, h as int),
{
    let cx: i128 = w as i128 * 500_000_000;
    let cy: i128 = h as i128 * 500_000_000;
    let least: i128 = smaller(w as i128, h as i128);
    assert(p == point_of((p.x as int, p.y as int)));
    match kind {
        ShapeKind::Rect => in_rounded_exec(
            p.x,
            p.y,
            w as i128 * UNIT,
            h as i128 * UNIT,
            least * 80_000_000,
        ),
        ShapeKind::Circle => in_circle_exec(p.x - cx, p.y - cy, least * 500_000_000 - 2_000_000_000),
        ShapeKind::Ellipse => in_ellipse_exec(
            p.x - cx,
            p.y - cy,
            cx - 2_000_000_000,
            cy - 2_000_000_000,
        ),
        ShapeKind::Star => point_in_polygon(&star_corners(w, h), p),
        ShapeKind::Polygon => point_in_polygon(&hexagon_corners(w, h), p),
        ShapeKind::Line => {
            let reach: i128 = larger(h as i128, 4) * 175_000_000;
            -reach <= p.y - cy && p.y - cy <= reach
        },
        ShapeKind::Arrow => in_arrow_exec(p, w, h),
    }
}

/// The point of the shape that a pixel shows, the shape being turned about
/// the middle of the canvas: `cos` and `sin` are those of the turn back, in
/// billionths.
pub open spec fn turned(px: int, py: int, w: int, h: int, cos: int, sin: int) -> (int, int) {
    let dx = px * UNIT + 500_000_000 - half(w);
    let dy = py * UNIT + 500_000_000 - half(h);
    (
        half(w) + (dx * cos - dy * sin) / (UNIT as int),
        half(h) + (dx * sin + dy * cos) / (UNIT as int),
    )
}

/// A picture to be drawn: a shape of a color on a canvas, turned.
#[derive(Debug, Clone, Copy)]
pub struct Drawing {
    pub kind: ShapeKind,
    /// Color with opacity, as 0xaarrggbb.
    pub argb: u32,
    pub width: u32,
    pub height: u32,
    pub cos: i128,
    pub sin: i128,
}

impl Drawing {
    pub open spec fn sound(self) -> bool {
        &&& self.width <= SIDE
        &&& self.height <= SIDE
        &&& self.width * self.height * 4 <= u32::MAX
        &&& -UNIT <= self.cos <= UNIT
        &&& -UNIT <= self.sin <= UNIT
    }

    /// The pixel shows the shape.
    pub open spec fn covers(self, px: int, py: int) -> bool {
        let p = turned(
            px,
            py,
            self.width as int,
            self.height as int,
            self.cos as int,
            self.sin as int,
        );
        inside(self.kind, p.0, p.1, self.width as int, self.height as int)
    }

    /// Byte `k` of a pixel that shows the shape: red, green, blue, opacity.
    pub open spec fn byte(self, k: int) -> int {
        if k == 0 {
            (self.argb as int / 65536) % 256
        } else if k == 1 {
            (self.argb as int / 256) % 256
        } else if k == 2 {
            self.argb as int % 256
        } else {
            self.argb as int / 16777216
        }
    }

    /// The bytes of the first `n` pixels, row by row; pixels outside the
    /// shape are transparent.
    pub open spec fn pixels(self, n: int) -> Seq<u8>
        decreases n,
    {
        if n <= 0 {
            Seq::empty()
        } else {
            let i = n - 1;
            let shown = self.covers(i % self.width as int, i / self.width as int);
            self.pixels(n - 1) + Seq::new(
                4,
                |k: int|
                    if shown {
                        self.byte(k) as u8
                    } else {
                        0u8
                    },
            )
        }
    }
}

proof fn lemma_turn(dx: int, dy: int, cos: int, sin: int)
    requires
        -600_000_000_000_000_000 <= dx <= 600_000_000_000_000_000,
        -600_000_000_000_000_000 <= dy <= 600_000_000_000_000_000,
        -UNIT <= cos <= UNIT,
        -UNIT <= sin <= UNIT,
    ensures
        -600_000_000_000_000_000_000_000_000 <= dx * cos <= 600_000_000_000_000_000_000_000_000,
        -600_000_000_000_000_000_000_000_000 <= dy * sin <= 600_000_000_000_000_000_000_000_000,
{
    assert(-600_000_000_000_000_000_000_000_000 <= dx * cos && dx * cos
        <= 600_000_000_000_000_000_000_000_000) by (nonlinear_arith)
        requires
            -600_000_000_000_000_000 <= dx <= 600_000_000_000_000_000,
            -1_000_000_000 <= cos <= 1_000_000_000,
    ;
    assert(-600_000_000_000_000_000_000_000_000 <= dy * sin && dy * sin
        <= 600_000_000_000_000_000_000_000_000) by (nonlinear_arith)
        requires
            -600_000_000_000_000_000 <= dy <= 600_000_000_000_000_000,
            -1_000_000_000 <= sin <= 1_000_000_000,
    ;
}

fn covers(d: &Drawing, px: u32, py: u32) -> (r: bool)
    requires
        d.sound(),
        px < d.width,
        py < d.height,
    ensures
        r == d.covers(px as int, py as int),
{
    let cx: i128 = d.width as i128 * 500_000_000;
    let cy: i128 = d.height as i128 * 500_000_000;
    let dx: i128 = px as i128 * UNIT + 500_000_000 - cx;
    let dy: i128 = py as i128 * UNIT + 500_000_000 - cy;
    proof {
        lemma_turn(dx as int, dy as int, d.cos as int, d.sin as int);
        lemma_turn(dx as int, dy as int, d.sin as int, d.cos as int);
    }
    let x: i128 = cx + floor_div(dx * d.cos - dy * d.sin, UNIT);
    let y: i128 = cy + floor_div(dx * d.sin + dy * d.cos, UNIT);
    shape_contains(d.kind, Point { x, y }, d.width, d.height)
}

proof fn lemma_pixel_index(n: int, w: int, h: int)
    requires
        0 <= n < w * h,
        0 < w,
        0 <= h,
    ensures
        0 <= n % w < w,
        0 <= n / w < h,
{
    assert(0 <= n % w < w && 0 <= n / w && n / w < h) by (nonlinear_arith)
        requires
            0 <= n < w * h,
            0 < w,
            0 <= h,
    ;
}

/// Draw a shape: the picture as bytes, four to a pixel, row by row.
pub fn render_shape(d: &Drawing) -> (r: Vec<u8>)
    requires
        d.sound(),
    ensures
        r@ == d.pixels(d.width * d.height),
        r@.len() == d.width * d.height * 4,
{
    let red: u8 = (d.argb / 65536 % 256) as u8;
    let green: u8 = (d.argb / 256 % 256) as u8;
    let blue: u8 = (d.argb % 256) as u8;
    let opacity: u8 = (d.argb / 16777216) as u8;
    let mut out: Vec<u8> = Vec::new();
    let count: u64 = d.width as u64 * d.height as u64;
    let mut n: u64 = 0;
    while n < count
        invariant
            n <= count,
            count == d.width * d.height,
            d.sound(),
            red == d.byte(0),
            green == d.byte(1),
            blue == d.byte(2),
            opacity == d.byte(3),
            out@ == d.pixels(n as int),
            out@.len() == 4 * n,
        decreases count - n,
    {
        proof {
            assert(d.width > 0) by (nonlinear_arith)
                requires
                    n < d.width * d.height,
                    0 <= n,
                    0 <= d.width,
            ;
            lemma_pixel_index(n as int, d.width as int, d.height as int);
        }
        let px: u32 = (n % d.width as u64) as u32;
        let py: u32 = (n / d.width as u64) as u32;
        let ghost before = out@;
        if covers(d, px, py) {
            out.push(red);
            out.push(green);
            out.push(blue);
            out.push(opacity);
        } else {
            out.push(0);
            out.push(0);
            out.push(0);
            out.push(0);
        }
        assert(out@ =~= d.pixels(n + 1));
        n += 1;
    }
    out
}

proof fn lemma_pixels(d: Drawing, n: int, i: int, k: int)
    requires
        0 <= i < n,
        0 <= k < 4,
    ensures
        d.pixels(n).len() == 4 * n,
        d.pixels(n)[4 * i + k] == if d.covers(i % d.width as int, i / d.width as int) {
            d.byte(k) as u8
        } else {
            0u8
        },
    decreases n,
{
    lemma_pixels_len(d, n - 1);
    if i < n - 1 {
        lemma_pixels(d, n - 1, i, k);
    }
}

proof fn lemma_pixels_len(d: Drawing, n: int)
    requires
        0 <= n,
    ensures
        d.pixels(n).len() == 4 * n,
    decreases n,
{
    if n > 0 {
        lemma_pixels_len(d, n - 1);
    }
}

/// Every pixel of the picture is the shape's color where the shape covers it,
/// and transparent elsewhere.
pub proof fn law_drawing(d: Drawing, px: int, py: int, k: int)
    requires
        0 <= px < d.width,
        0 <= py < d.height,
        0 <= k < 4,
    ensures
        d.pixels(d.width * d.height)[4 * (py * d.width + px) + k] == if d.covers(px, py) {
            d.byte(k) as u8
        } else {
            0u8
        },
{
    let w = d.width as int;
    let i = py * w + px;
    assert(0 <= i < w * d.height) by (nonlinear_arith)
        requires
            0 <= px < w,
            0 <= py < d.height,
            i == py * w + px,
    ;
    assert(i % w == px && i / w == py) by {
        vstd::arithmetic::div_mod::lemma_fundamental_div_mod_converse(i, w, py, px);
    }
    lemma_pixels(d, w * d.height, i, k);
}

/// The picture of `n` pixels with painted and unpainted ones swapped: what was
/// transparent is opaque in the color, what was not is transparent.
pub open spec fn inverted(pixels: Seq<u8>, argb: u32, n: int) -> Seq<u8>
    decreases n,
{
    if n <= 0 {
        Seq::empty()
    } else {
        let clear = pixels[4 * (n - 1) + 3] == 0;
        inverted(pixels, argb, n - 1) + if clear {
            seq![
                ((argb as int / 65536) % 256) as u8,
                ((argb as int / 256) % 256) as u8,
                (argb as int % 256) as u8,
                255u8,
            ]
        } else {
            seq![0u8, 0u8, 0u8, 0u8]
        }
    }
}

/// Swap the painted and unpainted pixels of a picture.
pub fn invert(pixels: &Vec<u8>, argb: u32) -> (r: Vec<u8>)
    ensures
        r@ == inverted(pixels@, argb, pixels@.len() as int / 4),
{
    let red: u8 = (argb / 65536 % 256) as u8;
    let green: u8 = (argb / 256 % 256) as u8;
    let blue: u8 = (argb % 256) as u8;
    let len: usize = pixels.len();
    let count: usize = len / 4;
    let mut out: Vec<u8> = Vec::new();
    let mut n: usize = 0;
    while n < count
        invariant
            n <= count,
            len == pixels@.len(),
            count == len / 4,
            red == (argb as int / 65536) % 256,
            green == (argb as int / 256) % 256,
            blue == argb as int % 256,
            out@ == inverted(pixels@, argb, n as int),
        decreases count - n,
    {
        if pixels[4 * n + 3] == 0 {
            out.push(red);
            out.push(green);
            out.push(blue);
            out.push(255);
        } else {
            out.push(0);
            out.push(0);
            out.push(0);
            out.push(0);
        }
        assert(out@ =~= inverted(pixels@, argb, n + 1));
        n += 1;
    }
    out
}

/// Inverting swaps the painted and the unpainted pixels: a pixel of the
/// result is transparent exactly where the picture was not.
pub proof fn law_inverted(pixels: Seq<u8>, argb: u32, n: int, i: int)
    requires
        0 <= i < n,
        4 * n <= pixels.len(),
    ensures
        inverted(pixels, argb, n).len() == 4 * n,
        inverted(pixels, argb, n)[4 * i + 3] == if pixels[4 * i + 3] == 0 {
            255u8
        } else {
            0u8
        },
    decreases n,
{
    if i < n - 1 {
        law_inverted(pixels, argb, n - 1, i);
    } else if n > 1 {
        law_inverted(pixels, argb, n - 1, 0);
    } else {
        assert(inverted(pixels, argb, 0).len() == 0);
    }
}

/// The rows of a picture without the bytes that pad them: `row` bytes of each
/// `stride`, for the first `n` rows.
pub open spec fn packed(data: Seq<u8>, row: int, stride: int, n: int) -> Seq<u8>
    decreases n,
{
    if n <= 0 {
        Seq::empty()
    } else {
        packed(data, row, stride, n - 1) + data.subrange(
            (n - 1) * stride,
            (n - 1) * stride + row,
        )
    }
}

/// Take the padding out of the rows of a picture.
pub fn pack_rows(data: &Vec<u8>, row: usize, stride: usize, rows: usize) -> (r: Vec<u8>)
    requires
        row <= stride,
        rows > 0 ==> (rows - 1) * stride + row <= data@.len(),
    ensures
        r@ == packed(data@, row as int, stride as int, rows as int),
{
    let len: usize = data.len();
    let mut out: Vec<u8> = Vec::new();
    let mut n: usize = 0;
    let mut from: usize = 0;
    while n < rows
        invariant
            n <= rows,
            len == data@.len(),
            row <= stride,
            rows > 0 ==> (rows - 1) * stride + row <= len,
            n < rows ==> from == n * stride,
            out@ == packed(data@, row as int, stride as int, n as int),
        decreases rows - n,
    {
        proof {
            assert(n * stride <= (rows - 1) * stride) by (nonlinear_arith)
                requires
                    n <= rows - 1,
                    0 <= stride,
            ;
        }
        let ghost before = out@;
        let mut k: usize = 0;
        while k < row
            invariant
                k <= row,
                len == data@.len(),
                from + row <= len,
                out@ == before + data@.subrange(from as int, from + k),
            decreases row - k,
        {
            out.push(data[from + k]);
            assert(out@ =~= before + data@.subrange(from as int, from + k + 1));
            k += 1;
        }
        assert(out@ =~= packed(data@, row as int, stride as int, n + 1));
        n += 1;
        if n < rows {
            proof {
                assert((n - 1) * stride + stride == n * stride) by (nonlinear_arith);
                assert(n * stride <= (rows - 1) * stride) by (nonlinear_arith)
                    requires
                        n <= rows - 1,
                        0 <= stride,
                ;
            }
            from = from + stride;
        }
    }
    out
}

/// An edge walked backward undoes what it adds to the winding number walked
/// forward, and moving everything by the same distance changes nothing.
pub proof fn law_turn(a: Point, b: Point, p: Point, a2: Point, b2: Point, p2: Point)
    requires
        a2.x - a.x == p2.x - p.x && b2.x - b.x == p2.x - p.x,
        a2.y - a.y == p2.y - p.y && b2.y - b.y == p2.y - p.y,
    ensures
        turn(b, a, p) == -turn(a, b, p),
        turn(a2, b2, p2) == turn(a, b, p),
{
    assert(side(b, a, p) == -side(a, b, p)) by (nonlinear_arith)
        requires
            side(b, a, p) == (a.x - b.x) * (p.y - b.y) - (p.x - b.x) * (a.y - b.y),
            side(a, b, p) == (b.x - a.x) * (p.y - a.y) - (p.x - a.x) * (b.y - a.y),
    ;
}

/// A triangle holds the points that lie to the left of all its edges, and so
/// it does those to the right of all of them.
pub proof fn law_triangle(a: Point, b: Point, c: Point, p: Point)
    ensures
        side(a, b, p) > 0 && side(b, c, p) > 0 && side(c, a, p) > 0 ==> in_polygon(
            seq![a, b, c],
            p,
        ),
        side(a, b, p) < 0 && side(b, c, p) < 0 && side(c, a, p) < 0 ==> in_polygon(
            seq![a, b, c],
            p,
        ),
{
    let v = seq![a, b, c];
    assert(winding(v, p, 0) == 0);
    assert(winding(v, p, 1) == turn(a, b, p));
    assert(winding(v, p, 2) == turn(a, b, p) + turn(b, c, p));
    assert(winding(v, p, 3) == turn(a, b, p) + turn(b, c, p) + turn(c, a, p));
    lemma_balance(
        a.x - p.x,
        a.y - p.y,
        b.x - p.x,
        b.y - p.y,
        c.x - p.x,
        c.y - p.y,
        side(a, b, p),
        side(b, c, p),
        side(c, a, p),
    );
}

proof fn lemma_balance(
    ax: int,
    ay: int,
    bx: int,
    by: int,
    cx: int,
    cy: int,
    ab: int,
    bc: int,
    ca: int,
)
    requires
        ab == (bx - ax) * (-ay) - (-ax) * (by - ay),
        bc == (cx - bx) * (-by) - (-bx) * (cy - by),
        ca == (ax - cx) * (-cy) - (-cx) * (ay - cy),
    ensures
        ab > 0 && bc > 0 && ca > 0 ==> !(ay <= 0 && by <= 0 && cy <= 0) && !(ay > 0 && by > 0 && cy
            > 0),
        ab < 0 && bc < 0 && ca < 0 ==> !(ay <= 0 && by <= 0 && cy <= 0) && !(ay > 0 && by > 0 && cy
            > 0),
{
    assert(ab == ax * by - ay * bx) by (nonlinear_arith)
        requires
            ab == (bx - ax) * (-ay) - (-ax) * (by - ay),
    ;
    assert(bc == bx * cy - by * cx) by (nonlinear_arith)
        requires
            bc == (cx - bx) * (-by) - (-bx) * (cy - by),
    ;
    assert(ca == cx * ay - cy * ax) by (nonlinear_arith)
        requires
            ca == (ax - cx) * (-cy) - (-cx) * (ay - cy),
    ;
    assert(ay * bc + by * ca + cy * ab == 0) by (nonlinear_arith)
        requires
            ab == ax * by - ay * bx,
            bc == bx * cy - by * cx,
            ca == cx * ay - cy * ax,
    ;
    if ab > 0 && bc > 0 && ca > 0 {
        lemma_no_balance(ay, by, cy, ab, bc, ca);
        if ay == 0 && by == 0 {
            assert(ab == 0) by (nonlinear_arith)
                requires
                    ab == ax * by - ay * bx,
                    ay == 0,
                    by == 0,
            ;
        }
    }
    if ab < 0 && bc < 0 && ca < 0 {
        assert(ay * (-bc) + by * (-ca) + cy * (-ab) == 0) by (nonlinear_arith)
            requires
                ay * bc + by * ca + cy * ab == 0,
        ;
        lemma_no_balance(ay, by, cy, -ab, -bc, -ca);
        if ay == 0 && by == 0 {
            assert(ab == 0) by (nonlinear_arith)
                requires
                    ab == ax * by - ay * bx,
                    ay == 0,
                    by == 0,
            ;
        }
    }
}

proof fn lemma_no_balance(ay: int, by: int, cy: int, ab: int, bc: int, ca: int)
    requires
        ab > 0,
        bc > 0,
        ca > 0,
        ay * bc + by * ca + cy * ab == 0,
    ensures
        !(ay > 0 && by > 0 && cy > 0),
        ay <= 0 && by <= 0 && cy <= 0 ==> ay == 0 && by == 0 && cy == 0,
{
    lemma_sign(ay, bc);
    lemma_sign(by, ca);
    lemma_sign(cy, ab);
}

proof fn lemma_sign(y: int, k: int)
    requires
        k > 0,
    ensures
        y > 0 ==> y * k > 0,
        y < 0 ==> y * k < 0,
        y == 0 ==> y * k == 0,
{
    assert(y > 0 ==> y * k > 0) by (nonlinear_arith)
        requires
            k > 0,
    ;
    assert(y < 0 ==> y * k < 0) by (nonlinear_arith)
        requires
            k > 0,
    ;
}

/// A polygon holds no point above or below all of its corners.
pub proof fn law_outside_polygon(v: Seq<Point>, p: Point)
    requires
        (forall|i: int| 0 <= i < v.len() ==> (#[trigger] v[i]).y <= p.y) || (forall|i: int|
            0 <= i < v.len() ==> (#[trigger] v[i]).y > p.y),
    ensures
        !in_polygon(v, p),
{
    lemma_no_turn(v, p, v.len() as int);
}

proof fn lemma_no_turn(v: Seq<Point>, p: Point, n: int)
    requires
        0 <= n <= v.len(),
        (forall|i: int| 0 <= i < v.len() ==> (#[trigger] v[i]).y <= p.y) || (forall|i: int|
            0 <= i < v.len() ==> (#[trigger] v[i]).y > p.y),
    ensures
        winding(v, p, n) == 0,
    decreases n,
{
    if n > 0 {
        lemma_no_turn(v, p, n - 1);
        assert(turn(v[n - 1], next_vertex(v, n - 1), p) == 0);
    }
}

/// A circle is all points no further from the middle of the canvas than half
/// its shorter side less two pixels.
pub proof fn law_circle(x: int, y: int, w: int, h: int)
    requires
        w >= 4,
        h >= 4,
    ensures
        ({
            let r = if w <= h {
                w * 500_000_000 - 2_000_000_000
            } else {
                h * 500_000_000 - 2_000_000_000
            };
            let dx = x - w * 500_000_000;
            let dy = y - h * 500_000_000;
            inside(ShapeKind::Circle, x, y, w, h) <==> dx * dx + dy * dy <= r * r
        }),
{
}

/// Rectangle, circle, ellipse and line look the same from the left and from
/// the right, from above and from below.
pub proof fn law_mirrored(kind: ShapeKind, x: int, y: int, w: int, h: int)
    requires
        kind == ShapeKind::Rect || kind == ShapeKind::Circle || kind == ShapeKind::Ellipse || kind
            == ShapeKind::Line,
        0 < w,
        0 < h,
    ensures
        inside(kind, w * 1_000_000_000 - x, y, w, h) == inside(kind, x, y, w, h),
        inside(kind, x, h * 1_000_000_000 - y, w, h) == inside(kind, x, y, w, h),
{
    let dx = x - half(w);
    let dy = y - half(h);
    assert(w * 1_000_000_000 - x - half(w) == -dx);
    assert(h * 1_000_000_000 - y - half(h) == -dy);
    assert((-dx) * (-dx) == dx * dx && (-dy) * (-dy) == dy * dy) by (nonlinear_arith);
    if kind == ShapeKind::Rect {
        let r = min(w, h) * 80_000_000;
        lemma_rounded_mirror(x, y, w * UNIT, h * UNIT, r);
    }
}

proof fn lemma_rounded_mirror(x: int, y: int, w: int, h: int, r: int)
    requires
        0 <= 2 * r < w,
        0 <= 2 * r < h,
    ensures
        in_rounded(w - x, y, w, h, r) == in_rounded(x, y, w, h, r),
        in_rounded(x, h - y, w, h, r) == in_rounded(x, y, w, h, r),
{
    let cx = if x < r {
        r
    } else {
        w - r
    };
    let cy = if y < r {
        r
    } else {
        h - r
    };
    let a = x - cx;
    let b = y - cy;
    assert((-a) * (-a) == a * a && (-b) * (-b) == b * b) by (nonlinear_arith);
}

/// A rectangle fills its canvas but for the corners: nothing outside, all of
/// the two bands that leave the corners out, and no tip of a corner.
pub proof fn law_rect(x: int, y: int, w: int, h: int)
    requires
        0 < w,
        0 < h,
    ensures
        ({
            let r = if w <= h {
                w * 80_000_000
            } else {
                h * 80_000_000
            };
            &&& inside(ShapeKind::Rect, x, y, w, h) ==> 0 <= x <= w * 1_000_000_000 && 0 <= y <= h
                * 1_000_000_000
            &&& r <= x <= w * 1_000_000_000 - r && 0 <= y <= h * 1_000_000_000 ==> inside(
                ShapeKind::Rect,
                x,
                y,
                w,
                h,
            )
            &&& 0 <= x <= w * 1_000_000_000 && r <= y <= h * 1_000_000_000 - r ==> inside(
                ShapeKind::Rect,
                x,
                y,
                w,
                h,
            )
            &&& 0 <= x < r && 0 <= y < r ==> (inside(ShapeKind::Rect, x, y, w, h) <==> (r - x) * (r
                - x) + (r - y) * (r - y) <= r * r)
        }),
{
    let r = min(w, h) * 80_000_000;
    assert((x - r) * (x - r) == (r - x) * (r - x) && (y - r) * (y - r) == (r - y) * (r - y))
        by (nonlinear_arith);
}

/// A picture that is not turned looks at the middle of each pixel; one turned
/// by a quarter looks as far below the middle of the canvas as that lies to
/// its right.
pub proof fn law_turned(px: int, py: int, w: int, h: int)
    ensures
        turned(px, py, w, h, 1_000_000_000, 0) == (
            px * 1_000_000_000 + 500_000_000,
            py * 1_000_000_000 + 500_000_000,
        ),
        ({
            let (x, y) = turned(px, py, w, h, 0, 1_000_000_000);
            &&& y - h * 500_000_000 == px * 1_000_000_000 + 500_000_000 - w * 500_000_000
            &&& w * 500_000_000 - x == py * 1_000_000_000 + 500_000_000 - h * 500_000_000
        }),
{
    let dx = px * UNIT + 500_000_000 - half(w);
    let dy = py * UNIT + 500_000_000 - half(h);
    assert((dx * 1_000_000_000) / 1_000_000_000 == dx);
    assert((dy * 1_000_000_000) / 1_000_000_000 == dy);
    assert((-(dy * 1_000_000_000)) / 1_000_000_000 == -dy);
}

/// The four bytes of a pixel are those of the color, opacity last.
pub proof fn law_pixel_bytes(d: Drawing)
    ensures
        forall|k: int| 0 <= k < 4 ==> 0 <= #[trigger] d.byte(k) < 256,
        d.byte(3) * 0x100_0000 + d.byte(0) * 0x1_0000 + d.byte(1) * 0x100 + d.byte(2) == d.argb,
{
    lemma_color_bytes(d.argb as int);
    vstd::arithmetic::div_mod::lemma_fundamental_div_mod(d.argb as int, 0x100_0000);
}

/// A picture inverted is the color, opaque, where it was clear.
pub proof fn law_inverted_color(pixels: Seq<u8>, argb: u32, n: int, i: int)
    requires
        0 <= i < n,
        4 * n <= pixels.len(),
    ensures
        inverted(pixels, argb, n).len() == 4 * n,
        pixels[4 * i + 3] == 0 ==> {
            let q = inverted(pixels, argb, n);
            q[4 * i] * 0x1_0000 + q[4 * i + 1] * 0x100 + q[4 * i + 2] == argb % 0x100_0000
                && q[4 * i + 3] == 255
        },
        pixels[4 * i + 3] != 0 ==> inverted(pixels, argb, n)[4 * i + 3] == 0,
    decreases n,
{
    let q = inverted(pixels, argb, n);
    let before = inverted(pixels, argb, n - 1);
    if n > 1 {
        law_inverted_color(
            pixels,
            argb,
            n - 1,
            if i < n - 1 {
                i
            } else {
                0
            },
        );
    } else {
        assert(before.len() == 0);
    }
    if i < n - 1 {
        assert(q[4 * i] == before[4 * i] && q[4 * i + 1] == before[4 * i + 1]);
        assert(q[4 * i + 2] == before[4 * i + 2] && q[4 * i + 3] == before[4 * i + 3]);
    } else {
        lemma_color_bytes(argb as int);
    }
}

proof fn lemma_color_bytes(argb: int)
    requires
        0 <= argb <= u32::MAX,
    ensures
        ((argb / 65536) % 256) * 0x1_0000 + ((argb / 256) % 256) * 0x100 + argb % 256 == argb
            % 0x100_0000,
{
    let x = argb / 256;
    let y = x / 256;
    let z = y / 256;
    let rest = (y % 256) * 0x1_0000 + (x % 256) * 0x100 + argb % 256;
    assert(argb == 256 * x + argb % 256);
    assert(x == 256 * y + x % 256);
    assert(y == 256 * z + y % 256);
    vstd::arithmetic::div_mod::lemma_div_denominator(argb, 256, 256);
    assert(argb == z * 0x100_0000 + rest);
    vstd::arithmetic::div_mod::lemma_fundamental_div_mod_converse(argb, 0x100_0000, z, rest);
}

/// Packing keeps the bytes of each row in place and leaves out those that pad
/// them.
pub proof fn law_packed(data: Seq<u8>, row: int, stride: int, n: int, y: int, x: int)
    requires
        0 <= row <= stride,
        0 <= y < n,
        0 <= x < row,
        (n - 1) * stride + row <= data.len(),
    ensures
        packed(data, row, stride, n).len() == n * row,
        packed(data, row, stride, n)[y * row + x] == data[y * stride + x],
    decreases n,
{
    let from = (n - 1) * stride;
    assert(0 <= from) by (nonlinear_arith)
        requires
            from == (n - 1) * stride,
            n >= 1,
            stride >= 0,
    ;
    assert(n * row == (n - 1) * row + row) by (nonlinear_arith);
    if n > 1 {
        assert((n - 2) * stride + row <= data.len()) by (nonlinear_arith)
            requires
                (n - 1) * stride + row <= data.len(),
                stride >= 0,
        ;
        if y < n - 1 {
            law_packed(data, row, stride, n - 1, y, x);
            assert(y * row + x < (n - 1) * row) by (nonlinear_arith)
                requires
                    0 <= y <= n - 2,
                    0 <= x < row,
            ;
        } else {
            law_packed(data, row, stride, n - 1, 0, x);
        }
    } else {
        assert(packed(data, row, stride, 0).len() == 0);
        assert(0 * row == 0);
    }
    assert(0 <= y * row) by (nonlinear_arith)
        requires
            y >= 0,
            row >= 0,
    ;
}

/// Two rays are as far apart as `cos` says, to the last places: their product
/// is that of unit vectors at that angle.
pub open spec fn apart_by(a: (int, int), b: (int, int), cos: int) -> bool {
    let p = a.0 * b.0 + a.1 * b.1;
    cos * UNIT - 2_000_000_000 <= p <= cos * UNIT + 2_000_000_000
}

/// The ten rays of a star are of length one, start at the top, follow each
/// other at a tenth of a turn, and mirror left and right.
pub proof fn law_star_rays(i: int)
    requires
        0 <= i < 10,
    ensures
        star_ray(0) == (0int, -1_000_000_000int),
        apart_by(star_ray(i), star_ray(i), 1_000_000_000),
        i < 9 ==> apart_by(star_ray(i), star_ray(i + 1), 809_016_994),
        i > 0 ==> star_ray(10 - i) == (-star_ray(i).0, star_ray(i).1),
        0 < i < 5 ==> star_ray(i).0 > 0,
{
    let a = star_ray(i);
    let b = star_ray(i + 1);
    if i == 0 {
        assert(a.0 * a.0 + a.1 * a.1 == 1_000_000_000_000_000_000) by (nonlinear_arith)
            requires
                a.0 == 0 && a.1 == -1_000_000_000,
        ;
        assert(a.0 * b.0 + a.1 * b.1 == 809_016_994_000_000_000) by (nonlinear_arith)
            requires
                a.0 == 0 && a.1 == -1_000_000_000,
                b.0 == 587_785_252 && b.1 == -809_016_994,
        ;
    } else if i == 1 {
        assert(a.0 * a.0 + a.1 * a.1 == 999_999_999_049_499_540) by (nonlinear_arith)
            requires
                a.0 == 587_785_252 && a.1 == -809_016_994,
        ;
        assert(a.0 * b.0 + a.1 * b.1 == 809_016_993_504_098_068) by (nonlinear_arith)
            requires
                a.0 == 587_785_252 && a.1 == -809_016_994,
                b.0 == 951_056_516 && b.1 == -309_016_994,
        ;
    } else if i == 2 {
        assert(a.0 * a.0 + a.1 * a.1 == 999_999_999_206_854_292) by (nonlinear_arith)
            requires
                a.0 == 951_056_516 && a.1 == -309_016_994,
        ;
        assert(a.0 * b.0 + a.1 * b.1 == 809_016_994_045_262_220) by (nonlinear_arith)
            requires
                a.0 == 951_056_516 && a.1 == -309_016_994,
                b.0 == 951_056_516 && b.1 == 309_016_994,
        ;
    } else if i == 3 {
        assert(a.0 * a.0 + a.1 * a.1 == 999_999_999_206_854_292) by (nonlinear_arith)
            requires
                a.0 == 951_056_516 && a.1 == 309_016_994,
        ;
        assert(a.0 * b.0 + a.1 * b.1 == 809_016_993_504_098_068) by (nonlinear_arith)
            requires
                a.0 == 951_056_516 && a.1 == 309_016_994,
                b.0 == 587_785_252 && b.1 == 809_016_994,
        ;
    } else if i == 4 {
        assert(a.0 * a.0 + a.1 * a.1 == 999_999_999_049_499_540) by (nonlinear_arith)
            requires
                a.0 == 587_785_252 && a.1 == 809_016_994,
        ;
        assert(a.0 * b.0 + a.1 * b.1 == 809_016_994_000_000_000) by (nonlinear_arith)
            requires
                a.0 == 587_785_252 && a.1 == 809_016_994,
                b.0 == 0 && b.1 == 1_000_000_000,
        ;
    } else if i == 5 {
        assert(a.0 * a.0 + a.1 * a.1 == 1_000_000_000_000_000_000) by (nonlinear_arith)
            requires
                a.0 == 0 && a.1 == 1_000_000_000,
        ;
        assert(a.0 * b.0 + a.1 * b.1 == 809_016_994_000_000_000) by (nonlinear_arith)
            requires
                a.0 == 0 && a.1 == 1_000_000_000,
                b.0 == -587_785_252 && b.1 == 809_016_994,
        ;
    } else if i == 6 {
        assert(a.0 * a.0 + a.1 * a.1 == 999_999_999_049_499_540) by (nonlinear_arith)
            requires
                a.0 == -587_785_252 && a.1 == 809_016_994,
        ;
        assert(a.0 * b.0 + a.1 * b.1 == 809_016_993_504_098_068) by (nonlinear_arith)
            requires
                a.0 == -587_785_252 && a.1 == 809_016_994,
                b.0 == -951_056_516 && b.1 == 309_016_994,
        ;
    } else if i == 7 {
        assert(a.0 * a.0 + a.1 * a.1 == 999_999_999_206_854_292) by (nonlinear_arith)
            requires
                a.0 == -951_056_516 && a.1 == 309_016_994,
        ;
        assert(a.0 * b.0 + a.1 * b.1 == 809_016_994_045_262_220) by (nonlinear_arith)
            requires
                a.0 == -951_056_516 && a.1 == 309_016_994,
                b.0 == -951_056_516 && b.1 == -309_016_994,
        ;
    } else if i == 8 {
        assert(a.0 * a.0 + a.1 * a.1 == 999_999_999_206_854_292) by (nonlinear_arith)
            requires
                a.0 == -951_056_516 && a.1 == -309_016_994,
        ;
        assert(a.0 * b.0 + a.1 * b.1 == 809_016_993_504_098_068) by (nonlinear_arith)
            requires
                a.0 == -951_056_516 && a.1 == -309_016_994,
                b.0 == -587_785_252 && b.1 == -809_016_994,
        ;
    } else {
        assert(a.0 * a.0 + a.1 * a.1 == 999_999_999_049_499_540) by (nonlinear_arith)
            requires
                a.0 == -587_785_252 && a.1 == -809_016_994,
        ;
    }
}

/// The six rays of a hexagon are of length one, start at the top, follow each
/// other at a sixth of a turn, and mirror left and right.
pub proof fn law_hexagon_rays(i: int)
    requires
        0 <= i < 6,
    ensures
        hexagon_ray(0) == (0int, -1_000_000_000int),
        apart_by(hexagon_ray(i), hexagon_ray(i), 1_000_000_000),
        i < 5 ==> apart_by(hexagon_ray(i), hexagon_ray(i + 1), 500_000_000),
        i > 0 ==> hexagon_ray(6 - i) == (-hexagon_ray(i).0, hexagon_ray(i).1),
        0 < i < 3 ==> hexagon_ray(i).0 > 0,
{
    let a = hexagon_ray(i);
    let b = hexagon_ray(i + 1);
    if i == 0 {
        assert(a.0 * a.0 + a.1 * a.1 == 1_000_000_000_000_000_000) by (nonlinear_arith)
            requires
                a.0 == 0 && a.1 == -1_000_000_000,
        ;
        assert(a.0 * b.0 + a.1 * b.1 == 500_000_000_000_000_000) by (nonlinear_arith)
            requires
                a.0 == 0 && a.1 == -1_000_000_000,
                b.0 == 866_025_404 && b.1 == -500_000_000,
        ;
    } else if i == 1 {
        assert(a.0 * a.0 + a.1 * a.1 == 1_000_000_000_373_363_216) by (nonlinear_arith)
            requires
                a.0 == 866_025_404 && a.1 == -500_000_000,
        ;
        assert(a.0 * b.0 + a.1 * b.1 == 500_000_000_373_363_216) by (nonlinear_arith)
            requires
                a.0 == 866_025_404 && a.1 == -500_000_000,
                b.0 == 866_025_404 && b.1 == 500_000_000,
        ;
    } else if i == 2 {
        assert(a.0 * a.0 + a.1 * a.1 == 1_000_000_000_373_363_216) by (nonlinear_arith)
            requires
                a.0 == 866_025_404 && a.1 == 500_000_000,
        ;
        assert(a.0 * b.0 + a.1 * b.1 == 500_000_000_000_000_000) by (nonlinear_arith)
            requires
                a.0 == 866_025_404 && a.1 == 500_000_000,
                b.0 == 0 && b.1 == 1_000_000_000,
        ;
    } else if i == 3 {
        assert(a.0 * a.0 + a.1 * a.1 == 1_000_000_000_000_000_000) by (nonlinear_arith)
            requires
                a.0 == 0 && a.1 == 1_000_000_000,
        ;
        assert(a.0 * b.0 + a.1 * b.1 == 500_000_000_000_000_000) by (nonlinear_arith)
            requires
                a.0 == 0 && a.1 == 1_000_000_000,
                b.0 == -866_025_404 && b.1 == 500_000_000,
        ;
    } else if i == 4 {
        assert(a.0 * a.0 + a.1 * a.1 == 1_000_000_000_373_363_216) by (nonlinear_arith)
            requires
                a.0 == -866_025_404 && a.1 == 500_000_000,
        ;
        assert(a.0 * b.0 + a.1 * b.1 == 500_000_000_373_363_216) by (nonlinear_arith)
            requires
                a.0 == -866_025_404 && a.1 == 500_000_000,
                b.0 == -866_025_404 && b.1 == -500_000_000,
        ;
    } else {
        assert(a.0 * a.0 + a.1 * a.1 == 1_000_000_000_373_363_216) by (nonlinear_arith)
            requires
                a.0 == -866_025_404 && a.1 == -500_000_000,
        ;
    }
}

/// A point along a ray lies as far from the center as the ray says, cut off to
/// billionths of a pixel.
pub proof fn law_along(cx: int, cy: int, r: int, ray: (int, int))
    ensures
        ({
            let p = along(cx, cy, r, ray);
            &&& (p.0 - cx) * 1_000_000_000 <= r * ray.0 < (p.0 - cx + 1) * 1_000_000_000
            &&& (p.1 - cy) * 1_000_000_000 <= r * ray.1 < (p.1 - cy + 1) * 1_000_000_000
        }),
{
}

/// A star has five tips on the circle of its canvas and five notches at 42
/// hundredths of it, in turn from the top; a hexagon has its six corners on
/// the circle.
pub proof fn law_corners(w: int, h: int, i: int)
    requires
        0 <= i,
    ensures
        star(w, h).len() == 10,
        hexagon(w, h).len() == 6,
        i < 10 && i % 2 == 0 ==> star(w, h)[i] == point_of(
            along(w * 500_000_000, h * 500_000_000, radius(w, h), star_ray(i)),
        ),
        i < 10 && i % 2 == 1 ==> exists|r: int|
            100 * r <= 42 * radius(w, h) < 100 * r + 100 && star(w, h)[i] == point_of(
                #[trigger] along(w * 500_000_000, h * 500_000_000, r, star_ray(i)),
            ),
        i < 6 ==> hexagon(w, h)[i] == point_of(
            along(w * 500_000_000, h * 500_000_000, radius(w, h), hexagon_ray(i)),
        ),
        w <= h ==> radius(w, h) == w * 500_000_000 - 2_000_000_000,
        h <= w ==> radius(w, h) == h * 500_000_000 - 2_000_000_000,
{
    if i < 10 && i % 2 == 1 {
        let r = radius(w, h) * 42 / 100;
        assert(star(w, h)[i] == point_of(
            along(w * 500_000_000, h * 500_000_000, r, star_ray(i)),
        ));
    }
}

/// An ellipse holds its middle, everything between a point of it and the
/// middle, and nothing further out than two pixels short of its canvas.
pub proof fn law_ellipse(x: int, y: int, w: int, h: int, nearer_x: int, nearer_y: int)
    requires
        w > 4,
        h > 4,
    ensures
        inside(ShapeKind::Ellipse, w * 500_000_000, h * 500_000_000, w, h),
        y == h * 500_000_000 && 2_000_000_000 <= x <= w * 1_000_000_000 - 2_000_000_000 ==> inside(
            ShapeKind::Ellipse,
            x,
            y,
            w,
            h,
        ),
        x == w * 500_000_000 && 2_000_000_000 <= y <= h * 1_000_000_000 - 2_000_000_000 ==> inside(
            ShapeKind::Ellipse,
            x,
            y,
            w,
            h,
        ),
        ({
            let dx = x - w * 500_000_000;
            let dy = y - h * 500_000_000;
            let rx = w * 500_000_000 - 2_000_000_000;
            let ry = h * 500_000_000 - 2_000_000_000;
            let nx = nearer_x - w * 500_000_000;
            let ny = nearer_y - h * 500_000_000;
            &&& inside(ShapeKind::Ellipse, x, y, w, h) ==> dx * UNIT < rx * UNIT + rx && -dx * UNIT
                < rx * UNIT + rx && dy * UNIT < ry * UNIT + ry && -dy * UNIT < ry * UNIT + ry
            &&& inside(ShapeKind::Ellipse, x, y, w, h) && (0 <= nx <= dx || dx <= nx <= 0) && (0
                <= ny <= dy || dy <= ny <= 0) ==> inside(
                ShapeKind::Ellipse,
                nearer_x,
                nearer_y,
                w,
                h,
            )
        }),
{
    let rx = half(w) - 2_000_000_000;
    let ry = half(h) - 2_000_000_000;
    let dx = x - half(w);
    let dy = y - half(h);
    lemma_fraction(dx, rx);
    lemma_fraction(dy, ry);
    lemma_fraction(0, rx);
    lemma_fraction(0, ry);
    let o = fraction_of(0, rx);
    let u = fraction_of(0, ry);
    assert(o * o + u * u <= UNIT * UNIT) by (nonlinear_arith)
        requires
            o == 0,
            u == 0,
    ;
    let a = fraction_of(dx, rx);
    let b = fraction_of(dy, ry);
    let nx = nearer_x - half(w);
    let ny = nearer_y - half(h);
    if inside(ShapeKind::Ellipse, x, y, w, h) && (0 <= nx <= dx || dx <= nx <= 0) && (0 <= ny <= dy
        || dy <= ny <= 0) {
        lemma_nearer(nx, dx, rx);
        lemma_nearer(ny, dy, ry);
    }
    if dx == 0 {
        assert(a * a == 0) by (nonlinear_arith)
            requires
                a == 0,
        ;
    }
    if dy == 0 {
        assert(b * b == 0) by (nonlinear_arith)
            requires
                b == 0,
        ;
    }
    if -rx <= dx <= rx {
        assert(a * a <= UNIT * UNIT) by (nonlinear_arith)
            requires
                0 <= a <= UNIT,
        ;
    }
    if -ry <= dy <= ry {
        assert(b * b <= UNIT * UNIT) by (nonlinear_arith)
            requires
                0 <= b <= UNIT,
        ;
    }
}

proof fn lemma_fraction(d: int, r: int)
    requires
        r > 0,
    ensures
        fraction_of(d, r) >= 0,
        d == 0 ==> fraction_of(d, r) == 0,
        -r <= d <= r ==> fraction_of(d, r) <= UNIT,
        fraction_of(d, r) <= UNIT ==> d * UNIT < r * UNIT + r && -d * UNIT < r * UNIT + r,
{
    let m = if d >= 0 {
        d * UNIT
    } else {
        -d * UNIT
    };
    let q = m / r;
    vstd::arithmetic::div_mod::lemma_fundamental_div_mod(m, r);
    vstd::arithmetic::div_mod::lemma_mod_bound(m, r);
    vstd::arithmetic::div_mod::lemma_div_pos_is_pos(m, r);
    if d == 0 {
        assert(q == 0) by (nonlinear_arith)
            requires
                r * q <= 0,
                q >= 0,
                r > 0,
        ;
    }
    if -r <= d <= r {
        assert(q <= UNIT) by (nonlinear_arith)
            requires
                r * q <= m,
                m <= r * UNIT,
                r > 0,
        ;
    }
    if q <= UNIT {
        assert(r * q <= r * UNIT) by (nonlinear_arith)
            requires
                q <= UNIT,
                r > 0,
        ;
    }
}

proof fn lemma_nearer(n: int, d: int, r: int)
    requires
        r > 0,
        0 <= n <= d || d <= n <= 0,
    ensures
        0 <= fraction_of(n, r) <= fraction_of(d, r),
        fraction_of(n, r) * fraction_of(n, r) <= fraction_of(d, r) * fraction_of(d, r),
{
    let x = if n >= 0 {
        n * UNIT
    } else {
        -n * UNIT
    };
    let y = if d >= 0 {
        d * UNIT
    } else {
        -d * UNIT
    };
    vstd::arithmetic::div_mod::lemma_div_is_ordered(x, y, r);
    lemma_fraction(n, r);
    let a = fraction_of(n, r);
    let b = fraction_of(d, r);
    assert(a * a <= b * b) by (nonlinear_arith)
        requires
            0 <= a <= b,
    ;
}

/// A line is a band across the middle of its canvas, 35 hundredths of its
/// height wide, or of four pixels if that is more.
pub proof fn law_line(x: int, y: int, w: int, h: int)
    ensures
        ({
            let tall = if h >= 4 {
                h
            } else {
                4
            };
            let dy = y - h * 500_000_000;
            inside(ShapeKind::Line, x, y, w, h) <==> -tall * 175_000_000 <= dy <= tall * 175_000_000
        }),
{
}

} // verus!
