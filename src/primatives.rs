//! Points, triangles and the exact integer geometry behind them.
use vstd::prelude::*;
use crate::framebuffer::Tile;
use crate::RasterError;
use vstd::arithmetic::div_mod::lemma_fundamental_div_mod;
use vstd::arithmetic::mul::{
    lemma_mul_is_associative,
    lemma_mul_is_commutative,
    lemma_mul_is_distributive_add,
    lemma_mul_is_distributive_add_other_way,
    lemma_mul_is_distributive_sub,
    lemma_mul_is_distributive_sub_other_way,
    lemma_mul_by_zero_is_zero,
    lemma_mul_inequality,
    lemma_mul_inequality_converse,
};

verus! {

/// Sub-pixel units per pixel: coordinates count sixteenths of a pixel, so a
/// vertex may sit between pixel corners.
pub const SUBPIXEL: i32 = 16;

/// The fixed-point scale of the cosine and sine that `rotate_point` takes:
/// `ROTATION_ONE` stands for `1.0`.
pub const ROTATION_ONE: i32 = 65536;

/// Largest magnitude of a coordinate that the internal exact arithmetic takes
/// (`2^40`); scaled pixel and sample positions stay well below it.
pub open spec fn coord_limit() -> int {
    0x100_0000_0000
}

pub open spec fn coord_ok(v: (int, int)) -> bool {
    -coord_limit() <= v.0 <= coord_limit() && -coord_limit() <= v.1 <= coord_limit()
}

/// Twice the signed area of the triangle `a, b, p`: positive when `p` lies to the
/// left of the directed line from `a` to `b`, zero when the three are collinear.
pub open spec fn cross(a: (int, int), b: (int, int), p: (int, int)) -> int {
    (b.0 - a.0) * (p.1 - a.1) - (b.1 - a.1) * (p.0 - a.0)
}

/// `-1` for a clockwise triangle, `1` otherwise.
pub open spec fn orientation(d: int) -> int {
    if d < 0 {
        -1
    } else {
        1
    }
}

/// The common denominator of the barycentric weights of triangle `a, b, c`:
/// twice its unsigned area.
pub open spec fn bary_den(a: (int, int), b: (int, int), c: (int, int)) -> int {
    orientation(cross(a, b, c)) * cross(a, b, c)
}

/// The numerators of the barycentric weights of `p` in triangle `a, b, c`, over
/// `bary_den(a, b, c)`: weight `i` is the area of the triangle that `p` forms with
/// the edge opposite vertex `i`, signed by the side of that edge `p` lies on.
pub open spec fn bary_num(a: (int, int), b: (int, int), c: (int, int), p: (int, int)) -> (int, int, int) {
    let s = orientation(cross(a, b, c));
    (s * cross(b, c, p), s * cross(c, a, p), s * cross(a, b, p))
}

/// `p` is a combination of `a, b, c` with three positive coefficients: it lies
/// strictly inside the triangle.
pub open spec fn strictly_inside(a: (int, int), b: (int, int), c: (int, int), p: (int, int)) -> bool {
    exists|l0: int, l1: int, l2: int|
        #![trigger l0 * a.0 + l1 * b.0 + l2 * c.0]
        l0 > 0 && l1 > 0 && l2 > 0 && (l0 + l1 + l2) * p.0 == l0 * a.0 + l1 * b.0 + l2 * c.0
            && (l0 + l1 + l2) * p.1 == l0 * a.1 + l1 * b.1 + l2 * c.1
}

/// `p` lies strictly above the line through `a` and `b`, read in point-slope form
/// (`p.y > a.y + slope * (p.x - a.x)`) and multiplied out by `b.x - a.x`; a vertical
/// line has nothing above it.
pub open spec fn above_line(p: (int, int), a: (int, int), b: (int, int)) -> bool {
    if a.0 == b.0 {
        false
    } else if b.0 > a.0 {
        (p.1 - a.1) * (b.0 - a.0) > (b.1 - a.1) * (p.0 - a.0)
    } else {
        (p.1 - a.1) * (b.0 - a.0) < (b.1 - a.1) * (p.0 - a.0)
    }
}

/// `p` turned about `o` by the angle whose fixed-point cosine and sine are `cos`
/// and `sin`, each coordinate rounded down to a whole sub-pixel unit.
pub open spec fn rotated(p: (int, int), o: (int, int), cos: int, sin: int) -> (int, int) {
    let dx = p.0 - o.0;
    let dy = p.1 - o.1;
    (
        o.0 + (dx * cos - dy * sin) / (ROTATION_ONE as int),
        o.1 + (dx * sin + dy * cos) / (ROTATION_ONE as int),
    )
}

pub open spec fn fits_i32(v: int) -> bool {
    i32::MIN <= v <= i32::MAX
}

/// A 2D position, in sub-pixel units: `SUBPIXEL` units make one pixel, and
/// pixel `(x, y)` covers the units `[SUBPIXEL * x, SUBPIXEL * (x + 1))` on each axis.
#[derive(Clone, Copy, Debug, PartialEq, Eq, Structural)]
pub struct Point {
    pub x: i32,
    pub y: i32,
}

impl Point {
    pub open spec fn pos(self) -> (int, int) {
        (self.x as int, self.y as int)
    }

    pub fn new(x: i32, y: i32) -> (p: Point)
        ensures
            p.x == x,
            p.y == y,
    {
        Point { x, y }
    }

    /// Whether this point lies strictly above the line through the two given points.
    pub fn is_above_line(&self, line_point_one: &Point, line_point_two: &Point) -> (r: bool)
        ensures
            r == above_line(self.pos(), line_point_one.pos(), line_point_two.pos()),
    {
        if line_point_one.x == line_point_two.x {
            return false;
        }
        let run: i128 = line_point_two.x as i128 - line_point_one.x as i128;
        let rise: i128 = line_point_two.y as i128 - line_point_one.y as i128;
        proof {
            lemma_product_bound(self.y - line_point_one.y, run as int);
            lemma_product_bound(rise as int, self.x - line_point_one.x);
        }
        let lhs: i128 = (self.y as i128 - line_point_one.y as i128) * run;
        let rhs: i128 = rise * (self.x as i128 - line_point_one.x as i128);
        if run > 0 {
            lhs > rhs
        } else {
            lhs < rhs
        }
    }

    /// Turns this point about `about` by the angle whose cosine and sine, scaled by
    /// `ROTATION_ONE`, are given; counter-clockwise for a positive sine. Each
    /// coordinate is the exact rotation rounded down, so it lies less than one
    /// sub-pixel unit below it.
    pub fn rotate_point(&self, about: &Point, cos: i32, sin: i32) -> (r: Point)
        requires
            fits_i32(rotated(self.pos(), about.pos(), cos as int, sin as int).0),
            fits_i32(rotated(self.pos(), about.pos(), cos as int, sin as int).1),
        ensures
            r.pos() == rotated(self.pos(), about.pos(), cos as int, sin as int),
            ({
                let dx = self.x - about.x;
                let dy = self.y - about.y;
                &&& ROTATION_ONE * (r.x - about.x) <= dx * cos - dy * sin < ROTATION_ONE * (r.x
                    - about.x + 1)
                &&& ROTATION_ONE * (r.y - about.y) <= dx * sin + dy * cos < ROTATION_ONE * (r.y
                    - about.y + 1)
            }),
    {
        let dx: i128 = self.x as i128 - about.x as i128;
        let dy: i128 = self.y as i128 - about.y as i128;
        proof {
            lemma_product_bound(dx as int, cos as int);
            lemma_product_bound(dy as int, sin as int);
            lemma_product_bound(dx as int, sin as int);
            lemma_product_bound(dy as int, cos as int);
        }
        let qx = floor_div(dx * (cos as i128) - dy * (sin as i128), ROTATION_ONE as i128);
        let qy = floor_div(dx * (sin as i128) + dy * (cos as i128), ROTATION_ONE as i128);
        Point { x: (about.x as i128 + qx) as i32, y: (about.y as i128 + qy) as i32 }
    }

    pub fn add(&self, other: Point) -> (r: Point)
        requires
            fits_i32(self.x + other.x),
            fits_i32(self.y + other.y),
        ensures
            r.x == self.x + other.x,
            r.y == self.y + other.y,
    {
        Point { x: self.x + other.x, y: self.y + other.y }
    }

    pub fn sub(&self, other: Point) -> (r: Point)
        requires
            fits_i32(self.x - other.x),
            fits_i32(self.y - other.y),
        ensures
            r.x == self.x - other.x,
            r.y == self.y - other.y,
    {
        Point { x: self.x - other.x, y: self.y - other.y }
    }
}

/// The barycentric weights of a point: weight `i` is `w_i / denom`.
#[derive(Clone, Copy, Debug, PartialEq, Eq, Structural)]
pub struct Weights {
    pub w0: i128,
    pub w1: i128,
    pub w2: i128,
    pub denom: i128,
}

impl Weights {
    /// Every numerator lies within `weight_limit()` of zero.
    pub open spec fn bounded(self) -> bool {
        &&& -weight_limit() <= self.w0 <= weight_limit()
        &&& -weight_limit() <= self.w1 <= weight_limit()
        &&& -weight_limit() <= self.w2 <= weight_limit()
    }

    /// These are the weights of `p` in the triangle `a, b, c`, over a positive denominator.
    pub open spec fn of(self, a: (int, int), b: (int, int), c: (int, int), p: (int, int)) -> bool {
        &&& self.w0 == bary_num(a, b, c, p).0
        &&& self.w1 == bary_num(a, b, c, p).1
        &&& self.w2 == bary_num(a, b, c, p).2
        &&& self.denom == bary_den(a, b, c)
    }
}

pub proof fn lemma_product_bound(a: int, b: int)
    requires
        -0x200_0000_0000 <= a <= 0x200_0000_0000,
        -0x200_0000_0000 <= b <= 0x200_0000_0000,
    ensures
        -0x4_0000_0000_0000_0000_0000 <= a * b <= 0x4_0000_0000_0000_0000_0000,
{
    assert(-0x4_0000_0000_0000_0000_0000 <= a * b <= 0x4_0000_0000_0000_0000_0000) by (nonlinear_arith)
        requires
            -0x200_0000_0000 <= a <= 0x200_0000_0000,
            -0x200_0000_0000 <= b <= 0x200_0000_0000,
    ;
}

proof fn lemma_floor_div_bounds(n: int, d: int)
    requires
        d > 0,
    ensures
        n >= 0 ==> 0 <= n / d <= n,
        n < 0 ==> n <= n / d < 0,
{
    lemma_fundamental_div_mod(n, d);
    let q = n / d;
    let r = n % d;
    assert(n >= 0 ==> 0 <= q <= n) by (nonlinear_arith)
        requires
            n == d * q + r,
            0 <= r < d,
    ;
    assert(n < 0 ==> n <= q < 0) by (nonlinear_arith)
        requires
            n == d * q + r,
            0 <= r < d,
    ;
}

/// `n / d` rounded down.
pub(crate) fn floor_div(n: i128, d: i128) -> (q: i128)
    requires
        d > 0,
    ensures
        q == n / d,
        d * q <= n < d * q + d,
{
    proof {
        lemma_floor_div_bounds(n as int, d as int);
        lemma_fundamental_div_mod(n as int, d as int);
    }
    n.checked_div_euclid(d).unwrap()
}

pub open spec fn pos64(v: (i64, i64)) -> (int, int) {
    (v.0 as int, v.1 as int)
}

/// `cross(a, b, p)` computed exactly.
fn cross_exact(a: (i64, i64), b: (i64, i64), p: (i64, i64)) -> (r: i128)
    requires
        coord_ok(pos64(a)),
        coord_ok(pos64(b)),
        coord_ok(pos64(p)),
    ensures
        r == cross(pos64(a), pos64(b), pos64(p)),
        -0x8_0000_0000_0000_0000_0000 <= r <= 0x8_0000_0000_0000_0000_0000,
{
    let ux: i128 = b.0 as i128 - a.0 as i128;
    let uy: i128 = b.1 as i128 - a.1 as i128;
    let vx: i128 = p.0 as i128 - a.0 as i128;
    let vy: i128 = p.1 as i128 - a.1 as i128;
    proof {
        lemma_product_bound(ux as int, vy as int);
        lemma_product_bound(uy as int, vx as int);
    }
    ux * vy - uy * vx
}

/// The barycentric weights of `p` in the triangle `a, b, c`, or `None` when the
/// triangle has no area.
pub(crate) fn bary_weights(a: (i64, i64), b: (i64, i64), c: (i64, i64), p: (i64, i64)) -> (r:
    Option<Weights>)
    requires
        coord_ok(pos64(a)),
        coord_ok(pos64(b)),
        coord_ok(pos64(c)),
        coord_ok(pos64(p)),
    ensures
        r is None <==> cross(pos64(a), pos64(b), pos64(c)) == 0,
        r matches Some(w) ==> w.of(pos64(a), pos64(b), pos64(c), pos64(p)),
        r matches Some(w) ==> w.bounded() && w.denom > 0,
{
    let d = cross_exact(a, b, c);
    if d == 0 {
        return None;
    }
    let w0 = cross_exact(b, c, p);
    let w1 = cross_exact(c, a, p);
    let w2 = cross_exact(a, b, p);
    if d < 0 {
        Some(Weights { w0: -w0, w1: -w1, w2: -w2, denom: -d })
    } else {
        Some(Weights { w0, w1, w2, denom: d })
    }
}

proof fn lemma_mul_diffs(x: int, y: int, z: int, w: int)
    ensures
        (x - y) * (z - w) == x * z - x * w - y * z + y * w,
{
    lemma_mul_is_distributive_sub_other_way(z - w, x, y);
    lemma_mul_is_distributive_sub(x, z, w);
    lemma_mul_is_distributive_sub(y, z, w);
}

proof fn lemma_cross_expand(a: (int, int), b: (int, int), p: (int, int))
    ensures
        cross(a, b, p) == b.0 * p.1 - b.0 * a.1 - a.0 * p.1 - b.1 * p.0 + b.1 * a.0 + a.1 * p.0,
{
    lemma_mul_diffs(b.0, a.0, p.1, a.1);
    lemma_mul_diffs(b.1, a.1, p.0, a.0);
    lemma_mul_is_commutative(a.0, a.1);
}

/// A triangle with a repeated vertex has no area.
proof fn lemma_cross_repeated(a: (int, int), b: (int, int))
    ensures
        cross(a, b, a) == 0,
        cross(a, b, b) == 0,
{
    lemma_mul_by_zero_is_zero(b.0 - a.0);
    lemma_mul_by_zero_is_zero(b.1 - a.1);
    lemma_mul_is_commutative(b.0 - a.0, b.1 - a.1);
}

pub open spec fn scaled(v: (int, int), k: int) -> (int, int) {
    (v.0 * k, v.1 * k)
}

/// The three weight numerators always add up to the denominator: the weights sum to one.
pub proof fn lemma_weights_sum(a: (int, int), b: (int, int), c: (int, int), p: (int, int))
    ensures
        bary_num(a, b, c, p).0 + bary_num(a, b, c, p).1 + bary_num(a, b, c, p).2 == bary_den(a, b, c),
{
    let s = orientation(cross(a, b, c));
    lemma_cross_expand(b, c, p);
    lemma_cross_expand(c, a, p);
    lemma_cross_expand(a, b, p);
    lemma_cross_expand(a, b, c);
    lemma_mul_dist3(s, cross(b, c, p), cross(c, a, p), cross(a, b, p));
}

/// Moving `p` to a weighted mean of three points moves `cross(a, b, _)` to the same
/// weighted mean of its values there.
proof fn lemma_cross_affine(
    a: (int, int),
    b: (int, int),
    v0: (int, int),
    v1: (int, int),
    v2: (int, int),
    p: (int, int),
    l0: int,
    l1: int,
    l2: int,
)
    requires
        (l0 + l1 + l2) * p.0 == l0 * v0.0 + l1 * v1.0 + l2 * v2.0,
        (l0 + l1 + l2) * p.1 == l0 * v0.1 + l1 * v1.1 + l2 * v2.1,
    ensures
        (l0 + l1 + l2) * cross(a, b, p) == l0 * cross(a, b, v0) + l1 * cross(a, b, v1) + l2 * cross(
            a,
            b,
            v2,
        ),
{
    let ex = b.0 - a.0;
    let ey = b.1 - a.1;
    let k = ey * a.0 - ex * a.1;
    lemma_cross_linear(a, b, p);
    lemma_cross_linear(a, b, v0);
    lemma_cross_linear(a, b, v1);
    lemma_cross_linear(a, b, v2);
    lemma_affine_mean(l0, l1, l2, ex, ey, k, p.0, p.1, v0.0, v0.1, v1.0, v1.1, v2.0, v2.1);
}

proof fn lemma_mul_swap(x: int, y: int, z: int)
    ensures
        x * (y * z) == y * (x * z),
{
    lemma_mul_is_associative(x, y, z);
    lemma_mul_is_commutative(x, y);
    lemma_mul_is_associative(y, x, z);
}

proof fn lemma_mul_dist3(x: int, a: int, b: int, c: int)
    ensures
        x * (a + b + c) == x * a + x * b + x * c,
{
    lemma_mul_is_distributive_add(x, a + b, c);
    lemma_mul_is_distributive_add(x, a, b);
}

proof fn lemma_mul_dist_affine(x: int, a: int, b: int, c: int)
    ensures
        x * (a - b + c) == x * a - x * b + x * c,
{
    lemma_mul_is_distributive_add(x, a - b, c);
    lemma_mul_is_distributive_sub(x, a, b);
}

/// The affine map `(x, y) |-> ex * y - ey * x + k` commutes with weighted means.
proof fn lemma_affine_mean(
    l0: int,
    l1: int,
    l2: int,
    ex: int,
    ey: int,
    k: int,
    px: int,
    py: int,
    x0: int,
    y0: int,
    x1: int,
    y1: int,
    x2: int,
    y2: int,
)
    requires
        (l0 + l1 + l2) * px == l0 * x0 + l1 * x1 + l2 * x2,
        (l0 + l1 + l2) * py == l0 * y0 + l1 * y1 + l2 * y2,
    ensures
        (l0 + l1 + l2) * (ex * py - ey * px + k) == l0 * (ex * y0 - ey * x0 + k) + l1 * (ex * y1
            - ey * x1 + k) + l2 * (ex * y2 - ey * x2 + k),
{
    let l = l0 + l1 + l2;
    lemma_mul_dist_affine(l, ex * py, ey * px, k);
    lemma_mul_swap(l, ex, py);
    lemma_mul_swap(l, ey, px);
    lemma_mul_dist3(ex, l0 * y0, l1 * y1, l2 * y2);
    lemma_mul_dist3(ey, l0 * x0, l1 * x1, l2 * x2);
    lemma_mul_swap(ex, l0, y0);
    lemma_mul_swap(ex, l1, y1);
    lemma_mul_swap(ex, l2, y2);
    lemma_mul_swap(ey, l0, x0);
    lemma_mul_swap(ey, l1, x1);
    lemma_mul_swap(ey, l2, x2);
    lemma_mul_is_distributive_add_other_way(k, l0 + l1, l2);
    lemma_mul_is_distributive_add_other_way(k, l0, l1);
    lemma_mul_is_commutative(l, k);
    lemma_mul_is_commutative(l0, k);
    lemma_mul_is_commutative(l1, k);
    lemma_mul_is_commutative(l2, k);
    lemma_mul_dist_affine(l0, ex * y0, ey * x0, k);
    lemma_mul_dist_affine(l1, ex * y1, ey * x1, k);
    lemma_mul_dist_affine(l2, ex * y2, ey * x2, k);
}

/// `cross(a, b, _)` is an affine function of its last argument.
proof fn lemma_cross_linear(a: (int, int), b: (int, int), p: (int, int))
    ensures
        cross(a, b, p) == (b.0 - a.0) * p.1 - (b.1 - a.1) * p.0 + ((b.1 - a.1) * a.0 - (b.0 - a.0)
            * a.1),
{
    lemma_mul_is_distributive_sub(b.0 - a.0, p.1, a.1);
    lemma_mul_is_distributive_sub(b.1 - a.1, p.0, a.0);
}

/// The signed area does not depend on which vertex is named first.
pub proof fn lemma_cross_rotate(a: (int, int), b: (int, int), c: (int, int))
    ensures
        cross(b, c, a) == cross(a, b, c),
        cross(c, a, b) == cross(a, b, c),
{
    lemma_cross_expand(a, b, c);
    lemma_cross_expand(b, c, a);
    lemma_cross_expand(c, a, b);
}

proof fn lemma_scaled_sign(l: int, li: int, d: int, s: int, w: int)
    requires
        l > 0,
        li > 0,
        s * d > 0,
        l * w == li * d,
    ensures
        s * w > 0,
{
    assert(s * w > 0) by (nonlinear_arith)
        requires
            l > 0,
            li > 0,
            s * d > 0,
            l * w == li * d,
    ;
}

/// A point strictly inside a triangle with area has three positive weights, and
/// they sum to one.
pub proof fn lemma_interior_weights_positive(
    a: (int, int),
    b: (int, int),
    c: (int, int),
    p: (int, int),
)
    requires
        cross(a, b, c) != 0,
        strictly_inside(a, b, c, p),
    ensures
        bary_num(a, b, c, p).0 > 0,
        bary_num(a, b, c, p).1 > 0,
        bary_num(a, b, c, p).2 > 0,
        bary_num(a, b, c, p).0 + bary_num(a, b, c, p).1 + bary_num(a, b, c, p).2 == bary_den(a, b, c),
{
    let (l0, l1, l2) = choose|l0: int, l1: int, l2: int|
        #![trigger l0 * a.0 + l1 * b.0 + l2 * c.0]
        l0 > 0 && l1 > 0 && l2 > 0 && (l0 + l1 + l2) * p.0 == l0 * a.0 + l1 * b.0 + l2 * c.0
            && (l0 + l1 + l2) * p.1 == l0 * a.1 + l1 * b.1 + l2 * c.1;
    let d = cross(a, b, c);
    let l = l0 + l1 + l2;
    lemma_cross_rotate(a, b, c);
    lemma_cross_affine(b, c, a, b, c, p, l0, l1, l2);
    lemma_cross_affine(c, a, a, b, c, p, l0, l1, l2);
    lemma_cross_affine(a, b, a, b, c, p, l0, l1, l2);
    lemma_cross_repeated(b, c);
    lemma_cross_repeated(c, a);
    lemma_cross_repeated(a, b);
    lemma_mul_by_zero_is_zero(l0);
    lemma_mul_by_zero_is_zero(l1);
    lemma_mul_by_zero_is_zero(l2);
    let s = orientation(d);
    assert(s * d > 0);
    assert(l * cross(b, c, p) == l0 * d);
    assert(l * cross(c, a, p) == l1 * d);
    assert(l * cross(a, b, p) == l2 * d);
    lemma_scaled_sign(l, l0, d, s, cross(b, c, p));
    lemma_scaled_sign(l, l1, d, s, cross(c, a, p));
    lemma_scaled_sign(l, l2, d, s, cross(a, b, p));
    lemma_weights_sum(a, b, c, p);
}

/// At a vertex of a triangle with area, that vertex's weight is one and the other two are zero.
pub proof fn lemma_vertex_weights(a: (int, int), b: (int, int), c: (int, int))
    requires
        cross(a, b, c) != 0,
    ensures
        bary_num(a, b, c, a) == (bary_den(a, b, c), 0int, 0int),
        bary_num(a, b, c, b) == (0int, bary_den(a, b, c), 0int),
        bary_num(a, b, c, c) == (0int, 0int, bary_den(a, b, c)),
{
    lemma_cross_rotate(a, b, c);
    lemma_cross_repeated(b, c);
    lemma_cross_repeated(c, a);
    lemma_cross_repeated(a, b);
    lemma_mul_by_zero_is_zero(orientation(cross(a, b, c)));
}

/// Colours a rasterized triangle. Given the pixel's position within the
/// triangle's bounding box (`uv`, each coordinate from `0` at the low edge to
/// `255` at the high edge) and the vertex attributes interpolated at the pixel,
/// it returns the pixel's colour. `shade` is what it returns: the colour depends
/// on these two inputs alone.
pub trait TriColorer {
    spec fn shade(&self, uv: Point, attributes: Seq<i32>) -> Tile;

    fn color(&self, uv: Point, attributes: &[i32]) -> (t: Tile)
        ensures
            t == self.shade(uv, attributes@),
    ;
}

/// Which vertex holds an extreme coordinate of a triangle, and which other
/// vertex, if any, holds the same value.
#[derive(Clone, Copy, Debug, PartialEq, Eq, Structural)]
pub struct Extreme {
    pub index: u8,
    pub tie: Option<u8>,
}

pub open spec fn min3(a: int, b: int, c: int) -> int {
    if a <= b && a <= c {
        a
    } else if b <= c {
        b
    } else {
        c
    }
}

pub open spec fn max3(a: int, b: int, c: int) -> int {
    if a >= b && a >= c {
        a
    } else if b >= c {
        b
    } else {
        c
    }
}

/// The extreme of `a, b, c`: the first vertex holding the largest value (or the
/// smallest, when `highest` is false), and as tie the last other vertex holding it.
pub open spec fn extreme_of(a: int, b: int, c: int, highest: bool) -> Extreme {
    let m = if highest {
        max3(a, b, c)
    } else {
        min3(a, b, c)
    };
    let index: u8 = if a == m {
        0
    } else if b == m {
        1
    } else {
        2
    };
    let tie: Option<u8> = if c == m && index != 2 {
        Some(2u8)
    } else if b == m && index == 0 {
        Some(1u8)
    } else {
        None
    };
    Extreme { index, tie }
}

/// The extreme names one of the three vertices, and that vertex holds the
/// extreme value.
pub proof fn lemma_extreme_index(a: int, b: int, c: int, highest: bool)
    ensures
        extreme_of(a, b, c, highest).index < 3,
        extreme_of(a, b, c, highest).index == 0 ==> a == if highest {
            max3(a, b, c)
        } else {
            min3(a, b, c)
        },
        extreme_of(a, b, c, highest).index == 1 ==> b == if highest {
            max3(a, b, c)
        } else {
            min3(a, b, c)
        },
        extreme_of(a, b, c, highest).index == 2 ==> c == if highest {
            max3(a, b, c)
        } else {
            min3(a, b, c)
        },
{
}

fn beats(v: i32, best: i32, highest: bool) -> (r: bool)
    ensures
        r == if highest {
            v > best
        } else {
            v < best
        },
{
    if highest {
        v > best
    } else {
        v < best
    }
}

/// Scans the three values once, keeping the first holder of the extreme and
/// the last vertex that ties with it.
fn find_extreme(a: i32, b: i32, c: i32, highest: bool) -> (e: Extreme)
    ensures
        e == extreme_of(a as int, b as int, c as int, highest),
{
    let mut e = Extreme { index: 0, tie: None };
    let mut best = a;
    if beats(b, best, highest) {
        e = Extreme { index: 1, tie: None };
        best = b;
    } else if b == best {
        e.tie = Some(1);
    }
    if beats(c, best, highest) {
        e = Extreme { index: 2, tie: None };
    } else if c == best {
        e.tie = Some(2);
    }
    e
}

/// The attribute vector that a vertex was given: none counts as empty.
pub open spec fn data_of(d: Option<Vec<i32>>) -> Seq<i32> {
    match d {
        Some(v) => v@,
        None => seq![],
    }
}

/// Attribute vectors are given for no vertex, or for all three with one length.
pub open spec fn attributes_agree(
    d0: Option<Vec<i32>>,
    d1: Option<Vec<i32>>,
    d2: Option<Vec<i32>>,
) -> bool {
    (d0 is None && d1 is None && d2 is None) || (d0 is Some && d1 is Some && d2 is Some
        && data_of(d0).len() == data_of(d1).len() && data_of(d1).len() == data_of(d2).len())
}

pub open spec fn clamp_i32(v: int) -> i32 {
    if v < i32::MIN {
        i32::MIN
    } else if v > i32::MAX {
        i32::MAX
    } else {
        v as i32
    }
}

/// An attribute at the point with weights `w`: the weighted mean of its three
/// vertex values, rounded down and held to the range of `i32`.
pub open spec fn interpolated(w: Weights, a0: int, a1: int, a2: int) -> i32 {
    clamp_i32((w.w0 * a0 + w.w1 * a1 + w.w2 * a2) / (w.denom as int))
}

/// Largest weight numerator that `interpolate` takes (`2^84`).
pub open spec fn weight_limit() -> int {
    0x10_0000_0000_0000_0000_0000
}

/// A triangle: three vertices, the extremes and bounding-box extent cached from
/// them, equal-length attribute vectors per vertex, and an optional colorer.
pub struct Triangle<C> {
    points: [Point; 3],
    lowest_x: Extreme,
    highest_x: Extreme,
    lowest_y: Extreme,
    highest_y: Extreme,
    width: u32,
    height: u32,
    coloring_data: [Vec<i32>; 3],
    colorer: Option<C>,
}

impl<C> Triangle<C> {
    pub closed spec fn vertex(&self, i: int) -> Point {
        self.points@[i]
    }

    pub open spec fn corner(&self, i: int) -> (int, int) {
        self.vertex(i).pos()
    }

    pub open spec fn min_x(&self) -> int {
        min3(self.corner(0).0, self.corner(1).0, self.corner(2).0)
    }

    pub open spec fn max_x(&self) -> int {
        max3(self.corner(0).0, self.corner(1).0, self.corner(2).0)
    }

    pub open spec fn min_y(&self) -> int {
        min3(self.corner(0).1, self.corner(1).1, self.corner(2).1)
    }

    pub open spec fn max_y(&self) -> int {
        max3(self.corner(0).1, self.corner(1).1, self.corner(2).1)
    }

    /// Twice the signed area; zero for a degenerate triangle.
    pub open spec fn signed_area2(&self) -> int {
        cross(self.corner(0), self.corner(1), self.corner(2))
    }

    /// The attribute vector of vertex `v`.
    pub closed spec fn attributes_of(&self, v: int) -> Seq<i32> {
        self.coloring_data@[v]@
    }

    pub closed spec fn colorer_spec(&self) -> Option<C> {
        self.colorer
    }

    pub closed spec fn cached_extremes(&self) -> (Extreme, Extreme, Extreme, Extreme) {
        (self.lowest_x, self.highest_x, self.lowest_y, self.highest_y)
    }

    pub closed spec fn cached_extent(&self) -> (int, int) {
        (self.width as int, self.height as int)
    }

    /// The extremes as they follow from the vertices: lowest x, highest x, lowest y, highest y.
    pub open spec fn extremes_of_vertices(&self) -> (Extreme, Extreme, Extreme, Extreme) {
        (
            extreme_of(self.corner(0).0, self.corner(1).0, self.corner(2).0, false),
            extreme_of(self.corner(0).0, self.corner(1).0, self.corner(2).0, true),
            extreme_of(self.corner(0).1, self.corner(1).1, self.corner(2).1, false),
            extreme_of(self.corner(0).1, self.corner(1).1, self.corner(2).1, true),
        )
    }

    /// The cached geometry agrees with the vertices, and the attribute vectors
    /// have one length.
    pub open spec fn wf(&self) -> bool {
        &&& self.cached_extremes() == self.extremes_of_vertices()
        &&& self.cached_extent() == (self.max_x() - self.min_x(), self.max_y() - self.min_y())
        &&& self.attributes_of(0).len() == self.attributes_of(1).len()
        &&& self.attributes_of(1).len() == self.attributes_of(2).len()
    }

    pub open spec fn attribute_count(&self) -> nat {
        self.attributes_of(0).len()
    }

    /// Builds a triangle from three vertices, each with an optional attribute
    /// vector, and an optional colorer.
    pub fn new(
        point_one: (Point, Option<Vec<i32>>),
        point_two: (Point, Option<Vec<i32>>),
        point_three: (Point, Option<Vec<i32>>),
        colorer: Option<C>,
    ) -> (r: Result<Triangle<C>, RasterError>)
        ensures
            r is Err <==> !attributes_agree(point_one.1, point_two.1, point_three.1),
            r matches Err(e) ==> e == RasterError::MismatchedAttributeLength,
            r matches Ok(t) ==> {
                &&& t.wf()
                &&& t.vertex(0) == point_one.0
                &&& t.vertex(1) == point_two.0
                &&& t.vertex(2) == point_three.0
                &&& t.attributes_of(0) == data_of(point_one.1)
                &&& t.attributes_of(1) == data_of(point_two.1)
                &&& t.attributes_of(2) == data_of(point_three.1)
                &&& t.colorer_spec() == colorer
            },
    {
        let (p0, d0) = point_one;
        let (p1, d1) = point_two;
        let (p2, d2) = point_three;
        let coloring_data: [Vec<i32>; 3] = match (d0, d1, d2) {
            (None, None, None) => [Vec::new(), Vec::new(), Vec::new()],
            (Some(a0), Some(a1), Some(a2)) => {
                if a0.len() != a1.len() || a1.len() != a2.len() {
                    return Err(RasterError::MismatchedAttributeLength);
                }
                [a0, a1, a2]
            },
            _ => {
                return Err(RasterError::MismatchedAttributeLength);
            },
        };
        let unset = Extreme { index: 0, tie: None };
        let mut ret = Triangle {
            points: [p0, p1, p2],
            lowest_x: unset,
            highest_x: unset,
            lowest_y: unset,
            highest_y: unset,
            width: 0,
            height: 0,
            coloring_data,
            colorer,
        };
        ret.update_tri();
        Ok(ret)
    }

    /// Recomputes the cached extremes and extent from the vertices. The result
    /// depends on the vertices alone, so on a triangle whose cache is current it
    /// changes nothing: recomputing twice yields what recomputing once did.
    pub fn update_tri(&mut self)
        ensures
            forall|i: int| 0 <= i < 3 ==> final(self).vertex(i) == old(self).vertex(i),
            forall|v: int| 0 <= v < 3 ==> final(self).attributes_of(v) == old(self).attributes_of(v),
            final(self).colorer_spec() == old(self).colorer_spec(),
            old(self).attribute_count() == old(self).attributes_of(1).len() == old(self).attributes_of(
                2,
            ).len() ==> final(self).wf(),
            final(self).cached_extremes() == final(self).extremes_of_vertices(),
            final(self).cached_extent() == (
                final(self).max_x() - final(self).min_x(),
                final(self).max_y() - final(self).min_y(),
            ),
            old(self).wf() ==> *final(self) == *old(self),
    {
        let p = self.points;
        self.lowest_x = find_extreme(p[0].x, p[1].x, p[2].x, false);
        self.highest_x = find_extreme(p[0].x, p[1].x, p[2].x, true);
        self.lowest_y = find_extreme(p[0].y, p[1].y, p[2].y, false);
        self.highest_y = find_extreme(p[0].y, p[1].y, p[2].y, true);
        let hx = p[self.highest_x.index as usize].x as i64;
        let lx = p[self.lowest_x.index as usize].x as i64;
        let hy = p[self.highest_y.index as usize].y as i64;
        let ly = p[self.lowest_y.index as usize].y as i64;
        self.width = (hx - lx) as u32;
        self.height = (hy - ly) as u32;
    }

    pub fn get_point(&self, index: usize) -> (r: Point)
        requires
            index < 3,
        ensures
            r == self.vertex(index as int),
    {
        self.points[index]
    }

    /// Replaces one vertex and brings the cached extremes and extent up to date.
    pub fn set_point(&mut self, index: usize, point: Point)
        requires
            index < 3,
            old(self).wf(),
        ensures
            final(self).wf(),
            final(self).vertex(index as int) == point,
            forall|i: int| 0 <= i < 3 && i != index ==> final(self).vertex(i) == old(self).vertex(i),
            forall|v: int| 0 <= v < 3 ==> final(self).attributes_of(v) == old(self).attributes_of(v),
            final(self).colorer_spec() == old(self).colorer_spec(),
            final(self).cached_extent() == (
                final(self).max_x() - final(self).min_x(),
                final(self).max_y() - final(self).min_y(),
            ),
    {
        self.points[index] = point;
        self.update_tri();
    }

    pub fn lowest_x(&self) -> (r: Extreme)
        ensures
            r == self.cached_extremes().0,
    {
        self.lowest_x
    }

    pub fn highest_x(&self) -> (r: Extreme)
        ensures
            r == self.cached_extremes().1,
    {
        self.highest_x
    }

    pub fn lowest_y(&self) -> (r: Extreme)
        ensures
            r == self.cached_extremes().2,
    {
        self.lowest_y
    }

    pub fn highest_y(&self) -> (r: Extreme)
        ensures
            r == self.cached_extremes().3,
    {
        self.highest_y
    }

    /// Width of the bounding box.
    pub fn width(&self) -> (r: u32)
        ensures
            r == self.cached_extent().0,
    {
        self.width
    }

    /// Height of the bounding box.
    pub fn height(&self) -> (r: u32)
        ensures
            r == self.cached_extent().1,
    {
        self.height
    }

    pub fn colorer(&self) -> (r: &Option<C>)
        ensures
            *r == self.colorer_spec(),
    {
        &self.colorer
    }

    /// The barycentric weights of `p` in this triangle.
    pub fn calc_weights(&self, p: &Point) -> (r: Result<Weights, RasterError>)
        ensures
            r is Err <==> self.signed_area2() == 0,
            r matches Err(e) ==> e == RasterError::DegenerateTriangle,
            r matches Ok(w) ==> w.of(self.corner(0), self.corner(1), self.corner(2), p.pos()),
            r matches Ok(w) ==> w.bounded() && w.denom > 0,
    {
        let v = self.points;
        match bary_weights(
            (v[0].x as i64, v[0].y as i64),
            (v[1].x as i64, v[1].y as i64),
            (v[2].x as i64, v[2].y as i64),
            (p.x as i64, p.y as i64),
        ) {
            Some(w) => Ok(w),
            None => Err(RasterError::DegenerateTriangle),
        }
    }

    /// The vertex attributes interpolated at the point with weights `w`.
    pub fn interpolate(&self, w: &Weights) -> (r: Vec<i32>)
        requires
            self.wf(),
            w.denom > 0,
            w.bounded(),
        ensures
            r@.len() == self.attribute_count(),
            forall|k: int|
                0 <= k < r@.len() ==> r@[k] == interpolated(
                    *w,
                    self.attributes_of(0)[k] as int,
                    self.attributes_of(1)[k] as int,
                    self.attributes_of(2)[k] as int,
                ),
    {
        let n = self.coloring_data[0].len();
        let mut out: Vec<i32> = Vec::new();
        for k in 0..n
            invariant
                n == self.attribute_count(),
                self.wf(),
                w.denom > 0,
                w.bounded(),
                out@.len() == k,
                forall|j: int|
                    0 <= j < k ==> out@[j] == interpolated(
                        *w,
                        self.attributes_of(0)[j] as int,
                        self.attributes_of(1)[j] as int,
                        self.attributes_of(2)[j] as int,
                    ),
        {
            let a0 = self.coloring_data[0][k];
            let a1 = self.coloring_data[1][k];
            let a2 = self.coloring_data[2][k];
            proof {
                lemma_weighted_bound(w.w0 as int, a0 as int);
                lemma_weighted_bound(w.w1 as int, a1 as int);
                lemma_weighted_bound(w.w2 as int, a2 as int);
            }
            let sum: i128 = w.w0 * (a0 as i128) + w.w1 * (a1 as i128) + w.w2 * (a2 as i128);
            let q = floor_div(sum, w.denom);
            let v: i32 = if q < i32::MIN as i128 {
                i32::MIN
            } else if q > i32::MAX as i128 {
                i32::MAX
            } else {
                q as i32
            };
            out.push(v);
        }
        out
    }
}

/// The cached extremes and extent follow from the vertices alone: two triangles
/// with current caches and the same vertices hold the same ones, so recomputing
/// them a second time yields what the first time did.
pub proof fn lemma_cache_follows_vertices<C>(t1: Triangle<C>, t2: Triangle<C>)
    requires
        t1.wf(),
        t2.wf(),
        forall|i: int| 0 <= i < 3 ==> t1.vertex(i) == t2.vertex(i),
    ensures
        t1.cached_extremes() == t2.cached_extremes(),
        t1.cached_extent() == t2.cached_extent(),
{
    assert(t1.vertex(0) == t2.vertex(0));
    assert(t1.vertex(1) == t2.vertex(1));
    assert(t1.vertex(2) == t2.vertex(2));
}

proof fn lemma_weighted_bound(w: int, a: int)
    requires
        -weight_limit() <= w <= weight_limit(),
        i32::MIN <= a <= i32::MAX,
    ensures
        -0x8_0000_0000_0000_0000_0000_0000_0000 <= w * a <= 0x8_0000_0000_0000_0000_0000_0000_0000,
{
    assert(-0x8_0000_0000_0000_0000_0000_0000_0000 <= w * a <= 0x8_0000_0000_0000_0000_0000_0000_0000)
        by (nonlinear_arith)
        requires
            -0x10_0000_0000_0000_0000_0000 <= w <= 0x10_0000_0000_0000_0000_0000,
            -0x8000_0000 <= a <= 0x7fff_ffff,
    ;
}

/// The edge runs `c - b`, `a - c`, `b - a`, weighted by the opposite corners' `x`, cancel.
proof fn lemma_edge_run_sum(ax: int, bx: int, cx: int)
    ensures
        (cx - bx) * ax + (ax - cx) * bx + (bx - ax) * cx == 0,
{
    assert((cx - bx) * ax + (ax - cx) * bx + (bx - ax) * cx == 0) by (nonlinear_arith);
}

/// The edge rises weighted by the opposite corners' `x` add up to minus the signed area.
proof fn lemma_edge_rise_sum(ax: int, ay: int, bx: int, by: int, cx: int, cy: int)
    ensures
        (cy - by) * ax + (ay - cy) * bx + (by - ay) * cx == -((bx - ax) * (cy - ay) - (by - ay) * (cx
            - ax)),
{
    assert((cy - by) * ax + (ay - cy) * bx + (by - ay) * cx == -((bx - ax) * (cy - ay) - (by - ay)
        * (cx - ax))) by (nonlinear_arith);
}

/// Three factors may be rotated.
proof fn lemma_rotate3(p: int, q: int, r: int)
    ensures
        (p * q) * r == (r * p) * q,
{
    lemma_mul_is_associative(p, q, r);
    lemma_mul_is_commutative(q, r);
    lemma_mul_is_associative(p, r, q);
    lemma_mul_is_commutative(p, r);
}

/// The constant term of the edge function of edge `u -> v`.
proof fn lemma_edge_offset(ux: int, uy: int, vx: int, vy: int)
    ensures
        (vy - uy) * ux - (vx - ux) * uy == vy * ux - vx * uy,
{
    lemma_mul_is_distributive_sub_other_way(ux, vy, uy);
    lemma_mul_is_distributive_sub_other_way(uy, vx, ux);
    lemma_mul_is_commutative(uy, ux);
}

/// The constant terms of the three edge functions, weighted by the opposite corners' `x`, cancel.
proof fn lemma_edge_offset_sum(ax: int, ay: int, bx: int, by: int, cx: int, cy: int)
    ensures
        ((cy - by) * bx - (cx - bx) * by) * ax + ((ay - cy) * cx - (ax - cx) * cy) * bx + ((by - ay)
            * ax - (bx - ax) * ay) * cx == 0,
{
    lemma_edge_offset(bx, by, cx, cy);
    lemma_edge_offset(cx, cy, ax, ay);
    lemma_edge_offset(ax, ay, bx, by);
    lemma_mul_is_distributive_sub_other_way(ax, cy * bx, cx * by);
    lemma_mul_is_distributive_sub_other_way(bx, ay * cx, ax * cy);
    lemma_mul_is_distributive_sub_other_way(cx, by * ax, bx * ay);
    lemma_rotate3(cy, bx, ax);
    lemma_rotate3(by, ax, cx);
    lemma_rotate3(ay, cx, bx);
}

/// A factor may be pulled out of the middle of a product.
proof fn lemma_mul_pull(e: int, q: int, x: int)
    ensures
        (e * q) * x == q * (e * x),
{
    lemma_mul_is_associative(e, q, x);
    lemma_mul_is_commutative(q, x);
    lemma_mul_is_associative(e, x, q);
    lemma_mul_is_commutative(e * x, q);
}

/// `cross(u, v, p) * x`, with the terms in `p` pulled apart.
proof fn lemma_cross_times(u: (int, int), v: (int, int), p: (int, int), x: int)
    ensures
        cross(u, v, p) * x == p.1 * ((v.0 - u.0) * x) - p.0 * ((v.1 - u.1) * x) + ((v.1 - u.1)
            * u.0 - (v.0 - u.0) * u.1) * x,
{
    let ex = v.0 - u.0;
    let ey = v.1 - u.1;
    let k = ey * u.0 - ex * u.1;
    lemma_cross_linear(u, v, p);
    lemma_mul_is_distributive_add_other_way(x, ex * p.1 - ey * p.0, k);
    lemma_mul_is_distributive_sub_other_way(x, ex * p.1, ey * p.0);
    lemma_mul_pull(ex, p.1, x);
    lemma_mul_pull(ey, p.0, x);
}

/// The corners weighted by the (unnormalized) barycentric numerators of `p` add
/// up to `p` scaled by the signed area.
pub proof fn lemma_reconstruct(a: (int, int), b: (int, int), c: (int, int), p: (int, int))
    ensures
        cross(b, c, p) * a.0 + cross(c, a, p) * b.0 + cross(a, b, p) * c.0 == cross(a, b, c) * p.0,
        cross(b, c, p) * a.1 + cross(c, a, p) * b.1 + cross(a, b, p) * c.1 == cross(a, b, c) * p.1,
{
    let d = cross(a, b, c);
    lemma_cross_times(b, c, p, a.0);
    lemma_cross_times(c, a, p, b.0);
    lemma_cross_times(a, b, p, c.0);
    lemma_mul_dist3(p.1, (c.0 - b.0) * a.0, (a.0 - c.0) * b.0, (b.0 - a.0) * c.0);
    lemma_mul_dist3(p.0, (c.1 - b.1) * a.0, (a.1 - c.1) * b.0, (b.1 - a.1) * c.0);
    lemma_edge_run_sum(a.0, b.0, c.0);
    lemma_edge_rise_sum(a.0, a.1, b.0, b.1, c.0, c.1);
    lemma_edge_offset_sum(a.0, a.1, b.0, b.1, c.0, c.1);
    lemma_mul_by_zero_is_zero(p.1);
    assert(p.0 * (-d) == -(d * p.0)) by (nonlinear_arith);
    lemma_cross_times(b, c, p, a.1);
    lemma_cross_times(c, a, p, b.1);
    lemma_cross_times(a, b, p, c.1);
    lemma_mul_dist3(p.1, (c.0 - b.0) * a.1, (a.0 - c.0) * b.1, (b.0 - a.0) * c.1);
    lemma_mul_dist3(p.0, (c.1 - b.1) * a.1, (a.1 - c.1) * b.1, (b.1 - a.1) * c.1);
    lemma_edge_run_sum(a.1, b.1, c.1);
    lemma_edge_rise_sum(a.1, a.0, b.1, b.0, c.1, c.0);
    lemma_edge_offset_sum(a.1, a.0, b.1, b.0, c.1, c.0);
    lemma_mul_is_distributive_sub_other_way(a.1, (c.1 - b.1) * b.0, (c.0 - b.0) * b.1);
    lemma_mul_is_distributive_sub_other_way(a.1, (c.0 - b.0) * b.1, (c.1 - b.1) * b.0);
    lemma_mul_is_distributive_sub_other_way(b.1, (a.1 - c.1) * c.0, (a.0 - c.0) * c.1);
    lemma_mul_is_distributive_sub_other_way(b.1, (a.0 - c.0) * c.1, (a.1 - c.1) * c.0);
    lemma_mul_is_distributive_sub_other_way(c.1, (b.1 - a.1) * a.0, (b.0 - a.0) * a.1);
    lemma_mul_is_distributive_sub_other_way(c.1, (b.0 - a.0) * a.1, (b.1 - a.1) * a.0);
    lemma_mul_by_zero_is_zero(p.0);
    lemma_mul_is_commutative(p.1, d);
}

/// A mean of values in `[lo, hi]` with non-negative weights lies in `[lo, hi]`.
proof fn lemma_weighted_mean_bounds(
    w0: int,
    w1: int,
    w2: int,
    x0: int,
    x1: int,
    x2: int,
    q: int,
    lo: int,
    hi: int,
)
    requires
        w0 >= 0,
        w1 >= 0,
        w2 >= 0,
        w0 + w1 + w2 > 0,
        w0 * x0 + w1 * x1 + w2 * x2 == (w0 + w1 + w2) * q,
        lo <= x0 <= hi,
        lo <= x1 <= hi,
        lo <= x2 <= hi,
    ensures
        lo <= q <= hi,
{
    let den = w0 + w1 + w2;
    lemma_mul_inequality(lo, x0, w0);
    lemma_mul_inequality(lo, x1, w1);
    lemma_mul_inequality(lo, x2, w2);
    lemma_mul_inequality(x0, hi, w0);
    lemma_mul_inequality(x1, hi, w1);
    lemma_mul_inequality(x2, hi, w2);
    lemma_mul_is_commutative(x0, w0);
    lemma_mul_is_commutative(x1, w1);
    lemma_mul_is_commutative(x2, w2);
    lemma_mul_is_distributive_add_other_way(lo, w0 + w1, w2);
    lemma_mul_is_distributive_add_other_way(lo, w0, w1);
    lemma_mul_is_distributive_add_other_way(hi, w0 + w1, w2);
    lemma_mul_is_distributive_add_other_way(hi, w0, w1);
    lemma_mul_is_commutative(den, q);
    lemma_mul_inequality_converse(lo, q, den);
    lemma_mul_inequality_converse(q, hi, den);
}

/// A point with three non-negative weights in a triangle with area lies within
/// the triangle's bounding box.
pub proof fn lemma_covered_point_in_box(a: (int, int), b: (int, int), c: (int, int), p: (int, int))
    requires
        cross(a, b, c) != 0,
        bary_num(a, b, c, p).0 >= 0,
        bary_num(a, b, c, p).1 >= 0,
        bary_num(a, b, c, p).2 >= 0,
    ensures
        min3(a.0, b.0, c.0) <= p.0 <= max3(a.0, b.0, c.0),
        min3(a.1, b.1, c.1) <= p.1 <= max3(a.1, b.1, c.1),
{
    let d = cross(a, b, c);
    let s = orientation(d);
    let (w0, w1, w2) = bary_num(a, b, c, p);
    lemma_reconstruct(a, b, c, p);
    lemma_weights_sum(a, b, c, p);
    assert(bary_den(a, b, c) > 0);
    lemma_mul_dist3(s, cross(b, c, p) * a.0, cross(c, a, p) * b.0, cross(a, b, p) * c.0);
    lemma_mul_dist3(s, cross(b, c, p) * a.1, cross(c, a, p) * b.1, cross(a, b, p) * c.1);
    lemma_mul_is_associative(s, cross(b, c, p), a.0);
    lemma_mul_is_associative(s, cross(c, a, p), b.0);
    lemma_mul_is_associative(s, cross(a, b, p), c.0);
    lemma_mul_is_associative(s, cross(b, c, p), a.1);
    lemma_mul_is_associative(s, cross(c, a, p), b.1);
    lemma_mul_is_associative(s, cross(a, b, p), c.1);
    lemma_mul_is_associative(s, d, p.0);
    lemma_mul_is_associative(s, d, p.1);
    lemma_weighted_mean_bounds(
        w0,
        w1,
        w2,
        a.0,
        b.0,
        c.0,
        p.0,
        min3(a.0, b.0, c.0),
        max3(a.0, b.0, c.0),
    );
    lemma_weighted_mean_bounds(
        w0,
        w1,
        w2,
        a.1,
        b.1,
        c.1,
        p.1,
        min3(a.1, b.1, c.1),
        max3(a.1, b.1, c.1),
    );
}

} // verus!
