//! The frame buffer: a fixed grid of tiles, with per-pixel compositing and
//! triangle rasterization.
use vstd::prelude::*;
use crate::RasterError;
use crate::primatives::{
    bary_den,
    bary_num,
    bary_weights,
    clamp_i32,
    cross,
    lemma_covered_point_in_box,
    lemma_extreme_index,
    scaled,
    Point,
    TriColorer,
    Triangle,
};
use vstd::arithmetic::div_mod::{lemma_div_is_ordered, lemma_div_multiples_vanish};
use vstd::arithmetic::mul::{
    lemma_mul_inequality,
    lemma_mul_inequality_converse,
    lemma_mul_is_commutative,
    lemma_mul_is_distributive_add_other_way,
};

verus! {

/// One cell of the frame buffer: an RGBA colour sample. A channel holds
/// `0..=255`, where `255` stands for full intensity and, for alpha, full opacity.
#[derive(Clone, Copy, Debug, PartialEq, Eq, Structural)]
pub struct Tile {
    pub r: u8,
    pub g: u8,
    pub b: u8,
    pub a: u8,
}

impl Tile {
    pub fn new(r: u8, g: u8, b: u8, a: u8) -> (t: Tile)
        ensures
            t == (Tile { r, g, b, a }),
    {
        Tile { r, g, b, a }
    }
}

impl Default for Tile {
    /// Fully transparent black.
    fn default() -> (t: Tile)
        ensures
            t == (Tile { r: 0, g: 0, b: 0, a: 0 }),
    {
        Tile { r: 0, g: 0, b: 0, a: 0 }
    }
}

/// What every cell holds before anything is drawn: opaque black.
pub open spec fn background() -> Tile {
    Tile { r: 0, g: 0, b: 0, a: 255 }
}

/// The colour of a triangle without a colorer: opaque white.
pub open spec fn white() -> Tile {
    Tile { r: 255, g: 255, b: 255, a: 255 }
}

pub open spec fn is_black(t: Tile) -> bool {
    t.r == 0 && t.g == 0 && t.b == 0
}

/// One channel of `src` laid over `dst` at opacity `a`: `src * a + dst * (1 - a)`,
/// with `255` standing for `1`, rounded down.
pub open spec fn mix(src: u8, dst: u8, a: u8) -> u8 {
    ((src * a + dst * (255 - a)) / 255) as u8
}

/// `src` composited onto `dst`. A black destination counts as untouched canvas
/// and is replaced by `src` before blending, unless `src` is fully transparent;
/// the result keeps `src`'s alpha.
pub open spec fn blend(dst: Tile, src: Tile) -> Tile {
    let base = if is_black(dst) && src.a > 0 {
        src
    } else {
        dst
    };
    Tile {
        r: mix(src.r, base.r, src.a),
        g: mix(src.g, base.g, src.a),
        b: mix(src.b, base.b, src.a),
        a: src.a,
    }
}

proof fn lemma_mix_bound(src: u8, dst: u8, a: u8)
    ensures
        0 <= src * a + dst * (255 - a) <= 255 * 255,
{
    assert(0 <= src * a + dst * (255 - a) <= 255 * 255) by (nonlinear_arith)
        requires
            0 <= src <= 255,
            0 <= dst <= 255,
            0 <= a <= 255,
    ;
}

fn mix_channel(src: u8, dst: u8, a: u8) -> (r: u8)
    ensures
        r == mix(src, dst, a),
{
    proof {
        lemma_mix_bound(src, dst, a);
    }
    let sum: u32 = src as u32 * a as u32 + dst as u32 * (255 - a as u32);
    (sum / 255) as u8
}

/// `src` composited onto `dst`, as `blend` states.
pub fn blend_tiles(dst: Tile, src: Tile) -> (r: Tile)
    ensures
        r == blend(dst, src),
{
    let base = if dst.r == 0 && dst.g == 0 && dst.b == 0 && src.a > 0 {
        src
    } else {
        dst
    };
    Tile {
        r: mix_channel(src.r, base.r, src.a),
        g: mix_channel(src.g, base.g, src.a),
        b: mix_channel(src.b, base.b, src.a),
        a: src.a,
    }
}

/// A fully opaque source replaces the destination exactly, whatever it held.
pub proof fn lemma_opaque_source_replaces(dst: Tile, src: Tile)
    requires
        src.a == 255,
    ensures
        blend(dst, src) == src,
{
    let base = if is_black(dst) && src.a > 0 {
        src
    } else {
        dst
    };
    lemma_mix_opaque(src.r, base.r);
    lemma_mix_opaque(src.g, base.g);
    lemma_mix_opaque(src.b, base.b);
}

proof fn lemma_mix_opaque(src: u8, dst: u8)
    ensures
        mix(src, dst, 255) == src,
{
    assert(src * 255 + dst * (255 - 255) == src * 255) by (nonlinear_arith);
}

proof fn lemma_mix_clear(src: u8, dst: u8)
    ensures
        mix(src, dst, 0) == dst,
{
    assert(src * 0 + dst * (255 - 0) == dst * 255) by (nonlinear_arith);
}

/// A fully transparent source leaves the colour of any destination, black or
/// not, as it was; only the alpha takes the source's value.
pub proof fn lemma_clear_source_keeps_colour(dst: Tile, src: Tile)
    requires
        src.a == 0,
    ensures
        blend(dst, src) == (Tile { r: dst.r, g: dst.g, b: dst.b, a: 0 }),
{
    lemma_mix_clear(src.r, dst.r);
    lemma_mix_clear(src.g, dst.g);
    lemma_mix_clear(src.b, dst.b);
}

/// The number of sub-samples per pixel axis that `draw_triangle` takes.
pub const SAMPLES: u8 = 4;

/// Sample `(i, j)` of pixel `(x, y)` on an `n` by `n` sub-grid, the point
/// `(x + i / n, y + j / n)` in pixels, is covered by `t`: the triangle has area and the
/// point's three barycentric weights are all at least zero, so it lies inside or
/// on an edge. Edges are inclusive, so a sample exactly on an edge shared by two
/// triangles counts for both. Everything is scaled by `n` to stay whole.
pub open spec fn sample_covered<C>(t: Triangle<C>, n: int, x: int, y: int, i: int, j: int) -> bool {
    let a = scaled(t.corner(0), n);
    let b = scaled(t.corner(1), n);
    let c = scaled(t.corner(2), n);
    let w = bary_num(a, b, c, sample_point(n, x, y, i, j));
    cross(a, b, c) != 0 && w.0 >= 0 && w.1 >= 0 && w.2 >= 0
}

/// Sample `(i, j)` of pixel `(x, y)` in sub-pixel units, scaled by `n`.
pub open spec fn sample_point(n: int, x: int, y: int, i: int, j: int) -> (int, int) {
    ((16 * x) * n + 16 * i, (16 * y) * n + 16 * j)
}

/// How many of the first `k` samples of sub-row `j` are covered.
pub open spec fn row_hits<C>(t: Triangle<C>, n: int, x: int, y: int, j: int, k: int) -> nat
    decreases k,
{
    if k <= 0 {
        0
    } else {
        row_hits(t, n, x, y, j, k - 1) + if sample_covered(t, n, x, y, k - 1, j) {
            1nat
        } else {
            0nat
        }
    }
}

/// How many samples of the first `m` sub-rows are covered.
pub open spec fn hits<C>(t: Triangle<C>, n: int, x: int, y: int, m: int) -> nat
    decreases m,
{
    if m <= 0 {
        0
    } else {
        hits(t, n, x, y, m - 1) + row_hits(t, n, x, y, m - 1, n)
    }
}

/// How many of the `n * n` samples of pixel `(x, y)` the triangle covers.
pub open spec fn coverage<C>(t: Triangle<C>, n: int, x: int, y: int) -> nat {
    hits(t, n, x, y, n)
}

/// Pixel `(x, y)` meets the triangle's bounding box.
pub open spec fn in_box<C>(t: Triangle<C>, x: int, y: int) -> bool {
    t.min_x() / 16 <= x <= t.max_x() / 16 && t.min_y() / 16 <= y <= t.max_y() / 16
}

/// Where a pixel corner `offset` units past the box's low edge falls in a box
/// `extent` units long, from `0` to `255`, rounded down; `0` at or before the edge.
pub open spec fn box_coord(offset: int, extent: int) -> i32 {
    if extent <= 0 || offset <= 0 {
        0
    } else {
        (offset * 255 / extent) as i32
    }
}

/// The position of pixel `(x, y)`'s corner in the bounding box, each coordinate
/// running from `0` at the low edge to `255` at the high edge.
pub open spec fn uv_at<C>(t: Triangle<C>, x: int, y: int) -> Point {
    Point {
        x: box_coord(16 * x - t.min_x(), t.max_x() - t.min_x()),
        y: box_coord(16 * y - t.min_y(), t.max_y() - t.min_y()),
    }
}

/// The centre of pixel `(x, y)`, in sub-pixel units.
pub open spec fn pixel_centre(x: int, y: int) -> (int, int) {
    (16 * x + 8, 16 * y + 8)
}

/// The vertex attributes interpolated at the centre of pixel `(x, y)`.
pub open spec fn attributes_at<C>(t: Triangle<C>, x: int, y: int) -> Seq<i32> {
    let w = bary_num(t.corner(0), t.corner(1), t.corner(2), pixel_centre(x, y));
    let d = bary_den(t.corner(0), t.corner(1), t.corner(2));
    Seq::new(
        t.attribute_count(),
        |k: int|
            clamp_i32(
                (w.0 * t.attributes_of(0)[k] + w.1 * t.attributes_of(1)[k] + w.2 * t.attributes_of(
                    2,
                )[k]) / d,
            ),
    )
}

/// The colour of pixel `(x, y)` before coverage: the colorer's, or white.
pub open spec fn base_tile<C: TriColorer>(t: Triangle<C>, x: int, y: int) -> Tile {
    match t.colorer_spec() {
        Some(c) => c.shade(uv_at(t, x, y), attributes_at(t, x, y)),
        None => white(),
    }
}

/// The tile drawn at pixel `(x, y)`: its base colour, with the alpha scaled by
/// the share of covered samples.
pub open spec fn shaded<C: TriColorer>(t: Triangle<C>, n: int, x: int, y: int) -> Tile {
    let base = base_tile(t, x, y);
    Tile { r: base.r, g: base.g, b: base.b, a: (base.a * coverage(t, n, x, y) / (n * n)) as u8 }
}

/// What pixel `(x, y)`, holding `dst`, holds after the triangle is drawn: the
/// shaded tile composited onto it where the pixel is in the bounding box and at
/// least one sample is covered, else `dst` unchanged.
pub open spec fn pixel_after<C: TriColorer>(dst: Tile, t: Triangle<C>, n: int, x: int, y: int) -> Tile {
    if in_box(t, x, y) && coverage(t, n, x, y) > 0 {
        blend(dst, shaded(t, n, x, y))
    } else {
        dst
    }
}

/// The grid after drawing `t` with `n` by `n` samples per pixel.
pub open spec fn rasterized<C: TriColorer>(cells: Seq<Seq<Tile>>, t: Triangle<C>, n: int) -> Seq<
    Seq<Tile>,
> {
    Seq::new(
        cells.len(),
        |y: int| Seq::new(cells[y].len(), |x: int| pixel_after(cells[y][x], t, n, x, y)),
    )
}

/// A triangle whose bounding box misses the grid leaves every tile as it was.
pub proof fn lemma_offscreen_triangle_draws_nothing<C: TriColorer>(
    cells: Seq<Seq<Tile>>,
    t: Triangle<C>,
    n: int,
    width: int,
    height: int,
)
    requires
        shaped(cells, width, height),
        t.max_x() < 0 || t.min_x() >= 16 * width || t.max_y() < 0 || t.min_y() >= 16 * height,
    ensures
        rasterized(cells, t, n) == cells,
{
    assert forall|y: int| 0 <= y < height implies #[trigger] rasterized(cells, t, n)[y] == cells[y] by {
        assert(rasterized(cells, t, n)[y] =~= cells[y]);
    }
    assert(rasterized(cells, t, n) =~= cells);
}

proof fn lemma_row_hits_witness<C>(t: Triangle<C>, n: int, x: int, y: int, j: int, k: int)
    requires
        row_hits(t, n, x, y, j, k) > 0,
    ensures
        exists|i: int| 0 <= i < k && #[trigger] sample_covered(t, n, x, y, i, j),
    decreases k,
{
    if k > 0 && !sample_covered(t, n, x, y, k - 1, j) {
        lemma_row_hits_witness(t, n, x, y, j, k - 1);
    }
}

proof fn lemma_hits_witness<C>(t: Triangle<C>, n: int, x: int, y: int, m: int)
    requires
        hits(t, n, x, y, m) > 0,
    ensures
        exists|i: int, j: int| 0 <= i < n && 0 <= j < m && #[trigger] sample_covered(t, n, x, y, i, j),
    decreases m,
{
    if m > 0 {
        if row_hits(t, n, x, y, m - 1, n) > 0 {
            lemma_row_hits_witness(t, n, x, y, m - 1, n);
        } else {
            lemma_hits_witness(t, n, x, y, m - 1);
        }
    }
}

/// A sample of pixel `x` between `lo` and `hi` (scaled by `n`) puts the pixel
/// between the pixels of `lo` and `hi`.
proof fn lemma_sample_cell(n: int, x: int, i: int, lo: int, hi: int)
    requires
        n >= 1,
        0 <= i < n,
        lo * n <= (16 * x) * n + 16 * i <= hi * n,
    ensures
        lo / 16 <= x <= hi / 16,
{
    lemma_mul_is_distributive_add_other_way(n, 16 * x, 16);
    lemma_mul_inequality(i, n, 16);
    lemma_mul_is_commutative(i, 16);
    lemma_mul_is_commutative(n, 16);
    lemma_mul_inequality_converse(lo, 16 * x + 16, n);
    lemma_mul_inequality_converse(16 * x, hi, n);
    if lo == 16 * x + 16 {
        assert(lo * n == (16 * x) * n + 16 * n);
    }
}

/// A scaled corner lies between the scaled extremes.
proof fn lemma_scaled_between(v: int, lo: int, hi: int, n: int)
    requires
        lo <= v <= hi,
        n >= 1,
    ensures
        lo * n <= v * n <= hi * n,
{
    lemma_mul_inequality(lo, v, n);
    lemma_mul_inequality(v, hi, n);
}

/// A pixel with a covered sample lies in the triangle's bounding box.
pub proof fn lemma_covered_pixel_in_box<C>(t: Triangle<C>, n: int, x: int, y: int)
    requires
        n >= 1,
        coverage(t, n, x, y) > 0,
    ensures
        in_box(t, x, y),
{
    lemma_hits_witness(t, n, x, y, n);
    let (i, j) = choose|i: int, j: int|
        0 <= i < n && 0 <= j < n && #[trigger] sample_covered(t, n, x, y, i, j);
    let a = scaled(t.corner(0), n);
    let b = scaled(t.corner(1), n);
    let c = scaled(t.corner(2), n);
    lemma_covered_point_in_box(a, b, c, sample_point(n, x, y, i, j));
    lemma_scaled_between(t.corner(0).0, t.min_x(), t.max_x(), n);
    lemma_scaled_between(t.corner(1).0, t.min_x(), t.max_x(), n);
    lemma_scaled_between(t.corner(2).0, t.min_x(), t.max_x(), n);
    lemma_scaled_between(t.corner(0).1, t.min_y(), t.max_y(), n);
    lemma_scaled_between(t.corner(1).1, t.min_y(), t.max_y(), n);
    lemma_scaled_between(t.corner(2).1, t.min_y(), t.max_y(), n);
    lemma_sample_cell(n, x, i, t.min_x(), t.max_x());
    lemma_sample_cell(n, y, j, t.min_y(), t.max_y());
}

/// Scanning only the bounding box misses nothing: a pixel is drawn exactly when
/// one of its samples is covered.
pub proof fn lemma_box_scan_misses_nothing<C: TriColorer>(
    dst: Tile,
    t: Triangle<C>,
    n: int,
    x: int,
    y: int,
)
    requires
        n >= 1,
    ensures
        pixel_after(dst, t, n, x, y) == if coverage(t, n, x, y) > 0 {
            blend(dst, shaded(t, n, x, y))
        } else {
            dst
        },
{
    if coverage(t, n, x, y) > 0 {
        lemma_covered_pixel_in_box(t, n, x, y);
    }
}

proof fn lemma_row_hits_positive<C>(t: Triangle<C>, n: int, x: int, y: int, i: int, j: int, k: int)
    requires
        0 <= i < k,
        sample_covered(t, n, x, y, i, j),
    ensures
        row_hits(t, n, x, y, j, k) > 0,
    decreases k,
{
    if k - 1 > i {
        lemma_row_hits_positive(t, n, x, y, i, j, k - 1);
    }
}

proof fn lemma_hits_positive<C>(t: Triangle<C>, n: int, x: int, y: int, j: int, m: int)
    requires
        0 <= j < m,
        row_hits(t, n, x, y, j, n) > 0,
    ensures
        hits(t, n, x, y, m) > 0,
    decreases m,
{
    if m - 1 > j {
        lemma_hits_positive(t, n, x, y, j, m - 1);
    }
}

/// A pixel one of whose samples lies inside the triangle or on its edge has
/// positive coverage.
pub proof fn lemma_covered_sample_counts<C>(t: Triangle<C>, n: int, x: int, y: int, i: int, j: int)
    requires
        0 <= i < n,
        0 <= j < n,
        sample_covered(t, n, x, y, i, j),
    ensures
        coverage(t, n, x, y) > 0,
{
    lemma_row_hits_positive(t, n, x, y, i, j, n);
    lemma_hits_positive(t, n, x, y, j, n);
}

proof fn lemma_mix_white(a: u8)
    ensures
        mix(255, 255, a) == 255,
{
    assert(255 * a + 255 * (255 - a) == 255 * 255) by (nonlinear_arith);
}

/// With at most fifteen samples per axis, one covered sample gives a white
/// triangle's tile a visible alpha.
proof fn lemma_white_shade<C: TriColorer>(t: Triangle<C>, n: int, x: int, y: int)
    requires
        1 <= n <= 15,
        t.colorer_spec() is None,
        coverage(t, n, x, y) > 0,
    ensures
        shaded(t, n, x, y).r == 255 && shaded(t, n, x, y).g == 255 && shaded(t, n, x, y).b == 255,
        shaded(t, n, x, y).a > 0,
{
    let cov = coverage(t, n, x, y) as int;
    lemma_hits_bound(t, n, x, y, n);
    assert(n * n <= 255 * cov && 255 * cov <= 255 * (n * n) && n * n > 0) by (nonlinear_arith)
        requires
            1 <= n <= 15,
            1 <= cov <= n * n,
    ;
    lemma_div_is_ordered(n * n, 255 * cov, n * n);
    lemma_div_is_ordered(255 * cov, 255 * (n * n), n * n);
    lemma_div_multiples_vanish(1, n * n);
    lemma_div_multiples_vanish(255, n * n);
    lemma_mul_is_commutative(n * n, 255);
}

/// The colour of pixel `(x, y)` after drawing one white triangle onto the
/// background and then another: white where either covers a sample, else black.
proof fn lemma_two_white_pixel<C: TriColorer>(t1: Triangle<C>, t2: Triangle<C>, n: int, x: int, y: int)
    requires
        1 <= n <= 15,
        t1.colorer_spec() is None,
        t2.colorer_spec() is None,
    ensures
        ({
            let c = pixel_after(pixel_after(background(), t1, n, x, y), t2, n, x, y);
            (c.r, c.g, c.b) == if coverage(t1, n, x, y) > 0 || coverage(t2, n, x, y) > 0 {
                (255u8, 255u8, 255u8)
            } else {
                (0u8, 0u8, 0u8)
            }
        }),
{
    lemma_box_scan_misses_nothing(background(), t1, n, x, y);
    let first = pixel_after(background(), t1, n, x, y);
    lemma_box_scan_misses_nothing(first, t2, n, x, y);
    if coverage(t1, n, x, y) > 0 {
        lemma_white_shade(t1, n, x, y);
        lemma_mix_white(shaded(t1, n, x, y).a);
    }
    if coverage(t2, n, x, y) > 0 {
        lemma_white_shade(t2, n, x, y);
        lemma_mix_white(shaded(t2, n, x, y).a);
    }
}

/// Two triangles without colorers, drawn one after the other onto a grid of
/// background tiles, leave no gap: a pixel is white exactly where one of them
/// covers a sample of it, whichever triangle that is, and black elsewhere. In
/// particular two triangles that share an edge paint every pixel with a sample
/// in their union.
pub proof fn lemma_two_triangles_paint_their_union<C: TriColorer>(
    cells: Seq<Seq<Tile>>,
    t1: Triangle<C>,
    t2: Triangle<C>,
    n: int,
    width: int,
    height: int,
)
    requires
        shaped(cells, width, height),
        forall|y: int, x: int| 0 <= y < height && 0 <= x < width ==> cells[y][x] == background(),
        t1.colorer_spec() is None,
        t2.colorer_spec() is None,
        1 <= n <= 15,
    ensures
        forall|y: int, x: int|
            0 <= y < height && 0 <= x < width ==> {
                let c = #[trigger] rasterized(rasterized(cells, t1, n), t2, n)[y][x];
                (c.r, c.g, c.b) == if coverage(t1, n, x, y) > 0 || coverage(t2, n, x, y) > 0 {
                    (255u8, 255u8, 255u8)
                } else {
                    (0u8, 0u8, 0u8)
                }
            },
{
    assert forall|y: int, x: int| 0 <= y < height && 0 <= x < width implies {
        let c = #[trigger] rasterized(rasterized(cells, t1, n), t2, n)[y][x];
        (c.r, c.g, c.b) == if coverage(t1, n, x, y) > 0 || coverage(t2, n, x, y) > 0 {
            (255u8, 255u8, 255u8)
        } else {
            (0u8, 0u8, 0u8)
        }
    } by {
        lemma_two_white_pixel(t1, t2, n, x, y);
    }
}

proof fn lemma_row_hits_bound<C>(t: Triangle<C>, n: int, x: int, y: int, j: int, k: int)
    requires
        k >= 0,
    ensures
        row_hits(t, n, x, y, j, k) <= k,
    decreases k,
{
    if k > 0 {
        lemma_row_hits_bound(t, n, x, y, j, k - 1);
    }
}

proof fn lemma_hits_bound<C>(t: Triangle<C>, n: int, x: int, y: int, m: int)
    requires
        m >= 0,
        n >= 0,
    ensures
        hits(t, n, x, y, m) <= m * n,
    decreases m,
{
    if m > 0 {
        lemma_hits_bound(t, n, x, y, m - 1);
        lemma_row_hits_bound(t, n, x, y, m - 1, n);
        assert((m - 1) * n + n == m * n) by (nonlinear_arith);
    }
}

proof fn lemma_scale_bound(v: int, n: int)
    requires
        i32::MIN <= v <= i32::MAX,
        1 <= n <= 255,
    ensures
        -0x80_0000_0000 <= v * n <= 0x80_0000_0000,
{
    assert(-0x80_0000_0000 <= v * n <= 0x80_0000_0000) by (nonlinear_arith)
        requires
            -0x8000_0000 <= v <= 0x7fff_ffff,
            1 <= n <= 255,
    ;
}

/// Corner `i` of `t`, scaled by `n`.
fn scaled_corner<C>(t: &Triangle<C>, i: usize, n: u8) -> (r: (i64, i64))
    requires
        i < 3,
        1 <= n,
    ensures
        (r.0 as int, r.1 as int) == scaled(t.corner(i as int), n as int),
        -0x80_0000_0000 <= r.0 <= 0x80_0000_0000,
        -0x80_0000_0000 <= r.1 <= 0x80_0000_0000,
{
    let p = t.get_point(i);
    proof {
        lemma_scale_bound(p.x as int, n as int);
        lemma_scale_bound(p.y as int, n as int);
    }
    (p.x as i64 * n as i64, p.y as i64 * n as i64)
}

/// Whether sample `(i, j)` of pixel `(x, y)` is covered.
fn sample_hit<C>(t: &Triangle<C>, n: u8, x: usize, y: usize, i: u8, j: u8) -> (r: bool)
    requires
        1 <= n,
        16 * x <= i32::MAX,
        16 * y <= i32::MAX,
    ensures
        r == sample_covered(*t, n as int, x as int, y as int, i as int, j as int),
{
    let a = scaled_corner(t, 0, n);
    let b = scaled_corner(t, 1, n);
    let c = scaled_corner(t, 2, n);
    proof {
        lemma_scale_bound(16 * x, n as int);
        lemma_scale_bound(16 * y, n as int);
    }
    let p = (
        (16 * x as i64) * n as i64 + 16 * i as i64,
        (16 * y as i64) * n as i64 + 16 * j as i64,
    );
    match bary_weights(a, b, c, p) {
        Some(w) => w.w0 >= 0 && w.w1 >= 0 && w.w2 >= 0,
        None => false,
    }
}

/// How many samples of pixel `(x, y)` the triangle covers.
fn coverage_count<C>(t: &Triangle<C>, n: u8, x: usize, y: usize) -> (c: u32)
    requires
        1 <= n,
        16 * x <= i32::MAX,
        16 * y <= i32::MAX,
    ensures
        c == coverage(*t, n as int, x as int, y as int),
        c <= n * n,
{
    let mut count: u32 = 0;
    let mut j: u8 = 0;
    while j < n
        invariant
            j <= n,
            1 <= n,
            16 * x <= i32::MAX,
            16 * y <= i32::MAX,
            count == hits(*t, n as int, x as int, y as int, j as int),
            count <= 255 * j,
        decreases n - j,
    {
        let mut i: u8 = 0;
        while i < n
            invariant
                i <= n,
                j < n,
                1 <= n,
                16 * x <= i32::MAX,
                16 * y <= i32::MAX,
                count == hits(*t, n as int, x as int, y as int, j as int) + row_hits(
                    *t,
                    n as int,
                    x as int,
                    y as int,
                    j as int,
                    i as int,
                ),
                count <= 255 * j + i,
            decreases n - i,
        {
            if sample_hit(t, n, x, y, i, j) {
                count = count + 1;
            }
            i = i + 1;
        }
        j = j + 1;
    }
    proof {
        lemma_hits_bound(*t, n as int, x as int, y as int, n as int);
    }
    count
}

/// The corners of the bounding box: lowest x, highest x, lowest y, highest y,
/// read through the triangle's extremes.
fn box_of<C>(t: &Triangle<C>) -> (r: (i32, i32, i32, i32))
    requires
        t.wf(),
    ensures
        r.0 == t.min_x(),
        r.1 == t.max_x(),
        r.2 == t.min_y(),
        r.3 == t.max_y(),
{
    proof {
        lemma_extreme_index(t.corner(0).0, t.corner(1).0, t.corner(2).0, false);
        lemma_extreme_index(t.corner(0).0, t.corner(1).0, t.corner(2).0, true);
        lemma_extreme_index(t.corner(0).1, t.corner(1).1, t.corner(2).1, false);
        lemma_extreme_index(t.corner(0).1, t.corner(1).1, t.corner(2).1, true);
    }
    let lo_x = t.get_point(t.lowest_x().index as usize).x;
    let hi_x = t.get_point(t.highest_x().index as usize).x;
    let lo_y = t.get_point(t.lowest_y().index as usize).y;
    let hi_y = t.get_point(t.highest_y().index as usize).y;
    (lo_x, hi_x, lo_y, hi_y)
}

/// `(offset * 255) / extent`, for an offset within the extent.
fn box_fraction(offset: i64, extent: i64) -> (r: i32)
    requires
        0 <= offset <= extent,
        0 < extent <= u32::MAX,
    ensures
        r == (offset * 255 / (extent as int)) as i32,
        0 <= r <= 255,
{
    proof {
        lemma_mul_inequality(offset as int, extent as int, 255);
        lemma_div_is_ordered(offset * 255, extent * 255, extent as int);
        lemma_mul_is_commutative(extent as int, 255);
        lemma_div_multiples_vanish(255, extent as int);
        assert(0 <= offset * 255) by (nonlinear_arith)
            requires
                0 <= offset,
        ;
    }
    (offset * 255 / extent) as i32
}

/// The colour of pixel `(x, y)` before coverage: the colorer's, or white.
fn base_color<C: TriColorer>(t: &Triangle<C>, x: usize, y: usize) -> (r: Tile)
    requires
        t.wf(),
        t.signed_area2() != 0,
        in_box(*t, x as int, y as int),
    ensures
        r == base_tile(*t, x as int, y as int),
{
    match t.colorer() {
        None => Tile { r: 255, g: 255, b: 255, a: 255 },
        Some(c) => {
            let (lo_x, hi_x, lo_y, hi_y) = box_of(t);
            let w: i64 = hi_x as i64 - lo_x as i64;
            let h: i64 = hi_y as i64 - lo_y as i64;
            let du: i64 = 16 * (x as i64) - lo_x as i64;
            let dv: i64 = 16 * (y as i64) - lo_y as i64;
            let u: i32 = if w > 0 && du > 0 {
                box_fraction(du, w)
            } else {
                0
            };
            let v: i32 = if h > 0 && dv > 0 {
                box_fraction(dv, h)
            } else {
                0
            };
            let uv = Point { x: u, y: v };
            let a = scaled_corner(t, 0, 1);
            let b = scaled_corner(t, 1, 1);
            let cc = scaled_corner(t, 2, 1);
            let centre = (16 * (x as i64) + 8, 16 * (y as i64) + 8);
            let weights = bary_weights(a, b, cc, centre).unwrap();
            let attrs = t.interpolate(&weights);
            assert(attrs@ =~= attributes_at(*t, x as int, y as int));
            assert(uv == uv_at(*t, x as int, y as int));
            c.color(uv, attrs.as_slice())
        },
    }
}

/// A grid of `height` rows of `width` tiles each.
pub open spec fn shaped(cells: Seq<Seq<Tile>>, width: int, height: int) -> bool {
    &&& cells.len() == height
    &&& forall|y: int| 0 <= y < height ==> #[trigger] cells[y].len() == width
}

/// A fixed-size grid of tiles; row `y` holds the tiles of pixel row `y`.
pub struct FrameBuffer {
    content: Vec<Vec<Tile>>,
    width: usize,
    height: usize,
}

impl View for FrameBuffer {
    type V = Seq<Seq<Tile>>;

    closed spec fn view(&self) -> Seq<Seq<Tile>> {
        Seq::new(self.content@.len(), |y: int| self.content@[y]@)
    }
}

impl FrameBuffer {
    pub closed spec fn spec_width(&self) -> nat {
        self.width as nat
    }

    pub closed spec fn spec_height(&self) -> nat {
        self.height as nat
    }

    proof fn lemma_row(&self, y: int)
        requires
            self.wf(),
            0 <= y < self.spec_height(),
        ensures
            self.content@.len() == self.spec_height(),
            self.content@[y]@ == self@[y],
            self.content@[y]@.len() == self.spec_width(),
    {
        assert(self@[y].len() == self.spec_width());
    }

    /// The grid has the buffer's dimensions.
    pub open spec fn wf(&self) -> bool {
        shaped(self@, self.spec_width() as int, self.spec_height() as int)
    }

    /// A buffer of `width` by `height` tiles, all of them the background.
    pub fn new(width: usize, height: usize) -> (fb: FrameBuffer)
        ensures
            fb.wf(),
            fb.spec_width() == width,
            fb.spec_height() == height,
            forall|y: int, x: int| 0 <= y < height && 0 <= x < width ==> fb@[y][x] == background(),
    {
        FrameBuffer { content: background_grid(width, height), width, height }
    }

    /// A buffer that fills a display of `columns` by `rows` character cells, as the
    /// display reported them: each tile takes two columns, and a border and a line
    /// of text are left around it. A display that could not report its size
    /// yields `DisplaySinkUnavailable`.
    pub fn from_display_size(size: Option<(u16, u16)>) -> (r: Result<FrameBuffer, RasterError>)
        ensures
            size is None <==> r is Err,
            r matches Err(e) ==> e == RasterError::DisplaySinkUnavailable,
            r matches Ok(fb) ==> {
                let (columns, rows) = size.unwrap();
                &&& fb.wf()
                &&& fb.spec_width() == if columns / 2 >= 2 { columns / 2 - 2 } else { 0 }
                &&& fb.spec_height() == if rows >= 4 { rows - 4 } else { 0 }
                &&& forall|y: int, x: int|
                    0 <= y < fb.spec_height() && 0 <= x < fb.spec_width() ==> fb@[y][x]
                        == background()
            },
    {
        match size {
            None => Err(RasterError::DisplaySinkUnavailable),
            Some((columns, rows)) => {
                let half: u16 = columns / 2;
                let width: usize = if half >= 2 {
                    (half - 2) as usize
                } else {
                    0
                };
                let height: usize = if rows >= 4 {
                    (rows - 4) as usize
                } else {
                    0
                };
                Ok(FrameBuffer::new(width, height))
            },
        }
    }

    pub fn get_width(&self) -> (r: usize)
        ensures
            r == self.spec_width(),
    {
        self.width
    }

    pub fn get_height(&self) -> (r: usize)
        ensures
            r == self.spec_height(),
    {
        self.height
    }

    /// The tile at column `x` of row `y`, or `None` outside the grid.
    pub fn get_tile(&self, x: usize, y: usize) -> (r: Option<Tile>)
        requires
            self.wf(),
        ensures
            r is Some <==> x < self.spec_width() && y < self.spec_height(),
            r matches Some(t) ==> t == self@[y as int][x as int],
    {
        if y < self.height && x < self.width {
            proof {
                self.lemma_row(y as int);
            }
            Some(self.content[y][x])
        } else {
            None
        }
    }

    /// The grid as a display shows it: the top row (the highest `y`) first, each
    /// tile reduced to its red, green and blue.
    pub fn display_rows(&self) -> (r: Vec<Vec<(u8, u8, u8)>>)
        requires
            self.wf(),
        ensures
            r@.len() == self.spec_height(),
            forall|i: int|
                #![trigger r@[i]]
                0 <= i < self.spec_height() ==> r@[i]@.len() == self.spec_width(),
            forall|i: int, x: int|
                0 <= i < self.spec_height() && 0 <= x < self.spec_width() ==> {
                    let t = self@[self.spec_height() - 1 - i][x];
                    #[trigger] r@[i]@[x] == (t.r, t.g, t.b)
                },
    {
        let mut rows: Vec<Vec<(u8, u8, u8)>> = Vec::new();
        let mut i: usize = 0;
        while i < self.height
            invariant
                self.wf(),
                i <= self.spec_height(),
                rows@.len() == i,
                forall|k: int| #![trigger rows@[k]] 0 <= k < i ==> rows@[k]@.len() == self.spec_width(),
                forall|k: int, x: int|
                    0 <= k < i && 0 <= x < self.spec_width() ==> {
                        let t = self@[self.spec_height() - 1 - k][x];
                        #[trigger] rows@[k]@[x] == (t.r, t.g, t.b)
                    },
            decreases self.spec_height() - i,
        {
            let y = self.height - 1 - i;
            proof {
                self.lemma_row(y as int);
            }
            let mut row: Vec<(u8, u8, u8)> = Vec::new();
            for x in 0..self.width
                invariant
                    self.wf(),
                    y < self.spec_height(),
                    self.content@[y as int]@ == self@[y as int],
                    self.content@[y as int]@.len() == self.spec_width(),
                    row@.len() == x,
                    forall|j: int|
                        0 <= j < x ==> {
                            let t = self@[y as int][j];
                            #[trigger] row@[j] == (t.r, t.g, t.b)
                        },
            {
                let t = self.content[y][x];
                row.push((t.r, t.g, t.b));
            }
            rows.push(row);
            i = i + 1;
        }
        rows
    }

    /// Stores `t` at column `x` of row `y`.
    fn set_tile(&mut self, x: usize, y: usize, t: Tile)
        requires
            old(self).wf(),
            x < old(self).spec_width(),
            y < old(self).spec_height(),
        ensures
            final(self).wf(),
            final(self).spec_width() == old(self).spec_width(),
            final(self).spec_height() == old(self).spec_height(),
            final(self)@ == old(self)@.update(y as int, old(self)@[y as int].update(x as int, t)),
    {
        proof {
            self.lemma_row(y as int);
        }
        self.content[y][x] = t;
        assert(self@ =~= old(self)@.update(y as int, old(self)@[y as int].update(x as int, t)));
    }

    /// Composites `tile` onto the pixel that holds `point`; a point outside the
    /// grid is ignored. The test uses the point's sub-pixel coordinates.
    pub fn draw_point(&mut self, point: &Point, tile: Tile)
        requires
            old(self).wf(),
        ensures
            final(self).wf(),
            final(self).spec_width() == old(self).spec_width(),
            final(self).spec_height() == old(self).spec_height(),
            final(self)@ == if 0 <= point.x < 16 * old(self).spec_width() && 0 <= point.y < 16
                * old(self).spec_height() {
                old(self)@.update(
                    point.y / 16,
                    old(self)@[point.y / 16].update(
                        point.x / 16,
                        blend(old(self)@[point.y / 16][point.x / 16], tile),
                    ),
                )
            } else {
                old(self)@
            },
    {
        if point.x < 0 || point.y < 0 {
            return;
        }
        let x = (point.x / 16) as usize;
        let y = (point.y / 16) as usize;
        if x >= self.width || y >= self.height {
            return;
        }
        proof {
            self.lemma_row(y as int);
        }
        let blended = blend_tiles(self.content[y][x], tile);
        self.set_tile(x, y, blended);
    }

    /// Draws pixel `(x, y)` of the triangle.
    fn render_pixel<C: TriColorer>(&mut self, t: &Triangle<C>, n: u8, x: usize, y: usize)
        requires
            old(self).wf(),
            t.wf(),
            t.signed_area2() != 0,
            1 <= n,
            x < old(self).spec_width(),
            y < old(self).spec_height(),
            in_box(*t, x as int, y as int),
        ensures
            final(self).wf(),
            final(self).spec_width() == old(self).spec_width(),
            final(self).spec_height() == old(self).spec_height(),
            final(self)@ == old(self)@.update(
                y as int,
                old(self)@[y as int].update(
                    x as int,
                    pixel_after(old(self)@[y as int][x as int], *t, n as int, x as int, y as int),
                ),
            ),
    {
        proof {
            self.lemma_row(y as int);
        }
        let covered = coverage_count(t, n, x, y);
        if covered == 0 {
            assert(old(self)@[y as int].update(x as int, old(self)@[y as int][x as int]) =~= old(
                self,
            )@[y as int]);
            assert(self@ =~= old(self)@.update(
                y as int,
                old(self)@[y as int].update(x as int, old(self)@[y as int][x as int]),
            ));
            return;
        }
        let base = base_color(t, x, y);
        assert(n * n <= 65025) by (nonlinear_arith)
            requires
                n <= 255,
        ;
        let full: u32 = n as u32 * n as u32;
        proof {
            lemma_mul_inequality(covered as int, full as int, base.a as int);
            lemma_mul_is_commutative(covered as int, base.a as int);
            lemma_mul_is_commutative(full as int, base.a as int);
            lemma_div_is_ordered(base.a * covered, base.a * full, full as int);
            lemma_div_multiples_vanish(base.a as int, full as int);
            lemma_mul_is_commutative(full as int, base.a as int);
            assert(base.a * covered <= 255 * 65025) by (nonlinear_arith)
                requires
                    base.a <= 255,
                    covered <= full,
                    full == n * n,
                    n <= 255,
            ;
        }
        let alpha: u32 = (base.a as u32 * covered) / full;
        let tile = Tile { r: base.r, g: base.g, b: base.b, a: alpha as u8 };
        let blended = blend_tiles(self.content[y][x], tile);
        self.set_tile(x, y, blended);
    }

    /// Rasterizes `triangle` with the default `SAMPLES` by `SAMPLES` sub-samples
    /// per pixel.
    pub fn draw_triangle<C: TriColorer>(&mut self, triangle: &Triangle<C>) -> (r: Result<
        (),
        RasterError,
    >)
        requires
            old(self).wf(),
            triangle.wf(),
        ensures
            final(self).wf(),
            final(self).spec_width() == old(self).spec_width(),
            final(self).spec_height() == old(self).spec_height(),
            triangle.signed_area2() == 0 ==> r == Err::<(), RasterError>(
                RasterError::DegenerateTriangle,
            ) && final(self)@ == old(self)@,
            triangle.signed_area2() != 0 ==> r == Ok::<(), RasterError>(()) && final(self)@
                == rasterized(old(self)@, *triangle, SAMPLES as int),
    {
        self.draw_triangle_sampled(triangle, SAMPLES)
    }

    /// Rasterizes `triangle` with `samples` by `samples` sub-samples per pixel.
    /// Every pixel of the bounding box that lies in the grid and has a covered
    /// sample gets the triangle's colour, its alpha scaled by the covered share,
    /// composited onto it. A triangle without area draws nothing and yields
    /// `DegenerateTriangle`.
    pub fn draw_triangle_sampled<C: TriColorer>(
        &mut self,
        triangle: &Triangle<C>,
        samples: u8,
    ) -> (r: Result<(), RasterError>)
        requires
            old(self).wf(),
            triangle.wf(),
            1 <= samples,
        ensures
            final(self).wf(),
            final(self).spec_width() == old(self).spec_width(),
            final(self).spec_height() == old(self).spec_height(),
            triangle.signed_area2() == 0 ==> r == Err::<(), RasterError>(
                RasterError::DegenerateTriangle,
            ) && final(self)@ == old(self)@,
            triangle.signed_area2() != 0 ==> r == Ok::<(), RasterError>(()) && final(self)@
                == rasterized(old(self)@, *triangle, samples as int),
    {
        let first = triangle.get_point(0);
        if let Err(e) = triangle.calc_weights(&first) {
            return Err(e);
        }
        let ghost start = self@;
        let ghost n = samples as int;
        let ghost t = *triangle;
        let (lo_x, hi_x, lo_y, hi_y) = box_of(triangle);
        if hi_x < 0 || hi_y < 0 || (lo_x >= 0 && (lo_x / 16) as usize >= self.width) || (
        lo_y >= 0 && (lo_y / 16) as usize >= self.height) {
            proof {
                lemma_offscreen_triangle_draws_nothing(
                    start,
                    t,
                    n,
                    self.spec_width() as int,
                    self.spec_height() as int,
                );
            }
            return Ok(());
        }
        let x_start: usize = if lo_x < 0 {
            0
        } else {
            (lo_x / 16) as usize
        };
        let x_stop: usize = if ((hi_x / 16) as usize) < self.width {
            (hi_x / 16) as usize + 1
        } else {
            self.width
        };
        let y_start: usize = if lo_y < 0 {
            0
        } else {
            (lo_y / 16) as usize
        };
        let y_stop: usize = if ((hi_y / 16) as usize) < self.height {
            (hi_y / 16) as usize + 1
        } else {
            self.height
        };
        let mut y = y_start;
        while y < y_stop
            invariant
                self.wf(),
                self.spec_width() == old(self).spec_width(),
                self.spec_height() == old(self).spec_height(),
                start == old(self)@,
                shaped(start, self.spec_width() as int, self.spec_height() as int),
                t == *triangle,
                n == samples as int,
                1 <= samples,
                t.wf(),
                t.signed_area2() != 0,
                x_start <= x_stop <= self.spec_width(),
                x_start == 0 || x_start == t.min_x() / 16,
                x_start >= t.min_x() / 16,
                x_stop == self.spec_width() || x_stop == t.max_x() / 16 + 1,
                x_stop <= t.max_x() / 16 + 1,
                y_start <= y <= y_stop <= self.spec_height(),
                y_start == 0 || y_start == t.min_y() / 16,
                y_start >= t.min_y() / 16,
                y_stop == self.spec_height() || y_stop == t.max_y() / 16 + 1,
                y_stop <= t.max_y() / 16 + 1,
                forall|yy: int, xx: int|
                    0 <= yy < self.spec_height() && 0 <= xx < self.spec_width() ==> #[trigger] self@[yy][xx]
                        == if yy < y {
                        pixel_after(start[yy][xx], t, n, xx, yy)
                    } else {
                        start[yy][xx]
                    },
            decreases y_stop - y,
        {
            let mut x = x_start;
            while x < x_stop
                invariant
                    self.wf(),
                    self.spec_width() == old(self).spec_width(),
                    self.spec_height() == old(self).spec_height(),
                    start == old(self)@,
                    shaped(start, self.spec_width() as int, self.spec_height() as int),
                    t == *triangle,
                    n == samples as int,
                    1 <= samples,
                    t.wf(),
                    t.signed_area2() != 0,
                    x_start <= x <= x_stop <= self.spec_width(),
                    x_start >= t.min_x() / 16,
                    x_stop <= t.max_x() / 16 + 1,
                    y_start <= y < y_stop <= self.spec_height(),
                    y_start >= t.min_y() / 16,
                    y_stop <= t.max_y() / 16 + 1,
                    forall|yy: int, xx: int|
                        0 <= yy < self.spec_height() && 0 <= xx < self.spec_width()
                            ==> #[trigger] self@[yy][xx] == if yy < y || (yy == y && xx < x) {
                            pixel_after(start[yy][xx], t, n, xx, yy)
                        } else {
                            start[yy][xx]
                        },
                decreases x_stop - x,
            {
                self.render_pixel(triangle, samples, x, y);
                x = x + 1;
            }
            y = y + 1;
        }
        proof {
            assert forall|yy: int| 0 <= yy < self.spec_height() implies #[trigger] self@[yy]
                == rasterized(start, t, n)[yy] by {
                assert(self@[yy] =~= rasterized(start, t, n)[yy]);
            }
            assert(self@ =~= rasterized(start, t, n));
        }
        Ok(())
    }

    /// Resets every tile to the background.
    pub fn clear_buffer(&mut self)
        requires
            old(self).wf(),
        ensures
            final(self).wf(),
            final(self).spec_width() == old(self).spec_width(),
            final(self).spec_height() == old(self).spec_height(),
            forall|y: int, x: int|
                0 <= y < final(self).spec_height() && 0 <= x < final(self).spec_width()
                    ==> final(self)@[y][x] == background(),
    {
        self.content = background_grid(self.width, self.height);
    }
}

/// `height` rows of `width` background tiles.
fn background_grid(width: usize, height: usize) -> (g: Vec<Vec<Tile>>)
    ensures
        g@.len() == height,
        forall|y: int| 0 <= y < height ==> #[trigger] g@[y]@.len() == width,
        forall|y: int, x: int| 0 <= y < height && 0 <= x < width ==> g@[y]@[x] == background(),
{
    let mut row: Vec<Tile> = Vec::new();
    for x in 0..width
        invariant
            row@.len() == x,
            forall|i: int| 0 <= i < x ==> row@[i] == background(),
    {
        row.push(Tile { r: 0, g: 0, b: 0, a: 255 });
    }
    let mut grid: Vec<Vec<Tile>> = Vec::new();
    for y in 0..height
        invariant
            row@.len() == width,
            forall|i: int| 0 <= i < width ==> row@[i] == background(),
            grid@.len() == y,
            forall|j: int| 0 <= j < y ==> #[trigger] grid@[j]@ == row@,
    {
        grid.push(row.clone());
    }
    grid
}

} // verus!
