use vstd::prelude::*;
use vstd::arithmetic::div_mod::{lemma_div_is_ordered, lemma_fundamental_div_mod, lemma_fundamental_div_mod_converse};
use crate::bitmap::Dimensions;
use crate::color::Rgba8;
use crate::composite::{composited, resampled, lemma_transparent_overlay_keeps_page};

verus! {

/// A point or direction in world space, in fixed-point units.
#[derive(Clone, Copy, PartialEq, Eq, Structural, Debug)]
pub struct Vec3 {
    pub x: i32,
    pub y: i32,
    pub z: i32,
}

/// A vertex of a lightmap page's mesh: where it lies on the page, in units of
/// 1/65536 of the page's width and height, and its world position and normal.
#[derive(Clone, Copy, PartialEq, Eq, Structural, Debug)]
pub struct Vert {
    pub u: u32,
    pub v: u32,
    pub world_pos: Vec3,
    pub world_normal: Vec3,
}

/// What every page of one run is shaded with: the spawn points, the overlay
/// color, whether only walkable surfaces are shaded, the distance from a
/// spawn, in world units, at which its contribution reaches zero, and the
/// steepest walkable slope, as rise over run in percent (100 is 45 degrees).
pub struct RandomsScene {
    pub spawns: Vec<Vec3>,
    pub color: Rgba8,
    pub walkable_only: bool,
    pub radius: u32,
    pub max_slope: u16,
}

/// The slope, in percent, of a 45 degree surface.
pub const SLOPE_45_DEGREES: u16 = 100;

#[derive(Clone, Copy, PartialEq, Eq, Structural, Debug)]
pub enum RenderError {
    /// More spawn points than the scene can hold.
    TooManySpawns,
    /// A triangle refers to a vertex that does not exist.
    BadIndex,
    /// A vertex lies outside the page's texture space.
    VertexOutOfRange,
}

/// The most spawn points a scene holds.
pub const MAX_SPAWNS: usize = 256;

/// The page-space coordinate that stands for 1.0.
pub const UV_ONE: u32 = 65536;

pub open spec fn clear() -> Rgba8 {
    Rgba8 { r: 0, g: 0, b: 0, a: 0 }
}

/// A texture coordinate on a page `n` pixels wide, in 1/16 pixel.
pub open spec fn to_sub(u: u32, n: u16) -> int {
    (u as int * n as int) / 4096
}

/// The center of pixel `x`, in 1/16 pixel.
pub open spec fn center(x: int) -> int {
    16 * x + 8
}

/// Twice the signed area of the triangle (a, b, p).
pub open spec fn edge(ax: int, ay: int, bx: int, by: int, px: int, py: int) -> int {
    (bx - ax) * (py - ay) - (by - ay) * (px - ax)
}

pub open spec fn min3(a: int, b: int, c: int) -> int {
    if a <= b && a <= c {
        a
    } else if b <= c {
        b
    } else {
        c
    }
}

pub open spec fn max3(a: int, b: int, c: int) -> int {
    if a >= b && a >= c {
        a
    } else if b >= c {
        b
    } else {
        c
    }
}

/// A triangle's corners on a page of dimensions `d`, in 1/16 pixel.
pub open spec fn corners(a: Vert, b: Vert, c: Vert, d: Dimensions) -> (int, int, int, int, int, int) {
    (to_sub(a.u, d.w), to_sub(a.v, d.h), to_sub(b.u, d.w), to_sub(b.v, d.h), to_sub(c.u, d.w), to_sub(c.v, d.h))
}

/// The three edge functions at the center of pixel (`x`, `y`), each weighing
/// the corner opposite its edge, and twice the triangle's signed area.
pub open spec fn edges(a: Vert, b: Vert, c: Vert, d: Dimensions, x: int, y: int) -> (int, int, int, int) {
    let (ax, ay, bx, by, cx, cy) = corners(a, b, c, d);
    let px = center(x);
    let py = center(y);
    (edge(bx, by, cx, cy, px, py), edge(cx, cy, ax, ay, px, py), edge(ax, ay, bx, by, px, py), edge(ax, ay, bx, by, cx, cy))
}

pub open spec fn in_bounds(a: Vert, b: Vert, c: Vert, d: Dimensions, x: int, y: int) -> bool {
    let (ax, ay, bx, by, cx, cy) = corners(a, b, c, d);
    &&& min3(ax, bx, cx) <= center(x) <= max3(ax, bx, cx)
    &&& min3(ay, by, cy) <= center(y) <= max3(ay, by, cy)
}

/// The triangle covers the center of pixel (`x`, `y`): it has an area, and
/// the center lies on the inner side of its three edges or on one of them.
pub open spec fn covers(a: Vert, b: Vert, c: Vert, d: Dimensions, x: int, y: int) -> bool {
    let (e0, e1, e2, area) = edges(a, b, c, d, x, y);
    &&& area != 0
    &&& in_bounds(a, b, c, d, x, y)
    &&& area > 0 ==> e0 >= 0 && e1 >= 0 && e2 >= 0
    &&& area < 0 ==> e0 <= 0 && e1 <= 0 && e2 <= 0
}

/// The edge functions with the sign that makes them the barycentric weights.
pub open spec fn weights(e0: int, e1: int, e2: int, area: int) -> (int, int, int) {
    if area > 0 {
        (e0, e1, e2)
    } else {
        (-e0, -e1, -e2)
    }
}

/// The offset that makes every `i32` coordinate non-negative.
pub open spec fn shift() -> int {
    0x8000_0000
}

/// The weighted mean of three coordinates, rounded down.
pub open spec fn interp(p0: i32, p1: i32, p2: i32, w0: int, w1: int, w2: int) -> int {
    (w0 * (p0 + shift()) + w1 * (p1 + shift()) + w2 * (p2 + shift())) / (w0 + w1 + w2) - shift()
}

pub open spec fn interp3(a: Vec3, b: Vec3, c: Vec3, w: (int, int, int)) -> (int, int, int) {
    (interp(a.x, b.x, c.x, w.0, w.1, w.2), interp(a.y, b.y, c.y, w.0, w.1, w.2), interp(a.z, b.z, c.z, w.0, w.1, w.2))
}

pub open spec fn dist2(p: (int, int, int), s: Vec3) -> int {
    (p.0 - s.x) * (p.0 - s.x) + (p.1 - s.y) * (p.1 - s.y) + (p.2 - s.z) * (p.2 - s.z)
}

/// How strongly a spawn at squared distance `d2` shades, out of 255: full at
/// the spawn, falling as the distance grows, and zero from `radius` on.
pub open spec fn falloff(d2: int, radius: int) -> int {
    if d2 >= radius * radius {
        0
    } else {
        255 * (radius * radius - d2) / (radius * radius)
    }
}

/// The strongest contribution of any spawn at point `p`.
pub open spec fn strongest(spawns: Seq<Vec3>, p: (int, int, int), radius: int) -> int
    decreases spawns.len(),
{
    if spawns.len() == 0 {
        0
    } else {
        let rest = strongest(spawns.drop_last(), p, radius);
        let here = falloff(dist2(p, spawns.last()), radius);
        if here > rest {
            here
        } else {
            rest
        }
    }
}

/// A surface with this normal faces up and rises at most `slope` percent of
/// its run: the horizontal part of the normal is at most `slope / 100` of its
/// vertical part.
pub open spec fn walkable(n: (int, int, int), slope: int) -> bool {
    n.2 > 0 && 10000 * (n.0 * n.0 + n.1 * n.1) <= slope * slope * (n.2 * n.2)
}

/// The overlay color of a pixel whose center the triangle covers.
pub open spec fn shade(
    a: Vert,
    b: Vert,
    c: Vert,
    d: Dimensions,
    x: int,
    y: int,
    scene: RandomsScene,
) -> Rgba8 {
    let (e0, e1, e2, area) = edges(a, b, c, d, x, y);
    let w = weights(e0, e1, e2, area);
    let pos = interp3(a.world_pos, b.world_pos, c.world_pos, w);
    let n = interp3(a.world_normal, b.world_normal, c.world_normal, w);
    let k = if scene.walkable_only && !walkable(n, scene.max_slope as int) {
        0
    } else {
        strongest(scene.spawns@, pos, scene.radius as int)
    };
    Rgba8 { r: scene.color.r, g: scene.color.g, b: scene.color.b, a: (scene.color.a * k / 255) as u8 }
}

/// Pixel `q` of the buffer after drawing the triangle over `prev`.
pub open spec fn step(
    prev: Seq<Rgba8>,
    a: Vert,
    b: Vert,
    c: Vert,
    d: Dimensions,
    scene: RandomsScene,
    q: int,
) -> Rgba8 {
    if covers(a, b, c, d, q % (d.w as int), q / (d.w as int)) {
        shade(a, b, c, d, q % (d.w as int), q / (d.w as int), scene)
    } else {
        prev[q]
    }
}

pub open spec fn tri_vert(verts: Seq<Vert>, indices: Seq<u16>, t: int, k: int) -> Vert {
    verts[indices[3 * t + k] as int]
}

/// The overlay after drawing the first `t` triangles, row by row; a later
/// triangle paints over an earlier one.
pub open spec fn raster(
    verts: Seq<Vert>,
    indices: Seq<u16>,
    d: Dimensions,
    scene: RandomsScene,
    t: int,
) -> Seq<Rgba8>
    decreases t,
{
    if t <= 0 {
        Seq::new((d.w * d.h) as nat, |q: int| clear())
    } else {
        let prev = raster(verts, indices, d, scene, t - 1);
        let a = tri_vert(verts, indices, t - 1, 0);
        let b = tri_vert(verts, indices, t - 1, 1);
        let c = tri_vert(verts, indices, t - 1, 2);
        Seq::new((d.w * d.h) as nat, |q: int| step(prev, a, b, c, d, scene, q))
    }
}

pub open spec fn vert_ok(v: Vert) -> bool {
    v.u <= UV_ONE && v.v <= UV_ONE
}

fn sub_coord(u: u32, n: u16) -> (r: i64)
    requires
        u <= UV_ONE,
    ensures
        r == to_sub(u, n),
        0 <= r < 0x20_0000,
{
    assert(u as int * n as int <= 65536 * 65535) by (nonlinear_arith)
        requires
            u <= 65536,
            n <= 65535,
    ;
    ((u as u64 * n as u64) / 4096) as i64
}

proof fn lemma_product_bound(a: int, b: int, m: int)
    requires
        -m <= a <= m,
        -m <= b <= m,
    ensures
        -(m * m) <= a * b <= m * m,
{
    assert(-(m * m) <= a * b <= m * m) by (nonlinear_arith)
        requires
            -m <= a <= m,
            -m <= b <= m,
    ;
}

fn edge_fn(ax: i64, ay: i64, bx: i64, by: i64, px: i64, py: i64) -> (r: i64)
    requires
        0 <= ax < 0x20_0000,
        0 <= ay < 0x20_0000,
        0 <= bx < 0x20_0000,
        0 <= by < 0x20_0000,
        0 <= px < 0x20_0000,
        0 <= py < 0x20_0000,
    ensures
        r == edge(ax as int, ay as int, bx as int, by as int, px as int, py as int),
        -0x800_0000_0000 <= r <= 0x800_0000_0000,
{
    proof {
        lemma_product_bound(bx - ax, py - ay, 0x20_0000);
        lemma_product_bound(by - ay, px - ax, 0x20_0000);
    }
    (bx - ax) * (py - ay) - (by - ay) * (px - ax)
}

proof fn lemma_expand(a: int, b: int, c: int, d: int)
    ensures
        (a - b) * (c - d) == a * c - a * d - b * c + b * d,
{
    assert((a - b) * (c - d) == a * c - a * d - b * c + b * d) by (nonlinear_arith);
}

proof fn lemma_edges_sum(ax: int, ay: int, bx: int, by: int, cx: int, cy: int, px: int, py: int)
    ensures
        edge(bx, by, cx, cy, px, py) + edge(cx, cy, ax, ay, px, py) + edge(ax, ay, bx, by, px, py)
            == edge(ax, ay, bx, by, cx, cy),
{
    lemma_expand(cx, bx, py, by);
    lemma_expand(cy, by, px, bx);
    lemma_expand(ax, cx, py, cy);
    lemma_expand(ay, cy, px, cx);
    lemma_expand(bx, ax, py, ay);
    lemma_expand(by, ay, px, ax);
    lemma_expand(bx, ax, cy, ay);
    lemma_expand(by, ay, cx, ax);
    assert(cx * by == by * cx && bx * cy == cy * bx && ax * cy == cy * ax && cx * ay == ay * cx
        && ax * by == by * ax && bx * ay == ay * bx && bx * py == py * bx && px * by == by * px)
        by (nonlinear_arith);
}

proof fn lemma_mean_bound(w0: int, w1: int, w2: int, q0: int, q1: int, q2: int, m: int)
    requires
        0 <= w0,
        0 <= w1,
        0 <= w2,
        0 < w0 + w1 + w2,
        0 <= q0 <= m,
        0 <= q1 <= m,
        0 <= q2 <= m,
    ensures
        0 <= w0 * q0 + w1 * q1 + w2 * q2 <= (w0 + w1 + w2) * m,
        0 <= (w0 * q0 + w1 * q1 + w2 * q2) / (w0 + w1 + w2) <= m,
{
    assert(0 <= w0 * q0 <= w0 * m) by (nonlinear_arith)
        requires
            0 <= w0,
            0 <= q0 <= m,
    ;
    assert(0 <= w1 * q1 <= w1 * m) by (nonlinear_arith)
        requires
            0 <= w1,
            0 <= q1 <= m,
    ;
    assert(0 <= w2 * q2 <= w2 * m) by (nonlinear_arith)
        requires
            0 <= w2,
            0 <= q2 <= m,
    ;
    let t = w0 * q0 + w1 * q1 + w2 * q2;
    let n = w0 + w1 + w2;
    assert(n * m == w0 * m + w1 * m + w2 * m) by (nonlinear_arith)
        requires
            n == w0 + w1 + w2,
    ;
    assert(0 <= t / n <= m) by (nonlinear_arith)
        requires
            0 <= t <= n * m,
            0 < n,
    ;
}

fn interp_exec(p0: i32, p1: i32, p2: i32, w0: i64, w1: i64, w2: i64) -> (r: i64)
    requires
        0 <= w0 <= 0x800_0000_0000,
        0 <= w1 <= 0x800_0000_0000,
        0 <= w2 <= 0x800_0000_0000,
        0 < w0 + w1 + w2,
    ensures
        r == interp(p0, p1, p2, w0 as int, w1 as int, w2 as int),
        -0x8000_0000 <= r < 0x8000_0000,
{
    let q0 = (p0 as i64 + 0x8000_0000) as u128;
    let q1 = (p1 as i64 + 0x8000_0000) as u128;
    let q2 = (p2 as i64 + 0x8000_0000) as u128;
    proof {
        lemma_mean_bound(w0 as int, w1 as int, w2 as int, q0 as int, q1 as int, q2 as int, 0xffff_ffff);
        assert(w0 * q0 <= 0x800_0000_0000 * 0xffff_ffff) by (nonlinear_arith)
            requires
                0 <= w0 <= 0x800_0000_0000,
                0 <= q0 <= 0xffff_ffff,
        ;
        assert(w1 * q1 <= 0x800_0000_0000 * 0xffff_ffff) by (nonlinear_arith)
            requires
                0 <= w1 <= 0x800_0000_0000,
                0 <= q1 <= 0xffff_ffff,
        ;
        assert(w2 * q2 <= 0x800_0000_0000 * 0xffff_ffff) by (nonlinear_arith)
            requires
                0 <= w2 <= 0x800_0000_0000,
                0 <= q2 <= 0xffff_ffff,
        ;
    }
    let t = w0 as u128 * q0 + w1 as u128 * q1 + w2 as u128 * q2;
    let n = (w0 + w1 + w2) as u128;
    ((t / n) as i64) - 0x8000_0000
}

fn dist2_exec(p: (i64, i64, i64), s: Vec3) -> (r: i128)
    requires
        -0x8000_0000 <= p.0 < 0x8000_0000,
        -0x8000_0000 <= p.1 < 0x8000_0000,
        -0x8000_0000 <= p.2 < 0x8000_0000,
    ensures
        r == dist2((p.0 as int, p.1 as int, p.2 as int), s),
        0 <= r,
{
    let dx = p.0 as i128 - s.x as i128;
    let dy = p.1 as i128 - s.y as i128;
    let dz = p.2 as i128 - s.z as i128;
    proof {
        lemma_product_bound(dx as int, dx as int, 0x1_0000_0000);
        lemma_product_bound(dy as int, dy as int, 0x1_0000_0000);
        lemma_product_bound(dz as int, dz as int, 0x1_0000_0000);
        assert(0 <= dx * dx && 0 <= dy * dy && 0 <= dz * dz) by (nonlinear_arith);
    }
    dx * dx + dy * dy + dz * dz
}

fn falloff_exec(d2: i128, radius: u32) -> (r: u32)
    requires
        0 <= d2 <= 0x4_0000_0000_0000_0000,
    ensures
        r == falloff(d2 as int, radius as int),
        r <= 255,
{
    assert(0 <= radius * radius <= 0xffff_ffff * 0xffff_ffff) by (nonlinear_arith)
        requires
            0 <= radius <= 0xffff_ffff,
    ;
    let rr = radius as i128 * radius as i128;
    if d2 >= rr {
        0
    } else {
        let ghost a = rr as int;
        let ghost b = d2 as int;
        assert(255 * (a - b) / a <= 255) by (nonlinear_arith)
            requires
                0 <= b < a,
        ;
        (255 * (rr - d2) / rr) as u32
    }
}

fn strongest_exec(spawns: &Vec<Vec3>, p: (i64, i64, i64), radius: u32) -> (r: u32)
    requires
        -0x8000_0000 <= p.0 < 0x8000_0000,
        -0x8000_0000 <= p.1 < 0x8000_0000,
        -0x8000_0000 <= p.2 < 0x8000_0000,
    ensures
        r == strongest(spawns@, (p.0 as int, p.1 as int, p.2 as int), radius as int),
        r <= 255,
{
    let ghost pi = (p.0 as int, p.1 as int, p.2 as int);
    let mut best: u32 = 0;
    let mut i: usize = 0;
    while i < spawns.len()
        invariant
            i <= spawns@.len(),
            -0x8000_0000 <= p.0 < 0x8000_0000,
            -0x8000_0000 <= p.1 < 0x8000_0000,
            -0x8000_0000 <= p.2 < 0x8000_0000,
            pi == (p.0 as int, p.1 as int, p.2 as int),
            best == strongest(spawns@.subrange(0, i as int), pi, radius as int),
            best <= 255,
        decreases spawns.len() - i,
    {
        let d2 = dist2_exec(p, spawns[i]);
        let s = spawns[i];
        assert(d2 <= 0x4_0000_0000_0000_0000) by (nonlinear_arith)
            requires
                d2 == (p.0 - s.x) * (p.0 - s.x) + (p.1 - s.y) * (p.1 - s.y) + (p.2 - s.z) * (p.2 - s.z),
                -0x8000_0000 <= p.0 < 0x8000_0000,
                -0x8000_0000 <= p.1 < 0x8000_0000,
                -0x8000_0000 <= p.2 < 0x8000_0000,
                -0x8000_0000 <= s.x < 0x8000_0000,
                -0x8000_0000 <= s.y < 0x8000_0000,
                -0x8000_0000 <= s.z < 0x8000_0000,
        ;
        let here = falloff_exec(d2, radius);
        assert(spawns@.subrange(0, i + 1).drop_last() == spawns@.subrange(0, i as int));
        if here > best {
            best = here;
        }
        i = i + 1;
    }
    assert(spawns@.subrange(0, spawns@.len() as int) == spawns@);
    best
}

/// A triangle's corners in 1/16 pixel, as `corners` gives them.
struct Corners {
    ax: i64,
    ay: i64,
    bx: i64,
    by: i64,
    cx: i64,
    cy: i64,
}

impl Corners {
    spec fn matches(&self, a: Vert, b: Vert, c: Vert, d: Dimensions) -> bool {
        let (ax, ay, bx, by, cx, cy) = corners(a, b, c, d);
        &&& self.ax == ax && self.ay == ay && self.bx == bx
        &&& self.by == by && self.cx == cx && self.cy == cy
        &&& 0 <= self.ax < 0x20_0000 && 0 <= self.ay < 0x20_0000
        &&& 0 <= self.bx < 0x20_0000 && 0 <= self.by < 0x20_0000
        &&& 0 <= self.cx < 0x20_0000 && 0 <= self.cy < 0x20_0000
    }
}

fn corners_of(a: Vert, b: Vert, c: Vert, d: Dimensions) -> (r: Corners)
    requires
        vert_ok(a),
        vert_ok(b),
        vert_ok(c),
    ensures
        r.matches(a, b, c, d),
{
    Corners {
        ax: sub_coord(a.u, d.w),
        ay: sub_coord(a.v, d.h),
        bx: sub_coord(b.u, d.w),
        by: sub_coord(b.v, d.h),
        cx: sub_coord(c.u, d.w),
        cy: sub_coord(c.v, d.h),
    }
}

fn min3_exec(a: i64, b: i64, c: i64) -> (r: i64)
    ensures
        r == min3(a as int, b as int, c as int),
{
    if a <= b && a <= c {
        a
    } else if b <= c {
        b
    } else {
        c
    }
}

fn max3_exec(a: i64, b: i64, c: i64) -> (r: i64)
    ensures
        r == max3(a as int, b as int, c as int),
{
    if a >= b && a >= c {
        a
    } else if b >= c {
        b
    } else {
        c
    }
}

fn walkable_exec(n: (i64, i64, i64), slope: u16) -> (r: bool)
    requires
        -0x8000_0000 <= n.0 < 0x8000_0000,
        -0x8000_0000 <= n.1 < 0x8000_0000,
        -0x8000_0000 <= n.2 < 0x8000_0000,
    ensures
        r == walkable((n.0 as int, n.1 as int, n.2 as int), slope as int),
{
    let x = n.0 as i128;
    let y = n.1 as i128;
    let z = n.2 as i128;
    proof {
        lemma_product_bound(x as int, x as int, 0x8000_0000);
        lemma_product_bound(y as int, y as int, 0x8000_0000);
        lemma_product_bound(z as int, z as int, 0x8000_0000);
    }
    let sl = slope as i128;
    let zz = z * z;
    let hh = x * x + y * y;
    assert(0 <= zz && 0 <= hh) by (nonlinear_arith)
        requires
            zz == z * z,
            hh == x * x + y * y,
    ;
    assert(0 <= sl * sl <= 65535 * 65535) by (nonlinear_arith)
        requires
            0 <= sl <= 65535,
    ;
    let s2 = sl * sl;
    assert(s2 * zz <= 65535 * 65535 * 0x4000_0000_0000_0000) by (nonlinear_arith)
        requires
            0 <= s2 <= 65535 * 65535,
            0 <= zz <= 0x4000_0000_0000_0000,
    ;
    z > 0 && 10000 * hh <= s2 * zz
}

/// The overlay color of pixel (`x`, `y`) if the triangle covers its center.
fn pixel_color(
    a: Vert,
    b: Vert,
    c: Vert,
    cs: &Corners,
    d: Dimensions,
    x: u32,
    y: u32,
    scene: &RandomsScene,
) -> (r: Option<Rgba8>)
    requires
        cs.matches(a, b, c, d),
        x < 65536,
        y < 65536,
    ensures
        covers(a, b, c, d, x as int, y as int) ==> r == Some(shade(a, b, c, d, x as int, y as int, *scene)),
        !covers(a, b, c, d, x as int, y as int) ==> r is None,
{
    let px = 16 * x as i64 + 8;
    let py = 16 * y as i64 + 8;
    let e0 = edge_fn(cs.bx, cs.by, cs.cx, cs.cy, px, py);
    let e1 = edge_fn(cs.cx, cs.cy, cs.ax, cs.ay, px, py);
    let e2 = edge_fn(cs.ax, cs.ay, cs.bx, cs.by, px, py);
    let area = edge_fn(cs.ax, cs.ay, cs.bx, cs.by, cs.cx, cs.cy);
    proof {
        lemma_edges_sum(cs.ax as int, cs.ay as int, cs.bx as int, cs.by as int, cs.cx as int, cs.cy as int, px as int, py as int);
    }
    let inside_x = min3_exec(cs.ax, cs.bx, cs.cx) <= px && px <= max3_exec(cs.ax, cs.bx, cs.cx);
    let inside_y = min3_exec(cs.ay, cs.by, cs.cy) <= py && py <= max3_exec(cs.ay, cs.by, cs.cy);
    let sides = if area > 0 {
        e0 >= 0 && e1 >= 0 && e2 >= 0
    } else {
        e0 <= 0 && e1 <= 0 && e2 <= 0
    };
    if area == 0 || !inside_x || !inside_y || !sides {
        return None;
    }
    let (w0, w1, w2) = if area > 0 {
        (e0, e1, e2)
    } else {
        (-e0, -e1, -e2)
    };
    let pos = (
        interp_exec(a.world_pos.x, b.world_pos.x, c.world_pos.x, w0, w1, w2),
        interp_exec(a.world_pos.y, b.world_pos.y, c.world_pos.y, w0, w1, w2),
        interp_exec(a.world_pos.z, b.world_pos.z, c.world_pos.z, w0, w1, w2),
    );
    let n = (
        interp_exec(a.world_normal.x, b.world_normal.x, c.world_normal.x, w0, w1, w2),
        interp_exec(a.world_normal.y, b.world_normal.y, c.world_normal.y, w0, w1, w2),
        interp_exec(a.world_normal.z, b.world_normal.z, c.world_normal.z, w0, w1, w2),
    );
    let k: u32 = if scene.walkable_only && !walkable_exec(n, scene.max_slope) {
        0
    } else {
        strongest_exec(&scene.spawns, pos, scene.radius)
    };
    let color = scene.color;
    assert(color.a as u32 * k <= 255 * 255) by (nonlinear_arith)
        requires
            color.a <= 255,
            k <= 255,
    ;
    Some(Rgba8 { r: color.r, g: color.g, b: color.b, a: (color.a as u32 * k / 255) as u8 })
}

proof fn lemma_row_col(q: int, w: int, h: int, x: int, y: int)
    requires
        0 <= x < w,
        0 <= y < h,
        q == y * w + x,
    ensures
        q / w == y,
        q % w == x,
        0 <= q < w * h,
{
    lemma_fundamental_div_mod_converse(q, w, y, x);
    assert(0 <= y * w + x < w * h) by (nonlinear_arith)
        requires
            0 <= x < w,
            0 <= y < h,
    ;
}

proof fn lemma_same_cell(q: int, w: int, x: int, y: int)
    requires
        0 < w,
        q / w == y,
        q % w == x,
    ensures
        q == y * w + x,
{
    lemma_fundamental_div_mod(q, w);
    assert(w * y == y * w) by (nonlinear_arith);
}

/// Draws the triangle over the pixels `x_lo..x_hi` of row `y`.
fn draw_span(
    buf: &mut Vec<Rgba8>,
    a: Vert,
    b: Vert,
    c: Vert,
    cs: &Corners,
    d: Dimensions,
    y: u32,
    x_lo: u32,
    x_hi: u32,
    scene: &RandomsScene,
)
    requires
        old(buf)@.len() == d.w * d.h,
        cs.matches(a, b, c, d),
        y < d.h,
        x_lo <= x_hi <= d.w,
    ensures
        final(buf)@.len() == old(buf)@.len(),
        forall|q: int|
            0 <= q < old(buf)@.len() ==> #[trigger] final(buf)@[q] == if q / (d.w as int) == y && x_lo
                <= q % (d.w as int) < x_hi {
                step(old(buf)@, a, b, c, d, *scene, q)
            } else {
                old(buf)@[q]
            },
{
    let ghost orig = buf@;
    let ghost w = d.w as int;
    let mut x: u32 = x_lo;
    while x < x_hi
        invariant
            x_lo <= x <= x_hi <= d.w,
            y < d.h,
            w == d.w,
            buf@.len() == orig.len() == d.w * d.h,
            cs.matches(a, b, c, d),
            forall|q: int|
                0 <= q < orig.len() ==> #[trigger] buf@[q] == if q / w == y && x_lo <= q % w < x {
                    step(orig, a, b, c, d, *scene, q)
                } else {
                    orig[q]
                },
        decreases x_hi - x,
    {
        proof {
            lemma_row_col(y * w + x, w, d.h as int, x as int, y as int);
        }
        let _len = buf.len();
        let q0 = y as usize * d.w as usize + x as usize;
        let ghost before = buf@;
        match pixel_color(a, b, c, cs, d, x, y, scene) {
            Some(color) => {
                buf.set(q0, color);
            },
            None => {},
        }
        assert forall|q: int| 0 <= q < orig.len() implies #[trigger] buf@[q] == if q / w == y && x_lo
            <= q % w < x + 1 {
            step(orig, a, b, c, d, *scene, q)
        } else {
            orig[q]
        } by {
            if q / w == y && q % w == x {
                lemma_same_cell(q, w, x as int, y as int);
            }
        }
        x = x + 1;
    }
}

proof fn lemma_outside_span(m: int, big: int, lo: int, hi0: int, n: int, col: int)
    requires
        lo == (if m <= 8 {
            0
        } else {
            let t = (m - 8 + 15) / 16;
            if t < n {
                t
            } else {
                n
            }
        }),
        hi0 == (if big < 8 {
            0
        } else {
            let t = (big - 8) / 16 + 1;
            if t < n {
                t
            } else {
                n
            }
        }),
        0 <= col < n,
        !(lo <= col < hi0),
    ensures
        !(m <= 16 * col + 8 <= big),
{
}

/// The columns (or rows) whose centers can lie between `m` and `big`, within
/// `0..n`: the first one, and one past the last one.
fn span_of(m: i64, big: i64, n: u32) -> (r: (u32, u32))
    requires
        0 <= m < 0x20_0000,
        0 <= big < 0x20_0000,
    ensures
        r.0 <= r.1 <= n,
        forall|col: int| 0 <= col < n && !(r.0 <= col < r.1) ==> !(m <= #[trigger] center(col) <= big),
{
    let lo: u32 = if m <= 8 {
        0
    } else {
        let t = ((m - 8 + 15) / 16) as u32;
        if t < n {
            t
        } else {
            n
        }
    };
    let hi0: u32 = if big < 8 {
        0
    } else {
        let t = ((big - 8) / 16 + 1) as u32;
        if t < n {
            t
        } else {
            n
        }
    };
    let hi = if hi0 < lo {
        lo
    } else {
        hi0
    };
    assert forall|col: int| 0 <= col < n && !(lo <= col < hi) implies !(m <= #[trigger] center(col) <= big) by {
        lemma_outside_span(m as int, big as int, lo as int, hi0 as int, n as int, col);
    }
    (lo, hi)
}

/// Draws one triangle over the buffer.
fn draw_triangle(buf: &mut Vec<Rgba8>, a: Vert, b: Vert, c: Vert, d: Dimensions, scene: &RandomsScene)
    requires
        old(buf)@.len() == d.w * d.h,
        vert_ok(a),
        vert_ok(b),
        vert_ok(c),
    ensures
        final(buf)@ == Seq::new((d.w * d.h) as nat, |q: int| step(old(buf)@, a, b, c, d, *scene, q)),
{
    let ghost orig = buf@;
    let ghost w = d.w as int;
    let cs = corners_of(a, b, c, d);
    let (x_lo, x_hi) = span_of(min3_exec(cs.ax, cs.bx, cs.cx), max3_exec(cs.ax, cs.bx, cs.cx), d.w as u32);
    let (y_lo, y_hi) = span_of(min3_exec(cs.ay, cs.by, cs.cy), max3_exec(cs.ay, cs.by, cs.cy), d.h as u32);
    let mut y: u32 = y_lo;
    while y < y_hi
        invariant
            y_lo <= y <= y_hi <= d.h,
            x_lo <= x_hi <= d.w,
            w == d.w,
            buf@.len() == orig.len() == d.w * d.h,
            cs.matches(a, b, c, d),
            forall|q: int|
                0 <= q < orig.len() ==> #[trigger] buf@[q] == if y_lo <= q / w < y && x_lo <= q % w
                    < x_hi {
                    step(orig, a, b, c, d, *scene, q)
                } else {
                    orig[q]
                },
        decreases y_hi - y,
    {
        draw_span(buf, a, b, c, &cs, d, y, x_lo, x_hi, scene);
        y = y + 1;
    }
    let ghost target = Seq::new((d.w * d.h) as nat, |q: int| step(orig, a, b, c, d, *scene, q));
    assert forall|q: int| 0 <= q < orig.len() implies #[trigger] buf@[q] == target[q] by {
        if !(y_lo <= q / w < y_hi && x_lo <= q % w < x_hi) {
            assert(0 < w);
            assert(0 <= q / w < d.h) by (nonlinear_arith)
                requires
                    0 <= q < w * d.h,
                    0 < w,
            ;
            assert(!in_bounds(a, b, c, d, q % w, q / w));
        }
    }
    assert(buf@ =~= target);
}

/// Draws the overlay of one lightmap page: every triangle of the index list,
/// in order, shaded at each pixel center it covers; pixels no triangle covers
/// stay transparent.
pub fn rasterize(verts: &Vec<Vert>, indices: &Vec<u16>, d: Dimensions, scene: &RandomsScene) -> (r:
    Result<Vec<Rgba8>, RenderError>)
    ensures
        scene.spawns@.len() > MAX_SPAWNS ==> r == Err::<Vec<Rgba8>, RenderError>(
            RenderError::TooManySpawns,
        ),
        scene.spawns@.len() <= MAX_SPAWNS && (indices@.len() % 3 != 0 || exists|i: int|
            0 <= i < indices@.len() && #[trigger] indices@[i] >= verts@.len()) ==> r == Err::<
            Vec<Rgba8>,
            RenderError,
        >(RenderError::BadIndex),
        r is Ok <==> scene.spawns@.len() <= MAX_SPAWNS && indices@.len() % 3 == 0 && (forall|i: int|
            0 <= i < indices@.len() ==> #[trigger] indices@[i] < verts@.len()) && (forall|i: int|
            0 <= i < verts@.len() ==> vert_ok(#[trigger] verts@[i])),
        r matches Ok(buf) ==> buf@ == raster(verts@, indices@, d, *scene, (indices@.len() / 3) as int),
{
    if scene.spawns.len() > MAX_SPAWNS {
        return Err(RenderError::TooManySpawns);
    }
    if indices.len() % 3 != 0 {
        return Err(RenderError::BadIndex);
    }
    let mut i: usize = 0;
    while i < indices.len()
        invariant
            i <= indices@.len(),
            scene.spawns@.len() <= MAX_SPAWNS,
            indices@.len() % 3 == 0,
            forall|j: int| 0 <= j < i ==> #[trigger] indices@[j] < verts@.len(),
        decreases indices.len() - i,
    {
        if indices[i] as usize >= verts.len() {
            return Err(RenderError::BadIndex);
        }
        i = i + 1;
    }
    let mut i: usize = 0;
    while i < verts.len()
        invariant
            i <= verts@.len(),
            scene.spawns@.len() <= MAX_SPAWNS,
            indices@.len() % 3 == 0,
            forall|j: int| 0 <= j < i ==> vert_ok(#[trigger] verts@[j]),
            forall|j: int| 0 <= j < indices@.len() ==> #[trigger] indices@[j] < verts@.len(),
        decreases verts.len() - i,
    {
        if verts[i].u > UV_ONE || verts[i].v > UV_ONE {
            return Err(RenderError::VertexOutOfRange);
        }
        i = i + 1;
    }
    assert(d.w * d.h <= 65535 * 65535) by (nonlinear_arith)
        requires
            d.w <= 65535,
            d.h <= 65535,
    ;
    let n = d.w as usize * d.h as usize;
    let mut buf: Vec<Rgba8> = Vec::new();
    let mut p: usize = 0;
    while p < n
        invariant
            p <= n == d.w * d.h,
            buf@.len() == p,
            forall|q: int| 0 <= q < p ==> #[trigger] buf@[q] == clear(),
        decreases n - p,
    {
        buf.push(Rgba8 { r: 0, g: 0, b: 0, a: 0 });
        p = p + 1;
    }
    assert(buf@ =~= raster(verts@, indices@, d, *scene, 0));
    let ntri = indices.len() / 3;
    let mut t: usize = 0;
    while t < ntri
        invariant
            t <= ntri == indices@.len() / 3,
            forall|j: int| 0 <= j < indices@.len() ==> #[trigger] indices@[j] < verts@.len(),
            forall|j: int| 0 <= j < verts@.len() ==> vert_ok(#[trigger] verts@[j]),
            buf@ == raster(verts@, indices@, d, *scene, t as int),
            buf@.len() == d.w * d.h,
        decreases ntri - t,
    {
        let _m = indices.len();
        assert(3 * t + 2 < indices@.len());
        let a = verts[indices[3 * t] as usize];
        let b = verts[indices[3 * t + 1] as usize];
        let c = verts[indices[3 * t + 2] as usize];
        draw_triangle(&mut buf, a, b, c, d, scene);
        t = t + 1;
    }
    Ok(buf)
}

/// The shading parameters of a run, checked against the scene's capacity.
pub fn create_uniform_data(
    spawns: &Vec<Vec3>,
    color: Rgba8,
    walkable_only: bool,
    radius: u32,
    max_slope: u16,
) -> (r: Result<RandomsScene, RenderError>)
    ensures
        r is Err <==> spawns@.len() > MAX_SPAWNS,
        r is Err ==> r == Err::<RandomsScene, RenderError>(RenderError::TooManySpawns),
        r matches Ok(scene) ==> {
            &&& scene.spawns@ == spawns@
            &&& scene.color == color
            &&& scene.walkable_only == walkable_only
            &&& scene.radius == radius
            &&& scene.max_slope == max_slope
        },
{
    if spawns.len() > MAX_SPAWNS {
        return Err(RenderError::TooManySpawns);
    }
    let mut copy: Vec<Vec3> = Vec::new();
    let mut i: usize = 0;
    while i < spawns.len()
        invariant
            i <= spawns@.len(),
            copy@ == spawns@.subrange(0, i as int),
        decreases spawns.len() - i,
    {
        copy.push(spawns[i]);
        assert(spawns@.subrange(0, i + 1) == spawns@.subrange(0, i as int).push(spawns@[i as int]));
        i = i + 1;
    }
    assert(spawns@.subrange(0, spawns@.len() as int) == spawns@);
    Ok(RandomsScene { spawns: copy, color, walkable_only, radius, max_slope })
}

/// With no spawn points, every pixel of the overlay is fully transparent.
pub proof fn lemma_no_spawns_transparent(
    verts: Seq<Vert>,
    indices: Seq<u16>,
    d: Dimensions,
    scene: RandomsScene,
    t: int,
)
    requires
        scene.spawns@.len() == 0,
    ensures
        raster(verts, indices, d, scene, t).len() == d.w * d.h,
        forall|q: int|
            0 <= q < raster(verts, indices, d, scene, t).len() ==> (#[trigger] raster(
                verts,
                indices,
                d,
                scene,
                t,
            )[q]).a == 0,
    decreases t,
{
    if t > 0 {
        lemma_no_spawns_transparent(verts, indices, d, scene, t - 1);
        let prev = raster(verts, indices, d, scene, t - 1);
        let a = tri_vert(verts, indices, t - 1, 0);
        let b = tri_vert(verts, indices, t - 1, 1);
        let c = tri_vert(verts, indices, t - 1, 2);
        assert forall|q: int| 0 <= q < d.w * d.h implies (#[trigger] step(prev, a, b, c, d, scene, q)).a
            == 0 by {
            let x = q % (d.w as int);
            let y = q / (d.w as int);
            if covers(a, b, c, d, x, y) {
                let (e0, e1, e2, area) = edges(a, b, c, d, x, y);
                let w = weights(e0, e1, e2, area);
                let pos = interp3(a.world_pos, b.world_pos, c.world_pos, w);
                assert(strongest(scene.spawns@, pos, scene.radius as int) == 0);
            }
        }
    }
}

/// With no spawn points, compositing the overlay leaves the baked page as it
/// is, only resampled to the overlay's resolution.
pub proof fn lemma_no_spawns_no_change(
    verts: Seq<Vert>,
    indices: Seq<u16>,
    d: Dimensions,
    scene: RandomsScene,
    original: Seq<u8>,
    page: Dimensions,
    s: int,
    mode: crate::color::BlendMode,
)
    requires
        scene.spawns@.len() == 0,
        d.w == page.w * s,
        d.h == page.h * s,
    ensures
        composited(raster(verts, indices, d, scene, (indices.len() / 3) as int), original, page, s, mode)
            == resampled(original, page, s),
{
    let ov = raster(verts, indices, d, scene, (indices.len() / 3) as int);
    lemma_no_spawns_transparent(verts, indices, d, scene, (indices.len() / 3) as int);
    lemma_transparent_overlay_keeps_page(ov, original, page, s, mode);
}

/// One spawn's contribution is full, 255, at the spawn itself, never grows
/// as the distance grows, and is zero from the radius on.
pub proof fn lemma_falloff_shape(d1: int, d2: int, radius: int)
    requires
        0 <= d1 <= d2,
        0 <= radius,
    ensures
        0 <= falloff(d1, radius) <= 255,
        falloff(d2, radius) <= falloff(d1, radius),
        radius > 0 ==> falloff(0, radius) == 255,
        d2 >= radius * radius ==> falloff(d2, radius) == 0,
{
    let rr = radius * radius;
    assert(0 <= rr) by (nonlinear_arith)
        requires
            0 <= radius,
            rr == radius * radius,
    ;
    if d1 < rr {
        assert(0 <= 255 * (rr - d1) / rr <= 255) by (nonlinear_arith)
            requires
                0 <= d1 < rr,
        ;
        if d2 < rr {
            lemma_div_is_ordered(255 * (rr - d2), 255 * (rr - d1), rr);
        }
    }
    if radius > 0 {
        assert(rr > 0) by (nonlinear_arith)
            requires
                radius > 0,
                rr == radius * radius,
        ;
        assert(255 * (rr - 0) / rr == 255) by (nonlinear_arith)
            requires
                rr > 0,
        ;
    }
}

/// No point gets more than full strength, and a point where a spawn stands
/// gets exactly full strength.
pub proof fn lemma_strongest_at_spawn(spawns: Seq<Vec3>, p: (int, int, int), radius: int)
    requires
        0 <= radius,
    ensures
        0 <= strongest(spawns, p, radius) <= 255,
        radius > 0 && (exists|i: int|
            0 <= i < spawns.len() && p == (
                (#[trigger] spawns[i]).x as int,
                spawns[i].y as int,
                spawns[i].z as int,
            )) ==> strongest(spawns, p, radius) == 255,
    decreases spawns.len(),
{
    if spawns.len() > 0 {
        let rest = spawns.drop_last();
        lemma_strongest_at_spawn(rest, p, radius);
        let d = dist2(p, spawns.last());
        assert(0 <= d) by (nonlinear_arith)
            requires
                d == (p.0 - spawns.last().x) * (p.0 - spawns.last().x) + (p.1 - spawns.last().y)
                    * (p.1 - spawns.last().y) + (p.2 - spawns.last().z) * (p.2 - spawns.last().z),
        ;
        lemma_falloff_shape(0, d, radius);
        lemma_falloff_shape(d, d, radius);
        if radius > 0 && (exists|i: int|
            0 <= i < spawns.len() && p == (
                (#[trigger] spawns[i]).x as int,
                spawns[i].y as int,
                spawns[i].z as int,
            )) {
            let i = choose|i: int|
                0 <= i < spawns.len() && p == (
                    (#[trigger] spawns[i]).x as int,
                    spawns[i].y as int,
                    spawns[i].z as int,
                );
            if i == spawns.len() - 1 {
                let sp = spawns.last();
                assert(d == 0) by (nonlinear_arith)
                    requires
                        d == (p.0 - sp.x) * (p.0 - sp.x) + (p.1 - sp.y) * (p.1 - sp.y) + (p.2 - sp.z)
                            * (p.2 - sp.z),
                        p.0 == sp.x,
                        p.1 == sp.y,
                        p.2 == sp.z,
                ;
            } else {
                assert(rest[i] == spawns[i]);
            }
        }
    }
}

} // verus!
