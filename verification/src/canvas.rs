//! The pixel canvas: a width-by-height grid of RGB triples with fill,
//! bounds-checked pixel access, disc and thick-line drawing, and export to
//! the binary portable-pixmap byte layout.

use vstd::prelude::*;

verus! {

use crate::vector::{lemma_isqrt_le, norm2_2, Vec2i32, Vector};

/// Offsets `[i, j]` whose integer-rounded distance from the origin is within
/// the disc of diameter `d`: both components lie in `[-d/2, -d/2 + d)`, and
/// the integer square root of `i*i + j*j` is at most `d/2`.
pub open spec fn in_disc_offset(i: int, j: int, d: int) -> bool {
    let r = d / 2;
    &&& -r <= i < -r + d
    &&& -r <= j < -r + d
    &&& i * i + j * j < (r + 1) * (r + 1)
}

/// Strict lexicographic order on coordinate pairs.
pub open spec fn lex_lt(a: Vec2i32, b: Vec2i32) -> bool {
    a[0] < b[0] || (a[0] == b[0] && a[1] < b[1])
}

/// Some element of `s` is the point `[x, y]`.
pub open spec fn has_point(s: Seq<Vec2i32>, x: int, y: int) -> bool {
    exists|k: int| 0 <= k < s.len() && s[k][0] == x && #[trigger] s[k][1] == y
}

/// Appending preserves and extends which points a sequence holds.
proof fn lemma_has_point_push(s: Seq<Vec2i32>, e: Vec2i32, x: int, y: int)
    ensures
        has_point(s.push(e), x, y) <==> has_point(s, x, y) || (e[0] == x && e[1] == y),
{
    if has_point(s, x, y) {
        let k = choose|k: int| 0 <= k < s.len() && s[k][0] == x && #[trigger] s[k][1] == y;
        assert(s.push(e)[k][0] == x && s.push(e)[k][1] == y);
    }
    if e[0] == x && e[1] == y {
        assert(s.push(e)[s.len() as int][0] == x && s.push(e)[s.len() as int][1] == y);
    }
    if has_point(s.push(e), x, y) {
        let k = choose|k: int|
            0 <= k < s.push(e).len() && s.push(e)[k][0] == x && #[trigger] s.push(e)[k][1] == y;
        if k < s.len() {
            assert(s[k][0] == x && s[k][1] == y);
        }
    }
}

/// A disc stamp: the set of grid points within distance `d / 2` of a center
/// point, for a stroke of diameter `d`.
pub struct Point {
    pub p: Vec2i32,
    pub d: usize,
}

impl Point {
    pub fn new(p: Vec2i32, d: usize) -> (r: Self)
        ensures
            r.p == p,
            r.d == d,
    {
        Point { p, d }
    }

    /// All grid points of the disc stamped at `self.p`, ascending in x and
    /// then in y.
    pub fn iter(&self) -> (r: Vec<Vec2i32>)
        requires
            self.d <= 46340,
            self.d >= 1 ==> i32::MIN <= self.p[0] - self.d / 2,
            self.d >= 1 ==> self.p[0] + (self.d - 1 - self.d / 2) <= i32::MAX,
            self.d >= 1 ==> i32::MIN <= self.p[1] - self.d / 2,
            self.d >= 1 ==> self.p[1] + (self.d - 1 - self.d / 2) <= i32::MAX,
        ensures
            forall|k: int|
                0 <= k < r@.len() ==> in_disc_offset(
                    r@[k][0] - self.p[0],
                    r@[k][1] - self.p[1],
                    self.d as int,
                ),
            forall|i: int, j: int|
                #[trigger] in_disc_offset(i, j, self.d as int) ==> has_point(
                    r@,
                    self.p[0] + i,
                    self.p[1] + j,
                ),
            forall|k: int| 0 <= k < r@.len() - 1 ==> lex_lt(#[trigger] r@[k], r@[k + 1]),
    {
        let d = self.d as i32;
        let r = d / 2;
        let mut out: Vec<Vec2i32> = Vec::new();
        let mut i = -r;
        while i < -r + d
            invariant
                self.d <= 46340,
                d == self.d,
                r == d / 2,
                -r <= i <= -r + d,
                i32::MIN <= self.p[0] - r,
                self.p[0] + (d - 1 - r) <= i32::MAX,
                i32::MIN <= self.p[1] - r,
                self.p[1] + (d - 1 - r) <= i32::MAX,
                forall|k: int|
                    0 <= k < out@.len() ==> in_disc_offset(
                        out@[k][0] - self.p[0],
                        out@[k][1] - self.p[1],
                        d as int,
                    ),
                forall|k: int| 0 <= k < out@.len() ==> out@[k][0] - self.p[0] < i,
                forall|ii: int, jj: int|
                    #[trigger] in_disc_offset(ii, jj, d as int) && ii < i ==> has_point(
                        out@,
                        self.p[0] + ii,
                        self.p[1] + jj,
                    ),
                forall|k: int| 0 <= k < out@.len() - 1 ==> lex_lt(#[trigger] out@[k], out@[k + 1]),
            decreases -r + d - i,
        {
            let mut j = -r;
            while j < -r + d
                invariant
                    self.d <= 46340,
                    d == self.d,
                    r == d / 2,
                    -r <= i < -r + d,
                    -r <= j <= -r + d,
                    i32::MIN <= self.p[0] - r,
                    self.p[0] + (d - 1 - r) <= i32::MAX,
                    i32::MIN <= self.p[1] - r,
                    self.p[1] + (d - 1 - r) <= i32::MAX,
                    forall|k: int|
                        0 <= k < out@.len() ==> in_disc_offset(
                            out@[k][0] - self.p[0],
                            out@[k][1] - self.p[1],
                            d as int,
                        ),
                    forall|k: int|
                        0 <= k < out@.len() ==> (out@[k][0] - self.p[0] < i || (out@[k][0]
                            - self.p[0] == i && out@[k][1] - self.p[1] < j)),
                    forall|ii: int, jj: int|
                        #[trigger] in_disc_offset(ii, jj, d as int) && (ii < i || (ii == i && jj
                            < j)) ==> has_point(out@, self.p[0] + ii, self.p[1] + jj),
                    forall|k: int| 0 <= k < out@.len() - 1 ==> lex_lt(#[trigger] out@[k], out@[k + 1]),
                decreases -r + d - j,
            {
                proof {
                    assert(i * i + j * j <= 23170 * 23170 + 23170 * 23170) by (nonlinear_arith)
                        requires -23170 <= i <= 23170, -23170 <= j <= 23170;
                }
                let m = [i, j].magnitude();
                proof {
                    assert(norm2_2(i as int, j as int) >= 0) by (nonlinear_arith);
                    lemma_isqrt_le(norm2_2(i as int, j as int), r as int);
                }
                let ghost before = out@;
                if m <= r {
                    out.push([self.p[0] + i, self.p[1] + j]);
                }
                proof {
                    assert forall|ii: int, jj: int|
                        #[trigger] in_disc_offset(ii, jj, d as int) && (ii < i || (ii == i && jj
                            < j + 1)) implies has_point(out@, self.p[0] + ii, self.p[1] + jj) by {
                        if out@.len() > before.len() {
                            lemma_has_point_push(
                                before,
                                out@[out@.len() - 1],
                                self.p[0] + ii,
                                self.p[1] + jj,
                            );
                        }
                        if !(ii == i && jj == j) {
                            assert(has_point(before, self.p[0] + ii, self.p[1] + jj));
                        }
                    }
                }
                j = j + 1;
            }
            i = i + 1;
        }
        out
    }
}

/// The outcode bit for a coordinate against the two vertical boundaries:
/// 1 below `xmin`, 2 above `xmax`, 0 between.
pub open spec fn x_code(x: int, xmin: int, xmax: int) -> u8 {
    if x < xmin {
        1u8
    } else if xmax < x {
        2u8
    } else {
        0u8
    }
}

/// The outcode bit for a coordinate against the two horizontal boundaries:
/// 4 below `ymin`, 8 above `ymax`, 0 between.
pub open spec fn y_code(y: int, ymin: int, ymax: int) -> u8 {
    if y < ymin {
        4u8
    } else if ymax < y {
        8u8
    } else {
        0u8
    }
}

/// The four-bit outcode classifying a point against a clip rectangle.
pub open spec fn code_of(x: int, y: int, xmin: int, xmax: int, ymin: int, ymax: int) -> u8 {
    x_code(x, xmin, xmax) | y_code(y, ymin, ymax)
}

/// Clamping into the range of pixel coordinates, as a cast from a wider
/// value saturates.
pub open spec fn clamp_i32(v: int) -> int {
    if v < i32::MIN {
        i32::MIN as int
    } else if v > i32::MAX {
        i32::MAX as int
    } else {
        v
    }
}

/// The dependent coordinate of the boundary crossing: the value of `c` at
/// `d == db` along the segment from `(c1, d1)` to `(c2, d2)`, interpolated
/// exactly and rounded toward zero.  Meaningful only for `d1 != d2`.
pub open spec fn lerp_spec(c1: int, c2: int, d1: int, d2: int, db: int) -> int {
    crate::vector::div_trunc(c1 * (d2 - d1) + (c2 - c1) * (db - d1), d2 - d1)
}

/// One clipping pass: point `p`, whose outcode is `code`, moved onto the
/// boundary sides its outcode names, interpolating along the segment toward
/// `q`.  The horizontal pass runs after the vertical one and overwrites its
/// result, reading the original coordinates throughout, exactly as the
/// two successive conditionals of the rasterizer do.
pub open spec fn clip_point_spec(
    px: int,
    py: int,
    qx: int,
    qy: int,
    code: u8,
    xmin: int,
    xmax: int,
    ymin: int,
    ymax: int,
) -> (int, int) {
    let ax = if code & 1 != 0 {
        xmin
    } else if code & 2 != 0 {
        xmax
    } else {
        px
    };
    let ay = if code & 1 != 0 {
        if qx != px {
            clamp_i32(lerp_spec(py, qy, px, qx, xmin))
        } else {
            py
        }
    } else if code & 2 != 0 {
        if qx != px {
            clamp_i32(lerp_spec(py, qy, px, qx, xmax))
        } else {
            py
        }
    } else {
        py
    };
    if code & 4 != 0 {
        (
            if qy != py {
                clamp_i32(lerp_spec(px, qx, py, qy, ymin))
            } else {
                ax
            },
            ymin,
        )
    } else if code & 8 != 0 {
        (
            if qy != py {
                clamp_i32(lerp_spec(px, qx, py, qy, ymax))
            } else {
                ax
            },
            ymax,
        )
    } else {
        (ax, ay)
    }
}

/// The two-pass clip: unchanged when both points lie inside, dropped when
/// the outcodes share a side, and otherwise each endpoint clipped once, the
/// first against its own outcode using the second, then the second against
/// its own original outcode using the already-moved first.
pub open spec fn cut_line_spec(
    p1x: int,
    p1y: int,
    p2x: int,
    p2y: int,
    xmin: int,
    xmax: int,
    ymin: int,
    ymax: int,
) -> Option<((int, int), (int, int))> {
    let c1 = code_of(p1x, p1y, xmin, xmax, ymin, ymax);
    let c2 = code_of(p2x, p2y, xmin, xmax, ymin, ymax);
    if c1 | c2 == 0 {
        Some(((p1x, p1y), (p2x, p2y)))
    } else if c1 & c2 != 0 {
        None
    } else {
        let a = clip_point_spec(p1x, p1y, p2x, p2y, c1, xmin, xmax, ymin, ymax);
        let b = clip_point_spec(p2x, p2y, a.0, a.1, c2, xmin, xmax, ymin, ymax);
        Some((a, b))
    }
}

/// The interpolated boundary crossing, computed exactly on wide integers
/// and saturated into pixel range.
fn lerp_i32(c1: i32, c2: i32, d1: i32, d2: i32, db: i32) -> (r: i32)
    requires
        d1 != d2,
    ensures
        r as int == clamp_i32(lerp_spec(c1 as int, c2 as int, d1 as int, d2 as int, db as int)),
{
    let c1w = c1 as i128;
    let c2w = c2 as i128;
    let d1w = d1 as i128;
    let d2w = d2 as i128;
    let dbw = db as i128;
    proof {
        assert(-(0x100000000000000000000) <= c1w * (d2w - d1w) <= 0x100000000000000000000
            && -(0x100000000000000000000) <= (c2w - c1w) * (dbw - d1w)
            <= 0x100000000000000000000) by (nonlinear_arith)
            requires
                -(0x100000000) <= c1w <= 0x100000000,
                -(0x100000000) <= c2w - c1w <= 0x100000000,
                -(0x100000000) <= d2w - d1w <= 0x100000000,
                -(0x100000000) <= dbw - d1w <= 0x100000000;
    }
    let num = c1w * (d2w - d1w) + (c2w - c1w) * (dbw - d1w);
    let den = d2w - d1w;
    let v = crate::vector::div_i128(num, den);
    if v < i32::MIN as i128 {
        i32::MIN
    } else if v > i32::MAX as i128 {
        i32::MAX
    } else {
        v as i32
    }
}

/// The widest span, per axis, that the stepper accepts between its two
/// endpoints: it keeps the doubled error term within pixel-coordinate
/// arithmetic.
pub const BRES_SPAN: i32 = 0x1FFFFFFF;

/// Both components of `a` and `b` differ by at most one.
pub open spec fn adjacent(a: (int, int), b: (int, int)) -> bool {
    -1 <= a.0 - b.0 <= 1 && -1 <= a.1 - b.1 <= 1
}

/// The absolute value.
pub open spec fn abs_int(a: int) -> int {
    if a >= 0 {
        a
    } else {
        -a
    }
}

/// One step of the Bresenham rule: from position `(x, y)` with error `e`,
/// the next position and error.  Both axes may advance in the same step.
pub open spec fn bres_next(x: int, y: int, e: int, dx: int, dy: int, sx: int, sy: int) -> (
    int,
    int,
    int,
) {
    let e2 = 2 * e;
    let ex = if e2 >= dy {
        e + dy
    } else {
        e
    };
    let x1 = if e2 >= dy {
        x + sx
    } else {
        x
    };
    let ey = if e2 <= dx {
        ex + dx
    } else {
        ex
    };
    let y1 = if e2 <= dx {
        y + sy
    } else {
        y
    };
    (x1, y1, ey)
}

/// The points the stepper emits from state `(x, y, e)` until it reaches the
/// target `(tx, ty)`, within `fuel` emissions.
pub open spec fn bres_points(
    x: int,
    y: int,
    e: int,
    tx: int,
    ty: int,
    dx: int,
    dy: int,
    sx: int,
    sy: int,
    fuel: nat,
) -> Seq<(int, int)>
    decreases fuel,
{
    if fuel == 0 {
        seq![]
    } else if x == tx && y == ty {
        seq![(x, y)]
    } else {
        let n = bres_next(x, y, e, dx, dy, sx, sy);
        seq![(x, y)] + bres_points(n.0, n.1, n.2, tx, ty, dx, dy, sx, sy, (fuel - 1) as nat)
    }
}

/// The internal consistency of a stepper state: the remaining distances lie
/// within the axis spans, the error term encodes them, and everything stays
/// within bounds that keep the doubled error in range.
pub open spec fn bres_inv(
    x: int,
    y: int,
    e: int,
    tx: int,
    ty: int,
    dx: int,
    dy: int,
    sx: int,
    sy: int,
) -> bool {
    let u = (tx - x) * sx;
    let v = (ty - y) * sy;
    &&& dx >= 0
    &&& dy <= 0
    &&& dx <= BRES_SPAN
    &&& -dy <= BRES_SPAN
    &&& (sx == 1 || sx == -1)
    &&& (sy == 1 || sy == -1)
    &&& 0 <= u <= dx
    &&& 0 <= v <= -dy
    &&& e == dx + dy - dx * v - dy * u
    &&& 2 * dy <= e <= 2 * dx
}

/// The full point sequence of the stepper from `p1` to `p2`.
pub open spec fn bres_seq(p1x: int, p1y: int, p2x: int, p2y: int) -> Seq<(int, int)> {
    let dx = abs_int(p2x - p1x);
    let dy = -abs_int(p2y - p1y);
    let sx: int = if p2x > p1x {
        1
    } else {
        -1
    };
    let sy: int = if p2y > p1y {
        1
    } else {
        -1
    };
    bres_points(p1x, p1y, dx + dy, p2x, p2y, dx, dy, sx, sy, (dx - dy + 1) as nat)
}

/// One step from a consistent, unfinished state lands in a consistent state
/// and strictly shrinks the remaining distance; each axis moves by at most
/// one, never past its target.
pub proof fn lemma_bres_step(
    x: int,
    y: int,
    e: int,
    tx: int,
    ty: int,
    dx: int,
    dy: int,
    sx: int,
    sy: int,
)
    requires
        bres_inv(x, y, e, tx, ty, dx, dy, sx, sy),
        !(x == tx && y == ty),
    ensures
        ({
            let n = bres_next(x, y, e, dx, dy, sx, sy);
            let u = (tx - x) * sx;
            let v = (ty - y) * sy;
            let u1 = (tx - n.0) * sx;
            let v1 = (ty - n.1) * sy;
            &&& bres_inv(n.0, n.1, n.2, tx, ty, dx, dy, sx, sy)
            &&& u1 + v1 < u + v
            &&& u1 == u || u1 == u - 1
            &&& v1 == v || v1 == v - 1
        }),
{
    let u = (tx - x) * sx;
    let v = (ty - y) * sy;
    let e2 = 2 * e;
    let xstep = e2 >= dy;
    let ystep = e2 <= dx;
    assert(u != 0 || v != 0) by (nonlinear_arith)
        requires
            u == (tx - x) * sx,
            v == (ty - y) * sy,
            sx == 1 || sx == -1,
            sy == 1 || sy == -1,
            !(x == tx && y == ty);
    if u == 0 && v > 0 {
        // the x axis is done: the error term blocks a further x step
        assert(!xstep) by (nonlinear_arith)
            requires
                e == dx + dy - dx * v - dy * u,
                u == 0,
                v >= 1,
                dx >= 0,
                dy <= 0,
                v <= -dy,
                e2 == 2 * e,
                xstep == (e2 >= dy);
        assert(ystep);
    }
    if v == 0 && u > 0 {
        // the y axis is done: the error term blocks a further y step
        assert(!ystep) by (nonlinear_arith)
            requires
                e == dx + dy - dx * v - dy * u,
                v == 0,
                u >= 1,
                dx >= 1,
                dy <= 0,
                u <= dx,
                e2 == 2 * e,
                ystep == (e2 <= dx);
        assert(xstep);
    }
    if !xstep {
        assert(ystep);
    }
    let n = bres_next(x, y, e, dx, dy, sx, sy);
    let u1 = (tx - n.0) * sx;
    let v1 = (ty - n.1) * sy;
    if xstep {
        assert(u1 == u - 1) by (nonlinear_arith)
            requires
                u == (tx - x) * sx,
                u1 == (tx - (x + sx)) * sx,
                sx == 1 || sx == -1;
        assert(u >= 1) by (nonlinear_arith)
            requires
                e == dx + dy - dx * v - dy * u,
                2 * e >= dy,
                u == 0 ==> !(2 * e >= dy) || v == 0,
                0 <= u,
                0 <= v <= -dy,
                dx >= 0,
                dy <= 0,
                u == 0 && v == 0 ==> false;
    } else {
        assert(u1 == u);
    }
    if ystep {
        assert(v1 == v - 1) by (nonlinear_arith)
            requires
                v == (ty - y) * sy,
                v1 == (ty - (y + sy)) * sy,
                sy == 1 || sy == -1;
        assert(v >= 1) by (nonlinear_arith)
            requires
                e == dx + dy - dx * v - dy * u,
                2 * e <= dx,
                v == 0 ==> !(2 * e <= dx) || u == 0,
                0 <= v,
                0 <= u <= dx,
                dx >= 0,
                dy <= 0,
                u == 0 && v == 0 ==> false;
    } else {
        assert(v1 == v);
    }
    // the error encoding carries over to the new remaining distances
    assert(n.2 == dx + dy - dx * v1 - dy * u1) by (nonlinear_arith)
        requires
            e == dx + dy - dx * v - dy * u,
            xstep ==> u1 == u - 1,
            !xstep ==> u1 == u,
            ystep ==> v1 == v - 1,
            !ystep ==> v1 == v,
            n.2 == e + (if xstep {
                dy
            } else {
                0int
            }) + (if ystep {
                dx
            } else {
                0int
            });
    // the error term stays within its doubled-span window
    assert(2 * dy <= n.2 <= 2 * dx) by (nonlinear_arith)
        requires
            2 * dy <= e <= 2 * dx,
            dx >= 0,
            dy <= 0,
            xstep == (2 * e >= dy),
            ystep == (2 * e <= dx),
            xstep || ystep,
            n.2 == e + (if xstep {
                dy
            } else {
                0int
            }) + (if ystep {
                dx
            } else {
                0int
            });
}

/// From any consistent state, the emitted points form a path: it starts at
/// the state's position, ends at the target, steps by at most one per axis,
/// and its length lies between the larger and the sum of the remaining
/// axis distances, plus one.
pub proof fn lemma_bres_points_path(
    x: int,
    y: int,
    e: int,
    tx: int,
    ty: int,
    dx: int,
    dy: int,
    sx: int,
    sy: int,
    fuel: nat,
)
    requires
        bres_inv(x, y, e, tx, ty, dx, dy, sx, sy),
        fuel >= (tx - x) * sx + (ty - y) * sy + 1,
    ensures
        ({
            let s = bres_points(x, y, e, tx, ty, dx, dy, sx, sy, fuel);
            let u = (tx - x) * sx;
            let v = (ty - y) * sy;
            &&& s.len() >= 1 + (if u >= v {
                u
            } else {
                v
            })
            &&& s.len() <= 1 + u + v
            &&& s[0] == (x, y)
            &&& s[s.len() - 1] == (tx, ty)
            &&& forall|k: int| 0 <= k < s.len() - 1 ==> #[trigger] s[k] != (tx, ty)
            &&& forall|k: int| 0 <= k < s.len() - 1 ==> adjacent(#[trigger] s[k], s[k + 1])
        }),
    decreases fuel,
{
    let u = (tx - x) * sx;
    let v = (ty - y) * sy;
    let s = bres_points(x, y, e, tx, ty, dx, dy, sx, sy, fuel);
    if x == tx && y == ty {
        assert(u == 0 && v == 0) by (nonlinear_arith)
            requires
                u == (tx - x) * sx,
                v == (ty - y) * sy,
                x == tx,
                y == ty;
    } else {
        lemma_bres_step(x, y, e, tx, ty, dx, dy, sx, sy);
        let n = bres_next(x, y, e, dx, dy, sx, sy);
        lemma_bres_points_path(n.0, n.1, n.2, tx, ty, dx, dy, sx, sy, (fuel - 1) as nat);
        let t = bres_points(n.0, n.1, n.2, tx, ty, dx, dy, sx, sy, (fuel - 1) as nat);
        assert(s == seq![(x, y)] + t);
        assert(s[0] == (x, y));
        assert(u >= 0 && v >= 0);
        // the head steps to t's head by at most one per axis
        assert(t[0] == (n.0, n.1));
        assert(n.0 - x == 0 || n.0 - x == 1 || n.0 - x == -1);
        assert(n.1 - y == 0 || n.1 - y == 1 || n.1 - y == -1);
        assert forall|k: int| 0 <= k < s.len() - 1 implies adjacent(#[trigger] s[k], s[k + 1]) by {
            if k == 0 {
                assert(s[0] == (x, y) && s[1] == t[0]);
            } else {
                assert(s[k] == t[k - 1] && s[k + 1] == t[k]);
                assert(adjacent(t[k - 1], t[k]));
            }
        }
        assert forall|k: int| 0 <= k < s.len() - 1 implies #[trigger] s[k] != (tx, ty) by {
            if k > 0 {
                assert(s[k] == t[k - 1]);
            }
        }
    }
}

/// The emitted sequence does not depend on how much fuel remains, as long
/// as enough remains to reach the target.
pub proof fn lemma_bres_points_fuel(
    x: int,
    y: int,
    e: int,
    tx: int,
    ty: int,
    dx: int,
    dy: int,
    sx: int,
    sy: int,
    f1: nat,
    f2: nat,
)
    requires
        bres_inv(x, y, e, tx, ty, dx, dy, sx, sy),
        f1 >= (tx - x) * sx + (ty - y) * sy + 1,
        f2 >= (tx - x) * sx + (ty - y) * sy + 1,
    ensures
        bres_points(x, y, e, tx, ty, dx, dy, sx, sy, f1) == bres_points(
            x,
            y,
            e,
            tx,
            ty,
            dx,
            dy,
            sx,
            sy,
            f2,
        ),
    decreases f1,
{
    let u = (tx - x) * sx;
    let v = (ty - y) * sy;
    if x == tx && y == ty {
    } else {
        lemma_bres_step(x, y, e, tx, ty, dx, dy, sx, sy);
        let n = bres_next(x, y, e, dx, dy, sx, sy);
        lemma_bres_points_fuel(
            n.0,
            n.1,
            n.2,
            tx,
            ty,
            dx,
            dy,
            sx,
            sy,
            (f1 - 1) as nat,
            (f2 - 1) as nat,
        );
    }
}

/// A line segment between two integer points, before any clipping.
pub struct Line {
    pub p1: Vec2i32,
    pub p2: Vec2i32,
}

impl Line {
    pub fn new(p1: Vec2i32, p2: Vec2i32) -> (r: Self)
        ensures
            r.p1 == p1,
            r.p2 == p2,
    {
        Line { p1, p2 }
    }

    /// A stepper over the whole segment, clipped only against the full
    /// coordinate range, which touches nothing.
    pub fn iter(&self) -> (r: DrawLine)
        requires
            -BRES_SPAN <= self.p2[0] - self.p1[0] <= BRES_SPAN,
            -BRES_SPAN <= self.p2[1] - self.p1[1] <= BRES_SPAN,
        ensures
            r.wf(),
            r.start_spec() == (self.p1[0] as int, self.p1[1] as int),
            r.end_spec() == (self.p2[0] as int, self.p2[1] as int),
            r.remaining() == bres_seq(
                self.p1[0] as int,
                self.p1[1] as int,
                self.p2[0] as int,
                self.p2[1] as int,
            ),
    {
        proof {
            lemma_cut_line_inside(
                self.p1[0] as int,
                self.p1[1] as int,
                self.p2[0] as int,
                self.p2[1] as int,
                i32::MIN as int,
                i32::MAX as int,
                i32::MIN as int,
                i32::MAX as int,
            );
        }
        DrawLine::new(self.p1, self.p2, i32::MIN, i32::MAX, i32::MIN, i32::MAX)
    }

    /// A stepper over the segment clipped against the given rectangle.
    pub fn draw(&self, xmin: i32, xmax: i32, ymin: i32, ymax: i32) -> (r: DrawLine)
        requires
            cut_span_ok(
                self.p1[0] as int,
                self.p1[1] as int,
                self.p2[0] as int,
                self.p2[1] as int,
                xmin as int,
                xmax as int,
                ymin as int,
                ymax as int,
            ),
        ensures
            r.wf(),
            ({
                let cut = cut_line_spec(
                    self.p1[0] as int,
                    self.p1[1] as int,
                    self.p2[0] as int,
                    self.p2[1] as int,
                    xmin as int,
                    xmax as int,
                    ymin as int,
                    ymax as int,
                );
                match cut {
                    None => r.remaining() == Seq::<(int, int)>::empty(),
                    Some(q) => {
                        &&& r.start_spec() == q.0
                        &&& r.end_spec() == q.1
                        &&& r.remaining() == bres_seq(q.0.0, q.0.1, q.1.0, q.1.1)
                    },
                }
            }),
    {
        DrawLine::new(self.p1, self.p2, xmin, xmax, ymin, ymax)
    }
}

/// Some stepped point of `s` has `(x, y)` within the disc of diameter `d`
/// around it.
pub open spec fn covers(s: Seq<(int, int)>, d: int, x: int, y: int) -> bool {
    exists|k: int| 0 <= k < s.len() && #[trigger] in_disc_offset(x - s[k].0, y - s[k].1, d)
}

/// Extending the stepped prefix by one point extends its coverage by that
/// point's disc.
proof fn lemma_covers_take_step(s: Seq<(int, int)>, d: int, k: int, x: int, y: int)
    requires
        0 <= k < s.len(),
    ensures
        covers(s.take(k + 1), d, x, y) <==> covers(s.take(k), d, x, y) || in_disc_offset(
            x - s[k].0,
            y - s[k].1,
            d,
        ),
{
    assert(s.take(k + 1) =~= s.take(k).push(s[k]));
    if covers(s.take(k), d, x, y) {
        let i = choose|i: int|
            0 <= i < s.take(k).len() && #[trigger] in_disc_offset(
                x - s.take(k)[i].0,
                y - s.take(k)[i].1,
                d,
            );
        assert(in_disc_offset(x - s.take(k + 1)[i].0, y - s.take(k + 1)[i].1, d));
    }
    if in_disc_offset(x - s[k].0, y - s[k].1, d) {
        assert(in_disc_offset(x - s.take(k + 1)[k].0, y - s.take(k + 1)[k].1, d));
    }
    if covers(s.take(k + 1), d, x, y) {
        let i = choose|i: int|
            0 <= i < s.take(k + 1).len() && #[trigger] in_disc_offset(
                x - s.take(k + 1)[i].0,
                y - s.take(k + 1)[i].1,
                d,
            );
        if i < k {
            assert(in_disc_offset(x - s.take(k)[i].0, y - s.take(k)[i].1, d));
        }
    }
}

/// The clip rectangle a stroke of the given width uses on a canvas of the
/// given size: the canvas, widened on every side by half the width plus
/// one.
pub open spec fn line_clip_rect(w: int, h: int, width: int) -> (int, int, int, int) {
    let bound = width / 2 + 1;
    (-bound, w + bound, -bound, h + bound)
}

/// The points a stroke paints: those within half the stroke width of some
/// stepped point of the clipped segment.
pub open spec fn line_covers(
    p1: (int, int),
    p2: (int, int),
    w: int,
    h: int,
    width: int,
    x: int,
    y: int,
) -> bool {
    let rect = line_clip_rect(w, h, width);
    match cut_line_spec(p1.0, p1.1, p2.0, p2.1, rect.0, rect.1, rect.2, rect.3) {
        None => false,
        Some(q) => covers(bres_seq(q.0.0, q.0.1, q.1.0, q.1.1), width, x, y),
    }
}

/// The lazily stepped, pre-clipped raster line: a Bresenham stepper over
/// the segment that survives the clip.
pub struct DrawLine {
    p1: Vec2i32,
    p2: Vec2i32,
    p: Option<Vec2i32>,
    dx: i32,
    dy: i32,
    sx: i32,
    sy: i32,
    e: i32,
}

/// A `u8` disjunction is zero exactly when both sides are.
proof fn lemma_u8_or_zero(a: u8, b: u8)
    ensures
        (a | b == 0) <==> (a == 0 && b == 0),
{
    assert((a | b == 0) <==> (a == 0 && b == 0)) by (bit_vector);
}

/// Clipping keeps a segment that already lies inside the rectangle: both
/// endpoints come back unchanged.
pub proof fn lemma_cut_line_inside(
    p1x: int,
    p1y: int,
    p2x: int,
    p2y: int,
    xmin: int,
    xmax: int,
    ymin: int,
    ymax: int,
)
    requires
        xmin <= p1x <= xmax,
        ymin <= p1y <= ymax,
        xmin <= p2x <= xmax,
        ymin <= p2y <= ymax,
    ensures
        cut_line_spec(p1x, p1y, p2x, p2y, xmin, xmax, ymin, ymax) == Some(
            ((p1x, p1y), (p2x, p2y)),
        ),
{
    let c1 = code_of(p1x, p1y, xmin, xmax, ymin, ymax);
    let c2 = code_of(p2x, p2y, xmin, xmax, ymin, ymax);
    assert(c1 == 0 && c2 == 0) by {
        lemma_u8_or_zero(x_code(p1x, xmin, xmax), y_code(p1y, ymin, ymax));
        lemma_u8_or_zero(x_code(p2x, xmin, xmax), y_code(p2y, ymin, ymax));
    }
    lemma_u8_or_zero(c1, c2);
}

/// Clipping discards a segment that lies wholly beyond one side of the
/// rectangle: no segment comes back.
pub proof fn lemma_cut_line_shared_side(
    p1x: int,
    p1y: int,
    p2x: int,
    p2y: int,
    xmin: int,
    xmax: int,
    ymin: int,
    ymax: int,
)
    requires
        xmin <= xmax,
        ymin <= ymax,
        (p1x < xmin && p2x < xmin) || (xmax < p1x && xmax < p2x) || (p1y < ymin && p2y < ymin) || (
        ymax < p1y && ymax < p2y),
    ensures
        cut_line_spec(p1x, p1y, p2x, p2y, xmin, xmax, ymin, ymax) is None,
{
    let a = x_code(p1x, xmin, xmax);
    let b = y_code(p1y, ymin, ymax);
    let c = x_code(p2x, xmin, xmax);
    let d = y_code(p2y, ymin, ymax);
    let c1 = code_of(p1x, p1y, xmin, xmax, ymin, ymax);
    let c2 = code_of(p2x, p2y, xmin, xmax, ymin, ymax);
    assert(c1 == a | b && c2 == c | d);
    if p1x < xmin && p2x < xmin {
        assert(c1 & c2 != 0 && c1 | c2 != 0) by (bit_vector)
            requires
                c1 == (1u8 | b),
                c2 == (1u8 | d),
                b == 0 || b == 4 || b == 8,
                d == 0 || d == 4 || d == 8;
    } else if xmax < p1x && xmax < p2x {
        assert(c1 & c2 != 0 && c1 | c2 != 0) by (bit_vector)
            requires
                c1 == (2u8 | b),
                c2 == (2u8 | d),
                b == 0 || b == 4 || b == 8,
                d == 0 || d == 4 || d == 8;
    } else if p1y < ymin && p2y < ymin {
        assert(c1 & c2 != 0 && c1 | c2 != 0) by (bit_vector)
            requires
                c1 == (a | 4u8),
                c2 == (c | 4u8),
                a == 0 || a == 1 || a == 2,
                c == 0 || c == 1 || c == 2;
    } else {
        assert(c1 & c2 != 0 && c1 | c2 != 0) by (bit_vector)
            requires
                c1 == (a | 8u8),
                c2 == (c | 8u8),
                a == 0 || a == 1 || a == 2,
                c == 0 || c == 1 || c == 2;
    }
}

/// The bounds a clipped segment must respect before stepping: each axis
/// span fits the stepper's error arithmetic.
pub open spec fn cut_span_ok(
    p1x: int,
    p1y: int,
    p2x: int,
    p2y: int,
    xmin: int,
    xmax: int,
    ymin: int,
    ymax: int,
) -> bool {
    match cut_line_spec(p1x, p1y, p2x, p2y, xmin, xmax, ymin, ymax) {
        None => true,
        Some(q) => {
            &&& -BRES_SPAN <= q.1.0 - q.0.0 <= BRES_SPAN
            &&& -BRES_SPAN <= q.1.1 - q.0.1 <= BRES_SPAN
        },
    }
}

impl DrawLine {
    /// The first endpoint of the clipped segment.
    pub closed spec fn start_spec(&self) -> (int, int) {
        (self.p1[0] as int, self.p1[1] as int)
    }

    /// The second endpoint of the clipped segment.
    pub closed spec fn end_spec(&self) -> (int, int) {
        (self.p2[0] as int, self.p2[1] as int)
    }

    /// The stepper's fields agree with its endpoints and its error term
    /// encodes the remaining distances.
    pub closed spec fn wf(&self) -> bool {
        match self.p {
            None => true,
            Some(cur) => {
                &&& self.dx == abs_int(self.p2[0] - self.p1[0])
                &&& self.dy == -abs_int(self.p2[1] - self.p1[1])
                &&& self.sx == (if self.p2[0] > self.p1[0] {
                    1int
                } else {
                    -1int
                })
                &&& self.sy == (if self.p2[1] > self.p1[1] {
                    1int
                } else {
                    -1int
                })
                &&& bres_inv(
                    cur[0] as int,
                    cur[1] as int,
                    self.e as int,
                    self.p2[0] as int,
                    self.p2[1] as int,
                    self.dx as int,
                    self.dy as int,
                    self.sx as int,
                    self.sy as int,
                )
            },
        }
    }

    /// The points the stepper has yet to emit.
    pub closed spec fn remaining(&self) -> Seq<(int, int)> {
        match self.p {
            None => seq![],
            Some(cur) => bres_points(
                cur[0] as int,
                cur[1] as int,
                self.e as int,
                self.p2[0] as int,
                self.p2[1] as int,
                self.dx as int,
                self.dy as int,
                self.sx as int,
                self.sy as int,
                ((self.p2[0] - cur[0]) * self.sx + (self.p2[1] - cur[1]) * self.sy + 1) as nat,
            ),
        }
    }

    /// A stepper over the clipped segment: nothing to emit when the clip
    /// discards the segment, and otherwise exactly the Bresenham points of
    /// the clipped endpoints, both inclusive.
    pub fn new(p1: Vec2i32, p2: Vec2i32, xmin: i32, xmax: i32, ymin: i32, ymax: i32) -> (r:
        DrawLine)
        requires
            cut_span_ok(
                p1[0] as int,
                p1[1] as int,
                p2[0] as int,
                p2[1] as int,
                xmin as int,
                xmax as int,
                ymin as int,
                ymax as int,
            ),
        ensures
            r.wf(),
            ({
                let cut = cut_line_spec(
                    p1[0] as int,
                    p1[1] as int,
                    p2[0] as int,
                    p2[1] as int,
                    xmin as int,
                    xmax as int,
                    ymin as int,
                    ymax as int,
                );
                match cut {
                    None => r.remaining() == Seq::<(int, int)>::empty(),
                    Some(q) => {
                        &&& r.start_spec() == q.0
                        &&& r.end_spec() == q.1
                        &&& r.remaining() == bres_seq(q.0.0, q.0.1, q.1.0, q.1.1)
                    },
                }
            }),
    {
        let cut = Self::cut_line([p1, p2], xmin, xmax, ymin, ymax);
        match cut {
            None => DrawLine {
                p1: [0, 0],
                p2: [0, 0],
                p: None,
                dx: 0,
                dy: 0,
                sx: 0,
                sy: 0,
                e: 0,
            },
            Some(qs) => {
                let q1 = qs[0];
                let q2 = qs[1];
                let dxv = q2[0] - q1[0];
                let dx = if dxv < 0 {
                    -dxv
                } else {
                    dxv
                };
                let dyv = q2[1] - q1[1];
                let dy = if dyv < 0 {
                    dyv
                } else {
                    -dyv
                };
                let sx: i32 = if q2[0] > q1[0] {
                    1
                } else {
                    -1
                };
                let sy: i32 = if q2[1] > q1[1] {
                    1
                } else {
                    -1
                };
                let e = dx + dy;
                proof {
                    assert((q2[0] - q1[0]) * sx == dx && (q2[1] - q1[1]) * sy == -dy && dx * (-dy
                        as int) + dy * (dx as int) == 0) by (nonlinear_arith)
                        requires
                            dx == abs_int(q2[0] - q1[0]),
                            dy == -abs_int(q2[1] - q1[1]),
                            sx == (if q2[0] > q1[0] {
                                1int
                            } else {
                                -1int
                            }),
                            sy == (if q2[1] > q1[1] {
                                1int
                            } else {
                                -1int
                            });
                }
                DrawLine { p1: q1, p2: q2, p: Some(q1), dx, dy, sx, sy, e }
            },
        }
    }

    pub fn start(&self) -> (r: Vec2i32)
        ensures
            (r[0] as int, r[1] as int) == self.start_spec(),
    {
        self.p1
    }

    pub fn end(&self) -> (r: Vec2i32)
        ensures
            (r[0] as int, r[1] as int) == self.end_spec(),
    {
        self.p2
    }

    /// Emit the next point of the line, or nothing once the second endpoint
    /// has been emitted.
    pub fn next(&mut self) -> (r: Option<Vec2i32>)
        requires
            old(self).wf(),
        ensures
            final(self).wf(),
            final(self).start_spec() == old(self).start_spec(),
            final(self).end_spec() == old(self).end_spec(),
            match r {
                None => old(self).remaining() == Seq::<(int, int)>::empty() && *final(self)
                    == *old(self),
                Some(q) => {
                    &&& old(self).remaining().len() >= 1
                    &&& (q[0] as int, q[1] as int) == old(self).remaining()[0]
                    &&& final(self).remaining() == old(self).remaining().drop_first()
                },
            },
    {
        let p = match self.p {
            Some(p) => p,
            None => {
                return None;
            },
        };
        let ghost rem = self.remaining();
        let ghost u = (self.p2[0] - p[0]) * self.sx as int;
        let ghost v = (self.p2[1] - p[1]) * self.sy as int;
        if p[0] == self.p2[0] && p[1] == self.p2[1] {
            proof {
                assert(u == 0 && v == 0) by (nonlinear_arith)
                    requires
                        u == (self.p2[0] - p[0]) * self.sx,
                        v == (self.p2[1] - p[1]) * self.sy,
                        p[0] == self.p2[0],
                        p[1] == self.p2[1];
                assert(rem =~= seq![(p[0] as int, p[1] as int)]);
            }
            self.p = None;
        } else {
            proof {
                lemma_bres_step(
                    p[0] as int,
                    p[1] as int,
                    self.e as int,
                    self.p2[0] as int,
                    self.p2[1] as int,
                    self.dx as int,
                    self.dy as int,
                    self.sx as int,
                    self.sy as int,
                );
                let n = bres_next(
                    p[0] as int,
                    p[1] as int,
                    self.e as int,
                    self.dx as int,
                    self.dy as int,
                    self.sx as int,
                    self.sy as int,
                );
                assert(i32::MIN <= n.0 <= i32::MAX && i32::MIN <= n.1 <= i32::MAX)
                    by (nonlinear_arith)
                    requires
                        0 <= (self.p2[0] - n.0) * self.sx,
                        0 <= (self.p2[1] - n.1) * self.sy,
                        self.sx == 1 || self.sx == -1,
                        self.sy == 1 || self.sy == -1,
                        i32::MIN <= self.p2[0] <= i32::MAX,
                        i32::MIN <= self.p2[1] <= i32::MAX,
                        i32::MIN <= p[0] <= i32::MAX,
                        i32::MIN <= p[1] <= i32::MAX,
                        n.0 == p[0] || n.0 == p[0] + self.sx,
                        n.1 == p[1] || n.1 == p[1] + self.sy;
            }
            let e2 = 2 * self.e;
            let mut x = p[0];
            let mut y = p[1];
            if e2 >= self.dy {
                self.e = self.e + self.dy;
                x = x + self.sx;
            }
            if e2 <= self.dx {
                self.e = self.e + self.dx;
                y = y + self.sy;
            }
            self.p = Some([x, y]);
            proof {
                let n = bres_next(
                    p[0] as int,
                    p[1] as int,
                    old(self).e as int,
                    self.dx as int,
                    self.dy as int,
                    self.sx as int,
                    self.sy as int,
                );
                assert(n == (x as int, y as int, self.e as int));
                let u1 = (self.p2[0] - x) * self.sx as int;
                let v1 = (self.p2[1] - y) * self.sy as int;
                lemma_bres_points_fuel(
                    x as int,
                    y as int,
                    self.e as int,
                    self.p2[0] as int,
                    self.p2[1] as int,
                    self.dx as int,
                    self.dy as int,
                    self.sx as int,
                    self.sy as int,
                    (u + v) as nat,
                    (u1 + v1 + 1) as nat,
                );
                assert(rem.drop_first() =~= self.remaining());
            }
        }
        Some(p)
    }

    /// The four-bit outcode of `p` against the clip rectangle.
    pub fn line_code(p: Vec2i32, xmin: i32, xmax: i32, ymin: i32, ymax: i32) -> (code: u8)
        ensures
            code == code_of(p[0] as int, p[1] as int, xmin as int, xmax as int, ymin as int,
                ymax as int),
    {
        let x = p[0];
        let y = p[1];
        let mut code: u8 = 0;
        if x < xmin {
            code |= 0b_0001;
        } else if xmax < x {
            code |= 0b_0010;
        }
        if y < ymin {
            code |= 0b_0100;
        } else if ymax < y {
            code |= 0b_1000;
        }
        proof {
            assert(0u8 | 1u8 == 1u8 && 0u8 | 2u8 == 2u8 && 0u8 | 4u8 == 4u8 && 0u8 | 8u8 == 8u8
                && 1u8 | 4u8 == 5u8 && 1u8 | 8u8 == 9u8 && 2u8 | 4u8 == 6u8 && 2u8 | 8u8 == 10u8
                && 1u8 | 0u8 == 1u8 && 2u8 | 0u8 == 2u8 && 0u8 | 0u8 == 0u8) by (bit_vector);
        }
        code
    }

    /// One endpoint moved onto the boundaries its outcode names.
    fn clip_point(
        p: Vec2i32,
        q: Vec2i32,
        code: u8,
        xmin: i32,
        xmax: i32,
        ymin: i32,
        ymax: i32,
    ) -> (r: Vec2i32)
        ensures
            (r[0] as int, r[1] as int) == clip_point_spec(
                p[0] as int,
                p[1] as int,
                q[0] as int,
                q[1] as int,
                code,
                xmin as int,
                xmax as int,
                ymin as int,
                ymax as int,
            ),
    {
        let x1 = p[0];
        let y1 = p[1];
        let x2 = q[0];
        let y2 = q[1];
        let mut rx = x1;
        let mut ry = y1;
        if code & 0b_0001 != 0 {
            rx = xmin;
            if x2 != x1 {
                ry = lerp_i32(y1, y2, x1, x2, xmin);
            }
        } else if code & 0b_0010 != 0 {
            rx = xmax;
            if x2 != x1 {
                ry = lerp_i32(y1, y2, x1, x2, xmax);
            }
        }
        if code & 0b_0100 != 0 {
            ry = ymin;
            if y2 != y1 {
                rx = lerp_i32(x1, x2, y1, y2, ymin);
            }
        } else if code & 0b_1000 != 0 {
            ry = ymax;
            if y2 != y1 {
                rx = lerp_i32(x1, x2, y1, y2, ymax);
            }
        }
        [rx, ry]
    }

    /// The segment clipped against the rectangle: identical endpoints when
    /// already inside, nothing when fully outside on a shared side, and the
    /// two-pass boundary intersection otherwise.
    pub fn cut_line(
        ps: [Vec2i32; 2],
        xmin: i32,
        xmax: i32,
        ymin: i32,
        ymax: i32,
    ) -> (r: Option<[Vec2i32; 2]>)
        ensures
            ({
                let cut = cut_line_spec(
                    ps[0][0] as int,
                    ps[0][1] as int,
                    ps[1][0] as int,
                    ps[1][1] as int,
                    xmin as int,
                    xmax as int,
                    ymin as int,
                    ymax as int,
                );
                match r {
                    Some(qs) => cut matches Some(pair) && pair.0 == (
                        qs[0][0] as int,
                        qs[0][1] as int,
                    ) && pair.1 == (qs[1][0] as int, qs[1][1] as int),
                    None => cut is None,
                }
            }),
    {
        let p1 = ps[0];
        let p2 = ps[1];
        let code1 = Self::line_code(p1, xmin, xmax, ymin, ymax);
        let code2 = Self::line_code(p2, xmin, xmax, ymin, ymax);
        if code1 | code2 == 0 {
            return Some([p1, p2]);
        }
        if code1 & code2 != 0 {
            return None;
        }
        let a = Self::clip_point(p1, p2, code1, xmin, xmax, ymin, ymax);
        let b = Self::clip_point(p2, a, code2, xmin, xmax, ymin, ymax);
        Some([a, b])
    }
}

/// A dense row-major grid of RGB pixels.
pub struct Canvas {
    w: usize,
    h: usize,
    vec: Vec<[u8; 3]>,
}

/// In-range coordinates `(x, y)` land at flat index `y * w + x`, inside the
/// grid.
pub proof fn lemma_row_major_index(w: int, h: int, x: int, y: int)
    requires
        0 <= x < w,
        0 <= y < h,
    ensures
        0 <= y * w + x < w * h,
    {
    assert(0 <= y * w + x < w * h) by (nonlinear_arith)
        requires 0 <= x < w, 0 <= y < h;
}

/// Distinct in-range coordinates land at distinct flat indices.
pub proof fn lemma_row_major_injective(w: int, x1: int, y1: int, x2: int, y2: int)
    requires
        0 <= x1 < w,
        0 <= x2 < w,
        y1 * w + x1 == y2 * w + x2,
    ensures
        x1 == x2 && y1 == y2,
{
    assert(x1 == x2 && y1 == y2) by (nonlinear_arith)
        requires 0 <= x1 < w, 0 <= x2 < w, y1 * w + x1 == y2 * w + x2;
}

/// The color of the grid `g` of width `w` at coordinates `(x, y)`.
pub open spec fn grid_at(g: Seq<[u8; 3]>, w: int, x: int, y: int) -> [u8; 3] {
    g[y * w + x]
}

/// The decimal digits of `n`, as ASCII bytes, most significant first.
pub open spec fn dec_digits(n: nat) -> Seq<u8>
    decreases n,
{
    if n < 10 {
        seq![(48 + n) as u8]
    } else {
        dec_digits(n / 10) + seq![(48 + n % 10) as u8]
    }
}

/// The three header lines of a binary portable pixmap: the magic number,
/// the dimensions, and the maximum channel value, 255.
pub open spec fn ppm_header(w: nat, h: nat) -> Seq<u8> {
    seq![80u8, 54u8, 10u8] + dec_digits(w) + seq![32u8] + dec_digits(h) + seq![10u8]
        + seq![50u8, 53u8, 53u8, 10u8]
}

/// The raw byte payload of a pixel grid: three bytes per pixel, row-major.
pub open spec fn grid_bytes(g: Seq<[u8; 3]>) -> Seq<u8> {
    Seq::new(3 * g.len(), |i: int| g[i / 3][i % 3])
}

impl Canvas {
    /// The grid holds exactly one RGB triple per coordinate, and the pixel
    /// data fits in a single byte buffer.
    pub closed spec fn wf(&self) -> bool {
        &&& self.vec@.len() == self.w * self.h
        &&& self.w >= 1
        &&& self.h >= 1
        &&& self.w * self.h * 3 <= usize::MAX
    }

    /// The width the canvas was constructed with.
    pub closed spec fn width(&self) -> int {
        self.w as int
    }

    /// The height the canvas was constructed with.
    pub closed spec fn height(&self) -> int {
        self.h as int
    }

    /// The pixel grid in row-major order.
    pub closed spec fn grid(&self) -> Seq<[u8; 3]> {
        self.vec@
    }

    /// The grid of a well-formed canvas holds exactly one pixel per
    /// coordinate.
    pub proof fn lemma_grid_len(&self)
        requires
            self.wf(),
        ensures
            self.grid().len() == self.width() * self.height(),
    {
    }

    /// The color at `(x, y)`, or nothing when out of range.
    pub open spec fn pixel_spec(&self, x: int, y: int) -> Option<[u8; 3]> {
        if 0 <= x < self.width() && 0 <= y < self.height() {
            Some(self.grid()[y * self.width() + x])
        } else {
            None
        }
    }

    pub fn new(w: usize, h: usize, fill: [u8; 3]) -> (r: Canvas)
        requires
            w >= 1,
            h >= 1,
            w * h * 3 <= usize::MAX,
        ensures
            r.wf(),
            r.width() == w,
            r.height() == h,
            r.grid().len() == w * h,
            forall|i: int| 0 <= i < w * h ==> r.grid()[i] == fill,
    {
        proof {
            assert(w * h <= w * h * 3) by (nonlinear_arith)
                requires w >= 1, h >= 1;
        }
        let n = w * h;
        let mut vec: Vec<[u8; 3]> = Vec::new();
        let mut i: usize = 0;
        while i < n
            invariant
                i <= n,
                vec@.len() == i,
                forall|k: int| 0 <= k < i ==> vec@[k] == fill,
            decreases n - i,
        {
            vec.push(fill);
            i = i + 1;
        }
        Canvas { w, h, vec }
    }

    /// The canvas, or nothing when a dimension is zero or the pixel data
    /// would not fit in one byte buffer: degenerate dimensions are rejected
    /// at construction rather than carried around.
    pub fn try_new(w: usize, h: usize, fill: [u8; 3]) -> (r: Option<Canvas>)
        ensures
            r is Some <==> w >= 1 && h >= 1 && w * h * 3 <= usize::MAX,
            r matches Some(c) ==> {
                &&& c.wf()
                &&& c.width() == w
                &&& c.height() == h
                &&& c.grid().len() == w * h
                &&& forall|i: int| 0 <= i < w * h ==> c.grid()[i] == fill
            },
    {
        if w == 0 || h == 0 {
            return None;
        }
        let wh = w.checked_mul(h);
        match wh {
            None => None,
            Some(n) => {
                let n3 = n.checked_mul(3);
                match n3 {
                    None => None,
                    Some(_) => Some(Canvas::new(w, h, fill)),
                }
            },
        }
    }

    /// Overwrite every pixel with `color`.
    pub fn fill(&mut self, color: [u8; 3])
        requires
            old(self).wf(),
        ensures
            final(self).wf(),
            final(self).width() == old(self).width(),
            final(self).height() == old(self).height(),
            final(self).grid().len() == old(self).grid().len(),
            forall|i: int| 0 <= i < final(self).grid().len() ==> final(self).grid()[i] == color,
    {
        let n = self.vec.len();
        let mut i: usize = 0;
        while i < n
            invariant
                i <= n,
                self.vec@.len() == n,
                self.w == old(self).w,
                self.h == old(self).h,
                old(self).wf(),
                n == old(self).vec@.len(),
                forall|k: int| 0 <= k < i ==> self.vec@[k] == color,
            decreases n - i,
        {
            self.vec.set(i, color);
            i = i + 1;
        }
    }

    /// The color at `(x, y)`, or nothing when `(x, y)` lies outside the grid.
    pub fn pixel(&self, x: usize, y: usize) -> (r: Option<&[u8; 3]>)
        requires
            self.wf(),
        ensures
            r is Some <==> self.pixel_spec(x as int, y as int) is Some,
            r matches Some(c) ==> Some(*c) == self.pixel_spec(x as int, y as int),
    {
        if x < self.w && y < self.h {
            proof {
                lemma_row_major_index(self.w as int, self.h as int, x as int, y as int);
            }
            Some(&self.vec[y * self.w + x])
        } else {
            None
        }
    }

    /// The color at `(x, y)` without a bounds test: the caller owes the
    /// verifier a proof that `(x, y)` lies inside the grid.
    pub fn pixel_unchecked(&self, x: usize, y: usize) -> (r: &[u8; 3])
        requires
            self.wf(),
            x < self.width(),
            y < self.height(),
        ensures
            *r == grid_at(self.grid(), self.width(), x as int, y as int),
    {
        proof {
            lemma_row_major_index(self.w as int, self.h as int, x as int, y as int);
        }
        &self.vec[y * self.w + x]
    }

    /// Overwrite the pixel at `(x, y)` when it lies inside the grid; reports
    /// whether it did.  This stands in for handing out a mutable reference to
    /// the pixel, which the verifier does not allow in a return position.
    pub fn pixel_mut(&mut self, x: usize, y: usize, rgb: [u8; 3]) -> (r: bool)
        requires
            old(self).wf(),
        ensures
            final(self).wf(),
            final(self).width() == old(self).width(),
            final(self).height() == old(self).height(),
            r <==> old(self).pixel_spec(x as int, y as int) is Some,
            r ==> final(self).grid() == old(self).grid().update(y * old(self).width() + x, rgb),
            !r ==> final(self).grid() == old(self).grid(),
    {
        if x < self.w && y < self.h {
            proof {
                lemma_row_major_index(self.w as int, self.h as int, x as int, y as int);
            }
            self.vec.set(y * self.w + x, rgb);
            true
        } else {
            false
        }
    }

    /// Stamp the disc of diameter `radius` at `p`: every disc point that
    /// lands inside the grid takes the color `rgb`; every other pixel keeps
    /// its color.  Disc points outside the grid are skipped silently.
    pub fn dot(&mut self, p: Vec2i32, radius: usize, rgb: [u8; 3])
        requires
            old(self).wf(),
            radius <= 46340,
            radius >= 1 ==> i32::MIN <= p[0] - radius / 2,
            radius >= 1 ==> p[0] + (radius - 1 - radius / 2) <= i32::MAX,
            radius >= 1 ==> i32::MIN <= p[1] - radius / 2,
            radius >= 1 ==> p[1] + (radius - 1 - radius / 2) <= i32::MAX,
        ensures
            final(self).wf(),
            final(self).width() == old(self).width(),
            final(self).height() == old(self).height(),
            forall|x: int, y: int|
                0 <= x < old(self).width() && 0 <= y < old(self).height()
                    ==> #[trigger] grid_at(final(self).grid(), old(self).width(), x, y) == (
                if in_disc_offset(x - p[0], y - p[1], radius as int) {
                    rgb
                } else {
                    grid_at(old(self).grid(), old(self).width(), x, y)
                }),
    {
        let ghost w = old(self).width();
        let ghost h = old(self).height();
        let ps = Point::new(p, radius).iter();
        let n = ps.len();
        let mut idx: usize = 0;
        while idx < n
            invariant
                self.wf(),
                self.width() == w,
                self.height() == h,
                old(self).wf(),
                w == old(self).width(),
                h == old(self).height(),
                idx <= n,
                n == ps@.len(),
                forall|k: int|
                    0 <= k < ps@.len() ==> in_disc_offset(
                        ps@[k][0] - p[0],
                        ps@[k][1] - p[1],
                        radius as int,
                    ),
                forall|i: int, j: int|
                    #[trigger] in_disc_offset(i, j, radius as int) ==> has_point(
                        ps@,
                        p[0] + i,
                        p[1] + j,
                    ),
                forall|x: int, y: int|
                    0 <= x < w && 0 <= y < h ==> #[trigger] grid_at(self.grid(), w, x, y) == (
                    if has_point(ps@.subrange(0, idx as int), x, y) {
                        rgb
                    } else {
                        grid_at(old(self).grid(), w, x, y)
                    }),
            decreases n - idx,
        {
            let q = ps[idx];
            let ghost pre = self.grid();
            if q[0] >= 0 && q[1] >= 0 {
                let _ = self.pixel_mut(q[0] as usize, q[1] as usize, rgb);
            }
            proof {
                let prefix = ps@.subrange(0, idx as int);
                assert(ps@.subrange(0, idx + 1) =~= prefix.push(ps@[idx as int]));
                assert forall|x: int, y: int|
                    0 <= x < w && 0 <= y < h implies #[trigger] grid_at(self.grid(), w, x, y) == (
                if has_point(ps@.subrange(0, idx + 1), x, y) {
                    rgb
                } else {
                    grid_at(old(self).grid(), w, x, y)
                }) by {
                    assert(grid_at(pre, w, x, y) == (if has_point(prefix, x, y) {
                        rgb
                    } else {
                        grid_at(old(self).grid(), w, x, y)
                    }));
                    lemma_has_point_push(prefix, ps@[idx as int], x, y);
                    lemma_row_major_index(w, h, x, y);
                    if 0 <= q[0] < w && 0 <= q[1] < h {
                        lemma_row_major_index(w, h, q[0] as int, q[1] as int);
                        if x == q[0] && y == q[1] {
                            assert(grid_at(self.grid(), w, x, y) == rgb);
                        } else {
                            assert(y * w + x != q[1] * w + q[0]) by {
                                if y * w + x == q[1] * w + q[0] {
                                    lemma_row_major_injective(w, x, y, q[0] as int, q[1] as int);
                                }
                            }
                            assert(self.grid()[y * w + x] == pre[y * w + x]);
                        }
                    } else {
                        assert(self.grid() == pre);
                        assert(!(x == q[0] && y == q[1]));
                    }
                }
            }
            idx = idx + 1;
        }
        proof {
            assert(ps@.subrange(0, n as int) =~= ps@);
            assert forall|x: int, y: int|
                0 <= x < w && 0 <= y < h && has_point(ps@, x, y) implies in_disc_offset(
                x - p[0],
                y - p[1],
                radius as int,
            ) by {
                let k = choose|k: int|
                    0 <= k < ps@.len() && ps@[k][0] == x && #[trigger] ps@[k][1] == y;
                assert(in_disc_offset(ps@[k][0] - p[0], ps@[k][1] - p[1], radius as int));
            }
        }
    }

    /// Draw the segment from `p1` to `p2` with the given stroke width: the
    /// segment is clipped against the canvas widened by half the width plus
    /// one on every side, the surviving segment is stepped point by point,
    /// and the disc of the stroke width is stamped at every stepped point,
    /// skipping pixels outside the grid.  A segment the clip discards
    /// paints nothing.
    #[verifier::loop_isolation(false)]
    pub fn line(&mut self, p1: Vec2i32, p2: Vec2i32, width: usize, rgb: [u8; 3])
        requires
            old(self).wf(),
            width <= 46340,
            old(self).width() + (width / 2 + 1) <= i32::MAX,
            old(self).height() + (width / 2 + 1) <= i32::MAX,
            ({
                let rect = line_clip_rect(old(self).width(), old(self).height(), width as int);
                cut_span_ok(
                    p1[0] as int,
                    p1[1] as int,
                    p2[0] as int,
                    p2[1] as int,
                    rect.0,
                    rect.1,
                    rect.2,
                    rect.3,
                )
            }),
        ensures
            final(self).wf(),
            final(self).width() == old(self).width(),
            final(self).height() == old(self).height(),
            forall|x: int, y: int|
                0 <= x < old(self).width() && 0 <= y < old(self).height()
                    ==> #[trigger] grid_at(final(self).grid(), old(self).width(), x, y) == (
                if line_covers(
                    (p1[0] as int, p1[1] as int),
                    (p2[0] as int, p2[1] as int),
                    old(self).width(),
                    old(self).height(),
                    width as int,
                    x,
                    y,
                ) {
                    rgb
                } else {
                    grid_at(old(self).grid(), old(self).width(), x, y)
                }),
    {
        let ghost w = old(self).width();
        let ghost h = old(self).height();
        let bound = (width as i32) / 2 + 1;
        let xmin = -bound;
        let xmax = self.w as i32 + bound;
        let ymin = -bound;
        let ymax = self.h as i32 + bound;
        let ps = Point::new([0, 0], width).iter();
        let mut dl = Line::new(p1, p2).draw(xmin, xmax, ymin, ymax);
        let ghost cut = cut_line_spec(
            p1[0] as int,
            p1[1] as int,
            p2[0] as int,
            p2[1] as int,
            xmin as int,
            xmax as int,
            ymin as int,
            ymax as int,
        );
        let ghost s = match cut {
            None => Seq::<(int, int)>::empty(),
            Some(q) => bres_seq(q.0.0, q.0.1, q.1.0, q.1.1),
        };
        let ghost mut kp: int = 0;
        let mut cur = dl.next();
        proof {
            if cur is None {
                kp = s.len() as int;
            }
        }
        while cur.is_some()
            invariant
                self.wf(),
                self.width() == w,
                self.height() == h,
                dl.wf(),
                0 <= kp <= s.len(),
                match cur {
                    Some(c) => kp < s.len() && (c[0] as int, c[1] as int) == s[kp]
                        && dl.remaining() == s.skip(kp + 1),
                    None => kp == s.len() && dl.remaining() == Seq::<(int, int)>::empty(),
                },
                forall|x: int, y: int|
                    0 <= x < w && 0 <= y < h ==> #[trigger] grid_at(self.grid(), w, x, y) == (
                    if covers(s.take(kp), width as int, x, y) {
                        rgb
                    } else {
                        grid_at(old(self).grid(), w, x, y)
                    }),
            decreases s.len() - kp,
        {
            let p = cur.unwrap();
            let n = ps.len();
            let mut oidx: usize = 0;
            while oidx < n
                invariant
                    self.wf(),
                    self.width() == w,
                    self.height() == h,
                    oidx <= n,
                    forall|x: int, y: int|
                        0 <= x < w && 0 <= y < h ==> #[trigger] grid_at(self.grid(), w, x, y) == (
                        if covers(s.take(kp), width as int, x, y) || has_point(
                            ps@.subrange(0, oidx as int),
                            x - p[0],
                            y - p[1],
                        ) {
                            rgb
                        } else {
                            grid_at(old(self).grid(), w, x, y)
                        }),
                decreases n - oidx,
            {
                let q = ps[oidx];
                let xx = p[0] as i64 + q[0] as i64;
                let yy = p[1] as i64 + q[1] as i64;
                let ghost pre = self.grid();
                let mut painted_at: Option<(usize, usize)> = None;
                if 0 <= xx && xx < self.w as i64 && 0 <= yy && yy < self.h as i64 {
                    let _ = self.pixel_mut(xx as usize, yy as usize, rgb);
                    painted_at = Some((xx as usize, yy as usize));
                }
                proof {
                    let prefix = ps@.subrange(0, oidx as int);
                    assert(ps@.subrange(0, oidx + 1) =~= prefix.push(ps@[oidx as int]));
                    assert forall|x: int, y: int|
                        0 <= x < w && 0 <= y < h implies #[trigger] grid_at(self.grid(), w, x, y)
                        == (if covers(s.take(kp), width as int, x, y) || has_point(
                        ps@.subrange(0, oidx + 1),
                        x - p[0],
                        y - p[1],
                    ) {
                        rgb
                    } else {
                        grid_at(old(self).grid(), w, x, y)
                    }) by {
                        assert(grid_at(pre, w, x, y) == (if covers(s.take(kp), width as int, x, y)
                            || has_point(prefix, x - p[0], y - p[1]) {
                            rgb
                        } else {
                            grid_at(old(self).grid(), w, x, y)
                        }));
                        lemma_has_point_push(prefix, ps@[oidx as int], x - p[0], y - p[1]);
                        lemma_row_major_index(w, h, x, y);
                        if 0 <= xx < w && 0 <= yy < h {
                            lemma_row_major_index(w, h, xx as int, yy as int);
                            if x == xx && y == yy {
                                assert(grid_at(self.grid(), w, x, y) == rgb);
                                assert(q[0] == x - p[0] && q[1] == y - p[1]);
                            } else {
                                assert(y * w + x != yy * w + xx) by {
                                    if y * w + x == yy * w + xx {
                                        lemma_row_major_injective(w, x, y, xx as int, yy as int);
                                    }
                                }
                                assert(self.grid()[y * w + x] == pre[y * w + x]);
                                assert(!(q[0] == x - p[0] && q[1] == y - p[1]));
                            }
                        } else {
                            assert(self.grid() == pre);
                            assert(!(q[0] == x - p[0] && q[1] == y - p[1]));
                        }
                    }
                }
                oidx = oidx + 1;
            }
            cur = dl.next();
            proof {
                let full = ps@.subrange(0, n as int);
                assert(full =~= ps@);
                assert(s.take(kp + 1) =~= s.take(kp).push(s[kp]));
                assert forall|x: int, y: int|
                    0 <= x < w && 0 <= y < h implies #[trigger] grid_at(self.grid(), w, x, y) == (
                if covers(s.take(kp + 1), width as int, x, y) {
                    rgb
                } else {
                    grid_at(old(self).grid(), w, x, y)
                }) by {
                    lemma_covers_take_step(s, width as int, kp, x, y);
                    if has_point(ps@, x - p[0], y - p[1]) {
                        let l = choose|l: int|
                            0 <= l < ps@.len() && ps@[l][0] == x - p[0] && #[trigger] ps@[l][1] == y
                                - p[1];
                        assert(in_disc_offset(ps@[l][0] as int, ps@[l][1] as int, width as int));
                        assert(in_disc_offset(x - s[kp].0, y - s[kp].1, width as int));
                    }
                    if in_disc_offset(x - s[kp].0, y - s[kp].1, width as int) {
                        assert(has_point(ps@, 0 + (x - p[0]), 0 + (y - p[1])));
                        assert(has_point(ps@, x - p[0], y - p[1]));
                    }
                }
                let ghost rem = s.skip(kp + 1);
                kp = kp + 1;
                match cur {
                    Some(c) => {
                        assert(rem[0] == s[kp]);
                        assert(rem.drop_first() =~= s.skip(kp + 1));
                    },
                    None => {
                        assert(rem.len() == 0);
                        assert(kp == s.len());
                    },
                }
            }
        }
        proof {
            assert(s.take(s.len() as int) =~= s);
            assert forall|x: int, y: int| 0 <= x < w && 0 <= y < h implies #[trigger] grid_at(
                self.grid(),
                w,
                x,
                y,
            ) == (if line_covers(
                (p1[0] as int, p1[1] as int),
                (p2[0] as int, p2[1] as int),
                w,
                h,
                width as int,
                x,
                y,
            ) {
                rgb
            } else {
                grid_at(old(self).grid(), w, x, y)
            }) by {
                if cut is None {
                    assert(!covers(s, width as int, x, y));
                }
            }
        }
    }

    /// The raw bytes of the grid, three per pixel, row-major.
    pub fn export(&self) -> (r: Vec<u8>)
        requires
            self.wf(),
        ensures
            r@ == grid_bytes(self.grid()),
    {
        let n = self.vec.len();
        let mut out: Vec<u8> = Vec::new();
        let mut i: usize = 0;
        proof {
            assert(self.w * self.h * 3 == 3 * self.vec@.len()) by (nonlinear_arith)
                requires self.vec@.len() == self.w * self.h;
        }
        while i < n
            invariant
                i <= n,
                n == self.vec@.len(),
                3 * n <= usize::MAX,
                out@.len() == 3 * i,
                forall|k: int| 0 <= k < out@.len() ==> out@[k] == self.vec@[k / 3][k % 3],
            decreases n - i,
        {
            let p = self.vec[i];
            out.push(p[0]);
            out.push(p[1]);
            out.push(p[2]);
            proof {
                assert(out@[3 * i] == p[0] && out@[3 * i + 1] == p[1] && out@[3 * i + 2] == p[2]);
                assert forall|k: int| 0 <= k < out@.len() implies out@[k] == self.vec@[k / 3][k
                    % 3] by {
                    if k >= 3 * i {
                        assert(k / 3 == i && k % 3 == k - 3 * i);
                    }
                }
            }
            i = i + 1;
        }
        proof {
            assert(out@ =~= grid_bytes(self.grid()));
        }
        out
    }

    /// The canvas serialized as a binary portable pixmap: the header lines,
    /// then the raw pixel bytes.
    pub fn ppm_bytes(&self) -> (r: Vec<u8>)
        requires
            self.wf(),
        ensures
            r@ == ppm_header(self.width() as nat, self.height() as nat) + grid_bytes(self.grid()),
    {
        let mut out: Vec<u8> = Vec::new();
        out.push(80);
        out.push(54);
        out.push(10);
        push_decimal(&mut out, self.w);
        out.push(32);
        push_decimal(&mut out, self.h);
        out.push(10);
        out.push(50);
        out.push(53);
        out.push(53);
        out.push(10);
        proof {
            assert(out@ =~= ppm_header(self.width() as nat, self.height() as nat));
        }
        let ghost header = out@;
        let payload = self.export();
        let mut j: usize = 0;
        let m = payload.len();
        while j < m
            invariant
                j <= m,
                m == payload@.len(),
                out@.len() == header.len() + j,
                out@ =~= header + payload@.subrange(0, j as int),
            decreases m - j,
        {
            out.push(payload[j]);
            proof {
                assert(out@ =~= header + payload@.subrange(0, j as int + 1));
            }
            j = j + 1;
        }
        proof {
            assert(payload@.subrange(0, m as int) =~= payload@);
            assert(out@ =~= ppm_header(self.width() as nat, self.height() as nat) + grid_bytes(
                self.grid(),
            ));
        }
        out
    }
}

/// The stepped line from `p1` to `p2` starts at `p1`, ends at `p2`, moves
/// by at most one on each axis per step, and emits at least one more point
/// than the larger axis span and at most one more than the sum of the two.
/// The endpoint is emitted exactly once, as the last point.
pub proof fn lemma_bres_seq_path(p1x: int, p1y: int, p2x: int, p2y: int)
    requires
        -BRES_SPAN <= p2x - p1x <= BRES_SPAN,
        -BRES_SPAN <= p2y - p1y <= BRES_SPAN,
    ensures
        ({
            let s = bres_seq(p1x, p1y, p2x, p2y);
            let dx = abs_int(p2x - p1x);
            let dy = abs_int(p2y - p1y);
            &&& s.len() >= 1 + (if dx >= dy {
                dx
            } else {
                dy
            })
            &&& s.len() <= 1 + dx + dy
            &&& s[0] == (p1x, p1y)
            &&& s[s.len() - 1] == (p2x, p2y)
            &&& forall|k: int| 0 <= k < s.len() - 1 ==> #[trigger] s[k] != (p2x, p2y)
            &&& forall|k: int| 0 <= k < s.len() - 1 ==> adjacent(#[trigger] s[k], s[k + 1])
        }),
{
    let dx = abs_int(p2x - p1x);
    let dy = -abs_int(p2y - p1y);
    let sx: int = if p2x > p1x {
        1
    } else {
        -1
    };
    let sy: int = if p2y > p1y {
        1
    } else {
        -1
    };
    assert((p2x - p1x) * sx == dx && (p2y - p1y) * sy == -dy && dx * (-dy) + dy * dx == 0)
        by (nonlinear_arith)
        requires
            dx == abs_int(p2x - p1x),
            dy == -abs_int(p2y - p1y),
            sx == (if p2x > p1x {
                1int
            } else {
                -1int
            }),
            sy == (if p2y > p1y {
                1int
            } else {
                -1int
            });
    lemma_bres_points_path(p1x, p1y, dx + dy, p2x, p2y, dx, dy, sx, sy, (dx - dy + 1) as nat);
}

/// A buffer filled with one color reads back that color at every in-range
/// coordinate, and nothing at all outside the grid.
pub proof fn lemma_filled_pixel(c: Canvas, fill: [u8; 3], x: int, y: int)
    requires
        c.wf(),
        forall|i: int| 0 <= i < c.grid().len() ==> c.grid()[i] == fill,
    ensures
        0 <= x < c.width() && 0 <= y < c.height() ==> c.pixel_spec(x, y) == Some(fill),
        !(0 <= x < c.width() && 0 <= y < c.height()) ==> c.pixel_spec(x, y) is None,
{
    if 0 <= x < c.width() && 0 <= y < c.height() {
        lemma_row_major_index(c.width(), c.height(), x, y);
    }
}

/// The exported bytes lose nothing: two grids of the same dimensions with
/// equal exports hold the same pixels.
pub proof fn lemma_export_injective(c1: Canvas, c2: Canvas)
    requires
        c1.wf(),
        c2.wf(),
        c1.width() == c2.width(),
        c1.height() == c2.height(),
        grid_bytes(c1.grid()) == grid_bytes(c2.grid()),
    ensures
        c1.grid() == c2.grid(),
{
    let g1 = c1.grid();
    let g2 = c2.grid();
    assert(g1.len() == g2.len());
    assert forall|i: int| 0 <= i < g1.len() implies g1[i] == g2[i] by {
        assert forall|c: int| 0 <= c < 3 implies g1[i][c] == g2[i][c] by {
            assert((3 * i + c) / 3 == i && (3 * i + c) % 3 == c);
            assert(grid_bytes(g1)[3 * i + c] == g1[i][c]);
            assert(grid_bytes(g2)[3 * i + c] == g2[i][c]);
        }
        assert(g1[i]@ =~= g2[i]@);
        assert(g1[i] =~= g2[i]);
    }
    assert(g1 =~= g2);
}

/// Append the decimal digits of `n` to `v`, most significant first.
fn push_decimal(v: &mut Vec<u8>, n: usize)
    ensures
        final(v)@ == old(v)@ + dec_digits(n as nat),
{
    let mut m = n;
    let mut rev: Vec<u8> = Vec::new();
    while m >= 10
        invariant
            dec_digits(n as nat) =~= dec_digits(m as nat) + rev@.reverse(),
        decreases m,
    {
        let ghost rev0 = rev@;
        let ghost m0 = m as nat;
        rev.push(48 + (m % 10) as u8);
        m = m / 10;
        proof {
            assert(rev@.reverse() =~= seq![(48 + m0 % 10) as u8] + rev0.reverse());
            assert(dec_digits(m0) == dec_digits(m0 / 10) + seq![(48 + m0 % 10) as u8]);
            assert(dec_digits(n as nat) =~= dec_digits(m as nat) + rev@.reverse());
        }
    }
    let ghost mid = v@;
    v.push(48 + (m % 10) as u8);
    proof {
        assert(m % 10 == m);
        assert(dec_digits(m as nat) =~= seq![(48 + m as nat) as u8]);
    }
    let k = rev.len();
    let mut i: usize = 0;
    while i < k
        invariant
            i <= k,
            k == rev@.len(),
            v@.len() == mid.len() + 1 + i,
            v@ =~= mid + dec_digits(m as nat) + rev@.reverse().subrange(0, i as int),
            dec_digits(n as nat) =~= dec_digits(m as nat) + rev@.reverse(),
            m < 10,
        decreases k - i,
    {
        v.push(rev[k - 1 - i]);
        proof {
            assert(rev@.reverse()[i as int] == rev@[k - 1 - i]);
            assert(v@ =~= mid + dec_digits(m as nat) + rev@.reverse().subrange(0, i + 1 as int));
        }
        i = i + 1;
    }
    proof {
        assert(rev@.reverse().subrange(0, k as int) =~= rev@.reverse());
        assert(v@ =~= old(v)@ + dec_digits(n as nat));
    }
}

} // verus!
