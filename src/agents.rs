//! Agents and the half-plane that one neighbour imposes on an agent's
//! velocity (the reciprocal velocity obstacle).
use vstd::prelude::*;

use crate::geometry::{
    det, det128, div_trunc, dot, dot128, fdiv, fx_div, fx_mul, in_box, int_sqrt, isqrt,
    lemma_int_sqrt, lemma_mul_bound, lemma_sqrt_ge_coord, lemma_tdiv_bound, len_sq, line_wf,
    normalize, normalize_or_zero, perp, tdiv, vadd, vdiv, vmul, vneg, vsub, Line, Vec2, MAX_COORD,
    MAX_TIME, MIN_TIME, SCALE,
};

verus! {

/// The state of one agent at the current instant.
#[derive(Clone, Copy, Debug, PartialEq, Eq, Structural)]
pub struct Agent {
    /// Where the agent is.
    pub position: Vec2,
    /// How fast it currently moves.
    pub velocity: Vec2,
    /// The radius of the agent's disc.
    pub radius: i64,
    /// The agent's share of the effort when two agents avoid each other: the
    /// split between two agents follows the ratio of their responsibilities.
    pub avoidance_responsibility: i64,
}

impl Agent {
    /// Coordinates and radius within `MAX_COORD`, a positive responsibility.
    pub open spec fn wf(&self) -> bool {
        &&& in_box(self.position@, MAX_COORD as int)
        &&& in_box(self.velocity@, MAX_COORD as int)
        &&& 0 <= self.radius <= MAX_COORD
        &&& 0 < self.avoidance_responsibility <= MAX_COORD
    }
}

/// A time window accepted by the line builders.
pub open spec fn valid_time(t: int) -> bool {
    MIN_TIME <= t <= MAX_TIME
}

/// The relative velocity `v`, seen from the centre `c` of the cut-off circle
/// for the relative position `p` over the window `t`.
pub open spec fn from_center(p: (int, int), v: (int, int), t: int) -> (int, int) {
    vsub(v, vdiv(p, t))
}

/// Whether `v` is nearer the cut-off circle than the two tangent rays that
/// bound its shadow (the circle lies at `p / t` with radius `r / t`).
pub open spec fn projects_on_circle(p: (int, int), v: (int, int), r: int, t: int) -> bool {
    let w = from_center(p, v, t);
    let d = dot(w, p);
    d < 0 && d * d > r * r * len_sq(w)
}

/// The direction of the tangent ray of the shadow on the side of `w`, one
/// unit long: `(p * leg * side + perp(p) * r) / |p|^2`.
pub open spec fn shadow_direction(p: (int, int), w: (int, int), r: int) -> (int, int) {
    let d2 = len_sq(p);
    let leg = int_sqrt((d2 - r * r) as nat) as int;
    let side: int = if det(p, w) >= 0 { 1 } else { -1 };
    (
        tdiv((p.0 * leg * side - p.1 * r) * SCALE, d2),
        tdiv((p.1 * leg * side + p.0 * r) * SCALE, d2),
    )
}

/// The velocity obstacle of a neighbour at relative position `p`, the sum of
/// radii being `r`, for the relative velocity `v`: the outward normal at the
/// point of the obstacle's boundary nearest `v`, that point, and whether `v`
/// lies inside the obstacle.
pub open spec fn vo_projection(p: (int, int), v: (int, int), r: int, horizon: int, step: int) -> (
    (int, int),
    (int, int),
    bool,
) {
    if len_sq(p) > r * r {
        let c = vdiv(p, horizon);
        let w = vsub(v, c);
        if projects_on_circle(p, v, r, horizon) {
            let n = normalize(w);
            (
                n,
                vadd(vmul(n, fdiv(r, horizon)), c),
                len_sq(w) * horizon * horizon < r * r * SCALE * SCALE,
            )
        } else {
            let s = shadow_direction(p, w, r);
            (perp(s), vmul(s, tdiv(dot(v, s), SCALE as int)), det(v, s) >= 0)
        }
    } else {
        let c = vdiv(p, step);
        let n = normalize(vsub(v, c));
        (n, vadd(vmul(n, fdiv(r, step)), c), true)
    }
}

/// The fraction (in sub-units) of the correction that an agent of
/// responsibility `own` takes on against one of responsibility `other`: its
/// share of the two when its velocity is inside the obstacle, all of it
/// otherwise.
pub open spec fn responsibility(inside: bool, own: int, other: int) -> int {
    if inside {
        fdiv(own, own + other)
    } else {
        SCALE as int
    }
}

/// The half-plane that `neighbour` imposes on `agent`, as `(point, direction)`.
pub open spec fn neighbour_line(agent: Agent, neighbour: Agent, horizon: int, step: int) -> (
    (int, int),
    (int, int),
) {
    let p = vsub(neighbour.position@, agent.position@);
    let v = vsub(agent.velocity@, neighbour.velocity@);
    let r = agent.radius + neighbour.radius;
    let (n, q, inside) = vo_projection(p, v, r, horizon, step);
    let u = vsub(q, v);
    let k = responsibility(
        inside,
        agent.avoidance_responsibility as int,
        neighbour.avoidance_responsibility as int,
    );
    (vadd(agent.velocity@, vmul(u, k)), vneg(perp(n)))
}

/// The result of projecting a relative velocity onto a velocity obstacle.
#[derive(Clone, Copy, Debug, PartialEq, Eq, Structural)]
pub struct VoProjection {
    /// The outward unit normal of the obstacle's boundary at `projected`.
    pub normal: Vec2,
    /// The boundary point nearest the relative velocity.
    pub projected: Vec2,
    /// Whether the relative velocity lies inside the obstacle.
    pub inside: bool,
}

/// The component-wise bounds of a projection computed from relative
/// quantities of at most `2 * MAX_COORD`.
pub open spec fn projection_in_range(n: (int, int), q: (int, int)) -> bool {
    in_box(n, 2 * SCALE) && in_box(q, 0x4_0000_0000)
}

/// Projects the relative velocity `rel_vel` onto the velocity obstacle of a
/// neighbour at relative position `rel_pos`, the radii summing to
/// `sum_radius`. While the two discs are apart the obstacle is the cut-off
/// circle for `time_horizon` with its shadow; once they overlap it is the
/// cut-off circle for `time_step`, and the velocity always counts as inside.
pub fn velocity_obstacle_projection(
    rel_pos: Vec2,
    rel_vel: Vec2,
    sum_radius: i64,
    time_horizon: i64,
    time_step: i64,
) -> (r: VoProjection)
    requires
        in_box(rel_pos@, 2 * MAX_COORD),
        in_box(rel_vel@, 2 * MAX_COORD),
        0 <= sum_radius <= 2 * MAX_COORD,
        valid_time(time_horizon as int),
        valid_time(time_step as int),
    ensures
        (r.normal@, r.projected@, r.inside) == vo_projection(
            rel_pos@,
            rel_vel@,
            sum_radius as int,
            time_horizon as int,
            time_step as int,
        ),
        projection_in_range(r.normal@, r.projected@),
{
    let px = rel_pos.x as i128;
    let py = rel_pos.y as i128;
    let vx = rel_vel.x as i128;
    let vy = rel_vel.y as i128;
    let r = sum_radius as i128;
    let b: i128 = 0x200_0000;
    let d2 = dot128(px, py, px, py);
    proof {
        lemma_mul_bound(r as int, r as int, b as int, b as int);
    }
    let r2 = r * r;
    let ghost p = rel_pos@;
    let ghost v = rel_vel@;
    let time: i128 = if d2 > r2 { time_horizon as i128 } else { time_step as i128 };
    // The centre of the cut-off circle, at most 2^31 away.
    proof {
        lemma_mul_bound(px as int, SCALE as int, b as int, SCALE as int);
        lemma_mul_bound(py as int, SCALE as int, b as int, SCALE as int);
        lemma_mul_bound(r as int, SCALE as int, b as int, SCALE as int);
        lemma_tdiv_bound(px * SCALE, time as int, 0x8000_0000);
        lemma_tdiv_bound(py * SCALE, time as int, 0x8000_0000);
        lemma_tdiv_bound(r * SCALE, time as int, 0x8000_0000);
    }
    let cx = fx_div(px, time);
    let cy = fx_div(py, time);
    let wx = vx - cx;
    let wy = vy - cy;
    let rad = fx_div(r, time);
    let ghost w = (wx as int, wy as int);
    assert(w == vsub(v, vdiv(p, time as int)));
    if d2 > r2 {
        let wl2 = dot128(wx, wy, wx, wy);
        let d = dot128(wx, wy, px, py);
        proof {
            lemma_mul_bound(wx as int, wx as int, 0x1_0000_0000, 0x1_0000_0000);
            lemma_mul_bound(wy as int, wy as int, 0x1_0000_0000, 0x1_0000_0000);
            lemma_mul_bound(wx as int, px as int, 0x1_0000_0000, b as int);
            lemma_mul_bound(wy as int, py as int, 0x1_0000_0000, b as int);
            lemma_mul_bound(d as int, d as int, 0x800_0000_0000_0000, 0x800_0000_0000_0000);
            lemma_mul_bound(r2 as int, wl2 as int, 0x4_0000_0000_0000, 0x4_0000_0000_0000_0000);
        }
        if d < 0 && d * d > r2 * wl2 {
            let (nx, ny) = normalize_or_zero(wx, wy);
            proof {
                lemma_mul_bound(nx as int, rad as int, SCALE as int, 0x8000_0000);
                lemma_mul_bound(ny as int, rad as int, SCALE as int, 0x8000_0000);
                lemma_tdiv_bound(nx * rad, SCALE as int, 0x8000_0000);
                lemma_tdiv_bound(ny * rad, SCALE as int, 0x8000_0000);
                lemma_mul_bound(time as int, time as int, MAX_TIME as int, MAX_TIME as int);
                lemma_mul_bound(wl2 as int, time * time, 0x4_0000_0000_0000_0000, 0x1_0000_0000_0000);
                assert(wl2 * (time * time) == len_sq(w) * time * time) by (nonlinear_arith)
                    requires wl2 == len_sq(w);
                assert(r2 * (4096 * 4096) == r * r * SCALE * SCALE) by (nonlinear_arith)
                    requires r2 == r * r;
            }
            let qx = fx_mul(nx, rad) + cx;
            let qy = fx_mul(ny, rad) + cy;
            let inside = wl2 * (time * time) < r2 * (4096 * 4096);
            VoProjection {
                normal: Vec2 { x: nx as i64, y: ny as i64 },
                projected: Vec2 { x: qx as i64, y: qy as i64 },
                inside,
            }
        } else {
            proof {
                assert(r * r >= 0) by (nonlinear_arith);
                lemma_shadow_bound(p, w, r as int);
                lemma_int_sqrt((d2 - r2) as nat);
                lemma_sqrt_ge_coord(0, (d2 - r2) as nat);
            }
            let leg = isqrt((d2 - r2) as u128) as i128;
            proof {
                lemma_mul_bound(px as int, px as int, b as int, b as int);
                lemma_mul_bound(py as int, py as int, b as int, b as int);
                assert(leg * leg <= d2 - r2);
                assert(leg <= 0x400_0000) by {
                    if leg > 0x400_0000 {
                        assert(leg * leg > 0x400_0000 * 0x400_0000) by (nonlinear_arith)
                            requires leg > 0x400_0000;
                    }
                }
                lemma_mul_bound(px as int, leg as int, b as int, 0x400_0000);
                lemma_mul_bound(py as int, leg as int, b as int, 0x400_0000);
                lemma_mul_bound(px as int, r as int, b as int, b as int);
                lemma_mul_bound(py as int, r as int, b as int, b as int);
            }
            let side: i128 = if det128(px, py, wx, wy) >= 0 { 1 } else { -1 };
            proof {
                assert(px * leg * side == if side == 1 { px * leg } else { -(px * leg) }) by (nonlinear_arith)
                    requires side == 1 || side == -1;
                assert(py * leg * side == if side == 1 { py * leg } else { -(py * leg) }) by (nonlinear_arith)
                    requires side == 1 || side == -1;
            }
            let a0 = px * leg * side - py * r;
            let a1 = py * leg * side + px * r;
            proof {
                lemma_mul_bound(a0 as int, SCALE as int, 0x10_0000_0000_0000, SCALE as int);
                lemma_mul_bound(a1 as int, SCALE as int, 0x10_0000_0000_0000, SCALE as int);
            }
            let sx = div_trunc(a0 * 4096, d2);
            let sy = div_trunc(a1 * 4096, d2);
            assert((sx as int, sy as int) == shadow_direction(p, w, r as int));
            let k0 = dot128(vx, vy, sx, sy);
            proof {
                lemma_mul_bound(vx as int, sx as int, b as int, 2 * SCALE);
                lemma_mul_bound(vy as int, sy as int, b as int, 2 * SCALE);
                lemma_tdiv_bound(k0 as int, SCALE as int, 0x800_0000);
            }
            let k = div_trunc(k0, 4096);
            proof {
                lemma_mul_bound(sx as int, k as int, 2 * SCALE, 0x800_0000);
                lemma_mul_bound(sy as int, k as int, 2 * SCALE, 0x800_0000);
                lemma_tdiv_bound(sx * k, SCALE as int, 0x1000_0000);
                lemma_tdiv_bound(sy * k, SCALE as int, 0x1000_0000);
            }
            let qx = fx_mul(sx, k);
            let qy = fx_mul(sy, k);
            let inside = det128(vx, vy, sx, sy) >= 0;
            VoProjection {
                normal: Vec2 { x: (-sy) as i64, y: sx as i64 },
                projected: Vec2 { x: qx as i64, y: qy as i64 },
                inside,
            }
        }
    } else {
        let (nx, ny) = normalize_or_zero(wx, wy);
        proof {
            lemma_mul_bound(nx as int, rad as int, SCALE as int, 0x8000_0000);
            lemma_mul_bound(ny as int, rad as int, SCALE as int, 0x8000_0000);
            lemma_tdiv_bound(nx * rad, SCALE as int, 0x8000_0000);
            lemma_tdiv_bound(ny * rad, SCALE as int, 0x8000_0000);
        }
        let qx = fx_mul(nx, rad) + cx;
        let qy = fx_mul(ny, rad) + cy;
        VoProjection {
            normal: Vec2 { x: nx as i64, y: ny as i64 },
            projected: Vec2 { x: qx as i64, y: qy as i64 },
            inside: true,
        }
    }
}

/// `responsibility(inside, own, other)`, between zero and one unit.
pub fn responsibility_weight(inside: bool, own: i64, other: i64) -> (r: i64)
    requires
        0 < own <= MAX_COORD,
        0 < other <= MAX_COORD,
    ensures
        r == responsibility(inside, own as int, other as int),
        0 <= r <= SCALE,
{
    if inside {
        proof {
            lemma_weight_bounds(own as int, other as int);
        }
        fx_div(own as i128, own as i128 + other as i128) as i64
    } else {
        4096
    }
}

/// The responsibility weight lies between zero and one unit, and rounds the
/// exact share `own / (own + other)` down by less than one sub-unit.
pub proof fn lemma_weight_bounds(own: int, other: int)
    requires
        0 < own,
        0 < other,
    ensures
        0 <= fdiv(own, own + other) <= SCALE,
        fdiv(own, own + other) * (own + other) <= own * SCALE,
        own * SCALE < (fdiv(own, own + other) + 1) * (own + other),
{
    let t = own + other;
    let q = fdiv(own, t);
    assert(own * SCALE >= 0) by (nonlinear_arith)
        requires own > 0;
    assert(q == (own * SCALE) / t);
    assert(q * t <= own * SCALE < (q + 1) * t) by (nonlinear_arith)
        requires q == (own * SCALE) / t, t > 0, own * SCALE >= 0;
    assert(own * SCALE <= SCALE * t) by (nonlinear_arith)
        requires own <= t;
    lemma_tdiv_bound(own * SCALE, t, SCALE as int);
}

impl Agent {
    /// The half-plane of velocities that `neighbour` leaves to this agent: its
    /// boundary is the tangent of the velocity obstacle at the point nearest
    /// the relative velocity, moved by this agent's share of the correction.
    pub fn get_line_for_neighbour(&self, neighbour: &Agent, time_horizon: i64, time_step: i64) -> (r:
        Line)
        requires
            self.wf(),
            neighbour.wf(),
            valid_time(time_horizon as int),
            valid_time(time_step as int),
        ensures
            (r.point@, r.direction@) == neighbour_line(
                *self,
                *neighbour,
                time_horizon as int,
                time_step as int,
            ),
            line_wf(r),
    {
        let rel_pos = Vec2 {
            x: neighbour.position.x - self.position.x,
            y: neighbour.position.y - self.position.y,
        };
        let rel_vel = Vec2 {
            x: self.velocity.x - neighbour.velocity.x,
            y: self.velocity.y - neighbour.velocity.y,
        };
        let proj = velocity_obstacle_projection(
            rel_pos,
            rel_vel,
            self.radius + neighbour.radius,
            time_horizon,
            time_step,
        );
        let ux = proj.projected.x as i128 - rel_vel.x as i128;
        let uy = proj.projected.y as i128 - rel_vel.y as i128;
        let k = responsibility_weight(
            proj.inside,
            self.avoidance_responsibility,
            neighbour.avoidance_responsibility,
        );
        proof {
            lemma_mul_bound(ux as int, k as int, 0x8_0000_0000, SCALE as int);
            lemma_mul_bound(uy as int, k as int, 0x8_0000_0000, SCALE as int);
            lemma_tdiv_bound(ux * k, SCALE as int, 0x8_0000_0000);
            lemma_tdiv_bound(uy * k, SCALE as int, 0x8_0000_0000);
        }
        let px = self.velocity.x as i128 + fx_mul(ux, k as i128);
        let py = self.velocity.y as i128 + fx_mul(uy, k as i128);
        Line {
            point: Vec2 { x: px as i64, y: py as i64 },
            direction: Vec2 { x: proj.normal.y, y: -proj.normal.x },
        }
    }
}

pub proof fn lemma_prod_le(a: int, b: int, d: int)
    requires
        a * a <= d,
        b * b <= d,
    ensures
        -d <= a * b <= d,
{
    assert(a * a >= 0 && b * b >= 0) by (nonlinear_arith);
    assert((a * b) * (a * b) <= d * d) by (nonlinear_arith)
        requires a * a <= d, b * b <= d, a * a >= 0, b * b >= 0;
    if a * b > d {
        assert((a * b) * (a * b) > d * d) by (nonlinear_arith)
            requires a * b > d, d >= 0;
    }
    if a * b < -d {
        assert((a * b) * (a * b) > d * d) by (nonlinear_arith)
            requires a * b < -d, d >= 0;
    }
}

/// The shadow direction is at most two units long in each coordinate.
pub proof fn lemma_shadow_bound(p: (int, int), w: (int, int), r: int)
    requires
        len_sq(p) > r * r,
    ensures
        in_box(shadow_direction(p, w, r), 2 * SCALE),
{
    let d2 = len_sq(p);
    assert(p.0 * p.0 >= 0 && p.1 * p.1 >= 0 && r * r >= 0) by (nonlinear_arith);
    let n = (d2 - r * r) as nat;
    lemma_int_sqrt(n);
    let leg = int_sqrt(n) as int;
    let side: int = if det(p, w) >= 0 { 1 } else { -1 };
    lemma_prod_le(p.0, leg, d2);
    lemma_prod_le(p.1, leg, d2);
    lemma_prod_le(p.0, r, d2);
    lemma_prod_le(p.1, r, d2);
    assert(p.0 * leg * side == if side == 1 { p.0 * leg } else { -(p.0 * leg) }) by (nonlinear_arith)
        requires side == 1 || side == -1;
    assert(p.1 * leg * side == if side == 1 { p.1 * leg } else { -(p.1 * leg) }) by (nonlinear_arith)
        requires side == 1 || side == -1;
    let a0 = p.0 * leg * side - p.1 * r;
    let a1 = p.1 * leg * side + p.0 * r;
    lemma_mul_bound(a0, SCALE as int, 2 * d2, SCALE as int);
    lemma_mul_bound(a1, SCALE as int, 2 * d2, SCALE as int);
    assert(2 * d2 * SCALE == 2 * SCALE * d2) by (nonlinear_arith);
    lemma_tdiv_bound(a0 * SCALE, d2, 2 * SCALE);
    lemma_tdiv_bound(a1 * SCALE, d2, 2 * SCALE);
}

} // verus!

verus! {

proof fn lemma_neg_products(a: (int, int), b: (int, int))
    ensures
        dot(vneg(a), vneg(b)) == dot(a, b),
        det(vneg(a), vneg(b)) == det(a, b),
        len_sq(vneg(a)) == len_sq(a),
{
    assert((-a.0) * (-b.0) == a.0 * b.0) by (nonlinear_arith);
    assert((-a.1) * (-b.1) == a.1 * b.1) by (nonlinear_arith);
    assert((-a.0) * (-b.1) == a.0 * b.1) by (nonlinear_arith);
    assert((-a.1) * (-b.0) == a.1 * b.0) by (nonlinear_arith);
    assert((-a.0) * (-a.0) == a.0 * a.0) by (nonlinear_arith);
    assert((-a.1) * (-a.1) == a.1 * a.1) by (nonlinear_arith);
}

proof fn lemma_vdiv_neg(a: (int, int), t: int)
    requires
        t > 0,
    ensures
        vdiv(vneg(a), t) == vneg(vdiv(a, t)),
{
    crate::geometry::lemma_tdiv_neg(a.0 * SCALE, t);
    crate::geometry::lemma_tdiv_neg(a.1 * SCALE, t);
}

proof fn lemma_normalize_neg(a: (int, int))
    ensures
        normalize(vneg(a)) == vneg(normalize(a)),
{
    lemma_neg_products(a, a);
    let l = int_sqrt(len_sq(a) as nat) as int;
    if l != 0 {
        crate::geometry::lemma_tdiv_neg(a.0 * SCALE, l);
        crate::geometry::lemma_tdiv_neg(a.1 * SCALE, l);
    }
}

proof fn lemma_shadow_neg(p: (int, int), w: (int, int), r: int)
    requires
        len_sq(p) > r * r,
    ensures
        shadow_direction(vneg(p), vneg(w), r) == vneg(shadow_direction(p, w, r)),
{
    lemma_neg_products(p, w);
    lemma_neg_products(p, p);
    let d2 = len_sq(p);
    assert(p.0 * p.0 >= 0 && p.1 * p.1 >= 0 && r * r >= 0) by (nonlinear_arith);
    let leg = int_sqrt((d2 - r * r) as nat) as int;
    let side: int = if det(p, w) >= 0 { 1 } else { -1 };
    assert(((-p.0) * leg * side - (-p.1) * r) * SCALE == -((p.0 * leg * side - p.1 * r) * SCALE))
        by (nonlinear_arith);
    assert(((-p.1) * leg * side + (-p.0) * r) * SCALE == -((p.1 * leg * side + p.0 * r) * SCALE))
        by (nonlinear_arith);
    crate::geometry::lemma_tdiv_neg((p.0 * leg * side - p.1 * r) * SCALE, d2);
    crate::geometry::lemma_tdiv_neg((p.1 * leg * side + p.0 * r) * SCALE, d2);
}

proof fn lemma_vo_normal_neg(p: (int, int), v: (int, int), r: int, horizon: int, step: int)
    requires
        valid_time(horizon),
        valid_time(step),
    ensures
        vo_projection(vneg(p), vneg(v), r, horizon, step).0 == vneg(
            vo_projection(p, v, r, horizon, step).0,
        ),
{
    lemma_neg_products(p, p);
    if len_sq(p) > r * r {
        lemma_vdiv_neg(p, horizon);
        let w = vsub(v, vdiv(p, horizon));
        assert(vsub(vneg(v), vdiv(vneg(p), horizon)) == vneg(w));
        lemma_neg_products(w, p);
        lemma_neg_products(w, w);
        if projects_on_circle(p, v, r, horizon) {
            lemma_normalize_neg(w);
        } else {
            lemma_shadow_neg(p, w, r);
        }
    } else {
        lemma_vdiv_neg(p, step);
        let w = vsub(v, vdiv(p, step));
        assert(vsub(vneg(v), vdiv(vneg(p), step)) == vneg(w));
        lemma_normalize_neg(w);
    }
}

/// Two agents see one boundary between them: the line that `b` imposes on
/// `a` runs opposite to the line that `a` imposes on `b`, so each keeps its
/// own side. This holds whether or not the agents overlap, and whatever
/// their responsibilities.
pub proof fn lemma_neighbour_lines_opposite(a: Agent, b: Agent, time_horizon: int, time_step: int)
    requires
        a.wf(),
        b.wf(),
        valid_time(time_horizon),
        valid_time(time_step),
    ensures
        neighbour_line(a, b, time_horizon, time_step).1 == vneg(
            neighbour_line(b, a, time_horizon, time_step).1,
        ),
{
    let p = vsub(b.position@, a.position@);
    let v = vsub(a.velocity@, b.velocity@);
    assert(vsub(a.position@, b.position@) == vneg(p));
    assert(vsub(b.velocity@, a.velocity@) == vneg(v));
    lemma_vo_normal_neg(p, v, a.radius + b.radius, time_horizon, time_step);
    assert(b.radius + a.radius == a.radius + b.radius);
}

/// On the cut-off circle's side of the shadow, a relative velocity counts as
/// inside the obstacle exactly when it lies strictly closer to the circle's
/// centre than its radius `r / horizon`: a velocity on the circle does not.
/// The projection then lies on that circle, `r / horizon` from its centre
/// along the unit normal.
pub proof fn lemma_cutoff_circle_inside(p: (int, int), v: (int, int), r: int, horizon: int, step: int)
    requires
        valid_time(horizon),
        valid_time(step),
        len_sq(p) > r * r,
        projects_on_circle(p, v, r, horizon),
    ensures
        vo_projection(p, v, r, horizon, step).2 <==> len_sq(from_center(p, v, horizon)) * horizon
            * horizon < r * r * SCALE * SCALE,
        vo_projection(p, v, r, horizon, step).0 == normalize(from_center(p, v, horizon)),
        vo_projection(p, v, r, horizon, step).1 == vadd(
            vmul(normalize(from_center(p, v, horizon)), fdiv(r, horizon)),
            vdiv(p, horizon),
        ),
{
}

/// How the avoidance effort is shared: with weight `k` (in sub-units) for
/// the agent of responsibility `own` against one of responsibility `other`,
/// `k / SCALE <= own / other`, so the weight tends to zero as `own` becomes
/// small beside `other`; and `1 - (k + 1) / SCALE < other / own`, so it tends
/// to one unit as `own` becomes large. Outside the obstacle the weight is one
/// unit whatever the responsibilities.
pub proof fn lemma_responsibility_share(inside: bool, own: int, other: int)
    requires
        0 < own,
        0 < other,
    ensures
        0 <= responsibility(inside, own, other) <= SCALE,
        inside ==> responsibility(inside, own, other) * other <= own * SCALE,
        inside ==> (SCALE - responsibility(inside, own, other) - 1) * own < other * SCALE,
        !inside ==> responsibility(inside, own, other) == SCALE,
{
    if inside {
        lemma_weight_bounds(own, other);
        let k = fdiv(own, own + other);
        assert(k * other <= own * SCALE) by (nonlinear_arith)
            requires k * (own + other) <= own * SCALE, k >= 0, own > 0;
        assert((SCALE - k - 1) * own < other * SCALE) by (nonlinear_arith)
            requires own * SCALE < (k + 1) * (own + other), own > 0, other > 0, k >= 0;
    }
}

} // verus!
