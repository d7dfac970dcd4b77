//! The two-phase solver that picks a velocity from the half-planes of the
//! obstacles and neighbours, within a disc of admissible speeds.
use vstd::prelude::*;

use crate::geometry::{
    det, det128, div_trunc, dot, dot128, in_box, int_sqrt, isqrt, lemma_int_sqrt, lemma_mul_bound,
    lemma_tdiv_bound, len_sq, line_admits, line_wf, make_line, normalize, normalize_or_zero, perp,
    satisfies, tdiv, vsub, Line, Vec2, MAX_COORD, MAX_LINE, SCALE,
};

verus! {

/// Every line of `lines` admits `v`.
pub open spec fn admits_all(lines: Seq<Line>, v: (int, int)) -> bool {
    forall|i: int| 0 <= i < lines.len() ==> satisfies(#[trigger] lines[i], v)
}

/// Every line is in the shape the solver takes.
pub open spec fn lines_wf(lines: Seq<Line>) -> bool {
    forall|i: int| 0 <= i < lines.len() ==> line_wf(#[trigger] lines[i])
}

/// `v` is no faster than `max_speed`.
pub open spec fn in_disc(v: (int, int), max_speed: int) -> bool {
    len_sq(v) <= max_speed * max_speed
}

/// The smallest `c` with `n <= c * c`.
pub open spec fn ceil_sqrt(n: nat) -> int {
    let s = int_sqrt(n) as int;
    if s * s == n {
        s
    } else {
        s + 1
    }
}

/// `v` itself when no faster than `max_speed`, else `v` scaled down onto
/// the disc, each coordinate rounded toward zero.
pub open spec fn clamp_to_speed(v: (int, int), max_speed: int) -> (int, int) {
    if in_disc(v, max_speed) {
        v
    } else {
        let c = ceil_sqrt(len_sq(v) as nat);
        (tdiv(v.0 * max_speed, c), tdiv(v.1 * max_speed, c))
    }
}

proof fn lemma_tdiv_mul_le(a: int, m: int, c: int)
    requires
        c > 0,
        m >= 0,
    ensures
        tdiv(a * m, c) * tdiv(a * m, c) * (c * c) <= a * a * (m * m),
{
    let q = tdiv(a * m, c);
    if a * m >= 0 {
        assert(q * c <= a * m && q >= 0) by (nonlinear_arith)
            requires q == (a * m) / c, c > 0, a * m >= 0;
        assert(q * q * (c * c) <= (a * m) * (a * m)) by (nonlinear_arith)
            requires 0 <= q * c <= a * m, q >= 0, c > 0;
    } else {
        assert(-q * c <= -(a * m) && -q >= 0) by (nonlinear_arith)
            requires -q == (-(a * m)) / c, c > 0, -(a * m) > 0;
        assert(q * q * (c * c) <= (a * m) * (a * m)) by (nonlinear_arith)
            requires 0 <= -q * c <= -(a * m), -q >= 0, c > 0;
    }
    assert((a * m) * (a * m) == a * a * (m * m)) by (nonlinear_arith);
}

/// Scaling down onto the disc never leaves it.
pub proof fn lemma_clamp_in_disc(v: (int, int), max_speed: int)
    requires
        max_speed >= 0,
    ensures
        in_disc(clamp_to_speed(v, max_speed), max_speed),
{
    if !in_disc(v, max_speed) {
        let n = len_sq(v);
        assert(v.0 * v.0 >= 0 && v.1 * v.1 >= 0) by (nonlinear_arith);
        lemma_int_sqrt(n as nat);
        let c = ceil_sqrt(n as nat);
        let s = int_sqrt(n as nat) as int;
        assert(n <= c * c) by (nonlinear_arith)
            requires c == s || c == s + 1, s * s == n || c == s + 1, n < (s + 1) * (s + 1), s >= 0;
        assert(c > 0) by (nonlinear_arith)
            requires n <= c * c, n > max_speed * max_speed, max_speed >= 0, c >= 0;
        lemma_tdiv_mul_le(v.0, max_speed, c);
        lemma_tdiv_mul_le(v.1, max_speed, c);
        let q0 = tdiv(v.0 * max_speed, c);
        let q1 = tdiv(v.1 * max_speed, c);
        assert((q0 * q0 + q1 * q1) * (c * c) <= n * (max_speed * max_speed)) by (nonlinear_arith)
            requires q0 * q0 * (c * c) <= v.0 * v.0 * (max_speed * max_speed),
                q1 * q1 * (c * c) <= v.1 * v.1 * (max_speed * max_speed),
                n == v.0 * v.0 + v.1 * v.1;
        assert(q0 * q0 + q1 * q1 >= 0) by (nonlinear_arith);
        assert(q0 * q0 + q1 * q1 <= max_speed * max_speed) by (nonlinear_arith)
            requires (q0 * q0 + q1 * q1) * (c * c) <= n * (max_speed * max_speed), n <= c * c, c > 0,
                max_speed * max_speed >= 0, q0 * q0 + q1 * q1 >= 0;
    }
}

/// `clamp_to_speed(v, max_speed)` for coordinates within `MAX_LINE`.
pub fn clamp_speed(x: i128, y: i128, max_speed: i64) -> (r: Vec2)
    requires
        in_box((x as int, y as int), MAX_LINE as int),
        0 <= max_speed <= MAX_COORD,
    ensures
        r@ == clamp_to_speed((x as int, y as int), max_speed as int),
        in_disc(r@, max_speed as int),
        in_box(r@, max_speed as int),
{
    let ghost v = (x as int, y as int);
    proof {
        lemma_clamp_in_disc(v, max_speed as int);
        let q = clamp_to_speed(v, max_speed as int);
        lemma_coord_le_speed(q, max_speed as int);
    }
    let m = max_speed as i128;
    let n = dot128(x, y, x, y);
    proof {
        lemma_mul_bound(m as int, m as int, MAX_COORD as int, MAX_COORD as int);
    }
    if n <= m * m {
        Vec2 { x: x as i64, y: y as i64 }
    } else {
        proof {
            assert(x * x >= 0 && y * y >= 0) by (nonlinear_arith);
        }
        let s = isqrt(n as u128) as i128;
        proof {
            lemma_int_sqrt(n as nat);
        }
        let c = if s * s == n { s } else { s + 1 };
        proof {
            lemma_int_sqrt(n as nat);
            assert(c > 0) by (nonlinear_arith)
                requires c == s || c == s + 1, s * s == n || c == s + 1, n > 0, s >= 0;
            lemma_mul_bound(x as int, m as int, MAX_LINE as int, MAX_COORD as int);
            lemma_mul_bound(y as int, m as int, MAX_LINE as int, MAX_COORD as int);
        }
        let qx = div_trunc(x * m, c);
        let qy = div_trunc(y * m, c);
        Vec2 { x: qx as i64, y: qy as i64 }
    }
}

/// Inside the disc, each coordinate is at most the speed.
pub proof fn lemma_coord_le_speed(v: (int, int), max_speed: int)
    requires
        in_disc(v, max_speed),
        max_speed >= 0,
    ensures
        in_box(v, max_speed),
{
    assert(v.0 * v.0 >= 0 && v.1 * v.1 >= 0) by (nonlinear_arith);
    if v.0 > max_speed || v.0 < -max_speed {
        assert(v.0 * v.0 > max_speed * max_speed) by (nonlinear_arith)
            requires v.0 > max_speed || v.0 < -max_speed, max_speed >= 0;
    }
    if v.1 > max_speed || v.1 < -max_speed {
        assert(v.1 * v.1 > max_speed * max_speed) by (nonlinear_arith)
            requires v.1 > max_speed || v.1 < -max_speed, max_speed >= 0;
    }
}

} // verus!

verus! {

/// Whether the first `count` lines all admit `v`.
pub fn admits_first(lines: &Vec<Line>, count: usize, v: Vec2) -> (r: bool)
    requires
        count <= lines.len(),
        lines_wf(lines@),
        in_box(v@, MAX_LINE as int),
    ensures
        r == admits_all(lines@.take(count as int), v@),
{
    let mut j: usize = 0;
    while j < count
        invariant
            j <= count <= lines.len(),
            lines_wf(lines@),
            in_box(v@, MAX_LINE as int),
            admits_all(lines@.take(j as int), v@),
        decreases count - j,
    {
        assert(line_wf(lines@[j as int]));
        if !line_admits(&lines[j], v) {
            assert(lines@.take(count as int)[j as int] == lines@[j as int]);
            return false;
        }
        assert forall|i: int| 0 <= i < j + 1 implies satisfies(
            #[trigger] lines@.take(j + 1)[i],
            v@,
        ) by {
            if i < j {
                assert(lines@.take(j + 1)[i] == lines@.take(j as int)[i]);
            }
        }
        j = j + 1;
    }
    true
}

/// The parameters `t` for which `point + direction * t / SCALE` lies within
/// the disc, the root rounded down: `None` when the line misses the disc.
pub open spec fn disc_interval(line: Line, max_speed: int) -> Option<(int, int)> {
    let p = line.point@;
    let dt = tdiv(dot(p, line.direction@), SCALE as int);
    let disc = dt * dt + max_speed * max_speed - len_sq(p);
    if disc < 0 {
        None
    } else {
        let sq = int_sqrt(disc as nat) as int;
        Some((-dt - sq, -dt + sq))
    }
}

/// The parameter at which `line` crosses the earlier line `other`, when they
/// are not parallel.
pub open spec fn crossing_param(line: Line, other: Line) -> int {
    let denom = det(line.direction@, other.direction@);
    let numer = det(other.direction@, vsub(line.point@, other.point@));
    if denom > 0 {
        tdiv(numer * SCALE, denom)
    } else {
        tdiv(-(numer * SCALE), -denom)
    }
}

/// The interval `lr` of parameters on `line` narrowed to those that the
/// earlier line `other` admits: `None` when nothing is left.
pub open spec fn clip_interval(line: Line, other: Line, lr: (int, int)) -> Option<(int, int)> {
    let denom = det(line.direction@, other.direction@);
    let numer = det(other.direction@, vsub(line.point@, other.point@));
    if denom == 0 {
        if numer < 0 {
            None
        } else {
            Some(lr)
        }
    } else {
        let t = crossing_param(line, other);
        let l = if denom < 0 && t > lr.0 { t } else { lr.0 };
        let r = if denom > 0 && t < lr.1 { t } else { lr.1 };
        if l > r {
            None
        } else {
            Some((l, r))
        }
    }
}

/// The parameters on line `i` within the disc and admitted by the lines
/// before `j`.
pub open spec fn line_interval(lines: Seq<Line>, i: int, j: int, max_speed: int) -> Option<(int, int)>
    decreases j,
{
    if j <= 0 {
        disc_interval(lines[i], max_speed)
    } else {
        match line_interval(lines, i, j - 1, max_speed) {
            None => None,
            Some(lr) => clip_interval(lines[i], lines[j - 1], lr),
        }
    }
}

/// Once the interval is empty it stays empty.
pub proof fn lemma_interval_stays_empty(lines: Seq<Line>, i: int, j: int, k: int, max_speed: int)
    requires
        j <= k,
        line_interval(lines, i, j, max_speed) is None,
    ensures
        line_interval(lines, i, k, max_speed) is None,
    decreases k - j,
{
    if j < k {
        lemma_interval_stays_empty(lines, i, j, k - 1, max_speed);
    }
}

/// The chosen parameter: the end of `lr` farthest along `opt` with
/// `direction_opt`, else the projection of `opt` onto the line clamped to
/// `lr`.
pub open spec fn chosen_param(line: Line, lr: (int, int), opt: (int, int), direction_opt: bool) -> int {
    if direction_opt {
        if dot(opt, line.direction@) > 0 {
            lr.1
        } else {
            lr.0
        }
    } else {
        let t0 = tdiv(dot(line.direction@, vsub(opt, line.point@)), SCALE as int);
        if t0 < lr.0 {
            lr.0
        } else if t0 > lr.1 {
            lr.1
        } else {
            t0
        }
    }
}

/// The point of `line` at parameter `t`.
pub open spec fn point_at(line: Line, t: int) -> (int, int) {
    let p = line.point@;
    let d = line.direction@;
    (p.0 + tdiv(d.0 * t, SCALE as int), p.1 + tdiv(d.1 * t, SCALE as int))
}

/// `q`, moved one sub-unit to the left of `line` when rounding left it on
/// the right.
pub open spec fn nudge_left(line: Line, q: (int, int)) -> (int, int) {
    let d = line.direction@;
    if det(d, vsub(q, line.point@)) < 0 {
        (
            q.0 + (if d.1 > 0 { -1int } else if d.1 < 0 { 1int } else { 0int }),
            q.1 + (if d.0 > 0 { 1int } else if d.0 < 0 { -1int } else { 0int }),
        )
    } else {
        q
    }
}

/// The outcome of moving onto line `i`: the chosen point, when the disc
/// and the lines up to `i` all admit it.
pub open spec fn on_line(lines: Seq<Line>, i: int, max_speed: int, opt: (int, int), direction_opt: bool) -> Option<
    (int, int),
> {
    match line_interval(lines, i, i, max_speed) {
        None => None,
        Some(lr) => {
            let q = nudge_left(lines[i], point_at(lines[i], chosen_param(lines[i], lr, opt, direction_opt)));
            if in_box(q, max_speed) && in_disc(q, max_speed) && admits_all(lines.take(i + 1), q) {
                Some(q)
            } else {
                None
            }
        },
    }
}

pub open spec fn opt_view(o: Option<Vec2>) -> Option<(int, int)> {
    match o {
        Some(v) => Some(v@),
        None => None,
    }
}

/// The point of line `line_no` nearest the preferred velocity `opt` (or, with
/// `direction_opt`, farthest along the direction `opt`) among those within
/// the disc of radius `max_speed` and admitted by every earlier line. `None`
/// when that set is empty, or when rounding left the chosen point outside the
/// disc or outside one of those lines.
fn solve_on_line(
    lines: &Vec<Line>,
    line_no: usize,
    max_speed: i64,
    opt: Vec2,
    direction_opt: bool,
) -> (r: Option<Vec2>)
    requires
        line_no < lines.len(),
        lines_wf(lines@),
        0 <= max_speed <= MAX_COORD,
        in_box(opt@, MAX_LINE as int),
    ensures
        opt_view(r) == on_line(lines@, line_no as int, max_speed as int, opt@, direction_opt),
        r is Some ==> in_disc(r->0@, max_speed as int) && admits_all(
            lines@.take(line_no + 1),
            r->0@,
        ),
{
    let line = lines[line_no];
    assert(line_wf(lines@[line_no as int]));
    let px = line.point.x as i128;
    let py = line.point.y as i128;
    let dx = line.direction.x as i128;
    let dy = line.direction.y as i128;
    let m = max_speed as i128;
    let big: i128 = MAX_LINE as i128;
    let two: i128 = 2 * 4096;
    proof {
        lemma_mul_bound(px as int, dx as int, big as int, two as int);
        lemma_mul_bound(py as int, dy as int, big as int, two as int);
    }
    let pd = dot128(px, py, dx, dy);
    proof {
        lemma_tdiv_bound(pd as int, SCALE as int, 0x40_0000_0000_0000);
    }
    let dt = div_trunc(pd, 4096);
    proof {
        lemma_mul_bound(dt as int, dt as int, 0x40_0000_0000_0000, 0x40_0000_0000_0000);
        lemma_mul_bound(m as int, m as int, MAX_COORD as int, MAX_COORD as int);
        lemma_mul_bound(px as int, px as int, big as int, big as int);
        lemma_mul_bound(py as int, py as int, big as int, big as int);
    }
    let disc = dt * dt + m * m - dot128(px, py, px, py);
    if disc < 0 {
        proof {
            lemma_interval_stays_empty(lines@, line_no as int, 0, line_no as int, max_speed as int);
        }
        return None;
    }
    let sq = isqrt(disc as u128) as i128;
    proof {
        lemma_int_sqrt(disc as nat);
        assert(sq <= 0x100_0000_0000_0000) by {
            if sq > 0x100_0000_0000_0000 {
                assert(sq * sq > 0x100_0000_0000_0000 * 0x100_0000_0000_0000) by (nonlinear_arith)
                    requires sq > 0x100_0000_0000_0000;
            }
        }
    }
    let mut t_left = -dt - sq;
    let mut t_right = -dt + sq;
    let bound: i128 = 0x200_0000_0000_0000;
    let mut j: usize = 0;
    while j < line_no
        invariant
            j <= line_no < lines.len(),
            lines_wf(lines@),
            line == lines@[line_no as int],
            px == line.point.x,
            py == line.point.y,
            dx == line.direction.x,
            dy == line.direction.y,
            in_box((px as int, py as int), MAX_LINE as int),
            in_box((dx as int, dy as int), 2 * SCALE),
            -bound <= t_left <= t_right <= bound,
            line_interval(lines@, line_no as int, j as int, max_speed as int) == Some(
                (t_left as int, t_right as int),
            ),
            two == 2 * SCALE,
            big == MAX_LINE,
            bound == 0x200_0000_0000_0000,
            m == max_speed,
        decreases line_no - j,
    {
        let other = lines[j];
        assert(line_wf(lines@[j as int]));
        let denom = det128(dx, dy, other.direction.x as i128, other.direction.y as i128);
        let numer = det128(
            other.direction.x as i128,
            other.direction.y as i128,
            px - other.point.x as i128,
            py - other.point.y as i128,
        );
        if denom == 0 {
            if numer < 0 {
                proof {
                    lemma_interval_stays_empty(lines@, line_no as int, j + 1, line_no as int, max_speed as int);
                }
                return None;
            }
        } else {
            proof {
                lemma_mul_bound(dx as int, other.direction.y as int, 8192, 8192);
                lemma_mul_bound(dy as int, other.direction.x as int, 8192, 8192);
                lemma_mul_bound(
                    other.direction.x as int,
                    py - other.point.y,
                    two as int,
                    2 * big as int,
                );
                lemma_mul_bound(
                    other.direction.y as int,
                    px - other.point.x,
                    two as int,
                    2 * big as int,
                );
                lemma_mul_bound(numer as int, SCALE as int, 0x100_0000_0000_0000, SCALE as int);
            }
            let scaled = numer * 4096;
            let t = if denom > 0 {
                div_trunc(scaled, denom)
            } else {
                div_trunc(-scaled, -denom)
            };
            if denom > 0 {
                if t < t_right {
                    t_right = t;
                }
            } else {
                if t > t_left {
                    t_left = t;
                }
            }
            if t_left > t_right {
                proof {
                    lemma_interval_stays_empty(lines@, line_no as int, j + 1, line_no as int, max_speed as int);
                }
                return None;
            }
        }
        j = j + 1;
    }
    let t = if direction_opt {
        proof {
            lemma_mul_bound(opt.x as int, dx as int, big as int, two as int);
            lemma_mul_bound(opt.y as int, dy as int, big as int, two as int);
        }
        if dot128(opt.x as i128, opt.y as i128, dx, dy) > 0 {
            t_right
        } else {
            t_left
        }
    } else {
        proof {
            lemma_mul_bound(dx as int, opt.x - px, two as int, 2 * big as int);
            lemma_mul_bound(dy as int, opt.y - py, two as int, 2 * big as int);
        }
        let t0 = div_trunc(dot128(dx, dy, opt.x as i128 - px, opt.y as i128 - py), 4096);
        if t0 < t_left {
            t_left
        } else if t0 > t_right {
            t_right
        } else {
            t0
        }
    };
    proof {
        lemma_mul_bound(dx as int, t as int, two as int, bound as int);
        lemma_mul_bound(dy as int, t as int, two as int, bound as int);
        lemma_tdiv_bound(dx * t, SCALE as int, 2 * bound as int);
        lemma_tdiv_bound(dy * t, SCALE as int, 2 * bound as int);
    }
    let mut rx = px + div_trunc(dx * t, 4096);
    let mut ry = py + div_trunc(dy * t, 4096);
    proof {
        lemma_mul_bound(dx as int, ry - py, two as int, 4 * bound as int);
        lemma_mul_bound(dy as int, rx - px, two as int, 4 * bound as int);
    }
    // Rounding may leave the point just right of the line: step one sub-unit
    // to its left, which raises the determinant by |dx| + |dy|.
    if det128(dx, dy, rx - px, ry - py) < 0 {
        if dy > 0 {
            rx = rx - 1;
        } else if dy < 0 {
            rx = rx + 1;
        }
        if dx > 0 {
            ry = ry + 1;
        } else if dx < 0 {
            ry = ry - 1;
        }
    }
    if rx < -m || rx > m || ry < -m || ry > m {
        return None;
    }
    let cand = Vec2 { x: rx as i64, y: ry as i64 };
    proof {
        lemma_mul_bound(rx as int, rx as int, m as int, m as int);
        lemma_mul_bound(ry as int, ry as int, m as int, m as int);
    }
    if dot128(rx, ry, rx, ry) > m * m {
        return None;
    }
    if admits_first(lines, line_no + 1, cand) {
        Some(cand)
    } else {
        None
    }
}

} // verus!

verus! {

/// What every line admits, the first `k` lines admit.
pub proof fn lemma_admits_prefix(lines: Seq<Line>, k: int, v: (int, int))
    requires
        0 <= k <= lines.len(),
        admits_all(lines, v),
    ensures
        admits_all(lines.take(k), v),
{
    assert forall|i: int| 0 <= i < k implies satisfies(#[trigger] lines.take(k)[i], v) by {
        assert(lines.take(k)[i] == lines[i]);
    }
}

/// Where the first phase starts: the preferred velocity, or with
/// `direction_opt` the preferred direction scaled to `max_speed`, brought
/// within the disc.
pub open spec fn phase_one_start(opt: (int, int), max_speed: int, direction_opt: bool) -> (int, int) {
    if direction_opt {
        clamp_to_speed((tdiv(opt.0 * max_speed, SCALE as int), tdiv(opt.1 * max_speed, SCALE as int)), max_speed)
    } else {
        clamp_to_speed(opt, max_speed)
    }
}

/// The first phase after the first `k` lines: `Ok` with the current
/// velocity, or `Err` with the line that could not be met and the velocity
/// reached before it.
pub open spec fn phase_one(
    lines: Seq<Line>,
    max_speed: int,
    opt: (int, int),
    direction_opt: bool,
    k: int,
) -> Result<(int, int), (int, (int, int))>
    decreases k,
{
    if k <= 0 {
        Ok(phase_one_start(opt, max_speed, direction_opt))
    } else {
        match phase_one(lines, max_speed, opt, direction_opt, k - 1) {
            Err(e) => Err(e),
            Ok(v) => if satisfies(lines[k - 1], v) {
                Ok(v)
            } else {
                match on_line(lines, k - 1, max_speed, opt, direction_opt) {
                    Some(c) => Ok(c),
                    None => Err((k - 1, v)),
                }
            },
        }
    }
}

/// Once the first phase has failed, its outcome stays.
pub proof fn lemma_phase_one_stays(
    lines: Seq<Line>,
    max_speed: int,
    opt: (int, int),
    direction_opt: bool,
    j: int,
    k: int,
)
    requires
        j <= k,
        phase_one(lines, max_speed, opt, direction_opt, j) is Err,
    ensures
        phase_one(lines, max_speed, opt, direction_opt, k) == phase_one(
            lines,
            max_speed,
            opt,
            direction_opt,
            j,
        ),
    decreases k - j,
{
    if j < k {
        lemma_phase_one_stays(lines, max_speed, opt, direction_opt, j, k - 1);
    }
}

/// The outcome of the first phase as a value of the same shape.
pub open spec fn phase_one_view(r: Result<Vec2, (usize, Vec2)>) -> Result<(int, int), (int, (int, int))> {
    match r {
        Ok(v) => Ok(v@),
        Err((i, v)) => Err((i as int, v@)),
    }
}

/// The first phase: starting from `phase_one_start`, takes the lines in
/// order and, for each that the current velocity breaks, moves onto that
/// line at the admitted point nearest the preference. `Ok` holds a velocity
/// within the disc that every line admits; `Err((i, v))` names the first line
/// `i` that could not be met, with the velocity `v` reached before it, which
/// the lines before `i` all admit. A start that every line admits is
/// returned as it is.
pub fn solve_within_lines(lines: &Vec<Line>, max_speed: i64, opt: Vec2, direction_opt: bool) -> (r:
    Result<Vec2, (usize, Vec2)>)
    requires
        lines_wf(lines@),
        0 <= max_speed <= MAX_COORD,
        in_box(opt@, MAX_LINE as int),
        direction_opt ==> in_box(opt@, 2 * SCALE),
    ensures
        phase_one_view(r) == phase_one(
            lines@,
            max_speed as int,
            opt@,
            direction_opt,
            lines.len() as int,
        ),
        match r {
            Ok(v) => in_disc(v@, max_speed as int) && admits_all(lines@, v@),
            Err((i, v)) => {
                &&& i < lines.len()
                &&& in_disc(v@, max_speed as int)
                &&& admits_all(lines@.take(i as int), v@)
                &&& !admits_all(
                    lines@.take(i + 1),
                    phase_one_start(opt@, max_speed as int, direction_opt),
                )
            },
        },
        admits_all(lines@, phase_one_start(opt@, max_speed as int, direction_opt)) ==> (r matches Ok(
            v,
        ) && v@ == phase_one_start(opt@, max_speed as int, direction_opt)),
{
    let ghost start = phase_one_start(opt@, max_speed as int, direction_opt);
    let m = max_speed as i128;
    let mut result = if direction_opt {
        proof {
            lemma_mul_bound(opt.x as int, m as int, 8192, MAX_COORD as int);
            lemma_mul_bound(opt.y as int, m as int, 8192, MAX_COORD as int);
            lemma_tdiv_bound(opt.x * m, SCALE as int, MAX_LINE as int);
            lemma_tdiv_bound(opt.y * m, SCALE as int, MAX_LINE as int);
        }
        clamp_speed(div_trunc(opt.x as i128 * m, 4096), div_trunc(opt.y as i128 * m, 4096), max_speed)
    } else {
        clamp_speed(opt.x as i128, opt.y as i128, max_speed)
    };
    assert(result@ == start);
    let mut i: usize = 0;
    while i < lines.len()
        invariant
            i <= lines.len(),
            lines_wf(lines@),
            0 <= max_speed <= MAX_COORD,
            in_box(opt@, MAX_LINE as int),
            in_disc(result@, max_speed as int),
            admits_all(lines@.take(i as int), result@),
            admits_all(lines@.take(i as int), start) ==> result@ == start,
            start == phase_one_start(opt@, max_speed as int, direction_opt),
            phase_one(lines@, max_speed as int, opt@, direction_opt, i as int) == Ok::<
                (int, int),
                (int, (int, int)),
            >(result@),
        decreases lines.len() - i,
    {
        proof {
            lemma_coord_le_speed(result@, max_speed as int);
        }
        assert(line_wf(lines@[i as int]));
        if !line_admits(&lines[i], result) {
            match solve_on_line(lines, i, max_speed, opt, direction_opt) {
                Some(v) => {
                    result = v;
                    proof {
                        if admits_all(lines@.take(i + 1), start) {
                            assert(lines@.take(i + 1)[i as int] == lines@[i as int]);
                            assert(admits_all(lines@.take(i as int), start)) by {
                                assert forall|k: int| 0 <= k < i implies satisfies(
                                    #[trigger] lines@.take(i as int)[k],
                                    start,
                                ) by {
                                    assert(lines@.take(i + 1)[k] == lines@.take(i as int)[k]);
                                }
                            }
                            assert(false);
                        }
                    }
                },
                None => {
                    proof {
                        if admits_all(lines@, start) {
                            lemma_admits_prefix(lines@, i + 1, start);
                        }
                        if admits_all(lines@.take(i + 1), start) {
                            assert(lines@.take(i + 1)[i as int] == lines@[i as int]);
                            assert(admits_all(lines@.take(i as int), start)) by {
                                assert forall|k: int| 0 <= k < i implies satisfies(
                                    #[trigger] lines@.take(i as int)[k],
                                    start,
                                ) by {
                                    assert(lines@.take(i + 1)[k] == lines@.take(i as int)[k]);
                                }
                            }
                            assert(false);
                        }
                    }
                    proof {
                        lemma_phase_one_stays(
                            lines@,
                            max_speed as int,
                            opt@,
                            direction_opt,
                            i + 1,
                            lines.len() as int,
                        );
                    }
                    return Err((i, result));
                },
            }
        } else {
            assert forall|k: int| 0 <= k < i + 1 implies satisfies(
                #[trigger] lines@.take(i + 1)[k],
                result@,
            ) by {
                if k < i {
                    assert(lines@.take(i + 1)[k] == lines@.take(i as int)[k]);
                }
            }
            proof {
                if admits_all(lines@.take(i + 1), start) {
                    assert forall|k: int| 0 <= k < i implies satisfies(
                        #[trigger] lines@.take(i as int)[k],
                        start,
                    ) by {
                        assert(lines@.take(i + 1)[k] == lines@.take(i as int)[k]);
                    }
                }
            }
        }
        i = i + 1;
    }
    assert(lines@.take(lines.len() as int) == lines@);
    Ok(result)
}

} // verus!

verus! {

/// The anchor of the bisector of `line_i` and `line_j`: where they cross,
/// or halfway between their points when they run opposite ways.
pub open spec fn bisector_anchor(line_i: Line, line_j: Line) -> (int, int) {
    let pi = line_i.point@;
    let pj = line_j.point@;
    if det(line_i.direction@, line_j.direction@) == 0 {
        (tdiv(pi.0 + pj.0, 2), tdiv(pi.1 + pj.1, 2))
    } else {
        point_at(line_i, crossing_param(line_i, line_j))
    }
}

/// The bisector of `line_i` and `line_j`: none when they run the same way or
/// its anchor lies beyond `MAX_LINE`.
pub open spec fn bisector_line(line_i: Line, line_j: Line) -> Option<Line> {
    let di = line_i.direction@;
    let dj = line_j.direction@;
    let q = bisector_anchor(line_i, line_j);
    if det(di, dj) == 0 && dot(di, dj) > 0 {
        None
    } else if !in_box(q, MAX_LINE as int) {
        None
    } else {
        Some(make_line(q, normalize(vsub(dj, di))))
    }
}

/// The lines the second phase solves within for line `i`: the first
/// `obstacle_count` lines, then the bisectors of line `i` with the lines
/// from `obstacle_count` up to `j`.
pub open spec fn projected_lines(lines: Seq<Line>, obstacle_count: int, i: int, j: int) -> Seq<Line>
    decreases j - obstacle_count,
{
    if j <= obstacle_count {
        lines.take(obstacle_count)
    } else {
        let rest = projected_lines(lines, obstacle_count, i, j - 1);
        match bisector_line(lines[i], lines[j - 1]) {
            Some(b) => rest.push(b),
            None => rest,
        }
    }
}

/// How far `v` lies on the wrong side of `line` (negative when admitted).
pub open spec fn violation(line: Line, v: (int, int)) -> int {
    det(line.direction@, vsub(line.point@, v))
}

/// The second phase after the lines before `k`, from line `begin` on: the
/// current velocity and the violation it was accepted with.
pub open spec fn phase_two(
    lines: Seq<Line>,
    obstacle_count: int,
    begin: int,
    max_speed: int,
    start: (int, int),
    k: int,
) -> ((int, int), int)
    decreases k - begin,
{
    if k <= begin {
        (start, 0)
    } else {
        let (v, distance) = phase_two(lines, obstacle_count, begin, max_speed, start, k - 1);
        let line = lines[k - 1];
        if violation(line, v) > distance {
            let proj = projected_lines(lines, obstacle_count, k - 1, k - 1);
            let c = match phase_one(proj, max_speed, perp(line.direction@), true, proj.len() as int) {
                Ok(c) => c,
                Err(_) => v,
            };
            (c, violation(line, c))
        } else {
            (v, distance)
        }
    }
}

/// The solver's answer: the first phase's velocity when it met every line,
/// else the second phase's from the line where the first one stopped.
pub open spec fn solver_velocity(lines: Seq<Line>, obstacle_count: int, max_speed: int, preferred: (int, int)) -> (int, int) {
    match phase_one(lines, max_speed, preferred, false, lines.len() as int) {
        Ok(v) => v,
        Err((i, v)) => phase_two(lines, obstacle_count, i, max_speed, v, lines.len() as int).0,
    }
}

/// The bisector between lines `i` and `j` (`j` before `i`) on which the
/// second phase trades violations of the two equally: `None` when the lines
/// run the same way, or when its anchor point falls beyond `MAX_LINE`.
fn bisector(line_i: Line, line_j: Line) -> (r: Option<Line>)
    requires
        line_wf(line_i),
        line_wf(line_j),
    ensures
        r == bisector_line(line_i, line_j),
        r is Some ==> line_wf(r->0),
{
    let pix = line_i.point.x as i128;
    let piy = line_i.point.y as i128;
    let dix = line_i.direction.x as i128;
    let diy = line_i.direction.y as i128;
    let pjx = line_j.point.x as i128;
    let pjy = line_j.point.y as i128;
    let djx = line_j.direction.x as i128;
    let djy = line_j.direction.y as i128;
    let denom = det128(dix, diy, djx, djy);
    let (qx, qy) = if denom == 0 {
        if dot128(dix, diy, djx, djy) > 0 {
            return None;
        }
        (div_trunc(pix + pjx, 2), div_trunc(piy + pjy, 2))
    } else {
        let numer = det128(djx, djy, pix - pjx, piy - pjy);
        proof {
            lemma_mul_bound(dix as int, djy as int, 8192, 8192);
            lemma_mul_bound(diy as int, djx as int, 8192, 8192);
            lemma_mul_bound(djx as int, piy - pjy, 8192, 0x200_0000_0000);
            lemma_mul_bound(djy as int, pix - pjx, 8192, 0x200_0000_0000);
            lemma_mul_bound(numer as int, 4096, 0x100_0000_0000_0000, 4096);
        }
        let scaled = numer * 4096;
        let t = if denom > 0 {
            div_trunc(scaled, denom)
        } else {
            div_trunc(-scaled, -denom)
        };
        proof {
            assert(-0x10_0000_0000_0000_0000 <= t <= 0x10_0000_0000_0000_0000) by {
                let k: int = 0x10_0000_0000_0000_0000;

                if denom > 0 {
                    assert(k * denom >= k) by (nonlinear_arith)
                        requires denom >= 1, k >= 0;
                    lemma_tdiv_bound(scaled as int, denom as int, k);
                } else {
                    assert(k * (-denom) >= k) by (nonlinear_arith)
                        requires -denom >= 1, k >= 0;
                    lemma_tdiv_bound(-scaled, -denom, k);
                }
            }
            lemma_mul_bound(dix as int, t as int, 8192, 0x10_0000_0000_0000_0000);
            lemma_mul_bound(diy as int, t as int, 8192, 0x10_0000_0000_0000_0000);
        }
        (pix + div_trunc(dix * t, 4096), piy + div_trunc(diy * t, 4096))
    };
    let big = MAX_LINE as i128;
    if qx < -big || qx > big || qy < -big || qy > big {
        return None;
    }
    let (nx, ny) = normalize_or_zero(djx - dix, djy - diy);
    Some(Line { point: Vec2 { x: qx as i64, y: qy as i64 }, direction: Vec2 { x: nx as i64, y: ny as i64 } })
}

} // verus!

verus! {

/// The second phase, from line `begin` on: whenever line `i` is broken by
/// more than the violation accepted so far, runs the first phase again, as
/// far as possible toward the admitted side of line `i`, within the first
/// `obstacle_count` lines (kept as hard constraints) and the bisectors of
/// line `i` with the other lines before it. Its velocity is taken only when
/// that run meets all those lines, so a velocity that the obstacle lines
/// admit is never traded for one they do not.
pub fn solve_least_violation(
    lines: &Vec<Line>,
    obstacle_count: usize,
    begin: usize,
    max_speed: i64,
    start: Vec2,
) -> (r: Vec2)
    requires
        lines_wf(lines@),
        obstacle_count <= lines.len(),
        0 <= max_speed <= MAX_COORD,
        in_disc(start@, max_speed as int),
    ensures
        r@ == phase_two(
            lines@,
            obstacle_count as int,
            begin as int,
            max_speed as int,
            start@,
            lines.len() as int,
        ).0,
        in_disc(r@, max_speed as int),
        admits_all(lines@.take(obstacle_count as int), start@) ==> admits_all(
            lines@.take(obstacle_count as int),
            r@,
        ),
{
    let mut result = start;
    let mut distance: i128 = 0;
    let mut i: usize = begin;
    while i < lines.len()
        invariant
            begin <= i,
            i > lines.len() ==> i == begin,
            (result@, distance as int) == phase_two(
                lines@,
                obstacle_count as int,
                begin as int,
                max_speed as int,
                start@,
                i as int,
            ),
            lines_wf(lines@),
            obstacle_count <= lines.len(),
            0 <= max_speed <= MAX_COORD,
            in_disc(result@, max_speed as int),
            admits_all(lines@.take(obstacle_count as int), start@) ==> admits_all(
                lines@.take(obstacle_count as int),
                result@,
            ),
        decreases lines.len() - i,
    {
        let line = lines[i];
        assert(line_wf(lines@[i as int]));
        proof {
            lemma_coord_le_speed(result@, max_speed as int);
        }
        let violation = det128(
            line.direction.x as i128,
            line.direction.y as i128,
            line.point.x as i128 - result.x as i128,
            line.point.y as i128 - result.y as i128,
        );
        if violation > distance {
            let mut projected: Vec<Line> = Vec::new();
            let mut j: usize = 0;
            while j < obstacle_count
                invariant
                    j <= obstacle_count <= lines.len(),
                    lines_wf(lines@),
                    projected@ == lines@.take(j as int),
                decreases obstacle_count - j,
            {
                projected.push(lines[j]);
                assert(projected@ =~= lines@.take(j + 1));
                j = j + 1;
            }
            assert(projected@ == projected_lines(lines@, obstacle_count as int, i as int, j as int));
            while j < i
                invariant
                    obstacle_count <= j <= lines.len(),
                    i < lines.len(),
                    lines_wf(lines@),
                    line == lines@[i as int],
                    lines_wf(projected@),
                    projected@.len() >= obstacle_count,
                    projected@.take(obstacle_count as int) == lines@.take(obstacle_count as int),
                    projected@ == projected_lines(lines@, obstacle_count as int, i as int, j as int),
                    j <= i || j == obstacle_count,
                decreases lines.len() - j,
            {
                assert(line_wf(lines@[j as int]));
                match bisector(line, lines[j]) {
                    Some(b) => {
                        let ghost before = projected@;
                        projected.push(b);
                        assert(projected@.take(obstacle_count as int) =~= before.take(obstacle_count as int));
                    },
                    None => {},
                }
                j = j + 1;
            }
            assert(projected@ == projected_lines(lines@, obstacle_count as int, i as int, i as int)) by {
                if j != i {
                    assert(projected_lines(lines@, obstacle_count as int, i as int, i as int) == lines@.take(
                        obstacle_count as int,
                    ));
                }
            }
            let toward = Vec2 { x: -line.direction.y, y: line.direction.x };
            match solve_within_lines(&projected, max_speed, toward, true) {
                Ok(v) => {
                    proof {
                        assert forall|k: int| 0 <= k < obstacle_count implies satisfies(
                            #[trigger] lines@.take(obstacle_count as int)[k],
                            v@,
                        ) by {
                            assert(lines@.take(obstacle_count as int)[k] == projected@.take(obstacle_count as int)[k]);
                            assert(projected@.take(obstacle_count as int)[k] == projected@[k]);
                        }
                    }
                    result = v;
                },
                Err(_) => {},
            }
            proof {
                lemma_coord_le_speed(result@, max_speed as int);
            }
            distance = det128(
                line.direction.x as i128,
                line.direction.y as i128,
                line.point.x as i128 - result.x as i128,
                line.point.y as i128 - result.y as i128,
            );
        }
        i = i + 1;
    }
    result
}

/// Picks a velocity within the disc of radius `max_speed`: the admitted
/// velocity nearest `preferred_velocity` when the first phase meets every
/// line, else the one that breaks the lines least, the first
/// `obstacle_line_count` lines (those of obstacles) taking precedence over
/// the rest; exactly `solver_velocity`. It equals the preferred velocity
/// (brought within the disc) whenever every line admits that, and keeps to
/// the obstacle lines whenever that velocity does.
pub fn solve_linear_program(
    lines: &Vec<Line>,
    obstacle_line_count: usize,
    max_speed: i64,
    preferred_velocity: Vec2,
) -> (r: Vec2)
    requires
        lines_wf(lines@),
        obstacle_line_count <= lines.len(),
        0 <= max_speed <= MAX_COORD,
        in_box(preferred_velocity@, MAX_LINE as int),
    ensures
        r@ == solver_velocity(
            lines@,
            obstacle_line_count as int,
            max_speed as int,
            preferred_velocity@,
        ),
        in_disc(r@, max_speed as int),
        admits_all(lines@, clamp_to_speed(preferred_velocity@, max_speed as int)) ==> r@
            == clamp_to_speed(preferred_velocity@, max_speed as int),
        admits_all(
            lines@.take(obstacle_line_count as int),
            clamp_to_speed(preferred_velocity@, max_speed as int),
        ) ==> admits_all(lines@.take(obstacle_line_count as int), r@),
{
    match solve_within_lines(lines, max_speed, preferred_velocity, false) {
        Ok(v) => {
            proof {
                lemma_admits_prefix(lines@, obstacle_line_count as int, v@);
            }
            v
        },
        Err((failed, v)) => {
            let ghost pref = clamp_to_speed(preferred_velocity@, max_speed as int);
            proof {
                if admits_all(lines@.take(obstacle_line_count as int), pref) {
                    if failed < obstacle_line_count {
                        assert forall|k: int| 0 <= k < failed + 1 implies satisfies(
                            #[trigger] lines@.take(failed + 1)[k],
                            pref,
                        ) by {
                            assert(lines@.take(failed + 1)[k] == lines@.take(obstacle_line_count as int)[k]);
                        }
                    }
                    assert forall|k: int| 0 <= k < obstacle_line_count implies satisfies(
                        #[trigger] lines@.take(obstacle_line_count as int)[k],
                        v@,
                    ) by {
                        assert(lines@.take(obstacle_line_count as int)[k] == lines@.take(failed as int)[k]);
                    }
                }
            }
            solve_least_violation(lines, obstacle_line_count, failed, max_speed, v)
        },
    }
}

} // verus!

verus! {

/// The solver is a function of its inputs: two runs on the same lines,
/// obstacle count, speed limit and preference give the same velocity, bit
/// for bit.
pub proof fn lemma_solve_deterministic(
    lines: Seq<Line>,
    obstacle_count: int,
    max_speed: int,
    preferred: (int, int),
    first: (int, int),
    second: (int, int),
)
    requires
        first == solver_velocity(lines, obstacle_count, max_speed, preferred),
        second == solver_velocity(lines, obstacle_count, max_speed, preferred),
    ensures
        first == second,
{
}

} // verus!

verus! {

/// What the first phase holds after any number of lines: its velocity stays
/// within the disc and meets every line taken so far; a failure names a
/// line already taken, the velocity before it meeting all earlier lines.
pub proof fn lemma_phase_one_invariant(
    lines: Seq<Line>,
    max_speed: int,
    opt: (int, int),
    direction_opt: bool,
    k: int,
)
    requires
        0 <= k <= lines.len(),
        max_speed >= 0,
    ensures
        match phase_one(lines, max_speed, opt, direction_opt, k) {
            Ok(v) => in_disc(v, max_speed) && admits_all(lines.take(k), v),
            Err((i, v)) => 0 <= i < k && in_disc(v, max_speed) && admits_all(lines.take(i), v),
        },
    decreases k,
{
    if k == 0 {
        let x = if direction_opt {
            (tdiv(opt.0 * max_speed, SCALE as int), tdiv(opt.1 * max_speed, SCALE as int))
        } else {
            opt
        };
        lemma_clamp_in_disc(x, max_speed);
    } else {
        lemma_phase_one_invariant(lines, max_speed, opt, direction_opt, k - 1);
        match phase_one(lines, max_speed, opt, direction_opt, k - 1) {
            Err(_) => {},
            Ok(v) => {
                if satisfies(lines[k - 1], v) {
                    assert forall|m: int| 0 <= m < k implies satisfies(#[trigger] lines.take(k)[m], v) by {
                        if m < k - 1 {
                            assert(lines.take(k)[m] == lines.take(k - 1)[m]);
                        }
                    }
                }
            },
        }
    }
}

/// The first `obstacle_count` projected lines are the obstacle lines.
pub proof fn lemma_projected_keeps_obstacles(lines: Seq<Line>, obstacle_count: int, i: int, j: int)
    requires
        0 <= obstacle_count <= lines.len(),
    ensures
        projected_lines(lines, obstacle_count, i, j).len() >= obstacle_count,
        projected_lines(lines, obstacle_count, i, j).take(obstacle_count) == lines.take(obstacle_count),
    decreases j - obstacle_count,
{
    if j > obstacle_count {
        lemma_projected_keeps_obstacles(lines, obstacle_count, i, j - 1);
        let rest = projected_lines(lines, obstacle_count, i, j - 1);
        match bisector_line(lines[i], lines[j - 1]) {
            Some(b) => {
                assert(rest.push(b).take(obstacle_count) =~= rest.take(obstacle_count));
            },
            None => {},
        }
    }
}

/// The second phase keeps its velocity within the disc, and never trades a
/// velocity that meets the obstacle lines for one that does not.
pub proof fn lemma_phase_two_invariant(
    lines: Seq<Line>,
    obstacle_count: int,
    begin: int,
    max_speed: int,
    start: (int, int),
    k: int,
)
    requires
        0 <= obstacle_count <= lines.len(),
        begin >= 0,
        k <= lines.len(),
        max_speed >= 0,
        in_disc(start, max_speed),
    ensures
        in_disc(phase_two(lines, obstacle_count, begin, max_speed, start, k).0, max_speed),
        admits_all(lines.take(obstacle_count), start) ==> admits_all(
            lines.take(obstacle_count),
            phase_two(lines, obstacle_count, begin, max_speed, start, k).0,
        ),
    decreases k - begin,
{
    if k > begin {
        lemma_phase_two_invariant(lines, obstacle_count, begin, max_speed, start, k - 1);
        let (v, distance) = phase_two(lines, obstacle_count, begin, max_speed, start, k - 1);
        let line = lines[k - 1];
        if violation(line, v) > distance {
            let proj = projected_lines(lines, obstacle_count, k - 1, k - 1);
            lemma_phase_one_invariant(proj, max_speed, perp(line.direction@), true, proj.len() as int);
            lemma_projected_keeps_obstacles(lines, obstacle_count, k - 1, k - 1);
            match phase_one(proj, max_speed, perp(line.direction@), true, proj.len() as int) {
                Ok(c) => {
                    assert(proj.take(proj.len() as int) == proj);
                    assert forall|m: int| 0 <= m < obstacle_count implies satisfies(
                        #[trigger] lines.take(obstacle_count)[m],
                        c,
                    ) by {
                        assert(lines.take(obstacle_count)[m] == proj.take(obstacle_count)[m]);
                        assert(proj.take(obstacle_count)[m] == proj[m]);
                    }
                },
                Err(_) => {},
            }
        }
    }
}

/// The solver's velocity never exceeds `max_speed`.
pub proof fn lemma_solve_within_speed(
    lines: Seq<Line>,
    obstacle_count: int,
    max_speed: int,
    preferred: (int, int),
)
    requires
        0 <= obstacle_count <= lines.len(),
        max_speed >= 0,
    ensures
        in_disc(solver_velocity(lines, obstacle_count, max_speed, preferred), max_speed),
{
    lemma_phase_one_invariant(lines, max_speed, preferred, false, lines.len() as int);
    match phase_one(lines, max_speed, preferred, false, lines.len() as int) {
        Ok(v) => {},
        Err((i, v)) => {
            lemma_phase_two_invariant(lines, obstacle_count, i, max_speed, v, lines.len() as int);
        },
    }
}

/// When the first phase meets every line, the solver's velocity lies within
/// the disc and on the admitted side of every line.
pub proof fn lemma_solve_meets_all_lines(
    lines: Seq<Line>,
    obstacle_count: int,
    max_speed: int,
    preferred: (int, int),
)
    requires
        0 <= obstacle_count <= lines.len(),
        max_speed >= 0,
        phase_one(lines, max_speed, preferred, false, lines.len() as int) is Ok,
    ensures
        admits_all(lines, solver_velocity(lines, obstacle_count, max_speed, preferred)),
        in_disc(solver_velocity(lines, obstacle_count, max_speed, preferred), max_speed),
{
    lemma_phase_one_invariant(lines, max_speed, preferred, false, lines.len() as int);
    assert(lines.take(lines.len() as int) == lines);
}

/// Obstacle lines come first: once the first phase has met the obstacle
/// lines (it either meets every line, or stops at a neighbour's), the
/// solver's velocity meets every obstacle line, however the neighbour lines
/// conflict with them.
pub proof fn lemma_solve_keeps_obstacle_lines(
    lines: Seq<Line>,
    obstacle_count: int,
    max_speed: int,
    preferred: (int, int),
)
    requires
        0 <= obstacle_count <= lines.len(),
        max_speed >= 0,
        match phase_one(lines, max_speed, preferred, false, lines.len() as int) {
            Ok(_) => true,
            Err((i, _)) => i >= obstacle_count,
        },
    ensures
        admits_all(lines.take(obstacle_count), solver_velocity(lines, obstacle_count, max_speed, preferred)),
{
    lemma_phase_one_invariant(lines, max_speed, preferred, false, lines.len() as int);
    match phase_one(lines, max_speed, preferred, false, lines.len() as int) {
        Ok(v) => {
            lemma_admits_prefix(lines.take(lines.len() as int), obstacle_count, v);
            assert(lines.take(lines.len() as int).take(obstacle_count) == lines.take(obstacle_count));
        },
        Err((i, v)) => {
            assert forall|m: int| 0 <= m < obstacle_count implies satisfies(
                #[trigger] lines.take(obstacle_count)[m],
                v,
            ) by {
                assert(lines.take(obstacle_count)[m] == lines.take(i)[m]);
            }
            lemma_phase_two_invariant(lines, obstacle_count, i, max_speed, v, lines.len() as int);
        },
    }
}

} // verus!
