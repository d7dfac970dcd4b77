//! Static obstacles and the half-planes they impose on an agent's velocity.
use vstd::prelude::*;

use crate::agents::{valid_time, velocity_obstacle_projection, vo_projection, Agent};
use crate::geometry::{
    div_trunc, dot, dot128, fmul, fx_mul, in_box, int_sqrt, isqrt, lemma_int_sqrt, lemma_mul_bound,
    lemma_tdiv_bound, len_sq, line_wf, make_line, perp, tdiv, vneg, vsub, Line, Vec2, MAX_COORD,
    SCALE,
};

verus! {

/// A static obstacle given by its outline.
#[derive(Clone, Debug)]
pub enum Obstacle {
    /// A polygon: its edges run from each vertex to the next, and from the
    /// last back to the first. Vertices go counter-clockwise.
    Closed { vertices: Vec<Vec2> },
    /// A polyline: its edges run from each vertex to the next, without the
    /// closing edge; each vertex is also an obstacle of its own.
    Open { vertices: Vec<Vec2> },
}

/// A piece of an obstacle's outline: the segment from `.0` to `.1`, or with
/// `.2` the single point `.0`.
pub type Piece = ((int, int), (int, int), bool);

impl Obstacle {
    pub open spec fn vertices(&self) -> Seq<Vec2> {
        match self {
            Obstacle::Closed { vertices } => vertices@,
            Obstacle::Open { vertices } => vertices@,
        }
    }

    /// Every vertex lies within `MAX_COORD`.
    pub open spec fn wf(&self) -> bool {
        forall|i: int| 0 <= i < self.vertices().len() ==> in_box(#[trigger] self.vertices()[i]@, MAX_COORD as int)
    }

    /// The pieces of the outline, in order: for a polygon every edge with
    /// wrap-around; for a polyline every edge, then every vertex.
    pub open spec fn pieces(&self) -> Seq<Piece> {
        let v = self.vertices();
        let n = v.len() as int;
        match self {
            Obstacle::Closed { .. } => Seq::new(n as nat, |i: int| (v[i]@, v[(i + 1) % n]@, false)),
            Obstacle::Open { .. } => Seq::new(
                (if n > 0 { n - 1 } else { 0 }) as nat,
                |i: int| (v[i]@, v[i + 1]@, false),
            ) + Seq::new(n as nat, |i: int| (v[i]@, v[i]@, true)),
        }
    }
}

/// The point of the segment from `a` to `b` nearest `q`, each coordinate
/// rounded toward zero from `a`.
pub open spec fn closest_point(a: (int, int), b: (int, int), q: (int, int)) -> (int, int) {
    let e = vsub(b, a);
    let den = len_sq(e);
    let num = dot(vsub(q, a), e);
    if den == 0 || num <= 0 {
        a
    } else if num >= den {
        b
    } else {
        (a.0 + tdiv(e.0 * num, den), a.1 + tdiv(e.1 * num, den))
    }
}

/// Whether the agent could reach `c` within `horizon` at its current speed,
/// its radius enlarged by `margin`.
pub open spec fn within_reach(agent: Agent, c: (int, int), margin: int, horizon: int) -> bool {
    let reach = agent.radius + margin + fmul(int_sqrt(len_sq(agent.velocity@) as nat) as int, horizon);
    len_sq(vsub(c, agent.position@)) <= reach * reach
}

/// The half-plane that one piece imposes: none for an edge of length zero or
/// a piece out of reach; else the tangent of the velocity obstacle of its
/// nearest point, the agent taking the whole correction.
pub open spec fn piece_line(agent: Agent, piece: Piece, margin: int, horizon: int) -> Option<Line> {
    let (a, b, is_point) = piece;
    let c = closest_point(a, b, agent.position@);
    if !is_point && a == b {
        None
    } else if !within_reach(agent, c, margin, horizon) {
        None
    } else {
        let (n, q, inside) = vo_projection(
            vsub(c, agent.position@),
            agent.velocity@,
            agent.radius + margin,
            horizon,
            horizon,
        );
        Some(make_line(q, vneg(perp(n))))
    }
}

/// The lines of the pieces, in order, skipping those that impose none.
pub open spec fn piece_lines(agent: Agent, pieces: Seq<Piece>, margin: int, horizon: int) -> Seq<Line>
    decreases pieces.len(),
{
    if pieces.len() == 0 {
        Seq::empty()
    } else {
        let rest = piece_lines(agent, pieces.drop_last(), margin, horizon);
        match piece_line(agent, pieces.last(), margin, horizon) {
            Some(l) => rest.push(l),
            None => rest,
        }
    }
}

/// The lines of all obstacles, in order.
pub open spec fn obstacle_lines(agent: Agent, obstacles: Seq<Obstacle>, margin: int, horizon: int) -> Seq<
    Line,
>
    decreases obstacles.len(),
{
    if obstacles.len() == 0 {
        Seq::empty()
    } else {
        obstacle_lines(agent, obstacles.drop_last(), margin, horizon) + piece_lines(
            agent,
            obstacles.last().pieces(),
            margin,
            horizon,
        )
    }
}

pub proof fn lemma_tdiv_sign(a: int, b: int)
    requires
        b > 0,
    ensures
        a >= 0 ==> tdiv(a, b) >= 0,
        a <= 0 ==> tdiv(a, b) <= 0,
{
    if a >= 0 {
        assert(a / b >= 0) by (nonlinear_arith)
            requires a >= 0, b > 0;
    } else {
        assert((-a) / b >= 0) by (nonlinear_arith)
            requires -a >= 0, b > 0;
    }
}

/// The nearest point lies between the segment's ends, coordinate by
/// coordinate.
pub proof fn lemma_closest_point_between(a: (int, int), b: (int, int), q: (int, int), bound: int)
    requires
        in_box(a, bound),
        in_box(b, bound),
    ensures
        in_box(closest_point(a, b, q), bound),
{
    let e = vsub(b, a);
    let den = len_sq(e);
    let num = dot(vsub(q, a), e);
    if den != 0 && 0 < num < den {
        assert(e.0 * e.0 >= 0 && e.1 * e.1 >= 0) by (nonlinear_arith);
        lemma_coord_between(e.0, num, den);
        lemma_coord_between(e.1, num, den);
    }
}

proof fn lemma_coord_between(e: int, num: int, den: int)
    requires
        0 < num < den,
    ensures
        e >= 0 ==> 0 <= tdiv(e * num, den) <= e,
        e < 0 ==> e <= tdiv(e * num, den) <= 0,
{
    if e >= 0 {
        assert(0 <= e * num <= e * den) by (nonlinear_arith)
            requires e >= 0, 0 < num < den;
        lemma_tdiv_bound(e * num, den, e);
        lemma_tdiv_sign(e * num, den);
    } else {
        assert(-((-e) * den) <= e * num <= 0) by (nonlinear_arith)
            requires e < 0, 0 < num < den;
        lemma_tdiv_bound(e * num, den, -e);
        lemma_tdiv_sign(e * num, den);
    }
}

} // verus!

verus! {

/// `closest_point(a, b, q)` for points within `MAX_COORD`.
pub fn closest_point_on_segment(a: Vec2, b: Vec2, q: Vec2) -> (r: Vec2)
    requires
        in_box(a@, MAX_COORD as int),
        in_box(b@, MAX_COORD as int),
        in_box(q@, MAX_COORD as int),
    ensures
        r@ == closest_point(a@, b@, q@),
        in_box(r@, MAX_COORD as int),
{
    proof {
        lemma_closest_point_between(a@, b@, q@, MAX_COORD as int);
    }
    let ex = b.x as i128 - a.x as i128;
    let ey = b.y as i128 - a.y as i128;
    let den = dot128(ex, ey, ex, ey);
    let num = dot128(q.x as i128 - a.x as i128, q.y as i128 - a.y as i128, ex, ey);
    if den == 0 || num <= 0 {
        a
    } else if num >= den {
        b
    } else {
        proof {
            lemma_mul_bound(ex as int, ex as int, 0x200_0000, 0x200_0000);
            lemma_mul_bound(ey as int, ey as int, 0x200_0000, 0x200_0000);
            lemma_mul_bound(ex as int, num as int, 0x200_0000, 0x8_0000_0000_0000);
            lemma_mul_bound(ey as int, num as int, 0x200_0000, 0x8_0000_0000_0000);
        }
        Vec2 {
            x: (a.x as i128 + div_trunc(ex * num, den)) as i64,
            y: (a.y as i128 + div_trunc(ey * num, den)) as i64,
        }
    }
}

/// `piece_line(agent, (a, b, is_point), margin, time_horizon)`.
fn get_line_for_piece(agent: &Agent, a: Vec2, b: Vec2, is_point: bool, margin: i64, time_horizon: i64) -> (r:
    Option<Line>)
    requires
        agent.wf(),
        in_box(a@, MAX_COORD as int),
        in_box(b@, MAX_COORD as int),
        0 <= margin <= MAX_COORD,
        valid_time(time_horizon as int),
    ensures
        r == piece_line(*agent, (a@, b@, is_point), margin as int, time_horizon as int),
        r matches Some(l) ==> line_wf(l),
{
    if !is_point && a == b {
        return None;
    }
    let c = closest_point_on_segment(a, b, agent.position);
    let vx = agent.velocity.x as i128;
    let vy = agent.velocity.y as i128;
    proof {
        lemma_mul_bound(vx as int, vx as int, MAX_COORD as int, MAX_COORD as int);
        lemma_mul_bound(vy as int, vy as int, MAX_COORD as int, MAX_COORD as int);
        assert(vx * vx >= 0 && vy * vy >= 0) by (nonlinear_arith);
    }
    let speed = isqrt((vx * vx + vy * vy) as u128) as i128;
    proof {
        lemma_int_sqrt((vx * vx + vy * vy) as nat);
        assert(speed <= 0x200_0000) by {
            if speed > 0x200_0000 {
                assert(speed * speed > 0x200_0000 * 0x200_0000) by (nonlinear_arith)
                    requires speed > 0x200_0000;
            }
        }
        lemma_mul_bound(speed as int, time_horizon as int, 0x200_0000, MAX_COORD as int);
        lemma_tdiv_bound(speed * time_horizon, SCALE as int, 0x1_0000_0000_0000);
    }
    let reach = agent.radius as i128 + margin as i128 + fx_mul(speed, time_horizon as i128);
    let dx = c.x as i128 - agent.position.x as i128;
    let dy = c.y as i128 - agent.position.y as i128;
    proof {
        lemma_mul_bound(reach as int, reach as int, 0x2_0000_0000_0000, 0x2_0000_0000_0000);
    }
    if dot128(dx, dy, dx, dy) > reach * reach {
        return None;
    }
    let rel_pos = Vec2 { x: dx as i64, y: dy as i64 };
    let proj = velocity_obstacle_projection(
        rel_pos,
        agent.velocity,
        agent.radius + margin,
        time_horizon,
        time_horizon,
    );
    let line = Line {
        point: proj.projected,
        direction: Vec2 { x: proj.normal.y, y: -proj.normal.x },
    };
    assert(line == make_line(proj.projected@, vneg(perp(proj.normal@))));
    Some(line)
}

/// The half-planes that `obstacle` imposes on `agent`, one for each piece of
/// its outline within reach (see `Obstacle::pieces` and `piece_line`).
pub fn get_lines_for_agent_to_obstacle(
    agent: &Agent,
    obstacle: &Obstacle,
    obstacle_margin: i64,
    obstacle_time_horizon: i64,
) -> (r: Vec<Line>)
    requires
        agent.wf(),
        obstacle.wf(),
        0 <= obstacle_margin <= MAX_COORD,
        valid_time(obstacle_time_horizon as int),
    ensures
        r@ == piece_lines(
            *agent,
            obstacle.pieces(),
            obstacle_margin as int,
            obstacle_time_horizon as int,
        ),
        forall|i: int| 0 <= i < r@.len() ==> line_wf(#[trigger] r@[i]),
{
    let ghost pieces = obstacle.pieces();
    let ghost margin = obstacle_margin as int;
    let ghost horizon = obstacle_time_horizon as int;
    let mut out: Vec<Line> = Vec::new();
    let (vertices, closed) = match obstacle {
        Obstacle::Closed { vertices } => (vertices, true),
        Obstacle::Open { vertices } => (vertices, false),
    };
    let n = vertices.len();
    assert(vertices@ == obstacle.vertices());
    let edges: usize = if closed { n } else if n > 0 { n - 1 } else { 0 };
    let mut k: usize = 0;
    while k < edges
        invariant
            agent.wf(),
            obstacle.wf(),
            0 <= obstacle_margin <= MAX_COORD,
            valid_time(obstacle_time_horizon as int),
            pieces == obstacle.pieces(),
            margin == obstacle_margin as int,
            horizon == obstacle_time_horizon as int,
            vertices@ == obstacle.vertices(),
            n == vertices.len(),
            closed == (obstacle is Closed),
            edges == if closed { n as int } else if n > 0 { n - 1 } else { 0 },
            k <= edges,
            edges <= pieces.len(),
            out@ == piece_lines(*agent, pieces.take(k as int), margin, horizon),
            forall|i: int| 0 <= i < out@.len() ==> line_wf(#[trigger] out@[i]),
        decreases edges - k,
    {
        let next: usize = if k + 1 == n { 0 } else { k + 1 };
        assert(in_box(vertices@[k as int]@, MAX_COORD as int));
        assert(in_box(vertices@[next as int]@, MAX_COORD as int));
        let piece_line_k = get_line_for_piece(
            agent,
            vertices[k],
            vertices[next],
            false,
            obstacle_margin,
            obstacle_time_horizon,
        );
        proof {
            if closed {
                if k + 1 == n {
                    vstd::arithmetic::div_mod::lemma_mod_self_0(n as int);
                } else {
                    vstd::arithmetic::div_mod::lemma_small_mod((k + 1) as nat, n as nat);
                }
                assert(next as int == (k + 1) % (n as int));
            }
            assert(pieces[k as int] == (vertices@[k as int]@, vertices@[next as int]@, false));
            assert(pieces.take(k + 1).drop_last() == pieces.take(k as int));
            assert(pieces.take(k + 1).last() == pieces[k as int]);
            assert(pieces.take(k + 1).len() > 0);
        }
        match piece_line_k {
            Some(l) => {
                out.push(l);
            },
            None => {},
        }
        k = k + 1;
    }
    if !closed {
        let mut m: usize = 0;
        while m < n
            invariant
                agent.wf(),
                obstacle.wf(),
                0 <= obstacle_margin <= MAX_COORD,
                valid_time(obstacle_time_horizon as int),
                pieces == obstacle.pieces(),
                margin == obstacle_margin as int,
                horizon == obstacle_time_horizon as int,
                vertices@ == obstacle.vertices(),
                n == vertices.len(),
                !closed,
                obstacle is Open,
                edges == if n > 0 { n - 1 } else { 0 },
                m <= n,
                pieces.len() == edges + n,
                out@ == piece_lines(*agent, pieces.take(edges + m), margin, horizon),
                forall|i: int| 0 <= i < out@.len() ==> line_wf(#[trigger] out@[i]),
            decreases n - m,
        {
            assert(in_box(vertices@[m as int]@, MAX_COORD as int));
            let piece_line_m = get_line_for_piece(
                agent,
                vertices[m],
                vertices[m],
                true,
                obstacle_margin,
                obstacle_time_horizon,
            );
            proof {
                assert(pieces[edges + m] == (vertices@[m as int]@, vertices@[m as int]@, true));
                assert(pieces.take(edges + m + 1).drop_last() == pieces.take(edges + m));
                assert(pieces.take(edges + m + 1).last() == pieces[edges + m]);
                assert(pieces.take(edges + m + 1).len() > 0);
            }
            match piece_line_m {
                Some(l) => {
                    out.push(l);
                },
                None => {},
            }
            m = m + 1;
        }
        assert(pieces.take(edges + n) == pieces);
    } else {
        assert(pieces.take(edges as int) == pieces);
    }
    out
}

} // verus!
