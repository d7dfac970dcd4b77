//! One agent's avoidance step: gather the half-planes of its obstacles and
//! neighbours and solve for its new velocity.
use vstd::prelude::*;

use crate::agents::{neighbour_line, valid_time, Agent};
use crate::geometry::{
    fx_mul, in_box, line_wf, make_line, normalize, normalize_or_zero, tdiv, vsub, Line, Vec2,
    MAX_COORD, MAX_LINE, SCALE,
};
use crate::linear_programming::{
    admits_all, clamp_to_speed, in_disc, lines_wf, solve_linear_program, solver_velocity,
};
use crate::obstacles::{get_lines_for_agent_to_obstacle, obstacle_lines, Obstacle};

verus! {

/// Options of one agent's avoidance.
#[derive(Clone, Copy, Debug, PartialEq, Eq, Structural)]
pub struct AvoidanceOptions {
    /// Clearance kept from obstacles on top of the agent's radius.
    pub obstacle_margin: i64,
    /// How far ahead collisions with other agents are considered.
    pub time_horizon: i64,
    /// How far ahead collisions with obstacles are considered.
    pub obstacle_time_horizon: i64,
}

impl AvoidanceOptions {
    pub fn new(obstacle_margin: i64, time_horizon: i64, obstacle_time_horizon: i64) -> (r:
        AvoidanceOptions)
        ensures
            r.obstacle_margin == obstacle_margin,
            r.time_horizon == time_horizon,
            r.obstacle_time_horizon == obstacle_time_horizon,
    {
        AvoidanceOptions { obstacle_margin, time_horizon, obstacle_time_horizon }
    }

    /// A margin within `[0, MAX_COORD]` and both horizons valid.
    pub open spec fn wf(&self) -> bool {
        &&& 0 <= self.obstacle_margin <= MAX_COORD
        &&& valid_time(self.time_horizon as int)
        &&& valid_time(self.obstacle_time_horizon as int)
    }
}

/// One line for each neighbour, in order.
pub open spec fn neighbour_lines(agent: Agent, neighbours: Seq<Agent>, horizon: int, step: int) -> Seq<
    Line,
> {
    Seq::new(
        neighbours.len(),
        |i: int|
            make_line(
                neighbour_line(agent, neighbours[i], horizon, step).0,
                neighbour_line(agent, neighbours[i], horizon, step).1,
            ),
    )
}

/// The lines of the obstacles under the agent's options.
pub open spec fn agent_obstacle_lines(agent: Agent, obstacles: Seq<Obstacle>, options: AvoidanceOptions) -> Seq<
    Line,
> {
    obstacle_lines(
        agent,
        obstacles,
        options.obstacle_margin as int,
        options.obstacle_time_horizon as int,
    )
}

/// Every line the agent must respect: those of the obstacles first, then one
/// for each neighbour.
pub open spec fn avoidance_lines(
    agent: Agent,
    neighbours: Seq<Agent>,
    obstacles: Seq<Obstacle>,
    time_step: int,
    options: AvoidanceOptions,
) -> Seq<Line> {
    agent_obstacle_lines(agent, obstacles, options) + neighbour_lines(
        agent,
        neighbours,
        options.time_horizon as int,
        time_step,
    )
}

impl Agent {
    /// The velocity this agent takes to avoid `neighbours` and `obstacles`:
    /// the one nearest `preferred_velocity`, no faster than `max_speed`, that
    /// all their half-planes admit, or failing that the one that breaks them
    /// least, obstacles first. It is the preferred velocity (brought within
    /// `max_speed`) whenever every half-plane admits that, and it keeps to
    /// the obstacles' half-planes whenever that velocity does.
    pub fn compute_avoiding_velocity(
        &self,
        neighbours: &Vec<Agent>,
        obstacles: &Vec<Obstacle>,
        preferred_velocity: Vec2,
        max_speed: i64,
        time_step: i64,
        options: &AvoidanceOptions,
    ) -> (r: Vec2)
        requires
            self.wf(),
            forall|i: int| 0 <= i < neighbours@.len() ==> (#[trigger] neighbours@[i]).wf(),
            forall|i: int| 0 <= i < obstacles@.len() ==> (#[trigger] obstacles@[i]).wf(),
            options.wf(),
            valid_time(time_step as int),
            0 <= max_speed <= MAX_COORD,
            in_box(preferred_velocity@, MAX_LINE as int),
        ensures
            r@ == solver_velocity(
                avoidance_lines(*self, neighbours@, obstacles@, time_step as int, *options),
                agent_obstacle_lines(*self, obstacles@, *options).len() as int,
                max_speed as int,
                preferred_velocity@,
            ),
            in_disc(r@, max_speed as int),
            admits_all(
                avoidance_lines(*self, neighbours@, obstacles@, time_step as int, *options),
                clamp_to_speed(preferred_velocity@, max_speed as int),
            ) ==> r@ == clamp_to_speed(preferred_velocity@, max_speed as int),
            admits_all(
                agent_obstacle_lines(*self, obstacles@, *options),
                clamp_to_speed(preferred_velocity@, max_speed as int),
            ) ==> admits_all(agent_obstacle_lines(*self, obstacles@, *options), r@),
    {
        let ghost obstacle_part = agent_obstacle_lines(*self, obstacles@, *options);
        let mut lines: Vec<Line> = Vec::new();
        let mut k: usize = 0;
        while k < obstacles.len()
            invariant
                self.wf(),
                forall|i: int| 0 <= i < obstacles@.len() ==> (#[trigger] obstacles@[i]).wf(),
                options.wf(),
                k <= obstacles.len(),
                lines@ == agent_obstacle_lines(*self, obstacles@.take(k as int), *options),
                lines_wf(lines@),
            decreases obstacles.len() - k,
        {
            assert(obstacles@[k as int].wf());
            let more = get_lines_for_agent_to_obstacle(
                self,
                &obstacles[k],
                options.obstacle_margin,
                options.obstacle_time_horizon,
            );
            let ghost before = lines@;
            let mut m: usize = 0;
            while m < more.len()
                invariant
                    m <= more.len(),
                    lines@ == before + more@.take(m as int),
                    lines_wf(before),
                    forall|i: int| 0 <= i < more@.len() ==> line_wf(#[trigger] more@[i]),
                decreases more.len() - m,
            {
                lines.push(more[m]);
                assert(lines@ =~= before + more@.take(m + 1));
                m = m + 1;
            }
            proof {
                assert(more@.take(more.len() as int) == more@);
                assert(obstacles@.take(k + 1).drop_last() == obstacles@.take(k as int));
                assert(obstacles@.take(k + 1).last() == obstacles@[k as int]);
                assert(obstacles@.take(k + 1).len() > 0);
                assert forall|i: int| 0 <= i < lines@.len() implies line_wf(#[trigger] lines@[i]) by {
                    if i >= before.len() {
                        assert(lines@[i] == more@[i - before.len()]);
                    }
                }
            }
            k = k + 1;
        }
        assert(obstacles@.take(obstacles.len() as int) == obstacles@);
        let obstacle_line_count = lines.len();
        let mut j: usize = 0;
        while j < neighbours.len()
            invariant
                self.wf(),
                forall|i: int| 0 <= i < neighbours@.len() ==> (#[trigger] neighbours@[i]).wf(),
                options.wf(),
                valid_time(time_step as int),
                j <= neighbours.len(),
                obstacle_part == agent_obstacle_lines(*self, obstacles@, *options),
                obstacle_line_count == obstacle_part.len(),
                lines@ == obstacle_part + neighbour_lines(
                    *self,
                    neighbours@.take(j as int),
                    options.time_horizon as int,
                    time_step as int,
                ),
                lines_wf(lines@),
            decreases neighbours.len() - j,
        {
            assert(neighbours@[j as int].wf());
            let line = self.get_line_for_neighbour(&neighbours[j], options.time_horizon, time_step);
            lines.push(line);
            assert(lines@ =~= obstacle_part + neighbour_lines(
                *self,
                neighbours@.take(j + 1),
                options.time_horizon as int,
                time_step as int,
            ));
            j = j + 1;
        }
        assert(neighbours@.take(neighbours.len() as int) == neighbours@);
        assert(lines@.take(obstacle_line_count as int) =~= obstacle_part);
        solve_linear_program(&lines, obstacle_line_count, max_speed, preferred_velocity)
    }
}

} // verus!

verus! {

/// Full speed toward `goal`: the unit direction from `position` to `goal`
/// scaled by `max_speed`; zero when the agent stands on its goal.
pub open spec fn velocity_toward(position: (int, int), goal: (int, int), max_speed: int) -> (int, int) {
    let n = normalize(vsub(goal, position));
    (tdiv(n.0 * max_speed, SCALE as int), tdiv(n.1 * max_speed, SCALE as int))
}

/// The velocity an agent at `position` prefers on its way to `goal`.
pub fn preferred_velocity(position: Vec2, goal: Vec2, max_speed: i64) -> (r: Vec2)
    requires
        in_box(position@, MAX_COORD as int),
        in_box(goal@, MAX_COORD as int),
        0 <= max_speed <= MAX_COORD,
    ensures
        r@ == velocity_toward(position@, goal@, max_speed as int),
        in_box(r@, MAX_COORD as int),
{
    let (nx, ny) = normalize_or_zero(
        goal.x as i128 - position.x as i128,
        goal.y as i128 - position.y as i128,
    );
    proof {
        crate::geometry::lemma_mul_bound(nx as int, max_speed as int, SCALE as int, MAX_COORD as int);
        crate::geometry::lemma_mul_bound(ny as int, max_speed as int, SCALE as int, MAX_COORD as int);
        crate::geometry::lemma_tdiv_bound(nx * max_speed, SCALE as int, MAX_COORD as int);
        crate::geometry::lemma_tdiv_bound(ny * max_speed, SCALE as int, MAX_COORD as int);
    }
    Vec2 { x: fx_mul(nx, max_speed as i128) as i64, y: fx_mul(ny, max_speed as i128) as i64 }
}

/// How far around itself an agent must look for neighbours and obstacles:
/// its radius plus the distance it covers at full speed within its horizon.
pub fn neighbourhood_radius(radius: i64, time_horizon: i64, max_speed: i64) -> (r: i64)
    requires
        0 <= radius <= MAX_COORD,
        valid_time(time_horizon as int),
        0 <= max_speed <= MAX_COORD,
    ensures
        r == radius + tdiv(time_horizon * max_speed, SCALE as int),
{
    proof {
        crate::geometry::lemma_mul_bound(
            time_horizon as int,
            max_speed as int,
            MAX_COORD as int,
            MAX_COORD as int,
        );
        crate::geometry::lemma_tdiv_bound(
            time_horizon * max_speed,
            SCALE as int,
            0x100_0000_0000,
        );
    }
    (radius as i128 + fx_mul(time_horizon as i128, max_speed as i128)) as i64
}

} // verus!
