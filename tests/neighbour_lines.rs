use dodgy::agents::{
    responsibility_weight, velocity_obstacle_projection, Agent,
};
use dodgy::geometry::{Line, Vec2, SCALE};

fn fx(v: f64) -> i64 {
    (v * SCALE as f64).round() as i64
}

fn v2(x: f64, y: f64) -> Vec2 {
    Vec2::new(fx(x), fx(y))
}

fn units(v: Vec2) -> (f64, f64) {
    (v.x as f64 / SCALE as f64, v.y as f64 / SCALE as f64)
}

fn normalized(x: f64, y: f64) -> (f64, f64) {
    let l = (x * x + y * y).sqrt();
    (x / l, y / l)
}

fn agent(position: (f64, f64), velocity: (f64, f64), radius: f64, responsibility: f64) -> Agent {
    Agent {
        position: v2(position.0, position.1),
        velocity: v2(velocity.0, velocity.1),
        radius: fx(radius),
        avoidance_responsibility: fx(responsibility),
    }
}

fn assert_line_eq(actual: Line, point: (f64, f64), direction: (f64, f64)) {
    let p = units(actual.point);
    let d = units(actual.direction);
    let dp = (p.0 - point.0).powi(2) + (p.1 - point.1).powi(2);
    let dd = (d.0 - direction.0).powi(2) + (d.1 - direction.1).powi(2);
    assert!(dp < 1e-5, "\n  left: {:?}\n right: {:?}", p, point);
    assert!(dd < 1e-5, "\n  left: {:?}\n right: {:?}", d, direction);
}

#[test]
fn velocity_projects_on_cutoff_circle() {
    let position = (1.0, 2.0);
    let radius = 2.0;
    let a = agent((0.0, 0.0), (0.0, 0.0), radius - 1.0, 1.0);
    let neighbour = agent(position, (0.0, 0.0), 1.0, 1.0);
    let actual_line = a.get_line_for_neighbour(&neighbour, fx(1.0), fx(1.0));
    let len = (position.0 * position.0 + position.1 * position.1 as f64).sqrt();
    let n = normalized(position.0, position.1);
    let perp = normalized(-position.1, position.0);
    assert_line_eq(actual_line, (n.0 * (len - radius), n.1 * (len - radius)), perp);
}

#[test]
fn velocity_projects_to_shadow() {
    let mut a = agent((0.0, 0.0), (1.0, 3.0), 1.0, 1.0);
    let neighbour = agent((2.0, 2.0), (0.0, 0.0), 1.0, 1.0);
    let inside_shadow_line = a.get_line_for_neighbour(&neighbour, fx(1.0), fx(1.0));
    assert_line_eq(inside_shadow_line, (0.5, 3.0), (0.0, 1.0));

    a.velocity = v2(10.0, -1.0);
    let outside_shadow_line = a.get_line_for_neighbour(&neighbour, fx(1.0), fx(1.0));
    assert_line_eq(outside_shadow_line, (10.0, 0.0), (-1.0, 0.0));
}

#[test]
fn collision_uses_time_step() {
    let a = agent((0.0, 0.0), (0.0, 0.0), 2.0, 1.0);
    let neighbour = agent((2.0, 2.0), (0.0, 0.0), 2.0, 1.0);
    let collision_line = a.get_line_for_neighbour(&neighbour, fx(1.0), fx(0.5));
    let n = normalized(1.0, 1.0);
    assert_line_eq(
        collision_line,
        ((n.0 * -8.0 + 4.0) * 0.5, (n.1 * -8.0 + 4.0) * 0.5),
        normalized(-1.0, 1.0),
    );
}

#[test]
fn no_collision_uses_time_horizon() {
    let a = agent((0.0, 0.0), (0.0, 0.0), 1.0, 1.0);
    let neighbour = agent((2.0, 2.0), (0.0, 0.0), 1.0, 1.0);
    let collision_line = a.get_line_for_neighbour(&neighbour, fx(2.0), fx(0.5));
    let n = normalized(1.0, 1.0);
    assert_line_eq(collision_line, (-n.0 + 1.0, -n.1 + 1.0), normalized(-1.0, 1.0));
}

#[test]
fn uses_avoidance_responsibility() {
    let a = agent((0.0, 0.0), (1.5, 0.0), 1.0, 1.0);
    let neighbour = agent((4.0, 0.0), (0.0, 0.0), 1.0, 3.0);
    let actual_line = a.get_line_for_neighbour(&neighbour, fx(2.0), fx(0.5));
    assert_line_eq(actual_line, (1.375, 0.0), (0.0, 1.0));
}

#[test]
fn uses_avoidance_responsibility_only_when_inside_vo() {
    let a = agent((0.0, 0.0), (0.5, 0.0), 1.0, 1.0);
    let neighbour = agent((4.0, 0.0), (0.0, 0.0), 1.0, 3.0);
    let actual_line = a.get_line_for_neighbour(&neighbour, fx(2.0), fx(0.5));
    assert_line_eq(actual_line, (1.0, 0.0), (0.0, 1.0));
}

#[test]
fn lines_between_two_agents_run_opposite() {
    let a = agent((0.5, -1.0), (1.0, 0.25), 1.0, 2.0);
    let b = agent((4.0, 2.0), (-0.75, 0.5), 1.5, 2.0);
    for (horizon, step) in [(fx(2.0), fx(0.5)), (fx(1.0), fx(1.0)), (fx(0.25), fx(0.1))] {
        let ab = a.get_line_for_neighbour(&b, horizon, step);
        let ba = b.get_line_for_neighbour(&a, horizon, step);
        assert_eq!(ab.direction.x, -ba.direction.x);
        assert_eq!(ab.direction.y, -ba.direction.y);
    }
    // Overlapping agents too.
    let c = agent((0.0, 0.0), (1.0, 0.0), 2.0, 1.0);
    let d = agent((1.0, 1.0), (0.0, -1.0), 2.0, 1.0);
    let cd = c.get_line_for_neighbour(&d, fx(2.0), fx(0.5));
    let dc = d.get_line_for_neighbour(&c, fx(2.0), fx(0.5));
    assert_eq!(cd.direction, Vec2::new(-dc.direction.x, -dc.direction.y));
}

#[test]
fn velocity_on_cutoff_circle_is_not_inside() {
    // Neighbour 4 units away, radii summing to 2, horizon 2: the cut-off
    // circle has centre (2, 0) and radius 1.
    let rel_pos = v2(4.0, 0.0);
    let on_circle = velocity_obstacle_projection(rel_pos, v2(1.0, 0.0), fx(2.0), fx(2.0), fx(0.5));
    assert!(!on_circle.inside);
    assert_eq!(on_circle.projected, v2(1.0, 0.0));
    assert_eq!(on_circle.normal, v2(-1.0, 0.0));
    let within = velocity_obstacle_projection(rel_pos, v2(1.5, 0.0), fx(2.0), fx(2.0), fx(0.5));
    assert!(within.inside);
    assert_eq!(within.projected, v2(1.0, 0.0));
}

#[test]
fn overlapping_agents_are_always_inside() {
    let p = velocity_obstacle_projection(v2(1.0, 0.0), v2(-5.0, 0.0), fx(2.0), fx(2.0), fx(0.5));
    assert!(p.inside);
    // Centre (2, 0), radius 4 at the time step.
    assert_eq!(p.projected, v2(-2.0, 0.0));
}

#[test]
fn responsibility_weight_follows_the_ratio() {
    assert_eq!(responsibility_weight(true, fx(1.0), fx(3.0)), SCALE / 4);
    assert_eq!(responsibility_weight(true, fx(1.0), fx(1.0)), SCALE / 2);
    assert_eq!(responsibility_weight(false, fx(1.0), fx(3.0)), SCALE);
    let small = responsibility_weight(true, 1, fx(1000.0));
    assert!(small <= 1);
    let large = responsibility_weight(true, fx(1000.0), 1);
    assert!(large >= SCALE - 1);
}
