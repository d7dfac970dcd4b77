use dodgy::agents::Agent;
use dodgy::avoidance::{neighbourhood_radius, preferred_velocity, AvoidanceOptions};
use dodgy::geometry::{line_admits, rect_inner, Vec2, SCALE};
use dodgy::obstacles::{closest_point_on_segment, get_lines_for_agent_to_obstacle, Obstacle};

fn fx(v: f64) -> i64 {
    (v * SCALE as f64).round() as i64
}

fn v2(x: f64, y: f64) -> Vec2 {
    Vec2::new(fx(x), fx(y))
}

fn agent(position: (f64, f64), velocity: (f64, f64), radius: f64) -> Agent {
    Agent {
        position: v2(position.0, position.1),
        velocity: v2(velocity.0, velocity.1),
        radius: fx(radius),
        avoidance_responsibility: fx(1.0),
    }
}

fn options() -> AvoidanceOptions {
    AvoidanceOptions::new(fx(0.1), fx(2.0), fx(1.0))
}

fn square(cx: f64, cy: f64, half: f64) -> Obstacle {
    Obstacle::Closed {
        vertices: vec![
            v2(cx + half, cy + half),
            v2(cx - half, cy + half),
            v2(cx - half, cy - half),
            v2(cx + half, cy - half),
        ],
    }
}

#[test]
fn options_keep_their_fields() {
    let o = AvoidanceOptions::new(3, 4, 5);
    assert_eq!((o.obstacle_margin, o.time_horizon, o.obstacle_time_horizon), (3, 4, 5));
}

#[test]
fn alone_an_agent_takes_its_preferred_velocity() {
    let a = agent((0.0, 0.0), (0.0, 0.0), 0.5);
    let r = a.compute_avoiding_velocity(&vec![], &vec![], v2(1.0, 0.5), fx(2.0), fx(0.1), &options());
    assert_eq!(r, v2(1.0, 0.5));
    // A preference above the speed limit is scaled down onto it.
    let r = a.compute_avoiding_velocity(&vec![], &vec![], v2(6.0, 8.0), fx(5.0), fx(0.1), &options());
    assert_eq!(r, v2(3.0, 4.0));
}

#[test]
fn head_on_agents_turn_aside() {
    let a = agent((0.0, 0.0), (1.0, 0.0), 0.5);
    let b = agent((2.0, 0.0), (-1.0, 0.0), 0.5);
    let r = a.compute_avoiding_velocity(&vec![b], &vec![], v2(1.0, 0.0), fx(1.0), fx(0.1), &options());
    assert_ne!(r, v2(1.0, 0.0));
    let line = a.get_line_for_neighbour(&b, fx(2.0), fx(0.1));
    assert!(line_admits(&line, r));
    assert!((r.x as i128).pow(2) + (r.y as i128).pow(2) <= (fx(1.0) as i128).pow(2));
}

#[test]
fn wall_ahead_limits_the_velocity() {
    let a = agent((0.0, 0.0), (1.0, 0.0), 0.5);
    let wall = square(1.5, 0.0, 0.5);
    let lines = get_lines_for_agent_to_obstacle(&a, &wall, fx(0.1), fx(1.0));
    assert!(!lines.is_empty());
    let r = a.compute_avoiding_velocity(&vec![], &vec![wall], v2(2.0, 0.0), fx(2.0), fx(0.1), &options());
    for l in &lines {
        assert!(line_admits(l, r));
    }
    assert!(r.x < fx(1.0));
}

#[test]
fn distant_obstacle_gives_no_lines() {
    let a = agent((0.0, 0.0), (1.0, 0.0), 0.5);
    let far = square(50.0, 50.0, 1.0);
    assert!(get_lines_for_agent_to_obstacle(&a, &far, fx(0.1), fx(1.0)).is_empty());
}

#[test]
fn open_obstacle_counts_its_vertices() {
    let a = agent((0.0, 0.0), (1.0, 0.0), 0.5);
    let post = Obstacle::Open { vertices: vec![v2(1.0, 0.0)] };
    assert_eq!(get_lines_for_agent_to_obstacle(&a, &post, fx(0.1), fx(1.0)).len(), 1);
    // One edge and two vertices, all within reach.
    let fence = Obstacle::Open { vertices: vec![v2(1.0, -0.5), v2(1.0, 0.5)] };
    assert_eq!(get_lines_for_agent_to_obstacle(&a, &fence, fx(0.1), fx(1.0)).len(), 3);
}

#[test]
fn zero_length_edge_is_skipped() {
    let a = agent((0.0, 0.0), (1.0, 0.0), 0.5);
    let dot = Obstacle::Closed { vertices: vec![v2(1.0, 0.0)] };
    assert!(get_lines_for_agent_to_obstacle(&a, &dot, fx(0.1), fx(1.0)).is_empty());
    let doubled = Obstacle::Closed { vertices: vec![v2(1.0, 0.0), v2(1.0, 0.0), v2(1.0, 1.0)] };
    assert_eq!(get_lines_for_agent_to_obstacle(&a, &doubled, fx(0.1), fx(1.0)).len(), 2);
}

#[test]
fn closest_point_stays_on_the_segment() {
    let a = v2(0.0, 0.0);
    let b = v2(4.0, 0.0);
    assert_eq!(closest_point_on_segment(a, b, v2(1.0, 3.0)), v2(1.0, 0.0));
    assert_eq!(closest_point_on_segment(a, b, v2(-2.0, 1.0)), a);
    assert_eq!(closest_point_on_segment(a, b, v2(9.0, -1.0)), b);
}

#[test]
fn preferred_velocity_points_at_the_goal() {
    let r = preferred_velocity(v2(1.0, 1.0), v2(4.0, 5.0), fx(5.0));
    assert!((r.x - fx(3.0)).abs() <= 8);
    assert!((r.y - fx(4.0)).abs() <= 8);
    assert_eq!(preferred_velocity(v2(1.0, 1.0), v2(1.0, 1.0), fx(5.0)), v2(0.0, 0.0));
    assert_eq!(preferred_velocity(v2(0.0, 0.0), v2(0.0, 10.0), fx(2.0)), v2(0.0, 2.0));
}

#[test]
fn neighbourhood_radius_adds_the_reach() {
    assert_eq!(neighbourhood_radius(fx(1.0), fx(2.0), fx(3.0)), fx(7.0));
}

#[test]
fn rect_corners_run_counter_clockwise() {
    let [tr, tl, bl, br] = rect_inner(fx(4.0), fx(2.0));
    assert_eq!(tr, v2(2.0, 1.0));
    assert_eq!(tl, v2(-2.0, 1.0));
    assert_eq!(bl, v2(-2.0, -1.0));
    assert_eq!(br, v2(2.0, -1.0));
}
