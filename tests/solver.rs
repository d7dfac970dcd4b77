use dodgy::geometry::{determinant, line_admits, Line, Vec2, SCALE};
use dodgy::linear_programming::{clamp_speed, solve_linear_program, solve_within_lines};

fn fx(v: f64) -> i64 {
    (v * SCALE as f64).round() as i64
}

fn v2(x: f64, y: f64) -> Vec2 {
    Vec2::new(fx(x), fx(y))
}

fn line(point: (f64, f64), direction: (f64, f64)) -> Line {
    Line { point: v2(point.0, point.1), direction: v2(direction.0, direction.1) }
}

fn speed_sq(v: Vec2) -> i128 {
    v.x as i128 * v.x as i128 + v.y as i128 * v.y as i128
}

#[test]
fn clamp_scales_onto_the_disc() {
    assert_eq!(clamp_speed(fx(6.0) as i128, fx(8.0) as i128, fx(5.0)), v2(3.0, 4.0));
    assert_eq!(clamp_speed(fx(0.3) as i128, fx(0.4) as i128, fx(5.0)), v2(0.3, 0.4));
}

#[test]
fn feasible_preference_is_kept() {
    // x <= 1 and y >= -1 both admit (0.5, 0.5).
    let lines = vec![line((1.0, 0.0), (0.0, 1.0)), line((0.0, -1.0), (1.0, 0.0))];
    let r = solve_linear_program(&lines, 0, fx(2.0), v2(0.5, 0.5));
    assert_eq!(r, v2(0.5, 0.5));
}

#[test]
fn solver_moves_onto_the_broken_line() {
    // x <= 1, preferred (2, 0.5): the nearest admitted point is (1, 0.5).
    let lines = vec![line((1.0, 0.0), (0.0, 1.0))];
    let r = solve_linear_program(&lines, 0, fx(3.0), v2(2.0, 0.5));
    assert!((r.x - fx(1.0)).abs() <= 2);
    assert!((r.y - fx(0.5)).abs() <= 2);
    assert!(line_admits(&lines[0], r));
}

#[test]
fn feasible_lines_are_all_met() {
    // x <= 1, y <= 1, x + y >= 0.5 (direction (-1, 1) through (0.5, 0)).
    let d = 1.0 / 2f64.sqrt();
    let lines = vec![
        line((1.0, 0.0), (0.0, 1.0)),
        line((0.0, 1.0), (-1.0, 0.0)),
        line((0.5, 0.0), (d, -d)),
    ];
    let r = solve_within_lines(&lines, fx(2.0), v2(-3.0, -3.0), false);
    let v = r.expect("the lines meet within the disc");
    for l in &lines {
        assert!(line_admits(l, v));
    }
    assert!(speed_sq(v) <= (fx(2.0) as i128).pow(2));
    let full = solve_linear_program(&lines, 0, fx(2.0), v2(-3.0, -3.0));
    assert_eq!(full, v);
}

#[test]
fn solve_is_deterministic() {
    let lines = vec![
        line((1.0, 0.0), (0.0, 1.0)),
        line((-1.0, 0.0), (0.0, -1.0)),
        line((0.0, 0.5), (1.0, 0.0)),
        line((0.3, 2.0), (-0.6, 0.8)),
    ];
    let a = solve_linear_program(&lines, 1, fx(1.5), v2(3.0, -2.0));
    let b = solve_linear_program(&lines, 1, fx(1.5), v2(3.0, -2.0));
    assert_eq!(a, b);
}

#[test]
fn result_never_exceeds_max_speed() {
    let lines = vec![
        line((2.0, 0.0), (0.0, -1.0)),
        line((0.0, 3.0), (1.0, 0.0)),
        line((-1.0, -1.0), (0.6, 0.8)),
    ];
    for (px, py) in [(10.0, 10.0), (-4.0, 0.5), (0.0, 0.0), (0.1, -7.0)] {
        for max in [0.0, 0.5, 1.0, 2.5] {
            let r = solve_linear_program(&lines, 1, fx(max), v2(px, py));
            assert!(speed_sq(r) <= (fx(max) as i128).pow(2));
        }
    }
}

#[test]
fn obstacle_line_wins_over_neighbour_line() {
    // The obstacle admits x <= 0, the neighbour x >= 1: they cannot both hold.
    let lines = vec![line((0.0, 0.0), (0.0, 1.0)), line((1.0, 0.0), (0.0, -1.0))];
    for pref in [v2(2.0, 0.0), v2(-0.5, 0.25), v2(0.5, -1.0)] {
        let r = solve_linear_program(&lines, 1, fx(3.0), pref);
        assert!(line_admits(&lines[0], r), "{:?}", r);
        assert!(speed_sq(r) <= (fx(3.0) as i128).pow(2));
    }
}

#[test]
fn first_phase_reports_the_failing_line() {
    let lines = vec![line((0.0, 0.0), (0.0, 1.0)), line((1.0, 0.0), (0.0, -1.0))];
    match solve_within_lines(&lines, fx(3.0), v2(-1.0, 0.0), false) {
        Ok(v) => panic!("unexpected success {:?}", v),
        Err((i, v)) => {
            assert_eq!(i, 1);
            assert!(line_admits(&lines[0], v));
        }
    }
}

#[test]
fn determinant_is_the_signed_area() {
    assert_eq!(determinant(Vec2::new(1, 2), Vec2::new(3, 4)), -2);
    assert_eq!(determinant(Vec2::new(3, 4), Vec2::new(1, 2)), 2);
    assert_eq!(determinant(v2(2.0, 0.0), v2(0.0, 3.0)), (fx(2.0) as i128) * (fx(3.0) as i128));
}

#[test]
fn admitted_side_is_the_left() {
    let l = line((0.0, 0.0), (1.0, 0.0));
    assert!(line_admits(&l, v2(5.0, 1.0)));
    assert!(line_admits(&l, v2(-3.0, 0.0)));
    assert!(!line_admits(&l, v2(0.0, -0.001)));
}
