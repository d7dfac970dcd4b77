//! Fixed-point plane geometry: vectors, determinants, truncating division and
//! integer square roots.
use vstd::prelude::*;

verus! {

/// Sub-units per unit: a raw value `v` stands for `v / SCALE`.
pub const SCALE: i64 = 4096;

/// Largest magnitude of an input coordinate (positions, velocities, radii,
/// speeds), in sub-units: 4096 units. Together with the time bounds below it
/// keeps every intermediate product of the line builders within `i128`.
pub const MAX_COORD: i64 = 16777216;

/// Smallest time window accepted, in sub-units (1/64 of a time unit): the
/// cut-off circle's centre `p / t` then stays within 2^31 sub-units.
pub const MIN_TIME: i64 = 64;

/// Largest time window accepted, in sub-units (4096 time units).
pub const MAX_TIME: i64 = 16777216;

/// Largest magnitude of a coordinate handled by the line and solver routines,
/// in sub-units (2^40).
pub const MAX_LINE: i64 = 0x100_0000_0000;

/// Both the point and the direction of the line lie within `MAX_LINE`.
pub open spec fn line_in_range(line: Line) -> bool {
    in_box(line.point@, MAX_LINE as int) && in_box(line.direction@, MAX_LINE as int)
}

/// A line as the solver takes it: its point within `MAX_LINE`, its direction
/// at most two units long in each coordinate.
pub open spec fn line_wf(line: Line) -> bool {
    in_box(line.point@, MAX_LINE as int) && in_box(line.direction@, 2 * SCALE)
}

/// A point or vector of the plane, each coordinate in sub-units.
#[derive(Clone, Copy, Debug, PartialEq, Eq, Structural)]
pub struct Vec2 {
    pub x: i64,
    pub y: i64,
}

impl View for Vec2 {
    type V = (int, int);

    open spec fn view(&self) -> (int, int) {
        (self.x as int, self.y as int)
    }
}

impl Vec2 {
    pub fn new(x: i64, y: i64) -> (r: Vec2)
        ensures
            r.x == x,
            r.y == y,
    {
        Vec2 { x, y }
    }
}

/// A directed line bounding a half-plane of admissible velocities: the
/// admissible side is the left of `direction`, the line itself included.
#[derive(Clone, Copy, Debug, PartialEq, Eq, Structural)]
pub struct Line {
    pub point: Vec2,
    pub direction: Vec2,
}

pub open spec fn vadd(a: (int, int), b: (int, int)) -> (int, int) {
    (a.0 + b.0, a.1 + b.1)
}

pub open spec fn vsub(a: (int, int), b: (int, int)) -> (int, int) {
    (a.0 - b.0, a.1 - b.1)
}

pub open spec fn vneg(a: (int, int)) -> (int, int) {
    (-a.0, -a.1)
}

/// The vector turned a quarter turn counter-clockwise.
pub open spec fn perp(a: (int, int)) -> (int, int) {
    (-a.1, a.0)
}

/// The signed area spanned by `a` and `b` (the 2D cross product).
pub open spec fn det(a: (int, int), b: (int, int)) -> int {
    a.0 * b.1 - a.1 * b.0
}

pub open spec fn dot(a: (int, int), b: (int, int)) -> int {
    a.0 * b.0 + a.1 * b.1
}

pub open spec fn len_sq(a: (int, int)) -> int {
    dot(a, a)
}

/// Both coordinates lie within `[-bound, bound]`.
pub open spec fn in_box(a: (int, int), bound: int) -> bool {
    -bound <= a.0 <= bound && -bound <= a.1 <= bound
}

/// `v` lies on the admissible side of `line`, or on the line.
pub open spec fn satisfies(line: Line, v: (int, int)) -> bool {
    det(line.direction@, vsub(v, line.point@)) >= 0
}

/// Fixed-point product of a scalar or coordinate `a` by the scalar `k`.
pub open spec fn fmul(a: int, k: int) -> int {
    tdiv(a * k, SCALE as int)
}

/// Fixed-point quotient `a / t` for a positive `t`.
pub open spec fn fdiv(a: int, t: int) -> int {
    tdiv(a * SCALE, t)
}

pub open spec fn vmul(a: (int, int), k: int) -> (int, int) {
    (fmul(a.0, k), fmul(a.1, k))
}

pub open spec fn vdiv(a: (int, int), t: int) -> (int, int) {
    (fdiv(a.0, t), fdiv(a.1, t))
}

/// The vector scaled to length one unit (`SCALE` sub-units), rounded toward
/// zero; the zero vector stays zero.
pub open spec fn normalize(a: (int, int)) -> (int, int) {
    let l = int_sqrt(len_sq(a) as nat);
    if l == 0 {
        (0, 0)
    } else {
        (tdiv(a.0 * SCALE, l as int), tdiv(a.1 * SCALE, l as int))
    }
}

/// The line with the given point and direction (which fit in `i64`).
pub open spec fn make_line(point: (int, int), direction: (int, int)) -> Line {
    Line {
        point: Vec2 { x: point.0 as i64, y: point.1 as i64 },
        direction: Vec2 { x: direction.0 as i64, y: direction.1 as i64 },
    }
}

/// Division that rounds toward zero, as Rust's integer `/` does.
pub open spec fn tdiv(a: int, b: int) -> int
    recommends
        b > 0,
{
    if a >= 0 {
        a / b
    } else {
        -((-a) / b)
    }
}

/// Largest `r` with `r * r <= n`.
pub open spec fn int_sqrt(n: nat) -> nat
    decreases n,
{
    if n == 0 {
        0
    } else {
        let r = int_sqrt((n - 1) as nat);
        if (r + 1) * (r + 1) <= n {
            (r + 1) as nat
        } else {
            r
        }
    }
}

pub proof fn lemma_int_sqrt(n: nat)
    ensures
        int_sqrt(n) * int_sqrt(n) <= n,
        n < (int_sqrt(n) + 1) * (int_sqrt(n) + 1),
    decreases n,
{
    if n > 0 {
        lemma_int_sqrt((n - 1) as nat);
        let r = int_sqrt((n - 1) as nat);
        assert((r + 1) * (r + 1) < (r + 2) * (r + 2)) by (nonlinear_arith)
            requires r >= 0;
        assert(r * r < (r + 1) * (r + 1)) by (nonlinear_arith)
            requires r >= 0;
        let s = int_sqrt(n);
        if (r + 1) * (r + 1) <= n {
            assert(s == r + 1);
            assert(s * s <= n && n < (s + 1) * (s + 1)) by (nonlinear_arith)
                requires s == r + 1, (r + 1) * (r + 1) <= n, n - 1 < (r + 1) * (r + 1),
                    (r + 1) * (r + 1) < (r + 2) * (r + 2);
        } else {
            assert(s == r);
            assert(s * s <= n && n < (s + 1) * (s + 1)) by (nonlinear_arith)
                requires s == r, r * r <= n - 1, (r + 1) * (r + 1) > n;
        }
    } else {
        assert(int_sqrt(n) == 0);
        let z = int_sqrt(n);
        assert((z + 1) * (z + 1) == 1) by (nonlinear_arith)
            requires z == 0;
    }
}

/// The root is the only value with `r * r <= n < (r + 1) * (r + 1)`.
pub proof fn lemma_int_sqrt_unique(n: nat, r: nat)
    requires
        r * r <= n,
        n < (r + 1) * (r + 1),
    ensures
        int_sqrt(n) == r,
{
    lemma_int_sqrt(n);
    let s = int_sqrt(n);
    if s < r {
        assert((s + 1) * (s + 1) <= r * r) by (nonlinear_arith)
            requires s + 1 <= r, s >= 0;
    } else if s > r {
        assert((r + 1) * (r + 1) <= s * s) by (nonlinear_arith)
            requires r + 1 <= s, r >= 0;
    }
}

pub proof fn lemma_tdiv_bound(a: int, b: int, k: int)
    requires
        b > 0,
        k >= 0,
        -(k * b) <= a <= k * b,
    ensures
        -k <= tdiv(a, b) <= k,
{
    if a >= 0 {
        assert(a / b <= k) by (nonlinear_arith)
            requires a <= k * b, b > 0, a >= 0;
        assert(a / b >= 0) by (nonlinear_arith)
            requires b > 0, a >= 0;
    } else {
        assert((-a) / b <= k) by (nonlinear_arith)
            requires -a <= k * b, b > 0, -a >= 0;
        assert((-a) / b >= 0) by (nonlinear_arith)
            requires b > 0, -a >= 0;
    }
}

/// Truncation is odd: negating the dividend negates the quotient.
pub proof fn lemma_tdiv_neg(a: int, b: int)
    requires
        b > 0,
    ensures
        tdiv(-a, b) == -tdiv(a, b),
{
    if a == 0 {
        assert(0int / b == 0);
    }
}

pub proof fn lemma_mul_bound(a: int, b: int, ka: int, kb: int)
    requires
        -ka <= a <= ka,
        -kb <= b <= kb,
    ensures
        -(ka * kb) <= a * b <= ka * kb,
{
    assert(-(ka * kb) <= a * b <= ka * kb) by (nonlinear_arith)
        requires -ka <= a <= ka, -kb <= b <= kb;
}

/// A coordinate never exceeds the root of the squared length.
pub proof fn lemma_sqrt_ge_coord(a: int, n: nat)
    requires
        a * a <= n,
    ensures
        -int_sqrt(n) <= a <= int_sqrt(n),
{
    lemma_int_sqrt(n);
    let s = int_sqrt(n) as int;
    if a > s {
        assert((s + 1) * (s + 1) <= a * a) by (nonlinear_arith)
            requires a >= s + 1, s >= 0;
    }
    if a < -s {
        assert((s + 1) * (s + 1) <= a * a) by (nonlinear_arith)
            requires -a >= s + 1, s >= 0;
    }
}

pub proof fn lemma_normalize_bound(a: (int, int))
    ensures
        in_box(normalize(a), SCALE as int),
{
    let n = len_sq(a);
    assert(a.0 * a.0 >= 0 && a.1 * a.1 >= 0) by (nonlinear_arith);
    lemma_sqrt_ge_coord(a.0, n as nat);
    lemma_sqrt_ge_coord(a.1, n as nat);
    let l = int_sqrt(n as nat) as int;
    if l != 0 {
        lemma_mul_bound(a.0, SCALE as int, l, SCALE as int);
        lemma_mul_bound(a.1, SCALE as int, l, SCALE as int);
        lemma_tdiv_bound(a.0 * SCALE, l, SCALE as int);
        lemma_tdiv_bound(a.1 * SCALE, l, SCALE as int);
    }
}

/// Rounds toward zero; `b` must be positive.
pub fn div_trunc(a: i128, b: i128) -> (r: i128)
    requires
        b > 0,
    ensures
        r == tdiv(a as int, b as int),
{
    if a >= 0 {
        ((a as u128) / (b as u128)) as i128
    } else if b == 1 {
        assert((-(a as int)) / 1 == -(a as int));
        a
    } else {
        let m: u128 = if a == i128::MIN {
            170141183460469231731687303715884105728u128
        } else {
            (-a) as u128
        };
        let q: u128 = m / (b as u128);
        proof {
            assert(q <= m / 2) by (nonlinear_arith)
                requires q == m as int / b as int, b >= 2, m >= 0;
        }
        assert(m as int == -(a as int));
        -(q as i128)
    }
}

/// Integer square root: the largest `r` with `r * r <= n`.
pub fn isqrt(n: u128) -> (r: u128)
    ensures
        r == int_sqrt(n as nat),
        r < 18446744073709551616u128,
{
    let mut lo: u128 = 0;
    let mut hi: u128 = 18446744073709551616u128;
    while hi - lo > 1
        invariant
            lo < hi <= 18446744073709551616u128,
            lo * lo <= n,
            n < hi * hi,
        decreases hi - lo,
    {
        let mid: u128 = lo + (hi - lo) / 2;
        assert(mid * mid <= 18446744073709551615u128 * 18446744073709551615u128) by (nonlinear_arith)
            requires mid <= 18446744073709551615u128, mid >= 0;
        if mid * mid <= n {
            lo = mid;
        } else {
            hi = mid;
        }
    }
    proof {
        assert(hi == lo + 1);
        lemma_int_sqrt_unique(n as nat, lo as nat);
    }
    lo
}

} // verus!

verus! {

/// The root of the squared length of `(x, y)`, for coordinates of at most
/// 2^62 in magnitude.
fn norm(x: i128, y: i128) -> (r: i128)
    requires
        -0x4000_0000_0000_0000 <= x <= 0x4000_0000_0000_0000,
        -0x4000_0000_0000_0000 <= y <= 0x4000_0000_0000_0000,
    ensures
        r == int_sqrt(len_sq((x as int, y as int)) as nat),
        0 <= r,
{
    proof {
        lemma_mul_bound(x as int, x as int, 0x4000_0000_0000_0000, 0x4000_0000_0000_0000);
        lemma_mul_bound(y as int, y as int, 0x4000_0000_0000_0000, 0x4000_0000_0000_0000);
    }
    proof {
        assert(x * x >= 0 && y * y >= 0) by (nonlinear_arith);
    }
    let n: u128 = (x * x) as u128 + (y * y) as u128;
    isqrt(n) as i128
}

/// `normalize((x, y))` for coordinates of at most 2^40 in magnitude.
pub fn normalize_or_zero(x: i128, y: i128) -> (r: (i128, i128))
    requires
        -0x100_0000_0000 <= x <= 0x100_0000_0000,
        -0x100_0000_0000 <= y <= 0x100_0000_0000,
    ensures
        (r.0 as int, r.1 as int) == normalize((x as int, y as int)),
        in_box((r.0 as int, r.1 as int), SCALE as int),
{
    proof {
        lemma_normalize_bound((x as int, y as int));
    }
    let l = norm(x, y);
    if l == 0 {
        (0, 0)
    } else {
        (div_trunc(x * 4096, l), div_trunc(y * 4096, l))
    }
}

/// `fdiv(a, t)`: the fixed-point quotient `a / t`.
pub fn fx_div(a: i128, t: i128) -> (r: i128)
    requires
        -0x100_0000_0000_0000 <= a <= 0x100_0000_0000_0000,
        t > 0,
    ensures
        r == fdiv(a as int, t as int),
{
    div_trunc(a * 4096, t)
}

/// `fmul(a, k)`: the fixed-point product `a * k`.
pub fn fx_mul(a: i128, k: i128) -> (r: i128)
    requires
        -0x4000_0000_0000_0000 <= a <= 0x4000_0000_0000_0000,
        -0x4000_0000_0000_0000 <= k <= 0x4000_0000_0000_0000,
    ensures
        r == fmul(a as int, k as int),
{
    proof {
        lemma_mul_bound(a as int, k as int, 0x4000_0000_0000_0000, 0x4000_0000_0000_0000);
    }
    div_trunc(a * k, 4096)
}

/// Exact determinant of two vectors with coordinates of at most 2^62.
pub fn det128(ax: i128, ay: i128, bx: i128, by: i128) -> (r: i128)
    requires
        -0x4000_0000_0000_0000 <= ax <= 0x4000_0000_0000_0000,
        -0x4000_0000_0000_0000 <= ay <= 0x4000_0000_0000_0000,
        -0x4000_0000_0000_0000 <= bx <= 0x4000_0000_0000_0000,
        -0x4000_0000_0000_0000 <= by <= 0x4000_0000_0000_0000,
    ensures
        r == det((ax as int, ay as int), (bx as int, by as int)),
{
    proof {
        lemma_mul_bound(ax as int, by as int, 0x4000_0000_0000_0000, 0x4000_0000_0000_0000);
        lemma_mul_bound(ay as int, bx as int, 0x4000_0000_0000_0000, 0x4000_0000_0000_0000);
    }
    ax * by - ay * bx
}

/// Exact dot product of two vectors with coordinates of at most 2^62.
pub fn dot128(ax: i128, ay: i128, bx: i128, by: i128) -> (r: i128)
    requires
        -0x4000_0000_0000_0000 <= ax <= 0x4000_0000_0000_0000,
        -0x4000_0000_0000_0000 <= ay <= 0x4000_0000_0000_0000,
        -0x4000_0000_0000_0000 <= bx <= 0x4000_0000_0000_0000,
        -0x4000_0000_0000_0000 <= by <= 0x4000_0000_0000_0000,
    ensures
        r == dot((ax as int, ay as int), (bx as int, by as int)),
{
    proof {
        lemma_mul_bound(ax as int, bx as int, 0x4000_0000_0000_0000, 0x4000_0000_0000_0000);
        lemma_mul_bound(ay as int, by as int, 0x4000_0000_0000_0000, 0x4000_0000_0000_0000);
    }
    ax * bx + ay * by
}

/// The signed area spanned by two vectors.
pub fn determinant(a: Vec2, b: Vec2) -> (r: i128)
    requires
        in_box(a@, MAX_LINE as int),
        in_box(b@, MAX_LINE as int),
    ensures
        r == det(a@, b@),
{
    det128(a.x as i128, a.y as i128, b.x as i128, b.y as i128)
}

/// Whether `v` lies on the admissible side of `line` (or on it).
pub fn line_admits(line: &Line, v: Vec2) -> (r: bool)
    requires
        line_in_range(*line),
        in_box(v@, MAX_LINE as int),
    ensures
        r == satisfies(*line, v@),
{
    let dx = v.x as i128 - line.point.x as i128;
    let dy = v.y as i128 - line.point.y as i128;
    det128(line.direction.x as i128, line.direction.y as i128, dx, dy) >= 0
}

} // verus!

verus! {

/// The corners of the rectangle `size_x` wide and `size_z` deep centred on
/// the origin, counter-clockwise from the top right: top right, top left,
/// bottom left, bottom right. Each half size is rounded toward zero.
pub fn rect_inner(size_x: i64, size_z: i64) -> (r: [Vec2; 4])
    requires
        -2 * MAX_COORD <= size_x <= 2 * MAX_COORD,
        -2 * MAX_COORD <= size_z <= 2 * MAX_COORD,
    ensures
        r@ == seq![
            Vec2 { x: tdiv(size_x as int, 2) as i64, y: tdiv(size_z as int, 2) as i64 },
            Vec2 { x: -tdiv(size_x as int, 2) as i64, y: tdiv(size_z as int, 2) as i64 },
            Vec2 { x: -tdiv(size_x as int, 2) as i64, y: -tdiv(size_z as int, 2) as i64 },
            Vec2 { x: tdiv(size_x as int, 2) as i64, y: -tdiv(size_z as int, 2) as i64 },
        ],
{
    let hx = div_trunc(size_x as i128, 2) as i64;
    let hz = div_trunc(size_z as i128, 2) as i64;
    proof {
        lemma_tdiv_bound(size_x as int, 2, 2 * MAX_COORD);
        lemma_tdiv_bound(size_z as int, 2, 2 * MAX_COORD);
    }
    let tl = Vec2 { x: -hx, y: hz };
    let tr = Vec2 { x: hx, y: hz };
    let bl = Vec2 { x: -hx, y: -hz };
    let br = Vec2 { x: hx, y: -hz };
    let r = [tr, tl, bl, br];
    assert(r@ =~= seq![tr, tl, bl, br]);
    r
}

} // verus!
