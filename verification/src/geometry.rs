//! Fixed-point plane geometry: points, Euclidean distance (rounded down to
//! an integer), closed-polygon length, cyclic rotation, and linear
//! interpolation between points.
//!
//! Coordinates are plain `i64` values in a fixed-point unit chosen by the
//! caller (the loader produces milli-units of the resource coordinate
//! space). Every operation bounds its inputs by [`MAX_COORD`] so that all
//! intermediate arithmetic fits the machine integers it is computed in.

use vstd::prelude::*;

verus! {

/// Largest coordinate magnitude the library accepts.
pub const MAX_COORD: i64 = 1048576;

/// Largest number of points a single sub-path may have.
pub const MAX_PATH_POINTS: usize = 1048576;

/// One 2D point; a value type with no identity.
#[derive(Clone, Copy, PartialEq, Eq, Structural, Debug)]
pub struct Point {
    pub x: i64,
    pub y: i64,
}

/// Both coordinates within the accepted range.
pub open spec fn valid_point(p: Point) -> bool {
    &&& -(MAX_COORD as int) <= p.x <= MAX_COORD as int
    &&& -(MAX_COORD as int) <= p.y <= MAX_COORD as int
}

/// Every point of the sequence within the accepted range.
pub open spec fn valid_path(s: Seq<Point>) -> bool {
    forall|i: int| 0 <= i < s.len() ==> valid_point(#[trigger] s[i])
}

/// Squared Euclidean distance between two points.
pub open spec fn dist_sq(a: Point, b: Point) -> int {
    (a.x - b.x) * (a.x - b.x) + (a.y - b.y) * (a.y - b.y)
}

pub proof fn lemma_dist_sq_nonneg(a: Point, b: Point)
    ensures
        dist_sq(a, b) >= 0,
{
    assert((a.x - b.x) * (a.x - b.x) >= 0) by (nonlinear_arith);
    assert((a.y - b.y) * (a.y - b.y) >= 0) by (nonlinear_arith);
}

/// For valid points the squared distance fits comfortably in a `u64`.
pub proof fn lemma_dist_sq_bound(a: Point, b: Point)
    requires
        valid_point(a),
        valid_point(b),
    ensures
        0 <= dist_sq(a, b) <= 0x80000000000,
{
    let dx = a.x - b.x;
    let dy = a.y - b.y;
    assert(-2097152 <= dx <= 2097152);
    assert(-2097152 <= dy <= 2097152);
    assert(0 <= dx * dx <= 0x40000000000) by (nonlinear_arith)
        requires
            -2097152 <= dx <= 2097152,
    ;
    assert(0 <= dy * dy <= 0x40000000000) by (nonlinear_arith)
        requires
            -2097152 <= dy <= 2097152,
    ;
}

/// Integer square root, rounded down: the unique `r` with
/// `r * r <= n < (r + 1) * (r + 1)`.
pub open spec fn sqrt_of(n: nat) -> nat
    decreases n,
{
    if n == 0 {
        0
    } else {
        let s = sqrt_of((n - 1) as nat);
        if (s + 1) * (s + 1) <= n {
            s + 1
        } else {
            s
        }
    }
}

pub proof fn lemma_sqrt_of_bounds(n: nat)
    ensures
        sqrt_of(n) * sqrt_of(n) <= n,
        n < (sqrt_of(n) + 1) * (sqrt_of(n) + 1),
    decreases n,
{
    if n == 0 {
        let s0 = sqrt_of(n);
        assert(s0 == 0);
        assert(s0 * s0 == 0 && (s0 + 1) * (s0 + 1) == 1) by (nonlinear_arith)
            requires
                s0 == 0nat,
        ;
    } else {
        lemma_sqrt_of_bounds((n - 1) as nat);
        let s = sqrt_of((n - 1) as nat);
        assert(s * s <= n - 1);
        assert(n - 1 < (s + 1) * (s + 1));
        if (s + 1) * (s + 1) <= n {
            assert(sqrt_of(n) == s + 1);
            assert(n <= (s + 1) * (s + 1));
            assert((s + 1) * (s + 1) < (s + 2) * (s + 2)) by (nonlinear_arith);
            assert(sqrt_of(n) * sqrt_of(n) <= n);
            assert(n < (sqrt_of(n) + 1) * (sqrt_of(n) + 1));
        } else {
            assert(sqrt_of(n) == s);
        }
    }
}

pub proof fn lemma_sqrt_unique(n: nat, r: nat)
    requires
        r * r <= n,
        n < (r + 1) * (r + 1),
    ensures
        r == sqrt_of(n),
{
    lemma_sqrt_of_bounds(n);
    let s = sqrt_of(n);
    assert(r < s ==> (r + 1) * (r + 1) <= s * s) by (nonlinear_arith);
    assert(s < r ==> (s + 1) * (s + 1) <= r * r) by (nonlinear_arith);
    if r < s {
        assert(s * s <= n);
        assert(false);
    } else if s < r {
        assert(r * r <= n);
        assert(false);
    }
}

/// A positive squared distance has a positive rounded distance.
pub proof fn lemma_sqrt_pos(n: nat)
    requires
        n >= 1,
    ensures
        sqrt_of(n) >= 1,
{
    lemma_sqrt_of_bounds(n);
    let s = sqrt_of(n);
    assert(s == 0 ==> (s + 1) * (s + 1) == 1) by (nonlinear_arith);
}

/// Euclidean distance between two points, rounded down to an integer.
pub open spec fn dist(a: Point, b: Point) -> nat {
    sqrt_of(dist_sq(a, b) as nat)
}

/// For valid points the distance fits well below `2^22`.
pub proof fn lemma_dist_bound(a: Point, b: Point)
    requires
        valid_point(a),
        valid_point(b),
    ensures
        dist(a, b) <= 0x400000,
{
    lemma_dist_sq_bound(a, b);
    lemma_sqrt_of_bounds(dist_sq(a, b) as nat);
    let r = dist(a, b);
    assert(r > 0x400000 ==> r * r > 0x80000000000) by (nonlinear_arith);
}

/// Executable integer square root by binary search.
pub fn isqrt(n: u64) -> (r: u64)
    ensures
        r == sqrt_of(n as nat),
{
    let mut lo: u64 = 0;
    let mut hi: u64 = 4294967296;
    assert((n as nat) < (hi as nat) * (hi as nat)) by (nonlinear_arith)
        requires
            hi == 4294967296,
            n <= u64::MAX,
    ;
    while lo + 1 < hi
        invariant
            lo < hi <= 4294967296,
            (lo as nat) * (lo as nat) <= n as nat,
            (n as nat) < (hi as nat) * (hi as nat),
        decreases hi - lo,
    {
        let mid: u64 = lo + (hi - lo) / 2;
        assert((mid as int) * (mid as int) <= 0x10000000000000000) by (nonlinear_arith)
            requires
                0 <= mid <= 4294967296,
        ;
        if (mid as u128) * (mid as u128) <= n as u128 {
            lo = mid;
        } else {
            hi = mid;
        }
    }
    proof {
        lemma_sqrt_unique(n as nat, lo as nat);
    }
    lo
}

/// Executable squared distance between two valid points.
pub fn point_dist_sq(a: &Point, b: &Point) -> (r: u64)
    requires
        valid_point(*a),
        valid_point(*b),
    ensures
        r == dist_sq(*a, *b),
        r <= 0x80000000000,
{
    proof {
        lemma_dist_sq_bound(*a, *b);
    }
    let dx: i64 = a.x - b.x;
    let dy: i64 = a.y - b.y;
    assert(0 <= (dx as int) * (dx as int) <= 0x40000000000) by (nonlinear_arith)
        requires
            -2097152 <= dx <= 2097152,
    ;
    assert(0 <= (dy as int) * (dy as int) <= 0x40000000000) by (nonlinear_arith)
        requires
            -2097152 <= dy <= 2097152,
    ;
    (dx * dx) as u64 + (dy * dy) as u64
}

/// Executable distance between two valid points.
pub fn point_dist(a: &Point, b: &Point) -> (r: u64)
    requires
        valid_point(*a),
        valid_point(*b),
    ensures
        r == dist(*a, *b),
        r <= 0x400000,
{
    proof {
        lemma_dist_bound(*a, *b);
    }
    let sq: u64 = point_dist_sq(a, b);
    isqrt(sq)
}

/// Distance of the edge leaving point `j`, wrapping from the last point
/// back to the first.
pub open spec fn edge_dist(s: Seq<Point>, j: int) -> nat {
    dist(s[j], s[(j + 1) % (s.len() as int)])
}

/// Sum of the edge distances for edges `lo`, `lo + 1`, ..., `hi - 1`.
pub open spec fn edge_sum(s: Seq<Point>, lo: int, hi: int) -> nat
    decreases hi - lo,
{
    if lo >= hi {
        0
    } else {
        edge_dist(s, lo) + edge_sum(s, lo + 1, hi)
    }
}

/// Total length of the closed polygon: all edges including the wrap edge.
pub open spec fn closed_len(s: Seq<Point>) -> nat {
    edge_sum(s, 0, s.len() as int)
}

pub proof fn lemma_edge_sum_split(s: Seq<Point>, lo: int, mid: int, hi: int)
    requires
        lo <= mid <= hi,
    ensures
        edge_sum(s, lo, hi) == edge_sum(s, lo, mid) + edge_sum(s, mid, hi),
    decreases mid - lo,
{
    if lo < mid {
        lemma_edge_sum_split(s, lo + 1, mid, hi);
    }
}

pub proof fn lemma_edge_sum_snoc(s: Seq<Point>, lo: int, hi: int)
    requires
        lo <= hi,
    ensures
        edge_sum(s, lo, hi + 1) == edge_sum(s, lo, hi) + edge_dist(s, hi),
{
    lemma_edge_sum_split(s, lo, hi, hi + 1);
    assert(edge_sum(s, hi, hi + 1) == edge_dist(s, hi) + edge_sum(s, hi + 1, hi + 1));
}

/// The sequence rotated so that index `i` reads the old index `(i + k) mod len`.
pub open spec fn rotate_seq(s: Seq<Point>, k: int) -> Seq<Point> {
    Seq::new(s.len(), |i: int| s[(i + k) % (s.len() as int)])
}

/// Rotating by zero changes nothing.
pub proof fn lemma_rotate_zero(s: Seq<Point>)
    ensures
        rotate_seq(s, 0) == s,
{
    assert forall|x: int| 0 <= x < s.len() implies rotate_seq(s, 0)[x] == s[x] by {
        vstd::arithmetic::div_mod::lemma_small_mod(x as nat, s.len());
    }
    assert(rotate_seq(s, 0) =~= s);
}

proof fn lemma_rot_edge(s: Seq<Point>, k: int, j: int)
    requires
        s.len() >= 1,
        0 <= k < s.len(),
        0 <= j < s.len(),
    ensures
        edge_dist(rotate_seq(s, k), j) == edge_dist(s, (j + k) % (s.len() as int)),
{
    let n = s.len() as int;
    let r = rotate_seq(s, k);
    if n == 1 {
        assert(j == 0 && k == 0);
        vstd::arithmetic::div_mod::lemma_mod_self_0(n);
        assert(r[0] == s[0int % 1int]);
    } else {
        vstd::arithmetic::div_mod::lemma_mod_pos_bound(j + k, n);
        vstd::arithmetic::div_mod::lemma_mod_pos_bound(j + 1, n);
        vstd::arithmetic::div_mod::lemma_mod_pos_bound(j + k + 1, n);
        // first endpoints agree
        assert(r[j] == s[(j + k) % n]);
        // second endpoint of the rotated edge
        assert(r[(j + 1) % n] == s[((j + 1) % n + k) % n]);
        vstd::arithmetic::div_mod::lemma_small_mod(k as nat, n as nat);
        vstd::arithmetic::div_mod::lemma_small_mod(1nat, n as nat);
        // ((j + 1) % n + k) % n == (j + 1 + k) % n
        vstd::arithmetic::div_mod::lemma_add_mod_noop(j + 1, k, n);
        vstd::arithmetic::div_mod::lemma_mod_twice(j + 1, n);
        assert(((j + 1) % n + k) % n == (j + 1 + k) % n);
        // ((j + k) % n + 1) % n == (j + k + 1) % n
        vstd::arithmetic::div_mod::lemma_add_mod_noop(j + k, 1, n);
        vstd::arithmetic::div_mod::lemma_mod_twice(j + k, n);
        assert(((j + k) % n + 1) % n == (j + k + 1) % n);
    }
}

proof fn lemma_rot_sum_low(s: Seq<Point>, k: int, m: int)
    requires
        s.len() >= 1,
        0 <= k < s.len(),
        0 <= m <= s.len() - k,
    ensures
        edge_sum(rotate_seq(s, k), 0, m) == edge_sum(s, k, k + m),
    decreases m,
{
    let n = s.len() as int;
    if m > 0 {
        lemma_rot_sum_low(s, k, m - 1);
        lemma_edge_sum_snoc(rotate_seq(s, k), 0, m - 1);
        lemma_edge_sum_snoc(s, k, k + m - 1);
        lemma_rot_edge(s, k, m - 1);
        vstd::arithmetic::div_mod::lemma_small_mod((m - 1 + k) as nat, n as nat);
    }
}

proof fn lemma_rot_sum_high(s: Seq<Point>, k: int, m: int)
    requires
        s.len() >= 1,
        0 <= k < s.len(),
        0 <= m <= k,
    ensures
        edge_sum(rotate_seq(s, k), s.len() - k, s.len() - k + m) == edge_sum(s, 0, m),
    decreases m,
{
    let n = s.len() as int;
    if m > 0 {
        lemma_rot_sum_high(s, k, m - 1);
        lemma_edge_sum_snoc(rotate_seq(s, k), n - k, n - k + m - 1);
        lemma_edge_sum_snoc(s, 0, m - 1);
        lemma_rot_edge(s, k, n - k + m - 1);
        // (n - k + m - 1 + k) % n == (m - 1) % n == m - 1
        vstd::arithmetic::div_mod::lemma_mod_add_multiples_vanish(m - 1, n);
        vstd::arithmetic::div_mod::lemma_small_mod((m - 1) as nat, n as nat);
    }
}

/// The closed-path length is invariant under cyclic rotation of the
/// starting index.
pub proof fn lemma_closed_len_rotation(s: Seq<Point>, k: int)
    requires
        s.len() >= 1,
        0 <= k < s.len(),
    ensures
        closed_len(rotate_seq(s, k)) == closed_len(s),
{
    let n = s.len() as int;
    let r = rotate_seq(s, k);
    lemma_rot_sum_low(s, k, n - k);
    lemma_rot_sum_high(s, k, k);
    lemma_edge_sum_split(r, 0, n - k, n);
    lemma_edge_sum_split(s, 0, k, n);
}

/// Truncating integer division (rounds toward zero), matching machine
/// signed division.
pub open spec fn div_trunc(a: int, d: int) -> int {
    if a >= 0 {
        a / d
    } else {
        -((-a) / d)
    }
}

/// One interpolated coordinate: `a + (b - a) * num / den`, the division
/// truncating toward zero.
pub open spec fn interp_coord(a: int, b: int, num: int, den: int) -> int {
    a + div_trunc((b - a) * num, den)
}

/// The point a fraction `num / den` of the way from `a` to `b`,
/// coordinate by coordinate.
pub open spec fn interp_pt(a: Point, b: Point, num: int, den: int) -> Point {
    Point {
        x: interp_coord(a.x as int, b.x as int, num, den) as i64,
        y: interp_coord(a.y as int, b.y as int, num, den) as i64,
    }
}

/// At fraction zero interpolation returns the first endpoint exactly.
pub proof fn lemma_interp_zero(a: Point, b: Point, den: int)
    requires
        den >= 1,
    ensures
        interp_pt(a, b, 0, den) == a,
{
    assert((b.x - a.x) * 0 == 0);
    assert((b.y - a.y) * 0 == 0);
    assert(div_trunc(0, den) == 0) by {
        vstd::arithmetic::div_mod::lemma_div_of0(den);
    }
}

/// At fraction one interpolation returns the second endpoint exactly.
pub proof fn lemma_interp_one(a: Point, b: Point, den: int)
    requires
        den >= 1,
    ensures
        interp_pt(a, b, den, den) == b,
{
    lemma_mul_div_self(b.x - a.x, den);
    lemma_mul_div_self(b.y - a.y, den);
}

proof fn lemma_mul_div_self(c: int, den: int)
    requires
        den >= 1,
    ensures
        div_trunc(c * den, den) == c,
{
    if c >= 0 {
        assert(c * den >= 0 && c * den == den * c) by (nonlinear_arith)
            requires
                c >= 0,
                den >= 1,
        ;
        vstd::arithmetic::div_mod::lemma_div_multiples_vanish(c, den);
    } else {
        assert(c * den < 0 && -(c * den) == den * (-c)) by (nonlinear_arith)
            requires
                c < 0,
                den >= 1,
        ;
        vstd::arithmetic::div_mod::lemma_div_multiples_vanish(-c, den);
    }
}

/// For a fraction in `[0, 1]` the interpolated coordinate lies between
/// the two endpoints.
pub proof fn lemma_interp_coord_between(a: int, b: int, num: int, den: int)
    requires
        den >= 1,
        0 <= num <= den,
    ensures
        a <= b ==> a <= interp_coord(a, b, num, den) <= b,
        b <= a ==> b <= interp_coord(a, b, num, den) <= a,
{
    lemma_div_trunc_scale_between(b - a, num, den);
}

/// `0 <= num <= den` implies `(c * num) / den` lies between `0` and `c`.
proof fn lemma_div_trunc_scale_between(c: int, num: int, den: int)
    requires
        den >= 1,
        0 <= num <= den,
    ensures
        c >= 0 ==> 0 <= div_trunc(c * num, den) <= c,
        c < 0 ==> c <= div_trunc(c * num, den) <= 0,
{
    if c >= 0 {
        assert(0 <= c * num <= c * den && c * den == den * c) by (nonlinear_arith)
            requires
                c >= 0,
                0 <= num <= den,
        ;
        vstd::arithmetic::div_mod::lemma_div_pos_is_pos(c * num, den);
        vstd::arithmetic::div_mod::lemma_div_is_ordered(c * num, c * den, den);
        vstd::arithmetic::div_mod::lemma_div_multiples_vanish(c, den);
    } else {
        let p = -c;
        assert(0 <= p * num <= p * den && p * den == den * p && c * num == -(p * num))
            by (nonlinear_arith)
            requires
                p == -c,
                c < 0,
                0 <= num <= den,
        ;
        vstd::arithmetic::div_mod::lemma_div_pos_is_pos(p * num, den);
        vstd::arithmetic::div_mod::lemma_div_is_ordered(p * num, p * den, den);
        vstd::arithmetic::div_mod::lemma_div_multiples_vanish(p, den);
        if c * num >= 0 {
            assert(p * num == 0);
            vstd::arithmetic::div_mod::lemma_div_of0(den);
            assert(div_trunc(c * num, den) == 0);
        } else {
            assert(div_trunc(c * num, den) == -((p * num) / den));
        }
    }
}

/// Executable interpolation of one coordinate pair.
pub fn interp_coord_exec(a: i64, b: i64, num: u64, den: u64) -> (r: i64)
    requires
        den >= 1,
        num <= den,
        -(MAX_COORD as int) <= a <= MAX_COORD as int,
        -(MAX_COORD as int) <= b <= MAX_COORD as int,
    ensures
        r == interp_coord(a as int, b as int, num as int, den as int),
        a <= b ==> a <= r <= b,
        b <= a ==> b <= r <= a,
{
    proof {
        lemma_interp_coord_between(a as int, b as int, num as int, den as int);
        lemma_div_trunc_scale_between(b - a, num as int, den as int);
    }
    let diff: i64 = b - a;
    assert(-(0x200000int * 0x10000000000000000int) <= (diff as int) * (num as int) <= 0x200000int
        * 0x10000000000000000int) by (nonlinear_arith)
        requires
            -2097152 <= diff <= 2097152,
            0 <= num <= 0xFFFFFFFFFFFFFFFFu64,
    ;
    let prod: i128 = (diff as i128) * (num as i128);
    let q: i128 = if prod >= 0 {
        (((prod as u128) / (den as u128)) as i128)
    } else {
        (-((((-prod) as u128) / (den as u128)) as i128))
    };
    assert(q == div_trunc((diff as int) * (num as int), den as int));
    a + (q as i64)
}

/// Executable interpolation of one point pair.
pub fn interp_pt_exec(a: &Point, b: &Point, num: u64, den: u64) -> (r: Point)
    requires
        den >= 1,
        num <= den,
        valid_point(*a),
        valid_point(*b),
    ensures
        r == interp_pt(*a, *b, num as int, den as int),
        valid_point(r),
{
    let x = interp_coord_exec(a.x, b.x, num, den);
    let y = interp_coord_exec(a.y, b.y, num, den);
    Point { x, y }
}

} // verus!
