use vstd::prelude::*;
use crate::walls::{Line, Point, FAR_LIMIT, TOLERANCE};

verus! {

/// The integer square root, counted up from zero: the largest `r` with `r * r <= n`.
pub open spec fn root(n: int) -> int
    decreases n,
{
    if n <= 0 {
        0
    } else {
        let r = root(n - 1);
        if (r + 1) * (r + 1) <= n {
            r + 1
        } else {
            r
        }
    }
}

/// `r` is the integer square root of `n`.
pub open spec fn is_root(n: int, r: int) -> bool {
    0 <= r && r * r <= n && n < (r + 1) * (r + 1)
}

/// Squared Euclidean distance.
pub open spec fn sq_dist(a: (int, int), b: (int, int)) -> int {
    (b.0 - a.0) * (b.0 - a.0) + (b.1 - a.1) * (b.1 - a.1)
}

/// Euclidean distance, rounded down to a whole unit.
pub open spec fn dist(a: (int, int), b: (int, int)) -> int {
    root(sq_dist(a, b))
}

/// Both coordinates lie within `[-lim, lim]`.
pub open spec fn bounded(p: (int, int), lim: int) -> bool {
    -lim <= p.0 <= lim && -lim <= p.1 <= lim
}

/// The point counts as lying on the segment: going from one end to the other
/// through it is no longer than the segment itself, give or take `tol`.
pub open spec fn on_segment(line: ((int, int), (int, int)), p: (int, int), tol: int) -> bool {
    let e = dist(line.0, p) + dist(line.1, p) - dist(line.0, line.1);
    -tol <= e <= tol
}

/// Squaring is monotone on non-negative numbers.
pub proof fn lemma_square_mono(a: int, b: int)
    requires
        0 <= a <= b,
    ensures
        a * a <= b * b,
{
    assert(a * a <= b * b) by (nonlinear_arith)
        requires
            0 <= a <= b,
    ;
}

/// `root` meets its defining bounds.
pub proof fn lemma_root(n: int)
    requires
        n >= 0,
    ensures
        is_root(n, root(n)),
    decreases n,
{
    if n > 0 {
        lemma_root(n - 1);
        let r = root(n - 1);
        lemma_square_mono(r + 1, r + 2);
        assert((r + 1) * (r + 1) < (r + 2) * (r + 2)) by (nonlinear_arith)
            requires
                r >= 0,
        ;
    }
}

/// A number has one integer square root.
pub proof fn lemma_root_unique(n: int, a: int, b: int)
    requires
        is_root(n, a),
        is_root(n, b),
    ensures
        a == b,
{
    if a < b {
        lemma_square_mono(a + 1, b);
    } else if b < a {
        lemma_square_mono(b + 1, a);
    }
}

/// `root` is the integer square root, and the only one.
pub proof fn lemma_root_is(n: int, r: int)
    requires
        is_root(n, r),
    ensures
        root(n) == r,
{
    lemma_root(n);
    lemma_root_unique(n, r, root(n));
}

/// A value within `m` of zero has a square of at most `m * m`.
pub proof fn lemma_square_bound(d: int, m: int)
    requires
        -m <= d <= m,
    ensures
        0 <= d * d <= m * m,
{
    assert(0 <= d * d <= m * m) by (nonlinear_arith)
        requires
            -m <= d <= m,
    ;
}

/// Integer square root by bisection.
pub fn isqrt(n: u128) -> (r: u64)
    requires
        n < 0x4000_0000_0000_0000_0000_0000,
    ensures
        r as int == root(n as int),
        is_root(n as int, r as int),
        r < 0x8000_0000_0000,
{
    let mut lo: u128 = 0;
    let mut hi: u128 = 0x8000_0000_0000;
    assert(n < hi * hi);
    while lo + 1 < hi
        invariant
            lo < hi <= 0x8000_0000_0000,
            lo * lo <= n,
            n < hi * hi,
        decreases hi - lo,
    {
        let mid: u128 = lo + (hi - lo) / 2;
        assert(mid * mid <= 0x8000_0000_0000 * 0x8000_0000_0000) by {
            lemma_square_mono(mid as int, 0x8000_0000_0000);
        }
        if mid * mid <= n {
            lo = mid;
        } else {
            hi = mid;
        }
    }
    proof {
        lemma_root_is(n as int, lo as int);
    }
    lo as u64
}

/// A quotient by `d` of a value within `m * d` lies within `m`.
pub proof fn lemma_div_within(n: int, d: int, m: int)
    requires
        d > 0,
        -m * d <= n <= m * d,
    ensures
        -m <= n / d <= m,
{
    vstd::arithmetic::div_mod::lemma_fundamental_div_mod(n, d);
    let q = n / d;
    let r = n % d;
    assert(-m <= q <= m) by (nonlinear_arith)
        requires n == d * q + r, 0 <= r < d, -m * d <= n <= m * d, d > 0;
}

/// Floor of `n / d` for a positive `d`.
pub fn floor_div(n: i128, d: i128) -> (q: i128)
    requires
        d > 0,
    ensures
        q == n / d,
{
    if n >= 0 {
        let q = (n as u128 / d as u128) as i128;
        q
    } else {
        let m: u128 = (-(n + 1)) as u128;
        let k: u128 = m / d as u128;
        proof {
            vstd::arithmetic::div_mod::lemma_fundamental_div_mod(m as int, d as int);
            let r = (m as int) % (d as int);
            assert(n == (-(k as int) - 1) * d + (d - 1 - r)) by (nonlinear_arith)
                requires
                    m == d * k + r,
                    n == -(m as int) - 1,
            ;
            vstd::arithmetic::div_mod::lemma_fundamental_div_mod_converse(
                n as int,
                d as int,
                -(k as int) - 1,
                d - 1 - r,
            );
        }
        -(k as i128) - 1
    }
}

/// Squared distance between two points within `FAR_LIMIT`.
pub fn sq_distance(p1: &Point, p2: &Point) -> (r: u128)
    requires
        bounded(p1@, FAR_LIMIT as int),
        bounded(p2@, FAR_LIMIT as int),
    ensures
        r as int == sq_dist(p1@, p2@),
        r <= 0x80_0000_0000_0000_0000_0000,
{
    let dx: i128 = p2.x as i128 - p1.x as i128;
    let dy: i128 = p2.y as i128 - p1.y as i128;
    proof {
        lemma_square_bound(dx as int, 2 * FAR_LIMIT);
        lemma_square_bound(dy as int, 2 * FAR_LIMIT);
        assert(2 * FAR_LIMIT * (2 * FAR_LIMIT) == 0x40_0000_0000_0000_0000_0000);
    }
    (dx * dx + dy * dy) as u128
}

/// Euclidean distance between two points, rounded down to a whole unit.
pub fn distance(p1: &Point, p2: &Point) -> (r: u64)
    requires
        bounded(p1@, FAR_LIMIT as int),
        bounded(p2@, FAR_LIMIT as int),
    ensures
        r as int == dist(p1@, p2@),
        r < 0x8000_0000_0000,
{
    isqrt(sq_distance(p1, p2))
}

/// Whether `point` lies on `line`, up to `TOLERANCE`.
pub fn line_point(line: &Line, point: &Point) -> (r: bool)
    requires
        bounded(line.p1@, FAR_LIMIT as int),
        bounded(line.p2@, FAR_LIMIT as int),
        bounded(point@, FAR_LIMIT as int),
    ensures
        r == on_segment(line@, point@, TOLERANCE as int),
{
    let length = distance(&line.p1, &line.p2);
    let d1 = distance(&line.p1, point);
    let d2 = distance(&line.p2, point);
    let e: i64 = d1 as i64 + d2 as i64 - length as i64;
    -TOLERANCE <= e && e <= TOLERANCE
}

} // verus!
