//! Properties that relate the library's operations to one another.
use vstd::prelude::*;
use crate::math::{dist, lemma_root, on_segment, root, sq_dist};
use crate::player::{closest, collision, last_push, lemma_lagrange};
use crate::walls::{
    clip_result, rotated, translated_world, ClipPolicy, ROT_SCALE, TOLERANCE,
};

verus! {

proof fn lemma_sq_lt(x: int, y: int)
    requires
        0 <= y,
        x * x < y * y,
    ensures
        x < y,
{
    if x >= y {
        assert(x * x >= y * y) by (nonlinear_arith)
            requires x >= y, y >= 0;
    }
}

proof fn lemma_sq_le(x: int, y: int)
    requires
        0 <= y,
        x * x <= y * y,
    ensures
        x <= y,
{
    if x > y {
        assert(x * x > y * y) by (nonlinear_arith)
            requires x > y, y >= 0;
    }
}

proof fn lemma_sq_dist_sym(a: (int, int), b: (int, int))
    ensures
        sq_dist(a, b) == sq_dist(b, a),
{
    assert((b.0 - a.0) * (b.0 - a.0) == (a.0 - b.0) * (a.0 - b.0)) by (nonlinear_arith);
    assert((b.1 - a.1) * (b.1 - a.1) == (a.1 - b.1) * (a.1 - b.1)) by (nonlinear_arith);
}

/// A point found by linear interpolation between the ends of a segment,
/// `p = p1 + (k / n) * (p2 - p1)` with `0 <= k <= n`, lies on the segment
/// for any tolerance of at least one step: rounding the three distances
/// down moves their balance by at most one.
pub proof fn lemma_interpolated_on_segment(line: ((int, int), (int, int)), p: (int, int), k: int, n: int, tol: int)
    requires
        0 <= k <= n,
        0 < n,
        n * p.0 == (n - k) * line.0.0 + k * line.1.0,
        n * p.1 == (n - k) * line.0.1 + k * line.1.1,
        tol >= 1,
    ensures
        on_segment(line, p, tol),
{
    let (p1, p2) = line;
    let dx = p2.0 - p1.0;
    let dy = p2.1 - p1.1;
    let ux = p.0 - p1.0;
    let uy = p.1 - p1.1;
    let vx = p2.0 - p.0;
    let vy = p2.1 - p.1;
    assert(n * ux == k * dx && n * uy == k * dy) by (nonlinear_arith)
        requires
            n * p.0 == (n - k) * p1.0 + k * p2.0,
            n * p.1 == (n - k) * p1.1 + k * p2.1,
            ux == p.0 - p1.0, uy == p.1 - p1.1, dx == p2.0 - p1.0, dy == p2.1 - p1.1;
    assert(n * vx == (n - k) * dx && n * vy == (n - k) * dy) by (nonlinear_arith)
        requires
            n * p.0 == (n - k) * p1.0 + k * p2.0,
            n * p.1 == (n - k) * p1.1 + k * p2.1,
            vx == p2.0 - p.0, vy == p2.1 - p.1, dx == p2.0 - p1.0, dy == p2.1 - p1.1;
    let cross = ux * vy - uy * vx;
    let m = ux * vx + uy * vy;
    let nn = n * n;
    assert((n * ux) * (n * vy) == nn * (ux * vy)) by (nonlinear_arith)
        requires nn == n * n;
    assert((n * uy) * (n * vx) == nn * (uy * vx)) by (nonlinear_arith)
        requires nn == n * n;
    assert(nn * cross == nn * (ux * vy) - nn * (uy * vx)) by (nonlinear_arith)
        requires cross == ux * vy - uy * vx;
    assert((k * dx) * ((n - k) * dy) - (k * dy) * ((n - k) * dx) == 0) by (nonlinear_arith);
    assert(nn * cross == 0);
    assert(cross == 0) by (nonlinear_arith)
        requires nn * cross == 0, nn == n * n, n > 0;
    let j = n - k;
    assert((n * ux) * (n * vx) == nn * (ux * vx)) by (nonlinear_arith)
        requires nn == n * n;
    assert((n * uy) * (n * vy) == nn * (uy * vy)) by (nonlinear_arith)
        requires nn == n * n;
    assert((k * dx) * (j * dx) == (k * j) * (dx * dx)) by (nonlinear_arith);
    assert((k * dy) * (j * dy) == (k * j) * (dy * dy)) by (nonlinear_arith);
    assert(nn * m == nn * (ux * vx) + nn * (uy * vy)) by (nonlinear_arith)
        requires m == ux * vx + uy * vy;
    assert(nn * m == (k * j) * (dx * dx) + (k * j) * (dy * dy));
    assert((k * j) * (dx * dx) + (k * j) * (dy * dy) >= 0) by (nonlinear_arith)
        requires 0 <= k, 0 <= j;
    assert(m >= 0) by (nonlinear_arith)
        requires nn * m >= 0, nn == n * n, n > 0;
    let a = ux * ux + uy * uy;
    let b = vx * vx + vy * vy;
    let c = dx * dx + dy * dy;
    lemma_lagrange(ux, uy, vx, vy);
    assert(b * a == m * m + cross * cross);
    assert(a * b == m * m) by (nonlinear_arith)
        requires b * a == m * m, cross == 0;
    assert(c == a + b + 2 * m) by (nonlinear_arith)
        requires dx == ux + vx, dy == uy + vy, a == ux * ux + uy * uy, b == vx * vx + vy * vy,
            m == ux * vx + uy * vy, c == dx * dx + dy * dy;
    assert(a == sq_dist(p1, p));
    lemma_sq_dist_sym(p, p2);
    assert(b == sq_dist(p2, p));
    assert(c == sq_dist(p1, p2));
    assert(a >= 0 && b >= 0) by (nonlinear_arith)
        requires a == ux * ux + uy * uy, b == vx * vx + vy * vy;
    lemma_root(a);
    lemma_root(b);
    lemma_root(c);
    let r1 = root(a);
    let r2 = root(b);
    let rr = root(c);
    // the rounded whole is at most one more than the rounded parts
    let s1 = r1 + 1;
    let s2 = r2 + 1;
    assert(a * b < (s1 * s1) * (s2 * s2)) by (nonlinear_arith)
        requires 0 <= a < s1 * s1, 0 <= b < s2 * s2;
    assert(m * m < (s1 * s2) * (s1 * s2)) by (nonlinear_arith)
        requires m * m == a * b, a * b < (s1 * s1) * (s2 * s2);
    assert(s1 * s2 >= 0) by (nonlinear_arith)
        requires s1 >= 1, s2 >= 1;
    lemma_sq_lt(m, s1 * s2);
    assert(c < (s1 + s2) * (s1 + s2)) by (nonlinear_arith)
        requires c == a + b + 2 * m, a < s1 * s1, b < s2 * s2, m < s1 * s2;
    assert(rr * rr < (s1 + s2) * (s1 + s2));
    lemma_sq_lt(rr, s1 + s2);
    // and never less than them
    assert((r1 * r2) * (r1 * r2) <= a * b) by (nonlinear_arith)
        requires 0 <= r1 * r1 <= a, 0 <= r2 * r2 <= b, r1 >= 0, r2 >= 0;
    assert(r1 * r2 >= 0) by (nonlinear_arith)
        requires r1 >= 0, r2 >= 0;
    lemma_sq_le(r1 * r2, m);
    assert((r1 + r2) * (r1 + r2) < (rr + 1) * (rr + 1)) by (nonlinear_arith)
        requires c == a + b + 2 * m, r1 * r1 <= a, r2 * r2 <= b, r1 * r2 <= m, c < (rr + 1) * (rr + 1);
    lemma_sq_lt(r1 + r2, rr + 1);
}

/// A point beyond the segment's second end, along the segment's direction,
/// by more than `tol` (its projection onto the line lies past that end by
/// more than `tol`) is not on the segment, for any tolerance of at least
/// one step.
pub proof fn lemma_beyond_end_off_segment(line: ((int, int), (int, int)), p: (int, int), tol: int)
    requires
        tol >= 1,
        ({
            let dot = (p.0 - line.1.0) * (line.1.0 - line.0.0) + (p.1 - line.1.1) * (line.1.1 - line.0.1);
            dot > 0 && dot * dot > tol * tol * sq_dist(line.0, line.1)
        }),
    ensures
        !on_segment(line, p, tol),
{
    let (p1, p2) = line;
    let dx = p2.0 - p1.0;
    let dy = p2.1 - p1.1;
    let wx = p.0 - p2.0;
    let wy = p.1 - p2.1;
    let dot = wx * dx + wy * dy;
    let len2 = dx * dx + dy * dy;
    let a2 = wx * wx + wy * wy;
    let a1 = (wx + dx) * (wx + dx) + (wy + dy) * (wy + dy);
    assert(a1 == a2 + 2 * dot + len2) by (nonlinear_arith)
        requires a1 == (wx + dx) * (wx + dx) + (wy + dy) * (wy + dy), a2 == wx * wx + wy * wy,
            dot == wx * dx + wy * dy, len2 == dx * dx + dy * dy;
    lemma_lagrange(wx, wy, dx, dy);
    assert(0 <= (wx * dy - wy * dx) * (wx * dy - wy * dx)) by (nonlinear_arith);
    assert(len2 * a2 >= dot * dot);
    assert(len2 >= 0 && a2 >= 0) by (nonlinear_arith)
        requires len2 == dx * dx + dy * dy, a2 == wx * wx + wy * wy;
    assert(tol * tol * len2 >= 0) by (nonlinear_arith)
        requires len2 >= 0;
    assert(len2 > 0) by (nonlinear_arith)
        requires len2 * a2 >= dot * dot, dot > 0, len2 >= 0, a2 >= 0;
    assert(a2 > tol * tol) by (nonlinear_arith)
        requires len2 * a2 > tol * tol * len2, len2 > 0;
    assert(sq_dist(p1, p) == a1);
    lemma_sq_dist_sym(p, p2);
    assert(sq_dist(p2, p) == a2);
    assert(sq_dist(p1, p2) == len2);
    lemma_root(a1);
    lemma_root(a2);
    lemma_root(len2);
    let r1 = root(a1);
    let r2 = root(a2);
    let rr = root(len2);
    lemma_sq_lt(tol, r2 + 1);
    assert((tol * rr) * (tol * rr) < dot * dot) by (nonlinear_arith)
        requires rr * rr <= len2, dot * dot > tol * tol * len2, tol >= 1, rr >= 0;
    assert(tol * rr >= 0) by (nonlinear_arith)
        requires tol >= 1, rr >= 0;
    lemma_sq_lt(tol * rr, dot);
    assert(a1 > (tol + rr) * (tol + rr)) by (nonlinear_arith)
        requires a1 == a2 + 2 * dot + len2, a2 > tol * tol, dot > tol * rr, len2 >= rr * rr;
    lemma_sq_lt(tol + rr, r1 + 1);
}

/// A point outside a segment's capsule along its line, past either end by
/// more than `tol`, is not on the segment, for any tolerance of at least one
/// step.
pub proof fn lemma_outside_capsule(line: ((int, int), (int, int)), p: (int, int), tol: int)
    requires
        tol >= 1,
        ({
            let dot = (p.0 - line.1.0) * (line.1.0 - line.0.0) + (p.1 - line.1.1) * (line.1.1 - line.0.1);
            dot > 0 && dot * dot > tol * tol * sq_dist(line.0, line.1)
        }) || ({
            let dot = (p.0 - line.0.0) * (line.0.0 - line.1.0) + (p.1 - line.0.1) * (line.0.1 - line.1.1);
            dot > 0 && dot * dot > tol * tol * sq_dist(line.1, line.0)
        }),
    ensures
        !on_segment(line, p, tol),
{
    let dot = (p.0 - line.1.0) * (line.1.0 - line.0.0) + (p.1 - line.1.1) * (line.1.1 - line.0.1);
    if dot > 0 && dot * dot > tol * tol * sq_dist(line.0, line.1) {
        lemma_beyond_end_off_segment(line, p, tol);
    } else {
        let swapped = (line.1, line.0);
        lemma_beyond_end_off_segment(swapped, p, tol);
        lemma_sq_dist_sym(line.0, line.1);
    }
}

/// A circle whose centre `q` lies at least `radius` away from every point
/// that counts as on any of the walls `w` meets none of them.
pub proof fn lemma_far_circle_meets_nothing(w: Seq<((int, int), (int, int))>, q: (int, int), radius: int)
    requires
        forall|i: int, p: (int, int)|
            0 <= i < w.len() && on_segment(#[trigger] w[i], p, TOLERANCE as int) ==> #[trigger] sq_dist(p, q)
                >= radius * radius,
    ensures
        last_push(w, q, radius) is None,
    decreases w.len(),
{
    if w.len() > 0 {
        let l = w.last();
        if collision(l, q, radius) is Some {
            let c = closest(l, q);
            assert(on_segment(w[w.len() - 1], c, TOLERANCE as int));
            assert(sq_dist(c, q) >= radius * radius);
            assert(sq_dist(c, q) >= 0) by (nonlinear_arith)
                requires sq_dist(c, q) == (q.0 - c.0) * (q.0 - c.0) + (q.1 - c.1) * (q.1 - c.1);
            lemma_root(sq_dist(c, q));
            let r = dist(c, q);
            assert(false) by (nonlinear_arith)
                requires sq_dist(c, q) < (r + 1) * (r + 1), r + 1 <= radius, r >= 0,
                    sq_dist(c, q) >= radius * radius;
        }
        let rest = w.drop_last();
        assert forall|i: int, p: (int, int)|
            0 <= i < rest.len() && on_segment(#[trigger] rest[i], p, TOLERANCE as int) implies #[trigger] sq_dist(p, q)
                >= radius * radius by {
            assert(rest[i] == w[i]);
        }
        lemma_far_circle_meets_nothing(rest, q, radius);
    }
}

/// Applying a push-out vector to the proposed centre lands exactly on the
/// nearest point of the wall's line, which counts as on the segment and lies
/// closer than `radius` to the centre.
pub proof fn lemma_push_lands_on_wall(line: ((int, int), (int, int)), q: (int, int), radius: int)
    requires
        collision(line, q, radius) is Some,
    ensures
        ({
            let v = collision(line, q, radius).unwrap();
            let c = closest(line, q);
            &&& (q.0 + v.0, q.1 + v.1) == c
            &&& on_segment(line, c, TOLERANCE as int)
            &&& sq_dist(c, q) < radius * radius
        }),
{
    let c = closest(line, q);
    assert(sq_dist(c, q) >= 0) by (nonlinear_arith)
        requires sq_dist(c, q) == (q.0 - c.0) * (q.0 - c.0) + (q.1 - c.1) * (q.1 - c.1);
    lemma_root(sq_dist(c, q));
    let r = dist(c, q);
    assert(sq_dist(c, q) < radius * radius) by (nonlinear_arith)
        requires sq_dist(c, q) < (r + 1) * (r + 1), r + 1 <= radius, r >= 0;
}

/// Shifting the walls and then shifting them back restores them exactly.
pub proof fn lemma_translate_round_trip(w: Seq<((int, int), (int, int))>, dx: int, dy: int)
    ensures
        translated_world(translated_world(w, dx, dy), -dx, -dy) == w,
{
    assert(translated_world(translated_world(w, dx, dy), -dx, -dy) =~= w);
}

/// Rotating a point by an exact unit rotation (`c^2 + s^2` equal to the
/// scale squared) and then by its inverse brings each coordinate back to
/// within two steps.
pub proof fn lemma_rotate_round_trip(p: (int, int), c: int, s: int)
    requires
        c * c + s * s == ROT_SCALE * ROT_SCALE,
    ensures
        -2 <= rotated(rotated(p, c, s), c, -s).0 - p.0 <= 2,
        -2 <= rotated(rotated(p, c, s), c, -s).1 - p.1 <= 2,
{
    let k = ROT_SCALE as int;
    let (x, y) = p;
    assert(0 <= c * c && 0 <= s * s) by (nonlinear_arith);
    assert((-c) * (-c) == c * c && (-s) * (-s) == s * s) by (nonlinear_arith);
    if c < 0 {
        lemma_sq_le(-c, k);
    } else {
        lemma_sq_le(c, k);
    }
    if s < 0 {
        lemma_sq_le(-s, k);
    } else {
        lemma_sq_le(s, k);
    }
    let a = x * c - y * s;
    let b = x * s + y * c;
    vstd::arithmetic::div_mod::lemma_fundamental_div_mod(a, k);
    vstd::arithmetic::div_mod::lemma_fundamental_div_mod(b, k);
    let x1 = a / k;
    let y1 = b / k;
    let e1 = a % k;
    let e2 = b % k;
    assert(rotated(p, c, s) == (x1, y1));
    let nx = x1 * c - y1 * (-s);
    let ny = x1 * (-s) + y1 * c;
    vstd::arithmetic::div_mod::lemma_fundamental_div_mod(nx, k);
    vstd::arithmetic::div_mod::lemma_fundamental_div_mod(ny, k);
    let x2 = nx / k;
    let y2 = ny / k;
    let e3 = nx % k;
    let e4 = ny % k;
    assert(rotated((x1, y1), c, -s) == (x2, y2));
    assert(k * nx == (k * x1) * c + (k * y1) * s) by (nonlinear_arith)
        requires nx == x1 * c - y1 * (-s);
    assert((k * x1) * c + (k * y1) * s == (a - e1) * c + (b - e2) * s) by (nonlinear_arith)
        requires k * x1 == a - e1, k * y1 == b - e2;
    assert((a - e1) * c + (b - e2) * s == (a * c + b * s) - (e1 * c + e2 * s)) by (nonlinear_arith);
    assert(a * c + b * s == x * (c * c + s * s)) by (nonlinear_arith)
        requires a == x * c - y * s, b == x * s + y * c;
    assert(k * nx == x * (k * k) - (e1 * c + e2 * s));
    assert(k * ny == (k * y1) * c - (k * x1) * s) by (nonlinear_arith)
        requires ny == x1 * (-s) + y1 * c;
    assert((k * y1) * c - (k * x1) * s == (b - e2) * c - (a - e1) * s) by (nonlinear_arith)
        requires k * x1 == a - e1, k * y1 == b - e2;
    assert((b - e2) * c - (a - e1) * s == (b * c - a * s) - (e2 * c - e1 * s)) by (nonlinear_arith);
    assert(b * c - a * s == y * (c * c + s * s)) by (nonlinear_arith)
        requires a == x * c - y * s, b == x * s + y * c;
    assert(k * ny == y * (k * k) - (e2 * c - e1 * s));
    assert(-(k * k) < e1 * c < k * k && -(k * k) < e2 * s < k * k && -(k * k) < e2 * c < k * k && -(k
        * k) < e1 * s < k * k) by (nonlinear_arith)
        requires 0 <= e1 < k, 0 <= e2 < k, -k <= c <= k, -k <= s <= k, k > 0;
    assert(0 <= k * e3 < k * k && 0 <= k * e4 < k * k) by (nonlinear_arith)
        requires 0 <= e3 < k, 0 <= e4 < k, k > 0;
    assert((k * k) * (x2 - x) == -(e1 * c + e2 * s) - k * e3) by (nonlinear_arith)
        requires k * nx == x * (k * k) - (e1 * c + e2 * s), nx == k * x2 + e3;
    assert((k * k) * (y2 - y) == -(e2 * c - e1 * s) - k * e4) by (nonlinear_arith)
        requires k * ny == y * (k * k) - (e2 * c - e1 * s), ny == k * y2 + e4;
    let t = x2 - x;
    let u = y2 - y;
    assert(-3 < t < 2) by (nonlinear_arith)
        requires -3 * (k * k) < (k * k) * t < 2 * (k * k), k > 0;
    assert(-3 < u < 2) by (nonlinear_arith)
        requires -3 * (k * k) < (k * k) * u < 2 * (k * k), k > 0;
}

/// The near plane keeps a wall wholly on its near side unchanged, drops a
/// wall wholly beyond it, and cuts a crossing wall (under `Clip`) into one
/// that keeps its near end and gains exactly one new end, on the plane.
pub proof fn lemma_clip_classification(l: ((int, int), (int, int)), depth: int, policy: ClipPolicy)
    ensures
        l.0.1 <= depth && l.1.1 <= depth ==> clip_result(l, depth, policy) == Some(l),
        l.0.1 > depth && l.1.1 > depth ==> clip_result(l, depth, policy) is None,
        (l.0.1 <= depth) != (l.1.1 <= depth) && policy == ClipPolicy::Clip ==> ({
            let r = clip_result(l, depth, policy).unwrap();
            &&& clip_result(l, depth, policy) is Some
            &&& (r.0 == l.0 || r.0 == l.1)
            &&& r.0.1 <= depth
            &&& r.1.1 == depth
        }),
        (l.0.1 <= depth) != (l.1.1 <= depth) && policy == ClipPolicy::Discard ==> clip_result(l, depth, policy) is None,
{
}

} // verus!
