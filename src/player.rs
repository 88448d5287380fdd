use vstd::prelude::*;
use crate::math::{
    bounded, dist, distance, floor_div, lemma_div_within, lemma_root, line_point, on_segment, sq_dist,
};
use crate::walls::{
    lemma_world_bounded_mono, lemma_world_rotated_bounded, lemma_world_translated_bounded, line_bounded, rotated_world, translated_world, world_bounded, Line, Point,
    Rotation, World, UNIT, COORD_LIMIT, TOLERANCE, TURN_COS, TURN_SIN,
};

verus! {

/// The player: a circle that stays at the origin while the world moves
/// round it.
pub struct Player {
    /// Where the last step proposed to move, relative to the player.
    pub proj_x: i64,
    pub proj_y: i64,
    /// Whether the last step met no wall.
    pub can_move: bool,
    /// Radius of the collision circle.
    pub radius: i64,
    /// Speed in fixed-point steps per second.
    pub speed: i64,
    /// Depth of the near plane.
    pub clip_depth: i64,
    /// Divisor applied to a push-out vector before it becomes the velocity.
    pub damping: i64,
    /// Velocity of the last step, in fixed-point steps.
    pub velocity: (i64, i64),
}

/// The movement keys held during one step.
#[derive(Clone, Copy, Debug, PartialEq, Eq, Structural)]
pub struct Input {
    pub left: bool,
    pub right: bool,
    pub forward: bool,
    pub back: bool,
    pub turn_left: bool,
    pub turn_right: bool,
}

/// Microseconds in a second.
pub const MICROS: i64 = 1_000_000;

/// The velocity that the keys ask for, per second: right wins over left and
/// back over forward. Positive x moves the world right, so the player left.
pub open spec fn input_velocity(input: Input, speed: int) -> (int, int) {
    (
        if input.right { -speed } else if input.left { speed } else { 0 },
        if input.back { -speed } else if input.forward { speed } else { 0 },
    )
}

/// The velocity for a step of `dt` microseconds, rounded down.
pub open spec fn step_velocity(input: Input, speed: int, dt: int) -> (int, int) {
    let v = input_velocity(input, speed);
    (v.0 * dt / MICROS as int, v.1 * dt / MICROS as int)
}

/// The world after the turn keys: turning left rotates the world by the
/// turn angle, turning right by its opposite (left first).
pub open spec fn turned(w: Seq<((int, int), (int, int))>, input: Input) -> Seq<((int, int), (int, int))> {
    let w1 = if input.turn_left { rotated_world(w, TURN_COS as int, TURN_SIN as int) } else { w };
    if input.turn_right { rotated_world(w1, TURN_COS as int, -TURN_SIN) } else { w1 }
}

/// The push-out vector of the last wall of `w` that the circle meets.
pub open spec fn last_push(w: Seq<((int, int), (int, int))>, q: (int, int), radius: int) -> Option<(int, int)>
    decreases w.len(),
{
    if w.len() == 0 {
        None
    } else {
        let c = collision(w.last(), q, radius);
        if c is Some {
            c
        } else {
            last_push(w.drop_last(), q, radius)
        }
    }
}

/// The velocity a step ends with: the last push-out vector divided by
/// `damping` when a wall was met, else the velocity asked for.
pub open spec fn resolved_velocity(hit: Option<(int, int)>, v: (int, int), damping: int) -> (int, int) {
    match hit {
        Some(p) => (p.0 / damping, p.1 / damping),
        None => v,
    }
}

/// The point of the infinite line through `line` nearest to `q`, each
/// coordinate rounded down; `line` must not be degenerate.
pub open spec fn closest(line: ((int, int), (int, int)), q: (int, int)) -> (int, int) {
    let dx = line.1.0 - line.0.0;
    let dy = line.1.1 - line.0.1;
    let len2 = dx * dx + dy * dy;
    let dot = (q.0 - line.0.0) * dx + (q.1 - line.0.1) * dy;
    (line.0.0 + dot * dx / len2, line.0.1 + dot * dy / len2)
}

/// The push-out vector of a circle of `radius` centred at `q` against `line`:
/// from `q` to the nearest point of the line, when that point lies on the
/// segment (up to `TOLERANCE`) and is closer than `radius`; none otherwise,
/// and none for a degenerate segment.
pub open spec fn collision(line: ((int, int), (int, int)), q: (int, int), radius: int) -> Option<(int, int)> {
    if line.0 == line.1 {
        None
    } else {
        let c = closest(line, q);
        if on_segment(line, c, TOLERANCE as int) && dist(c, q) < radius {
            Some((c.0 - q.0, c.1 - q.1))
        } else {
            None
        }
    }
}

/// Lagrange's identity in the plane: `|u|^2 |d|^2 = (u.d)^2 + (u x d)^2`.
pub proof fn lemma_lagrange(ux: int, uy: int, dx: int, dy: int)
    ensures
        (dx * dx + dy * dy) * (ux * ux + uy * uy) == (ux * dx + uy * dy) * (ux * dx + uy * dy) + (ux
            * dy - uy * dx) * (ux * dy - uy * dx),
{
    let a = ux * dx;
    let b = uy * dy;
    let c = ux * dy;
    let e = uy * dx;
    assert(a * b == c * e) by (nonlinear_arith)
        requires a == ux * dx, b == uy * dy, c == ux * dy, e == uy * dx;
    assert((a + b) * (a + b) == a * a + 2 * (a * b) + b * b) by (nonlinear_arith);
    assert((c - e) * (c - e) == c * c - 2 * (c * e) + e * e) by (nonlinear_arith);
    assert(a * a == (dx * dx) * (ux * ux)) by (nonlinear_arith) requires a == ux * dx;
    assert(b * b == (dy * dy) * (uy * uy)) by (nonlinear_arith) requires b == uy * dy;
    assert(c * c == (dy * dy) * (ux * ux)) by (nonlinear_arith) requires c == ux * dy;
    assert(e * e == (dx * dx) * (uy * uy)) by (nonlinear_arith) requires e == uy * dx;
    let p = dx * dx;
    let q = dy * dy;
    let r = ux * ux;
    let t = uy * uy;
    assert((p + q) * (r + t) == p * r + p * t + q * r + q * t) by (nonlinear_arith);
}

/// The nearest point of the line lies no further from the segment's first
/// end than the centre does: each coordinate offset is at most `3 * lim`
/// when the centre and both ends lie within `lim`.
proof fn lemma_closest_bound(ux: int, uy: int, dx: int, dy: int, lim: int)
    requires
        0 <= lim,
        -2 * lim <= ux <= 2 * lim,
        -2 * lim <= uy <= 2 * lim,
        -2 * lim <= dx <= 2 * lim,
        -2 * lim <= dy <= 2 * lim,
        dx * dx + dy * dy > 0,
    ensures
        -3 * lim <= (ux * dx + uy * dy) * dx / (dx * dx + dy * dy) <= 3 * lim,
{
    let len2 = dx * dx + dy * dy;
    let dot = ux * dx + uy * dy;
    let uu = ux * ux + uy * uy;
    let n = dot * dx;
    lemma_lagrange(ux, uy, dx, dy);
    assert(0 <= (ux * dy - uy * dx) * (ux * dy - uy * dx)) by (nonlinear_arith);
    assert(0 <= dot * dot) by (nonlinear_arith);
    assert(0 <= dot * dot <= len2 * uu);
    assert(uu <= 8 * lim * lim) by (nonlinear_arith)
        requires uu == ux * ux + uy * uy, -2 * lim <= ux <= 2 * lim, -2 * lim <= uy <= 2 * lim;
    assert(0 <= dx * dx <= len2) by (nonlinear_arith)
        requires len2 == dx * dx + dy * dy;
    let a = dot * dot;
    let b = dx * dx;
    assert(a * b <= (len2 * uu) * len2) by (nonlinear_arith)
        requires 0 <= a <= len2 * uu, 0 <= b <= len2;
    assert(n * n == a * b) by (nonlinear_arith)
        requires n == dot * dx, a == dot * dot, b == dx * dx;
    assert((len2 * uu) * len2 <= 8 * lim * lim * len2 * len2) by (nonlinear_arith)
        requires uu <= 8 * lim * lim, len2 > 0;
    assert(-3 * lim * len2 < n < 3 * lim * len2 || lim == 0) by (nonlinear_arith)
        requires n * n <= 8 * lim * lim * len2 * len2, len2 > 0, lim >= 0;
    if lim == 0 {
        assert(n == 0) by (nonlinear_arith)
            requires n * n <= 8 * lim * lim * len2 * len2, lim == 0;
    }
    vstd::arithmetic::div_mod::lemma_fundamental_div_mod(n, len2);
    let q = n / len2;
    let r = n % len2;
    assert(-3 * lim <= q <= 3 * lim) by (nonlinear_arith)
        requires
            n == len2 * q + r,
            0 <= r < len2,
            -3 * lim * len2 <= n <= 3 * lim * len2,
            len2 > 0,
            lim >= 0,
    ;
}

/// A push-out vector is shorter than the radius in each coordinate.
proof fn lemma_push_bound(line: ((int, int), (int, int)), q: (int, int), radius: int)
    requires
        collision(line, q, radius) is Some,
    ensures
        ({
            let p = collision(line, q, radius).unwrap();
            -radius < p.0 < radius && -radius < p.1 < radius
        }),
{
    let c = closest(line, q);
    let n = sq_dist(c, q);
    assert(n >= 0) by (nonlinear_arith)
        requires n == (q.0 - c.0) * (q.0 - c.0) + (q.1 - c.1) * (q.1 - c.1);
    lemma_root(n);
    let r = dist(c, q);
    assert(n < radius * radius) by (nonlinear_arith)
        requires n < (r + 1) * (r + 1), r + 1 <= radius, r >= 0;
    let a = c.0 - q.0;
    let b = c.1 - q.1;
    assert(-radius < a < radius && -radius < b < radius) by (nonlinear_arith)
        requires n == (q.0 - c.0) * (q.0 - c.0) + (q.1 - c.1) * (q.1 - c.1), a == c.0 - q.0, b == c.1 - q.1,
            n < radius * radius, radius > 0;
}

/// Dividing by a positive `d` does not move a value away from zero.
proof fn lemma_div_shrinks(p: int, d: int, m: int)
    requires
        d >= 1,
        -m <= p <= m,
    ensures
        -m <= p / d <= m,
{
    vstd::arithmetic::div_mod::lemma_fundamental_div_mod(p, d);
    let q = p / d;
    let r = p % d;
    assert(-m <= q <= m) by (nonlinear_arith)
        requires p == d * q + r, 0 <= r < d, d >= 1, -m <= p <= m;
}

proof fn lemma_last_push_step(w: Seq<((int, int), (int, int))>, i: int, q: (int, int), radius: int)
    requires
        0 <= i < w.len(),
    ensures
        last_push(w.take(i + 1), q, radius) == (if collision(w[i], q, radius) is Some {
            collision(w[i], q, radius)
        } else {
            last_push(w.take(i), q, radius)
        }),
{
    assert(w.take(i + 1).drop_last() =~= w.take(i));
    assert(w.take(i + 1).last() == w[i]);
}

impl Player {
    /// Radius, speed, near plane and damping are in range.
    pub open spec fn wf(&self) -> bool {
        &&& 0 < self.radius <= COORD_LIMIT / 2
        &&& 0 <= self.speed <= 0x4000_0000
        &&& 0 < self.clip_depth
        &&& 0 < self.damping
    }

    /// The player at rest at the origin, with a radius of 15 units, a speed
    /// of 300 units a second, the near plane one unit ahead, and push-out
    /// vectors divided by 16.
    pub fn init() -> (r: Player)
        ensures
            r.wf(),
            r.radius == 15 * UNIT,
            r.speed == 300 * UNIT,
            r.clip_depth == UNIT,
            r.damping == 16,
            r.proj_x == 0 && r.proj_y == 0,
            r.can_move,
            r.velocity == (0i64, 0i64),
    {
        Player {
            proj_x: 0,
            proj_y: 0,
            can_move: true,
            radius: 15 * UNIT,
            speed: 300 * UNIT,
            clip_depth: UNIT,
            damping: 16,
            velocity: (0, 0),
        }
    }

    /// Checks the circle at the proposed position against every wall of
    /// `world`; returns the push-out vector of the last wall it meets.
    pub fn collide_all(&self, world: &World) -> (hit: Option<(i64, i64)>)
        requires
            world_bounded(world@, COORD_LIMIT as int),
            bounded((self.proj_x as int, self.proj_y as int), COORD_LIMIT as int),
        ensures
            match hit {
                Some(h) => last_push(world@, (self.proj_x as int, self.proj_y as int), self.radius as int)
                    == Some((h.0 as int, h.1 as int)) && -self.radius < h.0 < self.radius && -self.radius
                    < h.1 < self.radius,
                None => last_push(world@, (self.proj_x as int, self.proj_y as int), self.radius as int) is None,
            },
    {
        let ghost q = (self.proj_x as int, self.proj_y as int);
        let ghost radius = self.radius as int;
        let ghost w = world@;
        let mut hit: Option<(i64, i64)> = None;
        let n = world.vec.len();
        for i in 0..n
            invariant
                n == world.vec.len(),
                w == world@,
                world_bounded(w, COORD_LIMIT as int),
                bounded(q, COORD_LIMIT as int),
                q == (self.proj_x as int, self.proj_y as int),
                radius == self.radius,
                match hit {
                    Some(h) => last_push(w.take(i as int), q, radius) == Some((h.0 as int, h.1 as int))
                        && -radius < h.0 < radius && -radius < h.1 < radius,
                    None => last_push(w.take(i as int), q, radius) is None,
                },
        {
            proof {
                lemma_last_push_step(w, i as int, q, radius);
                assert(line_bounded(w[i as int], COORD_LIMIT as int));
                assert(world.vec@[i as int]@ == w[i as int]);
            }
            let (c, px, py) = self.wall_collision(world.vec[i]);
            if c {
                proof {
                    lemma_push_bound(w[i as int], q, radius);
                }
                hit = Some((px, py));
            }
        }
        proof {
            assert(w.take(n as int) =~= w);
        }
        hit
    }

    /// One step of movement: the turn keys rotate the world, the movement keys
    /// give a velocity for `dt` microseconds, the circle at the position that
    /// velocity proposes is checked against every wall, and the world is moved
    /// by the velocity, or, if a wall was met, by the last wall's push-out
    /// vector divided by `damping`.
    #[verifier::rlimit(30)]
    pub fn move_player(&mut self, input: &Input, world: &mut World, dt: i64)
        requires
            old(self).wf(),
            0 <= dt <= 10 * MICROS,
            world_bounded(old(world)@, COORD_LIMIT / 8),
        ensures
            ({
                let w1 = turned(old(world)@, *input);
                let v = step_velocity(*input, old(self).speed as int, dt as int);
                let q = (-v.0, -v.1);
                let hit = last_push(w1, q, old(self).radius as int);
                let vel = resolved_velocity(hit, v, old(self).damping as int);
                &&& final(self).proj_x == q.0
                &&& final(self).proj_y == q.1
                &&& final(self).can_move == hit is None
                &&& final(self).velocity.0 == vel.0
                &&& final(self).velocity.1 == vel.1
                &&& final(world)@ == translated_world(w1, vel.0, vel.1)
            }),
            final(self).radius == old(self).radius,
            final(self).speed == old(self).speed,
            final(self).clip_depth == old(self).clip_depth,
            final(self).damping == old(self).damping,
    {
        let ghost w0 = world@;
        let turn = Rotation { cos: TURN_COS, sin: TURN_SIN };
        proof {
            lemma_world_bounded_mono(w0, COORD_LIMIT / 8, COORD_LIMIT as int);
            lemma_world_rotated_bounded(w0, TURN_COS as int, TURN_SIN as int, COORD_LIMIT / 8);
        }
        if input.turn_left {
            let inv = turn.inverse();
            world.rotate(&inv);
        }
        let ghost wa = world@;
        proof {
            assert(world_bounded(wa, COORD_LIMIT / 4)) by {
                if !input.turn_left {
                    lemma_world_bounded_mono(w0, COORD_LIMIT / 8, COORD_LIMIT / 4);
                }
            }
            lemma_world_bounded_mono(wa, COORD_LIMIT / 4, COORD_LIMIT as int);
            lemma_world_rotated_bounded(wa, TURN_COS as int, -TURN_SIN, COORD_LIMIT / 4);
        }
        if input.turn_right {
            world.rotate(&turn);
        }
        let ghost w1 = world@;
        proof {
            assert(w1 == turned(w0, *input));
            assert(world_bounded(w1, COORD_LIMIT / 2)) by {
                if !input.turn_right {
                    lemma_world_bounded_mono(wa, COORD_LIMIT / 4, COORD_LIMIT / 2);
                }
            }
        }
        let mut vx: i64 = 0;
        let mut vy: i64 = 0;
        if input.left {
            vx = self.speed;
        }
        if input.right {
            vx = -self.speed;
        }
        if input.forward {
            vy = self.speed;
        }
        if input.back {
            vy = -self.speed;
        }
        let ghost m = 0x4000_0000 * 10int;
        proof {
            assert(-m * MICROS <= vx * dt <= m * MICROS) by (nonlinear_arith)
                requires -0x4000_0000 <= vx <= 0x4000_0000, 0 <= dt <= 10 * MICROS, m == 0x4000_0000 * 10int;
            assert(-m * MICROS <= vy * dt <= m * MICROS) by (nonlinear_arith)
                requires -0x4000_0000 <= vy <= 0x4000_0000, 0 <= dt <= 10 * MICROS, m == 0x4000_0000 * 10int;
            lemma_div_within(vx * dt, MICROS as int, m);
            lemma_div_within(vy * dt, MICROS as int, m);
            lemma_world_bounded_mono(w1, COORD_LIMIT / 2, COORD_LIMIT as int);
        }
        let v0x = floor_div(vx as i128 * dt as i128, MICROS as i128) as i64;
        let v0y = floor_div(vy as i128 * dt as i128, MICROS as i128) as i64;
        let ghost v = step_velocity(*input, self.speed as int, dt as int);
        assert(v == (v0x as int, v0y as int));
        self.proj_x = -v0x;
        self.proj_y = -v0y;
        let ghost q = (-v.0, -v.1);
        let ghost radius = self.radius as int;
        proof {
            assert(bounded(q, COORD_LIMIT as int));
        }
        let hit = self.collide_all(world);
        let ghost hit_v = last_push(w1, q, radius);
        let vel: (i64, i64) = match hit {
            Some(h) => {
                proof {
                    lemma_div_shrinks(h.0 as int, self.damping as int, radius);
                    lemma_div_shrinks(h.1 as int, self.damping as int, radius);
                }
                (floor_div(h.0 as i128, self.damping as i128) as i64, floor_div(h.1 as i128, self.damping as i128) as i64)
            },
            None => (v0x, v0y),
        };
        proof {
            let d = resolved_velocity(hit_v, v, self.damping as int);
            assert(d == (vel.0 as int, vel.1 as int));
            lemma_world_translated_bounded(w1, vel.0 as int, vel.1 as int, COORD_LIMIT / 2, COORD_LIMIT / 2);
        }
        self.can_move = hit.is_none();
        self.velocity = vel;
        world.translate(vel.0, vel.1);
    }
    /// Checks the circle of `radius` at the proposed position `(proj_x, proj_y)`
    /// against `line`. Returns whether they overlap and, if so, the push-out
    /// vector from the proposed position to the nearest point of the wall;
    /// `(false, 0, 0)` otherwise.
    pub fn wall_collision(&self, line: Line) -> (r: (bool, i64, i64))
        requires
            bounded(line.p1@, COORD_LIMIT as int),
            bounded(line.p2@, COORD_LIMIT as int),
            bounded((self.proj_x as int, self.proj_y as int), COORD_LIMIT as int),
        ensures
            r.0 == collision(line@, (self.proj_x as int, self.proj_y as int), self.radius as int) is Some,
            r.0 ==> collision(line@, (self.proj_x as int, self.proj_y as int), self.radius as int)
                == Some((r.1 as int, r.2 as int)),
            !r.0 ==> r.1 == 0 && r.2 == 0,
    {
        let x1 = line.p1.x as i128;
        let y1 = line.p1.y as i128;
        let dx: i128 = line.p2.x as i128 - x1;
        let dy: i128 = line.p2.y as i128 - y1;
        let ux: i128 = self.proj_x as i128 - x1;
        let uy: i128 = self.proj_y as i128 - y1;
        proof {
            assert(0 <= dx * dx <= 4 * COORD_LIMIT * COORD_LIMIT) by (nonlinear_arith)
                requires -2 * COORD_LIMIT <= dx <= 2 * COORD_LIMIT;
            assert(0 <= dy * dy <= 4 * COORD_LIMIT * COORD_LIMIT) by (nonlinear_arith)
                requires -2 * COORD_LIMIT <= dy <= 2 * COORD_LIMIT;
            assert(-4 * COORD_LIMIT * COORD_LIMIT <= ux * dx <= 4 * COORD_LIMIT * COORD_LIMIT) by (nonlinear_arith)
                requires -2 * COORD_LIMIT <= dx <= 2 * COORD_LIMIT, -2 * COORD_LIMIT <= ux <= 2 * COORD_LIMIT;
            assert(-4 * COORD_LIMIT * COORD_LIMIT <= uy * dy <= 4 * COORD_LIMIT * COORD_LIMIT) by (nonlinear_arith)
                requires -2 * COORD_LIMIT <= dy <= 2 * COORD_LIMIT, -2 * COORD_LIMIT <= uy <= 2 * COORD_LIMIT;
        }
        let len2: i128 = dx * dx + dy * dy;
        if len2 == 0 {
            proof {
                assert(dx == 0 && dy == 0) by (nonlinear_arith)
                    requires dx * dx + dy * dy == 0;
            }
            return (false, 0, 0);
        }
        proof {
            assert(line.p1@ != line.p2@);
        }
        let dot: i128 = ux * dx + uy * dy;
        proof {
            let b = 8 * COORD_LIMIT * COORD_LIMIT;
            assert(-b * (2 * COORD_LIMIT) <= dot * dx <= b * (2 * COORD_LIMIT)) by (nonlinear_arith)
                requires -b <= dot <= b, -2 * COORD_LIMIT <= dx <= 2 * COORD_LIMIT, b >= 0;
            assert(-b * (2 * COORD_LIMIT) <= dot * dy <= b * (2 * COORD_LIMIT)) by (nonlinear_arith)
                requires -b <= dot <= b, -2 * COORD_LIMIT <= dy <= 2 * COORD_LIMIT, b >= 0;
            lemma_closest_bound(ux as int, uy as int, dx as int, dy as int, COORD_LIMIT as int);
            lemma_closest_bound(uy as int, ux as int, dy as int, dx as int, COORD_LIMIT as int);
            assert(dy * dy + dx * dx == len2);
            assert(uy * dy + ux * dx == dot);
        }
        let ox = floor_div(dot * dx, len2);
        let oy = floor_div(dot * dy, len2);
        let near = Point { x: (x1 + ox) as i64, y: (y1 + oy) as i64 };
        let proj = Point { x: self.proj_x, y: self.proj_y };
        assert(near@ == closest(line@, proj@));
        if !line_point(&line, &near) {
            return (false, 0, 0);
        }
        let d = distance(&near, &proj);
        if (d as i128) < (self.radius as i128) {
            (true, near.x - self.proj_x, near.y - self.proj_y)
        } else {
            (false, 0, 0)
        }
    }
}

} // verus!
