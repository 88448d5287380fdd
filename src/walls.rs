use vstd::prelude::*;
use crate::math::{bounded, floor_div, lemma_div_within};
use crate::player::Player;

verus! {

/// One world unit in fixed-point steps: coordinates count thousandths of a unit.
pub const UNIT: i64 = 1000;

/// How far off a segment a point may lie and still count as on it (half a unit).
pub const TOLERANCE: i64 = 500;

/// Bound on the coordinates of the world's points.
pub const COORD_LIMIT: i64 = 0x100_0000_0000;

/// Bound on the coordinates of points derived from world points (four times `COORD_LIMIT`).
pub const FAR_LIMIT: i64 = 0x400_0000_0000;

/// A point in coordinates relative to the player, who stands at the origin
/// and looks along the y axis.
#[derive(Clone, Copy, Debug, PartialEq, Eq, Structural)]
pub struct Point {
    pub x: i64,
    pub y: i64,
}

impl View for Point {
    type V = (int, int);

    open spec fn view(&self) -> (int, int) {
        (self.x as int, self.y as int)
    }
}

/// A wall: the segment between two points.
#[derive(Clone, Copy, Debug, PartialEq, Eq, Structural)]
pub struct Line {
    pub p1: Point,
    pub p2: Point,
}

impl View for Line {
    type V = ((int, int), (int, int));

    open spec fn view(&self) -> ((int, int), (int, int)) {
        (self.p1@, self.p2@)
    }
}

/// Fixed-point scale of a rotation's cosine and sine.
pub const ROT_SCALE: i64 = 0x10_0000;

/// A rotation about the origin, given by its cosine and sine times `ROT_SCALE`.
#[derive(Clone, Copy, Debug, PartialEq, Eq, Structural)]
pub struct Rotation {
    pub cos: i64,
    pub sin: i64,
}

/// Cosine of the player's turn per step, 0.005 radians, times `ROT_SCALE`.
pub const TURN_COS: i64 = 1048563;

/// Sine of the player's turn per step, 0.005 radians, times `ROT_SCALE`.
pub const TURN_SIN: i64 = 5243;

impl Rotation {
    /// Cosine and sine are at most one in magnitude.
    pub open spec fn wf(self) -> bool {
        -ROT_SCALE <= self.cos <= ROT_SCALE && -ROT_SCALE <= self.sin <= ROT_SCALE
    }

    /// The rotation by the opposite angle.
    pub fn inverse(&self) -> (r: Rotation)
        requires
            self.wf(),
        ensures
            r.cos == self.cos,
            r.sin == -self.sin,
            r.wf(),
    {
        Rotation { cos: self.cos, sin: -self.sin }
    }
}

/// `p` shifted by `(dx, dy)`.
pub open spec fn translated(p: (int, int), dx: int, dy: int) -> (int, int) {
    (p.0 + dx, p.1 + dy)
}

/// `p` rotated about the origin by cosine `c` and sine `s` (scaled by
/// `ROT_SCALE`), both new coordinates computed from the old pair and rounded down.
pub open spec fn rotated(p: (int, int), c: int, s: int) -> (int, int) {
    ((p.0 * c - p.1 * s) / ROT_SCALE as int, (p.0 * s + p.1 * c) / ROT_SCALE as int)
}

pub open spec fn translated_line(l: ((int, int), (int, int)), dx: int, dy: int) -> ((int, int), (int, int)) {
    (translated(l.0, dx, dy), translated(l.1, dx, dy))
}

pub open spec fn rotated_line(l: ((int, int), (int, int)), c: int, s: int) -> ((int, int), (int, int)) {
    (rotated(l.0, c, s), rotated(l.1, c, s))
}

pub open spec fn line_bounded(l: ((int, int), (int, int)), lim: int) -> bool {
    bounded(l.0, lim) && bounded(l.1, lim)
}

proof fn lemma_rotate_bound(x: int, y: int, c: int, s: int, lim: int)
    requires
        -lim <= x <= lim,
        -lim <= y <= lim,
        -ROT_SCALE <= c <= ROT_SCALE,
        -ROT_SCALE <= s <= ROT_SCALE,
        0 <= lim,
    ensures
        -lim * ROT_SCALE <= x * c <= lim * ROT_SCALE,
        -lim * ROT_SCALE <= y * s <= lim * ROT_SCALE,
        -lim * ROT_SCALE <= x * s <= lim * ROT_SCALE,
        -lim * ROT_SCALE <= y * c <= lim * ROT_SCALE,
        -2 * lim * ROT_SCALE <= x * c - y * s <= 2 * lim * ROT_SCALE,
        -2 * lim * ROT_SCALE <= x * s + y * c <= 2 * lim * ROT_SCALE,
        -2 * lim <= (x * c - y * s) / ROT_SCALE as int <= 2 * lim,
        -2 * lim <= (x * s + y * c) / ROT_SCALE as int <= 2 * lim,
{
    let k = ROT_SCALE as int;
    assert(-lim * k <= x * c <= lim * k) by (nonlinear_arith)
        requires -lim <= x <= lim, -k <= c <= k, 0 <= lim;
    assert(-lim * k <= y * s <= lim * k) by (nonlinear_arith)
        requires -lim <= y <= lim, -k <= s <= k, 0 <= lim;
    assert(-lim * k <= x * s <= lim * k) by (nonlinear_arith)
        requires -lim <= x <= lim, -k <= s <= k, 0 <= lim;
    assert(-lim * k <= y * c <= lim * k) by (nonlinear_arith)
        requires -lim <= y <= lim, -k <= c <= k, 0 <= lim;
    lemma_div_within(x * c - y * s, k, 2 * lim);
    lemma_div_within(x * s + y * c, k, 2 * lim);
}

impl Point {
    pub fn new(x: i64, y: i64) -> (r: Point)
        ensures
            r.x == x,
            r.y == y,
    {
        Point { x, y }
    }

    /// Shifts the point by `(x_dist, y_dist)`.
    pub fn translate(&mut self, x_dist: i64, y_dist: i64)
        requires
            bounded(translated(old(self)@, x_dist as int, y_dist as int), COORD_LIMIT as int),
        ensures
            final(self)@ == translated(old(self)@, x_dist as int, y_dist as int),
    {
        self.x = self.x + x_dist;
        self.y = self.y + y_dist;
    }

    /// Rotates the point about the origin.
    pub fn rotate(&mut self, rot: &Rotation)
        requires
            rot.wf(),
            bounded(old(self)@, COORD_LIMIT as int),
        ensures
            final(self)@ == rotated(old(self)@, rot.cos as int, rot.sin as int),
            bounded(final(self)@, 2 * COORD_LIMIT),
    {
        let x = self.x as i128;
        let y = self.y as i128;
        let c = rot.cos as i128;
        let s = rot.sin as i128;
        proof {
            lemma_rotate_bound(x as int, y as int, c as int, s as int, COORD_LIMIT as int);
        }
        let nx = floor_div(x * c - y * s, ROT_SCALE as i128);
        let ny = floor_div(x * s + y * c, ROT_SCALE as i128);
        self.x = nx as i64;
        self.y = ny as i64;
    }
}

pub open spec fn translated_world(w: Seq<((int, int), (int, int))>, dx: int, dy: int) -> Seq<((int, int), (int, int))> {
    w.map_values(|l: ((int, int), (int, int))| translated_line(l, dx, dy))
}

pub open spec fn rotated_world(w: Seq<((int, int), (int, int))>, c: int, s: int) -> Seq<((int, int), (int, int))> {
    w.map_values(|l: ((int, int), (int, int))| rotated_line(l, c, s))
}

pub open spec fn world_bounded(w: Seq<((int, int), (int, int))>, lim: int) -> bool {
    forall|i: int| 0 <= i < w.len() ==> line_bounded(#[trigger] w[i], lim)
}

/// A rotated point within `lim` lies within `2 * lim`.
pub proof fn lemma_rotated_bounded(p: (int, int), c: int, s: int, lim: int)
    requires
        bounded(p, lim),
        -ROT_SCALE <= c <= ROT_SCALE,
        -ROT_SCALE <= s <= ROT_SCALE,
    ensures
        bounded(rotated(p, c, s), 2 * lim),
{
    lemma_rotate_bound(p.0, p.1, c, s, lim);
}

/// Rotating walls within `lim` leaves them within `2 * lim`.
pub proof fn lemma_world_rotated_bounded(w: Seq<((int, int), (int, int))>, c: int, s: int, lim: int)
    requires
        world_bounded(w, lim),
        -ROT_SCALE <= c <= ROT_SCALE,
        -ROT_SCALE <= s <= ROT_SCALE,
    ensures
        world_bounded(rotated_world(w, c, s), 2 * lim),
{
    assert forall|i: int| 0 <= i < rotated_world(w, c, s).len() implies line_bounded(
        #[trigger] rotated_world(w, c, s)[i],
        2 * lim,
    ) by {
        assert(line_bounded(w[i], lim));
        lemma_rotated_bounded(w[i].0, c, s, lim);
        lemma_rotated_bounded(w[i].1, c, s, lim);
    }
}

/// Shifting walls within `lim` by at most `m` leaves them within `lim + m`.
pub proof fn lemma_world_translated_bounded(w: Seq<((int, int), (int, int))>, dx: int, dy: int, lim: int, m: int)
    requires
        world_bounded(w, lim),
        -m <= dx <= m,
        -m <= dy <= m,
    ensures
        world_bounded(translated_world(w, dx, dy), lim + m),
{
    assert forall|i: int| 0 <= i < translated_world(w, dx, dy).len() implies line_bounded(
        #[trigger] translated_world(w, dx, dy)[i],
        lim + m,
    ) by {
        assert(line_bounded(w[i], lim));
    }
}

/// Walls within `a` lie within any larger bound.
pub proof fn lemma_world_bounded_mono(w: Seq<((int, int), (int, int))>, a: int, b: int)
    requires
        world_bounded(w, a),
        a <= b,
    ensures
        world_bounded(w, b),
{
    assert forall|i: int| 0 <= i < w.len() implies line_bounded(#[trigger] w[i], b) by {
        assert(line_bounded(w[i], a));
    }
}

impl Line {
    pub fn new_line(p1: Point, p2: Point) -> (r: Line)
        ensures
            r.p1 == p1,
            r.p2 == p2,
    {
        Line { p1, p2 }
    }

    /// Shifts both ends by `(x_dist, y_dist)`.
    pub fn translate(&mut self, x_dist: i64, y_dist: i64)
        requires
            line_bounded(translated_line(old(self)@, x_dist as int, y_dist as int), COORD_LIMIT as int),
        ensures
            final(self)@ == translated_line(old(self)@, x_dist as int, y_dist as int),
    {
        self.p1.translate(x_dist, y_dist);
        self.p2.translate(x_dist, y_dist);
    }

    /// Rotates both ends about the origin.
    pub fn rotate(&mut self, rot: &Rotation)
        requires
            rot.wf(),
            line_bounded(old(self)@, COORD_LIMIT as int),
        ensures
            final(self)@ == rotated_line(old(self)@, rot.cos as int, rot.sin as int),
    {
        self.p1.rotate(rot);
        self.p2.rotate(rot);
    }
}

/// The walls, in coordinates relative to the player.
pub struct World {
    pub vec: Vec<Line>,
}

impl View for World {
    type V = Seq<((int, int), (int, int))>;

    open spec fn view(&self) -> Seq<((int, int), (int, int))> {
        self.vec@.map_values(|l: Line| l@)
    }
}

/// The starting layout: a triangle and a square.
pub open spec fn initial_layout() -> Seq<((int, int), (int, int))> {
    seq![
        ((15_000, 15_000), (10_000, 480_000)),
        ((10_000, 480_000), (740_000, 890_000)),
        ((740_000, 890_000), (15_000, 15_000)),
        ((1_000_000, 1_100_000), (1_000_000, 1_500_000)),
        ((1_000_000, 1_500_000), (600_000, 1_500_000)),
        ((600_000, 1_500_000), (600_000, 1_100_000)),
        ((600_000, 1_100_000), (1_000_000, 1_100_000)),
    ]
}

/// A wall a world may be built from: its ends differ and lie well within
/// the coordinate bound.
pub open spec fn valid_wall(l: ((int, int), (int, int))) -> bool {
    l.0 != l.1 && line_bounded(l, COORD_LIMIT / 8)
}

proof fn lemma_clipped_step(w: Seq<((int, int), (int, int))>, i: int, depth: int, policy: ClipPolicy)
    requires
        0 <= i < w.len(),
    ensures
        clipped_world(w.take(i + 1), depth, policy) == (match clip_result(w[i], depth, policy) {
            Some(l) => clipped_world(w.take(i), depth, policy).push(l),
            None => clipped_world(w.take(i), depth, policy),
        }),
{
    assert(w.take(i + 1).drop_last() =~= w.take(i));
    assert(w.take(i + 1).last() == w[i]);
}

proof fn lemma_screen_step(w: Seq<((int, int), (int, int))>, i: int)
    requires
        0 <= i < w.len(),
    ensures
        screen_lines(w.take(i + 1)) == (match wall_face(w[i]) {
            Some(f) => screen_lines(w.take(i)) + f,
            None => screen_lines(w.take(i)),
        }),
{
    assert(w.take(i + 1).drop_last() =~= w.take(i));
    assert(w.take(i + 1).last() == w[i]);
}

impl World {
    pub fn init() -> (r: World)
        ensures
            r@ == initial_layout(),
    {
        let mut vec: Vec<Line> = Vec::new();
        vec.push(Line::new_line(Point::new(15 * UNIT, 15 * UNIT), Point::new(10 * UNIT, 480 * UNIT)));
        vec.push(Line::new_line(Point::new(10 * UNIT, 480 * UNIT), Point::new(740 * UNIT, 890 * UNIT)));
        vec.push(Line::new_line(Point::new(740 * UNIT, 890 * UNIT), Point::new(15 * UNIT, 15 * UNIT)));
        vec.push(Line::new_line(Point::new(1000 * UNIT, 1100 * UNIT), Point::new(1000 * UNIT, 1500 * UNIT)));
        vec.push(Line::new_line(Point::new(1000 * UNIT, 1500 * UNIT), Point::new(600 * UNIT, 1500 * UNIT)));
        vec.push(Line::new_line(Point::new(600 * UNIT, 1500 * UNIT), Point::new(600 * UNIT, 1100 * UNIT)));
        vec.push(Line::new_line(Point::new(600 * UNIT, 1100 * UNIT), Point::new(1000 * UNIT, 1100 * UNIT)));
        let r = World { vec };
        assert(r@ =~= initial_layout());
        r
    }

    /// Builds a world from `lines`; `None` if one of them is degenerate or
    /// lies outside `COORD_LIMIT / 8`.
    pub fn from_lines(lines: Vec<Line>) -> (r: Option<World>)
        ensures
            r is Some <==> forall|i: int| 0 <= i < lines@.len() ==> valid_wall(#[trigger] lines@[i]@),
            r matches Some(w) ==> w@ == lines@.map_values(|l: Line| l@),
    {
        let lim = COORD_LIMIT / 8;
        let n = lines.len();
        for i in 0..n
            invariant
                n == lines.len(),
                lim == COORD_LIMIT / 8,
                forall|j: int| 0 <= j < i ==> valid_wall(#[trigger] lines@[j]@),
        {
            let l = lines[i];
            if l.p1 == l.p2 || !(-lim <= l.p1.x && l.p1.x <= lim && -lim <= l.p1.y && l.p1.y <= lim
                && -lim <= l.p2.x && l.p2.x <= lim && -lim <= l.p2.y && l.p2.y <= lim) {
                assert(!valid_wall(lines@[i as int]@));
                return None;
            }
        }
        Some(World { vec: lines })
    }

    /// Whether every wall lies within `lim`.
    pub fn within(&self, lim: i64) -> (r: bool)
        requires
            lim >= 0,
        ensures
            r == world_bounded(self@, lim as int),
    {
        let n = self.vec.len();
        for i in 0..n
            invariant
                n == self.vec.len(),
                lim >= 0,
                forall|j: int| 0 <= j < i ==> line_bounded(#[trigger] self@[j], lim as int),
        {
            let l = self.vec[i];
            if !(-lim <= l.p1.x && l.p1.x <= lim && -lim <= l.p1.y && l.p1.y <= lim && -lim <= l.p2.x
                && l.p2.x <= lim && -lim <= l.p2.y && l.p2.y <= lim) {
                assert(!line_bounded(self@[i as int], lim as int));
                return false;
            }
        }
        true
    }

    /// The walls that the player's near plane leaves, in order.
    pub fn clip_walls(&self, player: &Player, policy: ClipPolicy) -> (r: Vec<Line>)
        requires
            world_bounded(self@, COORD_LIMIT as int),
        ensures
            r@.map_values(|l: Line| l@) == clipped_world(self@, player.clip_depth as int, policy),
            world_bounded(r@.map_values(|l: Line| l@), COORD_LIMIT as int),
    {
        let depth = player.clip_depth;
        let ghost w = self@;
        let mut out: Vec<Line> = Vec::new();
        let n = self.vec.len();
        for i in 0..n
            invariant
                n == self.vec.len(),
                w == self@,
                depth == player.clip_depth,
                world_bounded(w, COORD_LIMIT as int),
                out@.map_values(|l: Line| l@) == clipped_world(w.take(i as int), depth as int, policy),
                world_bounded(out@.map_values(|l: Line| l@), COORD_LIMIT as int),
        {
            proof {
                lemma_clipped_step(w, i as int, depth as int, policy);
                assert(line_bounded(w[i as int], COORD_LIMIT as int));
            }
            let l = self.vec[i];
            let ghost before = out@;
            if l.p1.y <= depth && l.p2.y <= depth {
                out.push(l);
                assert(out@.map_values(|l: Line| l@) =~= before.map_values(|l: Line| l@).push(l@));
            } else if l.p1.y > depth && l.p2.y > depth {
            } else {
                match policy {
                    ClipPolicy::Clip => {
                        let c = l.clip_line(player);
                        out.push(c);
                        assert(out@.map_values(|l: Line| l@) =~= before.map_values(|l: Line| l@).push(c@));
                    },
                    ClipPolicy::Discard => {},
                }
            }
        }
        proof {
            assert(w.take(n as int) =~= w);
        }
        out
    }

    /// The screen edges of every wall that the near plane leaves and that can
    /// be projected, four per wall, in order.
    pub fn draw_map(&self, player: &Player, policy: ClipPolicy) -> (r: Vec<Line>)
        requires
            world_bounded(self@, COORD_LIMIT as int),
        ensures
            r@.map_values(|l: Line| l@) == screen_lines(clipped_world(self@, player.clip_depth as int, policy)),
    {
        let walls = self.clip_walls(player, policy);
        let ghost w = walls@.map_values(|l: Line| l@);
        let mut out: Vec<Line> = Vec::new();
        let n = walls.len();
        for i in 0..n
            invariant
                n == walls.len(),
                w == walls@.map_values(|l: Line| l@),
                world_bounded(w, COORD_LIMIT as int),
                out@.map_values(|l: Line| l@) == screen_lines(w.take(i as int)),
        {
            proof {
                lemma_screen_step(w, i as int);
                assert(line_bounded(w[i as int], COORD_LIMIT as int));
            }
            let ghost before = out@;
            match walls[i].draw_line() {
                Some(mut v) => {
                    let ghost vv = v@;
                    out.append(&mut v);
                    assert(out@.map_values(|l: Line| l@) =~= before.map_values(|l: Line| l@) + vv.map_values(
                        |l: Line| l@,
                    ));
                },
                None => {},
            }
        }
        proof {
            assert(w.take(n as int) =~= w);
        }
        out
    }

    /// Shifts every wall by `(x_dist, y_dist)`.
    pub fn translate(&mut self, x_dist: i64, y_dist: i64)
        requires
            world_bounded(translated_world(old(self)@, x_dist as int, y_dist as int), COORD_LIMIT as int),
        ensures
            final(self)@ == translated_world(old(self)@, x_dist as int, y_dist as int),
    {
        let n = self.vec.len();
        let ghost w0 = self@;
        for i in 0..n
            invariant
                n == self.vec.len(),
                w0.len() == n,
                world_bounded(translated_world(w0, x_dist as int, y_dist as int), COORD_LIMIT as int),
                forall|j: int| 0 <= j < i ==> #[trigger] self.vec@[j]@ == translated_line(w0[j], x_dist as int, y_dist as int),
                forall|j: int| i <= j < n ==> #[trigger] self.vec@[j]@ == w0[j],
        {
            let mut l = self.vec[i];
            assert(line_bounded(translated_world(w0, x_dist as int, y_dist as int)[i as int], COORD_LIMIT as int));
            assert(translated_world(w0, x_dist as int, y_dist as int)[i as int] == translated_line(w0[i as int], x_dist as int, y_dist as int));
            l.translate(x_dist, y_dist);
            self.vec.set(i, l);
        }
        assert(self@ =~= translated_world(w0, x_dist as int, y_dist as int));
    }

    /// Turns the world the opposite way to `rot`: every wall is rotated about
    /// the origin by the inverse of `rot`.
    pub fn rotate(&mut self, rot: &Rotation)
        requires
            rot.wf(),
            world_bounded(old(self)@, COORD_LIMIT as int),
        ensures
            final(self)@ == rotated_world(old(self)@, rot.cos as int, -rot.sin),
    {
        let inv = rot.inverse();
        let n = self.vec.len();
        let ghost w0 = self@;
        for i in 0..n
            invariant
                inv.wf(),
                inv.cos == rot.cos,
                inv.sin == -rot.sin,
                n == self.vec.len(),
                w0.len() == n,
                world_bounded(w0, COORD_LIMIT as int),
                forall|j: int| 0 <= j < i ==> #[trigger] self.vec@[j]@ == rotated_line(w0[j], rot.cos as int, -rot.sin),
                forall|j: int| i <= j < n ==> #[trigger] self.vec@[j]@ == w0[j],
        {
            let mut l = self.vec[i];
            assert(line_bounded(w0[i as int], COORD_LIMIT as int));
            l.rotate(&inv);
            self.vec.set(i, l);
        }
        assert(self@ =~= rotated_world(w0, rot.cos as int, -rot.sin));
    }
}

/// Screen width in pixels.
pub const SCREEN_WIDTH: i64 = 1280;

/// Screen height in pixels.
pub const SCREEN_HEIGHT: i64 = 720;

/// Half the height of a wall, in fixed-point steps (fifty units).
pub const WALL_HALF: i64 = 50_000;

/// What becomes of a wall that crosses the near plane.
#[derive(Clone, Copy, Debug, PartialEq, Eq, Structural)]
pub enum ClipPolicy {
    /// Cut it at the plane.
    Clip,
    /// Leave it out.
    Discard,
}

/// The wall `l`, crossing the plane `y = depth`, cut at it: the end on the
/// near side (`y <= depth`) is kept, the other replaced by the crossing point,
/// whose x is rounded down.
pub open spec fn clipped_line(l: ((int, int), (int, int)), depth: int) -> ((int, int), (int, int)) {
    let front = if l.0.1 <= depth { l.0 } else { l.1 };
    let back = if l.0.1 <= depth { l.1 } else { l.0 };
    (front, (front.0 + (back.0 - front.0) * (depth - front.1) / (back.1 - front.1), depth))
}

/// What the near plane `y = depth` leaves of the wall `l`: the whole wall when
/// both ends lie on the near side, nothing when both lie beyond, and when it
/// crosses, the cut wall or nothing, as `policy` says.
pub open spec fn clip_result(l: ((int, int), (int, int)), depth: int, policy: ClipPolicy) -> Option<((int, int), (int, int))> {
    if l.0.1 <= depth && l.1.1 <= depth {
        Some(l)
    } else if l.0.1 > depth && l.1.1 > depth {
        None
    } else if policy == ClipPolicy::Clip {
        Some(clipped_line(l, depth))
    } else {
        None
    }
}

/// The walls that the near plane leaves, in order.
pub open spec fn clipped_world(w: Seq<((int, int), (int, int))>, depth: int, policy: ClipPolicy) -> Seq<((int, int), (int, int))>
    decreases w.len(),
{
    if w.len() == 0 {
        Seq::empty()
    } else {
        let rest = clipped_world(w.drop_last(), depth, policy);
        match clip_result(w.last(), depth, policy) {
            Some(l) => rest.push(l),
            None => rest,
        }
    }
}

/// A point seen on screen: x scaled by `SCREEN_HEIGHT / depth` about the
/// centre column, and half the wall's height scaled alike. None for a point
/// at or behind the viewer.
pub open spec fn projected(p: (int, int)) -> Option<(int, int)> {
    if p.1 <= 0 {
        None
    } else {
        Some((p.0 * SCREEN_HEIGHT / p.1 + SCREEN_WIDTH / 2, WALL_HALF * SCREEN_HEIGHT / p.1))
    }
}

/// The four screen edges of a wall's face: bottom, top and the two verticals,
/// from the projections `a` and `b` of its ends.
pub open spec fn slab(a: (int, int), b: (int, int)) -> Seq<((int, int), (int, int))> {
    let vc = SCREEN_HEIGHT / 2;
    seq![
        ((a.0, vc + a.1), (b.0, vc + b.1)),
        ((a.0, vc - a.1), (b.0, vc - b.1)),
        ((a.0, vc - a.1), (a.0, vc + a.1)),
        ((b.0, vc - b.1), (b.0, vc + b.1)),
    ]
}

/// The screen edges of a wall, if both its ends can be projected.
pub open spec fn wall_face(l: ((int, int), (int, int))) -> Option<Seq<((int, int), (int, int))>> {
    match (projected(l.0), projected(l.1)) {
        (Some(a), Some(b)) => Some(slab(a, b)),
        _ => None,
    }
}

/// The screen edges of every wall of `w` that can be projected, in order.
pub open spec fn screen_lines(w: Seq<((int, int), (int, int))>) -> Seq<((int, int), (int, int))>
    decreases w.len(),
{
    if w.len() == 0 {
        Seq::empty()
    } else {
        let rest = screen_lines(w.drop_last());
        match wall_face(w.last()) {
            Some(f) => rest + f,
            None => rest,
        }
    }
}

impl Point {
    /// Projects the point onto the screen; `None` when it lies at or behind
    /// the viewer.
    pub fn to_draw(&self) -> (r: Option<Point>)
        requires
            bounded(self@, COORD_LIMIT as int),
        ensures
            match r {
                Some(p) => projected(self@) == Some(p@),
                None => projected(self@) is None,
            },
            r matches Some(p) ==> bounded(p@, 0x4_0000_0000_0000),
    {
        if self.y <= 0 {
            return None;
        }
        let m = COORD_LIMIT * SCREEN_HEIGHT;
        proof {
            assert(-m * self.y <= self.x * SCREEN_HEIGHT <= m * self.y) by (nonlinear_arith)
                requires -COORD_LIMIT <= self.x <= COORD_LIMIT, self.y >= 1, m == COORD_LIMIT * SCREEN_HEIGHT;
            lemma_div_within(self.x * SCREEN_HEIGHT, self.y as int, m as int);
            assert(0 <= WALL_HALF * SCREEN_HEIGHT <= (WALL_HALF * SCREEN_HEIGHT) * self.y) by (nonlinear_arith)
                requires self.y >= 1;
            lemma_div_within(WALL_HALF * SCREEN_HEIGHT, self.y as int, WALL_HALF * SCREEN_HEIGHT);
        }
        let x = floor_div(self.x as i128 * SCREEN_HEIGHT as i128, self.y as i128) as i64 + SCREEN_WIDTH / 2;
        let h = floor_div(WALL_HALF as i128 * SCREEN_HEIGHT as i128, self.y as i128) as i64;
        Some(Point { x, y: h })
    }
}

/// Cutting a crossing wall keeps the new end between the old ones.
proof fn lemma_clip_bound(fx: int, bx: int, num: int, den: int, lim: int)
    requires
        0 <= num < den,
        -lim <= fx <= lim,
        -lim <= bx <= lim,
    ensures
        -lim <= fx + (bx - fx) * num / den <= lim,
{
    let d = bx - fx;
    vstd::arithmetic::div_mod::lemma_fundamental_div_mod(d * num, den);
    let q = (d * num) / den;
    let r = (d * num) % den;
    if d >= 0 {
        assert(0 <= q <= d) by (nonlinear_arith)
            requires d * num == den * q + r, 0 <= r < den, 0 <= num < den, d >= 0;
    } else {
        assert(d <= q <= 0) by (nonlinear_arith)
            requires d * num == den * q + r, 0 <= r < den, 0 <= num < den, d < 0;
    }
}

impl Line {
    /// Cuts a wall that crosses the player's near plane at that plane.
    pub fn clip_line(&self, player: &Player) -> (r: Line)
        requires
            line_bounded(self@, COORD_LIMIT as int),
            (self.p1.y <= player.clip_depth) != (self.p2.y <= player.clip_depth),
        ensures
            r@ == clipped_line(self@, player.clip_depth as int),
            line_bounded(r@, COORD_LIMIT as int),
    {
        let depth = player.clip_depth;
        let (front, back) = if self.p1.y <= depth {
            (self.p1, self.p2)
        } else {
            (self.p2, self.p1)
        };
        let num: i128 = depth as i128 - front.y as i128;
        let den: i128 = back.y as i128 - front.y as i128;
        let d: i128 = back.x as i128 - front.x as i128;
        proof {
            lemma_clip_bound(front.x as int, back.x as int, num as int, den as int, COORD_LIMIT as int);
            assert(front.x as int + (d as int) * (num as int) / (den as int) == front.x + (back.x - front.x) * (num as int) / (den as int));
            let lim2 = 2 * COORD_LIMIT;
            assert(-(lim2 * lim2) <= d * num <= lim2 * lim2) by (nonlinear_arith)
                requires -lim2 <= d <= lim2, 0 <= num < den, den <= lim2;
        }
        let off = floor_div(d * num, den);
        let clip_x = (front.x as i128 + off) as i64;
        Line { p1: front, p2: Point { x: clip_x, y: depth } }
    }

    /// The four screen edges of the wall's face, or `None` when an end lies
    /// at or behind the viewer.
    pub fn draw_line(&self) -> (r: Option<Vec<Line>>)
        requires
            line_bounded(self@, COORD_LIMIT as int),
        ensures
            match r {
                Some(v) => wall_face(self@) == Some(v@.map_values(|l: Line| l@)),
                None => wall_face(self@) is None,
            },
    {
        let a = match self.p1.to_draw() {
            Some(a) => a,
            None => return None,
        };
        let b = match self.p2.to_draw() {
            Some(b) => b,
            None => return None,
        };
        let vc = SCREEN_HEIGHT / 2;
        let mut v: Vec<Line> = Vec::new();
        v.push(Line { p1: Point { x: a.x, y: vc + a.y }, p2: Point { x: b.x, y: vc + b.y } });
        v.push(Line { p1: Point { x: a.x, y: vc - a.y }, p2: Point { x: b.x, y: vc - b.y } });
        v.push(Line { p1: Point { x: a.x, y: vc - a.y }, p2: Point { x: a.x, y: vc + a.y } });
        v.push(Line { p1: Point { x: b.x, y: vc - b.y }, p2: Point { x: b.x, y: vc + b.y } });
        assert(v@.map_values(|l: Line| l@) =~= slab(a@, b@));
        Some(v)
    }
}

} // verus!
