//! The play session: the wave front, its trail, the obstacles, the life meter
//! and the clock, advanced in bounded sub-steps.

use crate::chance::{draw_below, seeded};
use crate::wave::{
    amplitude, amplitude_spec, life_spec, next_life, sine, sine_spec,
    AMPLITUDE_LARGE, LIFE_MAX, MAX_SLICE,
};
use vstd::prelude::*;

verus! {

/// One pixel, in micropixels.
pub const PIXEL: i64 = 1_000_000;

/// One turn of an obstacle, in millionths.
pub const TURN: i64 = 1_000_000;

/// Horizontal speed of the trail and of the obstacles, in micropixels per
/// microsecond (150 pixels a second). Obstacles also turn by one millionth of
/// a turn per microsecond (one turn a second).
pub const SPEED: i64 = 150;

/// Left of this x (32 pixels off the left edge) trail and obstacles are dropped.
pub const OFFSCREEN: i64 = -32_000_000;

/// How far right of the right edge obstacles appear, in micropixels.
pub const SPAWN_MARGIN: i64 = 32_000_000;

/// Half the radius of a trail dot, added to half the sprite's width to give
/// the reach of a collision, in micropixels.
pub const DOT_HALF_RADIUS: i64 = 8_000_000;

/// Time between two obstacles, in microseconds.
pub const SPAWN_INTERVAL: i64 = 2_000_000;

/// The wave front's y stays within this distance of 0, in micropixels
/// (four billion pixels): the range that its type holds with room to move.
pub const Y_LIMIT: i64 = 4_000_000_000_000_000;

/// The longest frame, in microseconds (a million seconds).
pub const MAX_FRAME: u64 = 1_000_000_000_000;

/// How far left of `OFFSCREEN` anything may drift within the longest frame.
pub const SLACK: i64 = 150_000_000_000_000;

/// Colour of a trail sample: red when the front swung freely, blue when it
/// was dampened.
#[derive(Clone, Copy, Debug, PartialEq, Eq, Structural)]
pub enum Tint {
    Red,
    Blue,
}

/// A sample of the trail left behind the wave front.
#[derive(Clone, Copy, Debug, PartialEq, Eq, Structural)]
pub struct Section {
    pub x: i64,
    pub y: i64,
    pub tint: Tint,
}

/// A spinning obstacle; `angle` in millionths of a turn.
#[derive(Clone, Copy, Debug, PartialEq, Eq, Structural)]
pub struct Obstacle {
    pub x: i64,
    pub y: i64,
    pub angle: i64,
}

/// The state of a session as mathematical values.
pub struct Model {
    pub width: int,
    pub height: int,
    pub sprite_width: int,
    pub front_x: int,
    pub front_y: int,
    pub trail: Seq<Section>,
    pub obstacles: Seq<Obstacle>,
    pub life: int,
    pub time: int,
    pub countdown: int,
}

/// One play session on a screen of `width` by `height` pixels, with an
/// obstacle sprite `sprite_width` pixels wide.
pub struct Session {
    pub width: u32,
    pub height: u32,
    pub sprite_width: u16,
    pub front_x: i64,
    pub front_y: i64,
    pub trail: Vec<Section>,
    pub obstacles: Vec<Obstacle>,
    pub life: i64,
    pub time: u64,
    pub countdown: i64,
    pub rng: rand::rngs::StdRng,
}

impl View for Session {
    type V = Model;

    open spec fn view(&self) -> Model {
        Model {
            width: self.width as int,
            height: self.height as int,
            sprite_width: self.sprite_width as int,
            front_x: self.front_x as int,
            front_y: self.front_y as int,
            trail: self.trail@,
            obstacles: self.obstacles@,
            life: self.life as int,
            time: self.time as int,
            countdown: self.countdown as int,
        }
    }
}

/// The wave front's x on a screen `width` pixels wide: an eighth of the width.
pub open spec fn front_x_of(width: int) -> int {
    width * (PIXEL as int) / 8
}

/// Where obstacles appear on a screen `width` pixels wide.
pub open spec fn spawn_x_of(width: int) -> int {
    width * (PIXEL as int) + SPAWN_MARGIN as int
}

/// The reach of a collision for a sprite `sprite_width` pixels wide: half its
/// width plus half a dot's radius.
pub open spec fn reach_of(sprite_width: int) -> int {
    sprite_width * (PIXEL as int) / 2 + DOT_HALF_RADIUS as int
}

/// A fresh session: the front at an eighth of the width and half the height,
/// no trail, no obstacles, full life, time zero and a full countdown.
pub open spec fn initial(width: int, height: int, sprite_width: int) -> Model {
    Model {
        width,
        height,
        sprite_width,
        front_x: front_x_of(width),
        front_y: height * (PIXEL as int) / 2,
        trail: Seq::empty(),
        obstacles: Seq::empty(),
        life: LIFE_MAX as int,
        time: 0,
        countdown: SPAWN_INTERVAL as int,
    }
}

pub open spec fn clamp_y(y: int) -> int {
    if y > Y_LIMIT as int {
        Y_LIMIT as int
    } else if y < -(Y_LIMIT as int) {
        -(Y_LIMIT as int)
    } else {
        y
    }
}

pub open spec fn tint_of(amp: int) -> Tint {
    if amp == AMPLITUDE_LARGE as int { Tint::Red } else { Tint::Blue }
}

pub open spec fn shift_section(s: Section, d: int) -> Section {
    Section { x: (s.x - d) as i64, y: s.y, tint: s.tint }
}

pub open spec fn shift_trail(t: Seq<Section>, d: int) -> Seq<Section> {
    t.map_values(|s: Section| shift_section(s, d))
}

/// An obstacle after `slice` microseconds: moved left and turned back.
pub open spec fn move_obstacle(o: Obstacle, slice: int) -> Obstacle {
    Obstacle { x: (o.x - SPEED * slice) as i64, y: o.y, angle: (o.angle - slice) as i64 }
}

pub open spec fn move_obstacles(os: Seq<Obstacle>, slice: int) -> Seq<Obstacle> {
    os.map_values(|o: Obstacle| move_obstacle(o, slice))
}

/// The collision test: an axis-aligned square around the front, by squared
/// distances on each axis.
pub open spec fn collides(o: Obstacle, fx: int, fy: int, reach: int) -> bool {
    (o.x - fx) * (o.x - fx) < reach * reach && (o.y - fy) * (o.y - fy) < reach * reach
}

pub open spec fn any_collides(os: Seq<Obstacle>, fx: int, fy: int, reach: int) -> bool {
    exists|i: int| 0 <= i < os.len() && #[trigger] collides(os[i], fx, fy, reach)
}

/// One sub-step of `slice` microseconds with the dampen key `held`; a new
/// obstacle, if one is due, appears at height `spawn_y` turned by
/// `spawn_angle`. Also gives whether an obstacle hit the front.
pub open spec fn step_spec(m: Model, slice: int, held: bool, spawn_y: int, spawn_angle: int) -> (Model, bool) {
    let amp = amplitude_spec(held, m.life);
    let y = clamp_y(m.front_y + amp * (sine_spec(m.time) - sine_spec(m.time + slice)));
    let trail = shift_trail(m.trail, SPEED * slice).push(
        Section { x: m.front_x as i64, y: y as i64, tint: tint_of(amp) },
    );
    let moved = move_obstacles(m.obstacles, slice);
    let hit = any_collides(moved, m.front_x, y, reach_of(m.sprite_width));
    let c = m.countdown - slice;
    let spawned = Obstacle { x: spawn_x_of(m.width) as i64, y: spawn_y as i64, angle: spawn_angle as i64 };
    (
        Model {
            front_y: y,
            trail,
            obstacles: if c <= 0 { moved.push(spawned) } else { moved },
            life: life_spec(m.life, held, slice),
            time: m.time + slice,
            countdown: if c <= 0 { c + SPAWN_INTERVAL } else { c },
            ..m
        },
        hit,
    )
}

/// The sub-steps of a frame of `dt` microseconds: slices of `MAX_SLICE` and a
/// last, shorter one; the i-th slice takes `draws[i]` for a new obstacle.
pub open spec fn run(m: Model, dt: int, held: bool, draws: Seq<(int, int)>) -> (Model, bool)
    decreases dt,
{
    if dt <= 0 {
        (m, false)
    } else {
        let slice = if dt < MAX_SLICE as int { dt } else { MAX_SLICE as int };
        let (m1, h1) = step_spec(m, slice, held, draws[0].0, draws[0].1);
        let (m2, h2) = run(m1, dt - slice, held, draws.drop_first());
        (m2, h1 || h2)
    }
}

/// The number of leading values below `OFFSCREEN`, counted from `i`.
pub open spec fn lead(xs: Seq<int>, i: int) -> int
    decreases xs.len() - i,
{
    if 0 <= i < xs.len() && xs[i] < OFFSCREEN as int {
        lead(xs, i + 1)
    } else {
        i
    }
}

pub open spec fn trail_xs(t: Seq<Section>) -> Seq<int> {
    t.map_values(|s: Section| s.x as int)
}

pub open spec fn obstacle_xs(os: Seq<Obstacle>) -> Seq<int> {
    os.map_values(|o: Obstacle| o.x as int)
}

/// The trail without its leading samples left of `OFFSCREEN`.
pub open spec fn purge_trail(t: Seq<Section>) -> Seq<Section> {
    t.skip(lead(trail_xs(t), 0))
}

/// The obstacles without the leading ones left of `OFFSCREEN`.
pub open spec fn purge_obstacles(os: Seq<Obstacle>) -> Seq<Obstacle> {
    os.skip(lead(obstacle_xs(os), 0))
}

/// The end of a frame: a full restart after a hit, else the purge.
pub open spec fn finish(r: (Model, bool)) -> (Model, bool) {
    let m = r.0;
    if r.1 {
        (initial(m.width, m.height, m.sprite_width), true)
    } else {
        (Model { trail: purge_trail(m.trail), obstacles: purge_obstacles(m.obstacles), ..m }, false)
    }
}

/// A whole frame: its sub-steps, then the purge or the restart.
pub open spec fn frame_spec(m: Model, dt: int, held: bool, draws: Seq<(int, int)>) -> (Model, bool) {
    finish(run(m, dt, held, draws))
}

/// Values usable as the position and turn of new obstacles on a screen
/// `height` pixels high.
pub open spec fn draws_fit(draws: Seq<(int, int)>, height: int) -> bool {
    forall|i: int|
        0 <= i < draws.len() ==> 0 <= #[trigger] draws[i].0 < height * PIXEL && 0 <= draws[i].1 < TURN
}

pub open spec fn sorted(xs: Seq<int>) -> bool {
    forall|i: int, j: int| 0 <= i < j < xs.len() ==> xs[i] <= xs[j]
}

pub open spec fn all_within(xs: Seq<int>, lo: int, hi: int) -> bool {
    forall|i: int| 0 <= i < xs.len() ==> lo <= #[trigger] xs[i] <= hi
}

pub open spec fn obstacle_fits(o: Obstacle, width: int, height: int) -> bool {
    &&& 0 <= o.y < height * PIXEL
    &&& spawn_x_of(width) - SPEED * TURN < o.x - SPEED * o.angle <= spawn_x_of(width)
}

impl Model {
    /// What holds of a session at every sub-step, but the left bound.
    pub open spec fn loose(self) -> bool {
        &&& 1 <= self.height <= u32::MAX
        &&& 0 <= self.width <= u32::MAX
        &&& 0 <= self.sprite_width <= u16::MAX
        &&& self.front_x == front_x_of(self.width)
        &&& -(Y_LIMIT as int) <= self.front_y <= Y_LIMIT
        &&& -(LIFE_MAX as int) <= self.life <= LIFE_MAX
        &&& 0 < self.countdown <= SPAWN_INTERVAL
        &&& 0 <= self.time <= u64::MAX
        &&& sorted(trail_xs(self.trail))
        &&& all_within(trail_xs(self.trail), i64::MIN as int, self.front_x)
        &&& sorted(obstacle_xs(self.obstacles))
        &&& all_within(obstacle_xs(self.obstacles), i64::MIN as int, spawn_x_of(self.width))
        &&& forall|i: int|
            0 <= i < self.obstacles.len() ==> obstacle_fits(#[trigger] self.obstacles[i], self.width, self.height)
    }

    /// Everything is right of `OFFSCREEN - SLACK + d`.
    pub open spec fn floor_ok(self, d: int) -> bool {
        &&& all_within(trail_xs(self.trail), OFFSCREEN - SLACK + d, self.front_x)
        &&& all_within(obstacle_xs(self.obstacles), OFFSCREEN - SLACK + d, spawn_x_of(self.width))
    }

    /// A session between frames: nothing left of `OFFSCREEN`.
    pub open spec fn wf(self) -> bool {
        self.loose() && self.floor_ok(SLACK as int)
    }
}

/// A fresh session is well formed.
pub proof fn lemma_initial_wf(width: int, height: int, sprite_width: int)
    requires
        1 <= height <= u32::MAX,
        0 <= width <= u32::MAX,
        0 <= sprite_width <= u16::MAX,
    ensures
        initial(width, height, sprite_width).wf(),
        initial(width, height, sprite_width).front_x == width * 125_000,
        initial(width, height, sprite_width).front_y == height * 500_000,
{
    let m = initial(width, height, sprite_width);
    assert(width * 1_000_000 / 8 == width * 125_000) by (nonlinear_arith);
    assert(height * 1_000_000 / 2 == height * 500_000) by (nonlinear_arith);
    assert(trail_xs(m.trail) =~= Seq::<int>::empty());
    assert(obstacle_xs(m.obstacles) =~= Seq::<int>::empty());
}

/// A sub-step keeps a session well formed, and lets everything drift left by
/// the distance covered.
pub proof fn lemma_step_keeps(m: Model, slice: int, held: bool, spawn_y: int, spawn_angle: int, d: int)
    requires
        m.loose(),
        m.floor_ok(d),
        0 <= slice <= MAX_SLICE,
        SPEED * slice <= d <= SLACK,
        m.time + slice <= u64::MAX,
        0 <= spawn_y < m.height * PIXEL,
        0 <= spawn_angle < TURN,
    ensures
        step_spec(m, slice, held, spawn_y, spawn_angle).0.loose(),
        step_spec(m, slice, held, spawn_y, spawn_angle).0.floor_ok(d - SPEED * slice),
{
    let n = step_spec(m, slice, held, spawn_y, spawn_angle).0;
    let e = SPEED * slice;
    let sx = spawn_x_of(m.width);
    let lo = OFFSCREEN - SLACK + d;
    let amp = amplitude_spec(held, m.life);
    let y = clamp_y(m.front_y + amp * (sine_spec(m.time) - sine_spec(m.time + slice)));
    let moved = move_obstacles(m.obstacles, slice);
    let c = m.countdown - slice;
    // trail
    let ot = trail_xs(m.trail);
    let nt = trail_xs(n.trail);
    assert(nt.len() == ot.len() + 1);
    assert forall|i: int| 0 <= i < ot.len() implies #[trigger] nt[i] == ot[i] - e by {
        assert(lo <= ot[i]);
        assert(n.trail[i] == shift_section(m.trail[i], e));
    }
    assert(nt[ot.len() as int] == m.front_x);
    assert forall|i: int, j: int| 0 <= i < j < nt.len() implies nt[i] <= nt[j] by {
        assert(lo <= ot[i] <= m.front_x);
        if j < ot.len() {
            assert(ot[i] <= ot[j]);
        }
    }
    assert forall|i: int| 0 <= i < nt.len() implies lo - e <= #[trigger] nt[i] <= n.front_x by {
        if i < ot.len() {
            assert(lo <= ot[i] <= m.front_x);
        }
    }
    // obstacles
    let oo = obstacle_xs(m.obstacles);
    let mo = obstacle_xs(moved);
    assert forall|i: int| 0 <= i < oo.len() implies {
        &&& #[trigger] mo[i] == oo[i] - e
        &&& moved[i].angle == m.obstacles[i].angle - slice
        &&& moved[i].y == m.obstacles[i].y
    } by {
        assert(lo <= oo[i] <= sx);
        assert(obstacle_fits(m.obstacles[i], m.width, m.height));
        assert(moved[i] == move_obstacle(m.obstacles[i], slice));
    }
    assert forall|i: int| 0 <= i < moved.len() implies obstacle_fits(#[trigger] moved[i], m.width, m.height) by {
        assert(obstacle_fits(m.obstacles[i], m.width, m.height));
        assert(mo[i] == oo[i] - e);
    }
    let no = obstacle_xs(n.obstacles);
    assert forall|i: int| 0 <= i < n.obstacles.len() implies obstacle_fits(#[trigger] n.obstacles[i], n.width, n.height) by {
        if i < moved.len() {
            assert(obstacle_fits(moved[i], m.width, m.height));
        }
    }
    assert forall|i: int, j: int| 0 <= i < j < no.len() implies no[i] <= no[j] by {
        assert(lo <= oo[i] <= sx);
        assert(mo[i] == oo[i] - e);
        if j < oo.len() {
            assert(oo[i] <= oo[j]);
            assert(mo[j] == oo[j] - e);
        }
    }
    assert forall|i: int| 0 <= i < no.len() implies lo - e <= #[trigger] no[i] <= sx by {
        if i < oo.len() {
            assert(lo <= oo[i] <= sx);
            assert(mo[i] == oo[i] - e);
        }
    }
    assert(sorted(no));
    assert(sorted(nt));
}

/// What `lead` counts: from `i` on, the run of values left of `OFFSCREEN`.
pub proof fn lemma_lead(xs: Seq<int>, i: int)
    requires
        0 <= i <= xs.len(),
    ensures
        i <= lead(xs, i) <= xs.len(),
        forall|j: int| i <= j < lead(xs, i) ==> #[trigger] xs[j] < OFFSCREEN,
        lead(xs, i) < xs.len() ==> xs[lead(xs, i)] >= OFFSCREEN,
    decreases xs.len() - i,
{
    if i < xs.len() && xs[i] < OFFSCREEN as int {
        lemma_lead(xs, i + 1);
    }
}

/// What remains of a sorted sequence after the purge is right of `OFFSCREEN`.
proof fn lemma_lead_sorted(xs: Seq<int>)
    requires
        sorted(xs),
    ensures
        forall|j: int| lead(xs, 0) <= j < xs.len() ==> #[trigger] xs[j] >= OFFSCREEN,
{
    lemma_lead(xs, 0);
    let k = lead(xs, 0);
    assert forall|j: int| k <= j < xs.len() implies #[trigger] xs[j] >= OFFSCREEN by {
        assert(xs[k] <= xs[j]);
    }
}

/// The purge of a trail sorted left to right drops exactly its leading
/// samples left of `OFFSCREEN`: every sample that remains is right of it, and
/// the rest keeps its order (it is a suffix of the trail).
pub proof fn lemma_purge_trail(t: Seq<Section>)
    requires
        sorted(trail_xs(t)),
    ensures
        purge_trail(t).len() <= t.len(),
        purge_trail(t) == t.skip(t.len() - purge_trail(t).len()),
        forall|j: int| 0 <= j < t.len() - purge_trail(t).len() ==> (#[trigger] t[j]).x < OFFSCREEN,
        forall|i: int| 0 <= i < purge_trail(t).len() ==> (#[trigger] purge_trail(t)[i]).x >= OFFSCREEN,
{
    let xs = trail_xs(t);
    lemma_lead(xs, 0);
    lemma_lead_sorted(xs);
    let k = lead(xs, 0);
    assert forall|j: int| 0 <= j < k implies (#[trigger] t[j]).x < OFFSCREEN by {
        assert(xs[j] < OFFSCREEN);
    }
    assert forall|i: int| 0 <= i < purge_trail(t).len() implies (#[trigger] purge_trail(t)[i]).x >= OFFSCREEN by {
        assert(xs[k + i] >= OFFSCREEN);
    }
}

/// The end of a frame leaves a well-formed session.
pub proof fn lemma_finish_wf(m: Model, hit: bool)
    requires
        m.loose(),
    ensures
        finish((m, hit)).0.wf(),
{
    if hit {
        lemma_initial_wf(m.width, m.height, m.sprite_width);
    } else {
        let n = finish((m, hit)).0;
        let xs = trail_xs(m.trail);
        let os = obstacle_xs(m.obstacles);
        lemma_lead(xs, 0);
        lemma_lead_sorted(xs);
        lemma_lead(os, 0);
        lemma_lead_sorted(os);
        let k = lead(xs, 0);
        let h = lead(os, 0);
        assert(trail_xs(n.trail) =~= xs.skip(k));
        assert(obstacle_xs(n.obstacles) =~= os.skip(h));
        assert forall|i: int| 0 <= i < n.obstacles.len() implies obstacle_fits(#[trigger] n.obstacles[i], n.width, n.height) by {
            assert(n.obstacles[i] == m.obstacles[h + i]);
        }
        assert forall|i: int| 0 <= i < trail_xs(n.trail).len() implies OFFSCREEN - SLACK + SLACK <= #[trigger] trail_xs(n.trail)[i] <= n.front_x by {
            assert(xs[k + i] >= OFFSCREEN);
        }
        assert forall|i: int| 0 <= i < obstacle_xs(n.obstacles).len() implies OFFSCREEN - SLACK + SLACK <= #[trigger] obstacle_xs(n.obstacles)[i] <= spawn_x_of(n.width) by {
            assert(os[h + i] >= OFFSCREEN);
        }
    }
}

/// Whether `a` and `b` are less than `reach` apart, by their squares.
fn near(a: i64, b: i64, reach: i64) -> (r: bool)
    requires
        -100_000_000_000_000_000 <= a <= 100_000_000_000_000_000,
        -100_000_000_000_000_000 <= b <= 100_000_000_000_000_000,
        0 <= reach <= 100_000_000_000_000,
    ensures
        r == ((a - b) * (a - b) < reach * reach),
{
    let d: i128 = a as i128 - b as i128;
    proof {
        assert(0 <= d * d <= 40_000_000_000_000_000_000_000_000_000_000_000) by (nonlinear_arith)
            requires
                -200_000_000_000_000_000 <= d <= 200_000_000_000_000_000;
        assert(0 <= reach * reach <= 10_000_000_000_000_000_000_000_000_000) by (nonlinear_arith)
            requires
                0 <= reach <= 100_000_000_000_000;
    }
    let r2: i128 = reach as i128 * reach as i128;
    d * d < r2
}

/// Moves every trail sample `d` micropixels left.
fn shift_sections(v: &mut Vec<Section>, d: i64)
    requires
        0 <= d,
        forall|i: int| 0 <= i < old(v)@.len() ==> (#[trigger] old(v)@[i]).x - d >= i64::MIN,
    ensures
        final(v)@ == shift_trail(old(v)@, d as int),
{
    let n = v.len();
    let mut i: usize = 0;
    while i < n
        invariant
            n == old(v)@.len(),
            v@.len() == n,
            i <= n,
            0 <= d,
            forall|j: int| 0 <= j < n ==> (#[trigger] old(v)@[j]).x - d >= i64::MIN,
            forall|j: int| 0 <= j < i ==> v@[j] == shift_section(old(v)@[j], d as int),
            forall|j: int| i <= j < n ==> v@[j] == old(v)@[j],
        decreases n - i,
    {
        let s = v[i];
        v.set(i, Section { x: s.x - d, y: s.y, tint: s.tint });
        i = i + 1;
    }
    assert(v@ =~= shift_trail(old(v)@, d as int));
}

/// Moves and turns every obstacle by `slice` microseconds; tells whether one
/// of them, so moved, is within `reach` of the front at (`fx`, `fy`).
fn move_all(v: &mut Vec<Obstacle>, slice: i64, fx: i64, fy: i64, reach: i64) -> (hit: bool)
    requires
        0 <= slice <= MAX_SLICE,
        0 <= fx <= 100_000_000_000_000_000,
        -100_000_000_000_000_000 <= fy <= 100_000_000_000_000_000,
        0 <= reach <= 100_000_000_000_000,
        forall|i: int|
            0 <= i < old(v)@.len() ==> {
                let o = #[trigger] old(v)@[i];
                &&& -100_000_000_000_000_000 + SPEED * slice <= o.x <= 100_000_000_000_000_000
                &&& -100_000_000_000_000_000 <= o.y <= 100_000_000_000_000_000
                &&& -100_000_000_000_000_000 <= o.angle <= 100_000_000_000_000_000
            },
    ensures
        final(v)@ == move_obstacles(old(v)@, slice as int),
        hit == any_collides(final(v)@, fx as int, fy as int, reach as int),
{
    let n = v.len();
    let mut i: usize = 0;
    let mut hit = false;
    let d: i64 = SPEED * slice;
    while i < n
        invariant
            n == old(v)@.len(),
            v@.len() == n,
            i <= n,
            d == SPEED * slice,
            0 <= slice <= MAX_SLICE,
            0 <= fx <= 100_000_000_000_000_000,
            -100_000_000_000_000_000 <= fy <= 100_000_000_000_000_000,
            0 <= reach <= 100_000_000_000_000,
            forall|j: int|
                0 <= j < n ==> {
                    let o = #[trigger] old(v)@[j];
                    &&& -100_000_000_000_000_000 + SPEED * slice <= o.x <= 100_000_000_000_000_000
                    &&& -100_000_000_000_000_000 <= o.y <= 100_000_000_000_000_000
                    &&& -100_000_000_000_000_000 <= o.angle <= 100_000_000_000_000_000
                },
            forall|j: int| 0 <= j < i ==> v@[j] == move_obstacle(old(v)@[j], slice as int),
            forall|j: int| i <= j < n ==> v@[j] == old(v)@[j],
            hit == exists|j: int| 0 <= j < i && #[trigger] collides(v@[j], fx as int, fy as int, reach as int),
        decreases n - i,
    {
        let o = v[i];
        let m = Obstacle { x: o.x - d, y: o.y, angle: o.angle - slice };
        let ghost before = v@;
        v.set(i, m);
        let close = near(m.x, fx, reach) && near(m.y, fy, reach);
        proof {
            assert(v@[i as int] == m);
            assert(close == collides(m, fx as int, fy as int, reach as int));
            assert forall|j: int| 0 <= j < i implies v@[j] == before[j] by {}
            if hit {
                let j = choose|j: int| 0 <= j < i && #[trigger] collides(before[j], fx as int, fy as int, reach as int);
                assert(collides(v@[j], fx as int, fy as int, reach as int));
            }
            if close {
                assert(collides(v@[i as int], fx as int, fy as int, reach as int));
            }
            if exists|j: int| 0 <= j < i + 1 && #[trigger] collides(v@[j], fx as int, fy as int, reach as int) {
                let j = choose|j: int| 0 <= j < i + 1 && #[trigger] collides(v@[j], fx as int, fy as int, reach as int);
                if j < i {
                    assert(collides(before[j], fx as int, fy as int, reach as int));
                }
            }
        }
        hit = hit || close;
        i = i + 1;
    }
    assert(v@ =~= move_obstacles(old(v)@, slice as int));
    hit
}

impl Session {
    /// A fresh session (see `initial`) with a random source seeded by `seed`.
    pub fn new(width: u32, height: u32, sprite_width: u16, seed: u64) -> (r: Session)
        requires
            1 <= height,
        ensures
            r@ == initial(width as int, height as int, sprite_width as int),
            r@.wf(),
    {
        let r = Session {
            width,
            height,
            sprite_width,
            front_x: width as i64 * 125_000,
            front_y: height as i64 * 500_000,
            trail: Vec::new(),
            obstacles: Vec::new(),
            life: LIFE_MAX,
            time: 0,
            countdown: SPAWN_INTERVAL,
            rng: seeded(seed),
        };
        proof {
            lemma_initial_wf(width as int, height as int, sprite_width as int);
        }
        r
    }

    /// Puts the session back to its start on the same screen.
    pub fn restart(&mut self)
        requires
            1 <= old(self).height,
        ensures
            final(self)@ == initial(old(self).width as int, old(self).height as int, old(self).sprite_width as int),
            final(self)@.wf(),
    {
        self.front_x = self.width as i64 * 125_000;
        self.front_y = self.height as i64 * 500_000;
        self.trail.clear();
        self.obstacles.clear();
        self.life = LIFE_MAX;
        self.time = 0;
        self.countdown = SPAWN_INTERVAL;
        assert(self.trail@ =~= Seq::<Section>::empty());
        assert(self.obstacles@ =~= Seq::<Obstacle>::empty());
        proof {
            lemma_initial_wf(self.width as int, self.height as int, self.sprite_width as int);
        }
    }

    /// One sub-step of `slice` microseconds with the dampen key `held` (see
    /// `step_spec`); a new obstacle, if due, takes `spawn_y` and
    /// `spawn_angle`. Gives whether an obstacle hit the front.
    pub fn sub_step(&mut self, slice: u64, held: bool, spawn_y: u64, spawn_angle: u64) -> (hit: bool)
        requires
            old(self)@.loose(),
            old(self)@.floor_ok(SPEED * slice),
            slice <= MAX_SLICE,
            old(self).time + slice <= u64::MAX,
            spawn_y < old(self).height * PIXEL,
            spawn_angle < TURN,
        ensures
            (final(self)@, hit) == step_spec(old(self)@, slice as int, held, spawn_y as int, spawn_angle as int),
    {
        let ghost m = self@;
        let amp = amplitude(held, self.life);
        let s0 = sine(self.time);
        let s1 = sine(self.time + slice);
        proof {
            assert(-140_000_000 <= amp * (s0 - s1) <= 140_000_000) by (nonlinear_arith)
                requires
                    20 <= amp <= 70,
                    -2_000_000 <= s0 - s1 <= 2_000_000;
        }
        let raw: i64 = self.front_y + amp * (s0 - s1);
        let y: i64 = if raw > Y_LIMIT {
            Y_LIMIT
        } else if raw < -Y_LIMIT {
            -Y_LIMIT
        } else {
            raw
        };
        self.life = next_life(self.life, held, slice);
        self.front_y = y;
        self.time = self.time + slice;
        let tint = if amp == AMPLITUDE_LARGE { Tint::Red } else { Tint::Blue };
        let d: i64 = SPEED * slice as i64;
        proof {
            assert forall|i: int| 0 <= i < self.trail@.len() implies (#[trigger] self.trail@[i]).x - d >= i64::MIN by {
                assert(trail_xs(m.trail)[i] == self.trail@[i].x);
            }
        }
        shift_sections(&mut self.trail, d);
        self.trail.push(Section { x: self.front_x, y, tint });
        let reach: i64 = self.sprite_width as i64 * (PIXEL / 2) + DOT_HALF_RADIUS;
        proof {
            assert forall|i: int| 0 <= i < self.obstacles@.len() implies {
                let o = #[trigger] self.obstacles@[i];
                &&& -100_000_000_000_000_000 + SPEED * slice <= o.x <= 100_000_000_000_000_000
                &&& -100_000_000_000_000_000 <= o.y <= 100_000_000_000_000_000
                &&& -100_000_000_000_000_000 <= o.angle <= 100_000_000_000_000_000
            } by {
                assert(obstacle_xs(m.obstacles)[i] == self.obstacles@[i].x);
                assert(obstacle_fits(m.obstacles[i], m.width, m.height));
            }
        }
        let hit = move_all(&mut self.obstacles, slice as i64, self.front_x, y, reach);
        let c: i64 = self.countdown - slice as i64;
        if c <= 0 {
            self.countdown = c + SPAWN_INTERVAL;
            let spawned = Obstacle {
                x: self.width as i64 * PIXEL + SPAWN_MARGIN,
                y: spawn_y as i64,
                angle: spawn_angle as i64,
            };
            self.obstacles.push(spawned);
        } else {
            self.countdown = c;
        }
        hit
    }
}

/// The number of leading trail samples left of `OFFSCREEN`.
fn trail_lead(v: &Vec<Section>) -> (k: usize)
    ensures
        k == lead(trail_xs(v@), 0),
{
    let mut k: usize = 0;
    while k < v.len() && v[k].x < OFFSCREEN
        invariant
            k <= v@.len(),
            lead(trail_xs(v@), k as int) == lead(trail_xs(v@), 0),
        decreases v@.len() - k,
    {
        assert(trail_xs(v@)[k as int] == v@[k as int].x);
        k = k + 1;
    }
    if k < v.len() {
        assert(trail_xs(v@)[k as int] == v@[k as int].x);
    }
    k
}

/// The number of leading obstacles left of `OFFSCREEN`.
fn obstacle_lead(v: &Vec<Obstacle>) -> (k: usize)
    ensures
        k == lead(obstacle_xs(v@), 0),
{
    let mut k: usize = 0;
    while k < v.len() && v[k].x < OFFSCREEN
        invariant
            k <= v@.len(),
            lead(obstacle_xs(v@), k as int) == lead(obstacle_xs(v@), 0),
        decreases v@.len() - k,
    {
        assert(obstacle_xs(v@)[k as int] == v@[k as int].x);
        k = k + 1;
    }
    if k < v.len() {
        assert(obstacle_xs(v@)[k as int] == v@[k as int].x);
    }
    k
}

impl Session {
    /// Ends a frame in which an obstacle hit the front (`hit`) or not: a full
    /// restart, or the purge of the trail and obstacles left of `OFFSCREEN`.
    pub fn finish_frame(&mut self, hit: bool)
        requires
            old(self)@.loose(),
        ensures
            (final(self)@, hit) == finish((old(self)@, hit)),
            final(self)@.wf(),
    {
        proof {
            lemma_finish_wf(self@, hit);
        }
        if hit {
            self.restart();
        } else {
            let k = trail_lead(&self.trail);
            proof {
                lemma_lead(trail_xs(self.trail@), 0);
            }
            let kept = self.trail.split_off(k);
            self.trail = kept;
            let h = obstacle_lead(&self.obstacles);
            proof {
                lemma_lead(obstacle_xs(self.obstacles@), 0);
            }
            let kept = self.obstacles.split_off(h);
            self.obstacles = kept;
        }
    }
}

impl Session {
    /// Advances the session by a frame of `dt` microseconds with the dampen
    /// key `held`: sub-steps of at most `MAX_SLICE`, new obstacles placed by
    /// the random source, then the purge, or a full restart when an obstacle
    /// hit the front. Gives whether the session restarted.
    pub fn frame(&mut self, dt: u64, held: bool) -> (restarted: bool)
        requires
            old(self)@.wf(),
            dt <= MAX_FRAME,
            old(self).time + dt <= u64::MAX,
        ensures
            final(self)@.wf(),
            exists|draws: Seq<(int, int)>|
                draws_fit(draws, old(self)@.height) && (final(self)@, restarted) == #[trigger] frame_spec(
                    old(self)@,
                    dt as int,
                    held,
                    draws,
                ),
            restarted ==> final(self)@ == initial(
                old(self)@.width,
                old(self)@.height,
                old(self)@.sprite_width,
            ),
    {
        let ghost m0 = self@;
        let ghost draws: Seq<(int, int)> = Seq::empty();
        let mut elapsed: u64 = 0;
        let mut hit = false;
        while elapsed < dt
            invariant
                elapsed <= dt <= MAX_FRAME,
                self.time == m0.time + elapsed,
                m0.time + dt <= u64::MAX,
                self.width == m0.width,
                self.height == m0.height,
                self.sprite_width == m0.sprite_width,
                self@.loose(),
                self@.floor_ok(SLACK - SPEED * elapsed),
                draws_fit(draws, m0.height),
                forall|rest: Seq<(int, int)>| #[trigger]
                    run(m0, dt as int, held, draws + rest) == (
                        run(self@, dt - elapsed, held, rest).0,
                        hit || run(self@, dt - elapsed, held, rest).1,
                    ),
            decreases dt - elapsed,
        {
            let slice: u64 = if dt - elapsed < MAX_SLICE { dt - elapsed } else { MAX_SLICE };
            let (spawn_y, spawn_angle) = if self.countdown - (slice as i64) <= 0 {
                let y = draw_below(&mut self.rng, self.height as u64 * 1_000_000);
                let a = draw_below(&mut self.rng, 1_000_000);
                (y, a)
            } else {
                (0u64, 0u64)
            };
            let ghost cur = self@;
            let ghost pick = (spawn_y as int, spawn_angle as int);
            proof {
                lemma_step_keeps(cur, slice as int, held, spawn_y as int, spawn_angle as int, SLACK - SPEED * elapsed);
            }
            let h = self.sub_step(slice, held, spawn_y, spawn_angle);
            proof {
                assert forall|rest: Seq<(int, int)>| #[trigger]
                    run(m0, dt as int, held, draws.push(pick) + rest) == (
                        run(self@, dt - (elapsed + slice), held, rest).0,
                        (hit || h) || run(self@, dt - (elapsed + slice), held, rest).1,
                    ) by {
                    let more = seq![pick] + rest;
                    assert(draws.push(pick) + rest =~= draws + more);
                    assert(more.drop_first() =~= rest);
                    assert(more[0] == pick);
                    assert(run(m0, dt as int, held, draws + more) == (
                        run(cur, dt - elapsed, held, more).0,
                        hit || run(cur, dt - elapsed, held, more).1,
                    ));
                }
                draws = draws.push(pick);
            }
            hit = hit || h;
            elapsed = elapsed + slice;
        }
        proof {
            let none = Seq::<(int, int)>::empty();
            assert(draws + none =~= draws);
            assert(run(m0, dt as int, held, draws + none) == (
                run(self@, dt - elapsed, held, none).0,
                hit || run(self@, dt - elapsed, held, none).1,
            ));
            assert(run(m0, dt as int, held, draws) == (self@, hit));
        }
        self.finish_frame(hit);
        proof {
            assert(frame_spec(m0, dt as int, held, draws) == (self@, hit));
        }
        hit
    }
}

/// The life bar's width on a screen `width` pixels wide: life as a share of
/// 100 points of the width less 10 pixels, never below zero, in micropixels.
pub open spec fn bar_width_spec(life: int, width: int) -> int {
    let p = life * (width - 10);
    if p <= 0 { 0 } else { p / 100 }
}

impl Session {
    /// The life bar's width, in micropixels (see `bar_width_spec`).
    pub fn bar_width(&self) -> (r: i64)
        requires
            -(LIFE_MAX as int) <= self.life <= LIFE_MAX,
        ensures
            r == bar_width_spec(self.life as int, self.width as int),
    {
        let w: i64 = self.width as i64 - 10;
        proof {
            assert(-430_000_000_000_000_000 <= self.life * w <= 430_000_000_000_000_000) by (nonlinear_arith)
                requires
                    -100_000_000 <= self.life <= 100_000_000,
                    -10 <= w <= 4_294_967_295;
        }
        let p: i64 = self.life * w;
        if p <= 0 {
            0
        } else {
            p / 100
        }
    }

    /// The life bar's colour: that of the newest trail sample, if any.
    pub fn bar_tint(&self) -> (r: Option<Tint>)
        ensures
            r == (if self.trail@.len() == 0 { None } else { Some(self.trail@.last().tint) }),
    {
        if self.trail.len() == 0 {
            None
        } else {
            Some(self.trail[self.trail.len() - 1].tint)
        }
    }
}

} // verus!
