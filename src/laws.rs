//! Properties of the simulation that relate several steps or hold of every
//! state.

use crate::field::{
    clamp_y, collides, finish, frame_spec, initial, move_obstacle, move_obstacles, reach_of, run,
    step_spec, Model, Y_LIMIT,
};
use crate::wave::{
    dampened, lemma_sine_bounded, lemma_sine_period_start, sine_spec, AMPLITUDE_LARGE, LIFE_MAX,
    MAX_SLICE, SECOND,
};
use vstd::prelude::*;

verus! {

/// Life never rises above full in a sub-step; it falls only while the front
/// is dampened (key held, life left) and never falls otherwise.
pub proof fn law_life(m: Model, slice: int, held: bool, spawn_y: int, spawn_angle: int)
    requires
        m.life <= LIFE_MAX,
        0 <= slice,
    ensures
        step_spec(m, slice, held, spawn_y, spawn_angle).0.life <= LIFE_MAX,
        dampened(held, m.life) ==> step_spec(m, slice, held, spawn_y, spawn_angle).0.life <= m.life,
        !dampened(held, m.life) ==> step_spec(m, slice, held, spawn_y, spawn_angle).0.life >= m.life,
{
}

/// A frame of 25 milliseconds is the same as sub-steps of 10, 10 and 5
/// milliseconds, taking the random draws in that order, then the end of the
/// frame.
pub proof fn law_sub_steps(m: Model, held: bool, draws: Seq<(int, int)>)
    requires
        draws.len() == 3,
    ensures
        ({
            let (a, h1) = step_spec(m, 10_000, held, draws[0].0, draws[0].1);
            let (b, h2) = step_spec(a, 10_000, held, draws[1].0, draws[1].1);
            let (c, h3) = step_spec(b, 5_000, held, draws[2].0, draws[2].1);
            frame_spec(m, 25_000, held, draws) == finish((c, h1 || h2 || h3))
        }),
{
    let (a, h1) = step_spec(m, 10_000, held, draws[0].0, draws[0].1);
    let (b, h2) = step_spec(a, 10_000, held, draws[1].0, draws[1].1);
    let (c, h3) = step_spec(b, 5_000, held, draws[2].0, draws[2].1);
    let d1 = draws.drop_first();
    let d2 = d1.drop_first();
    let d3 = d2.drop_first();
    assert(d1[0] == draws[1]);
    assert(d2[0] == draws[2]);
    assert(run(c, 0, held, d3) == (c, false));
    assert(run(b, 5_000, held, d2) == (c, h3));
    assert(run(a, 15_000, held, d1) == (c, h2 || h3));
    assert(run(m, 25_000, held, draws) == (c, h1 || (h2 || h3)));
}

/// An obstacle that lands exactly on the front in a sub-step ends the
/// session, whatever its angle.
pub proof fn law_contact(m: Model, slice: int, held: bool, spawn_y: int, spawn_angle: int, i: int)
    requires
        0 <= m.sprite_width,
        0 <= i < m.obstacles.len(),
        move_obstacle(m.obstacles[i], slice).x == m.front_x,
        move_obstacle(m.obstacles[i], slice).y == step_spec(m, slice, held, spawn_y, spawn_angle).0.front_y,
    ensures
        step_spec(m, slice, held, spawn_y, spawn_angle).1,
{
    let n = step_spec(m, slice, held, spawn_y, spawn_angle).0;
    let moved = move_obstacles(m.obstacles, slice);
    assert(moved[i] == move_obstacle(m.obstacles[i], slice));
    let r = reach_of(m.sprite_width);
    assert(r > 0);
    assert(0 < r * r) by (nonlinear_arith)
        requires r > 0;
    assert(collides(moved[i], m.front_x, n.front_y, r));
}

/// Without dampening, the front swings about a fixed centre: after any run of
/// sub-steps its height is the start's plus the large amplitude times the
/// fall of the sine over the time run, and the time has moved on by `dt`.
pub proof fn law_free_swing(m: Model, dt: int, draws: Seq<(int, int)>)
    requires
        0 <= dt,
        -(Y_LIMIT as int) + 70_000_000 <= m.front_y + AMPLITUDE_LARGE * sine_spec(m.time) <= Y_LIMIT - 70_000_000,
    ensures
        run(m, dt, false, draws).0.front_y == m.front_y + AMPLITUDE_LARGE * (sine_spec(m.time) - sine_spec(m.time + dt)),
        run(m, dt, false, draws).0.time == m.time + dt,
    decreases dt,
{
    if dt > 0 {
        let slice = if dt < MAX_SLICE as int { dt } else { MAX_SLICE as int };
        let m1 = step_spec(m, slice, false, draws[0].0, draws[0].1).0;
        let raw = m.front_y + AMPLITUDE_LARGE * (sine_spec(m.time) - sine_spec(m.time + slice));
        lemma_sine_bounded(m.time + slice);
        assert(clamp_y(raw) == raw);
        assert(m1.front_y == raw);
        assert(m1.time == m.time + slice);
        law_free_swing(m1, dt - slice, draws.drop_first());
    }
}

/// Without dampening, a whole period that starts at a whole second brings the
/// front back to the height it started at.
pub proof fn law_full_period(m: Model, k: int, draws: Seq<(int, int)>)
    requires
        0 <= k,
        m.time == k * SECOND,
        -(Y_LIMIT as int) + 70_000_000 <= m.front_y <= Y_LIMIT - 70_000_000,
    ensures
        run(m, SECOND as int, false, draws).0.front_y == m.front_y,
        run(m, SECOND as int, false, draws).0.time == m.time + SECOND,
{
    lemma_sine_period_start(k);
    lemma_sine_period_start(k + 1);
    assert((k + 1) * SECOND == k * SECOND + SECOND);
    law_free_swing(m, SECOND as int, draws);
}

/// A restart leaves no trail and no obstacles, full life, time zero, a full
/// countdown and the front where a fresh session puts it.
pub proof fn law_restart(m: Model, hit: bool)
    requires
        hit,
    ensures
        finish((m, hit)).0 == initial(m.width, m.height, m.sprite_width),
        finish((m, hit)).0.trail.len() == 0,
        finish((m, hit)).0.obstacles.len() == 0,
        finish((m, hit)).0.life == LIFE_MAX,
        finish((m, hit)).0.time == 0,
        finish((m, hit)).0.countdown == 2_000_000,
        finish((m, hit)).0.front_x == m.width * 1_000_000 / 8,
        finish((m, hit)).0.front_y == m.height * 1_000_000 / 2,
{
}

} // verus!
