use amplitude::field::{Obstacle, Session, Tint, OFFSCREEN, SPAWN_INTERVAL};
use amplitude::wave::{amplitude, next_life, sine, AMPLITUDE_LARGE, AMPLITUDE_SMALL, LIFE_MAX};

fn run_frames(s: &mut Session, frames: usize, dt: u64, held: bool) -> bool {
    let mut restarted = false;
    for _ in 0..frames {
        restarted = s.frame(dt, held) || restarted;
    }
    restarted
}

fn same_state(a: &Session, b: &Session) {
    assert_eq!(a.front_x, b.front_x);
    assert_eq!(a.front_y, b.front_y);
    assert_eq!(a.trail, b.trail);
    assert_eq!(a.obstacles, b.obstacles);
    assert_eq!(a.life, b.life);
    assert_eq!(a.time, b.time);
    assert_eq!(a.countdown, b.countdown);
}

#[test]
fn sine_at_quarter_points() {
    assert_eq!(sine(0), 0);
    assert_eq!(sine(10_000), 63_719);
    assert_eq!(sine(125_000), 705_882);
    assert_eq!(sine(250_000), 1_000_000);
    assert_eq!(sine(500_000), 0);
    assert_eq!(sine(750_000), -1_000_000);
    assert_eq!(sine(875_000), -705_882);
    assert_eq!(sine(1_000_000), 0);
    assert_eq!(sine(3_250_000), 1_000_000);
}

#[test]
fn amplitude_decision_table() {
    assert_eq!(amplitude(true, 1), AMPLITUDE_SMALL);
    assert_eq!(amplitude(true, 0), AMPLITUDE_LARGE);
    assert_eq!(amplitude(true, -5), AMPLITUDE_LARGE);
    assert_eq!(amplitude(false, 50), AMPLITUDE_LARGE);
}

#[test]
fn life_drains_recovers_and_caps() {
    assert_eq!(next_life(50_000_000, true, 10_000), 49_800_000);
    assert_eq!(next_life(50_000_000, false, 10_000), 50_100_000);
    assert_eq!(next_life(LIFE_MAX, false, 10_000), LIFE_MAX);
    assert_eq!(next_life(99_950_000, false, 10_000), LIFE_MAX);
    assert_eq!(next_life(0, true, 10_000), 0);
    // a drain that crosses zero is not floored
    assert_eq!(next_life(100, true, 10_000), -199_900);
}

#[test]
fn fresh_session() {
    let s = Session::new(800, 600, 64, 7);
    assert_eq!(s.front_x, 100_000_000);
    assert_eq!(s.front_y, 300_000_000);
    assert!(s.trail.is_empty());
    assert!(s.obstacles.is_empty());
    assert_eq!(s.life, LIFE_MAX);
    assert_eq!(s.time, 0);
    assert_eq!(s.countdown, SPAWN_INTERVAL);
    assert_eq!(s.bar_tint(), None);
}

#[test]
fn first_slice_moves_front_and_leaves_red_sample() {
    let mut s = Session::new(800, 600, 64, 7);
    assert!(!s.frame(10_000, false));
    assert_eq!(s.time, 10_000);
    assert_eq!(s.front_y, 295_539_670);
    assert_eq!(s.trail.len(), 1);
    assert_eq!(s.trail[0].x, 100_000_000);
    assert_eq!(s.trail[0].y, 295_539_670);
    assert_eq!(s.trail[0].tint, Tint::Red);
    assert_eq!(s.countdown, SPAWN_INTERVAL - 10_000);
    assert!(!s.frame(10_000, false));
    assert_eq!(s.trail.len(), 2);
    assert_eq!(s.trail[0].x, 98_500_000);
    assert_eq!(s.trail[1].x, 100_000_000);
}

#[test]
fn one_second_free_swing_returns_to_start() {
    let mut s = Session::new(800, 600, 64, 7);
    assert!(!run_frames(&mut s, 100, 10_000, false));
    assert_eq!(s.time, 1_000_000);
    assert_eq!(s.life, LIFE_MAX);
    assert_eq!(s.front_y, 300_000_000);
}

#[test]
fn one_second_frame_matches_hundred_frames() {
    let mut a = Session::new(800, 600, 64, 7);
    let mut b = Session::new(800, 600, 64, 7);
    assert!(!a.frame(1_000_000, false));
    assert!(!run_frames(&mut b, 100, 10_000, false));
    same_state(&a, &b);
    assert_eq!(a.front_y, 300_000_000);
}

#[test]
fn six_seconds_of_dampening_drain_life_to_zero() {
    let mut s = Session::new(800, 600, 64, 7);
    assert!(!run_frames(&mut s, 1, 10_000, true));
    assert_eq!(s.bar_tint(), Some(Tint::Blue));
    assert!(!run_frames(&mut s, 499, 10_000, true));
    assert_eq!(s.time, 5_000_000);
    assert_eq!(s.life, 0);
    assert!(!run_frames(&mut s, 100, 10_000, true));
    assert_eq!(s.time, 6_000_000);
    assert_eq!(s.life, 0);
    assert_eq!(s.trail.last().map(|t| t.tint), Some(Tint::Red));
}

#[test]
fn frame_equals_three_sub_steps() {
    let mut a = Session::new(800, 600, 64, 11);
    let mut b = Session::new(800, 600, 64, 11);
    let ra = a.frame(25_000, true);
    let h1 = b.sub_step(10_000, true, 0, 0);
    let h2 = b.sub_step(10_000, true, 0, 0);
    let h3 = b.sub_step(5_000, true, 0, 0);
    let hit = h1 || h2 || h3;
    b.finish_frame(hit);
    assert_eq!(ra, hit);
    same_state(&a, &b);
    assert_eq!(a.time, 25_000);
    assert_eq!(a.trail.len(), 3);
}

#[test]
fn obstacle_on_the_front_restarts() {
    let mut probe = Session::new(800, 600, 64, 3);
    probe.frame(10_000, false);
    let y_after = probe.front_y;
    let mut s = Session::new(800, 600, 64, 3);
    // lands exactly on the front after one 10 ms slice
    s.obstacles.push(Obstacle { x: 101_500_000, y: y_after, angle: -4_000_000 });
    assert!(s.frame(10_000, false));
    assert!(s.trail.is_empty());
    assert!(s.obstacles.is_empty());
    assert_eq!(s.life, LIFE_MAX);
    assert_eq!(s.time, 0);
    assert_eq!(s.countdown, SPAWN_INTERVAL);
    assert_eq!(s.front_x, 100_000_000);
    assert_eq!(s.front_y, 300_000_000);
}

#[test]
fn obstacle_out_of_reach_does_not_restart() {
    let mut s = Session::new(800, 600, 64, 3);
    // the reach is 32 + 8 = 40 pixels on each axis
    s.obstacles.push(Obstacle { x: 141_500_000, y: 295_539_670, angle: -4_000_000 });
    assert!(!s.frame(10_000, false));
    assert_eq!(s.obstacles.len(), 1);
    assert_eq!(s.obstacles[0].x, 140_000_000);
    assert_eq!(s.obstacles[0].angle, -4_010_000);
}

#[test]
fn obstacle_spawns_after_two_seconds() {
    let mut s = Session::new(800, 600, 64, 5);
    assert!(!run_frames(&mut s, 199, 10_000, false));
    assert!(s.obstacles.is_empty());
    assert!(!s.frame(10_000, false));
    assert_eq!(s.obstacles.len(), 1);
    assert_eq!(s.obstacles[0].x, 832_000_000);
    assert!(s.obstacles[0].y >= 0 && s.obstacles[0].y < 600_000_000);
    assert!(s.obstacles[0].angle >= 0 && s.obstacles[0].angle < 1_000_000);
    assert_eq!(s.countdown, SPAWN_INTERVAL);
}

#[test]
fn same_seed_same_obstacles() {
    let mut a = Session::new(800, 600, 64, 42);
    let mut b = Session::new(800, 600, 64, 42);
    run_frames(&mut a, 450, 10_000, false);
    run_frames(&mut b, 450, 10_000, false);
    same_state(&a, &b);
}

#[test]
fn purge_keeps_only_visible_trail_in_order() {
    let mut s = Session::new(800, 600, 64, 9);
    for _ in 0..150 {
        if s.frame(10_000, false) {
            break;
        }
    }
    assert!(!s.trail.is_empty());
    for w in s.trail.windows(2) {
        assert!(w[0].x <= w[1].x);
    }
    for t in s.trail.iter() {
        assert!(t.x >= OFFSCREEN);
    }
    // 100 + 32 pixels at 1.5 pixels a slice: 89 samples remain
    assert_eq!(s.trail.len(), 89);
}

#[test]
fn life_bar() {
    let mut s = Session::new(800, 600, 64, 1);
    assert_eq!(s.bar_width(), 790_000_000);
    s.life = 50_000_000;
    assert_eq!(s.bar_width(), 395_000_000);
    s.life = -100;
    assert_eq!(s.bar_width(), 0);
    let narrow = Session::new(5, 600, 64, 1);
    assert_eq!(narrow.bar_width(), 0);
}
