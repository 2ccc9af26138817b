//! Unit tests for the particle type and the store.

use ballsim::ball::{Ball, Vec2};
use ballsim::fx::SCALE;
use ballsim::store::Store;

fn px(v: i64) -> i64 {
    v * SCALE
}

#[test]
fn new_ball_is_at_rest() {
    let b = Ball::new(px(100), px(50), px(10), px(10), SCALE / 10);
    assert_eq!(b.position, Vec2 { x: px(100), y: px(50) });
    assert_eq!(b.last_position, b.position);
    assert_eq!(b.get_velocity(), Vec2 { x: 0, y: 0 });
    assert_eq!(b.get_radius(), px(10));
    assert_eq!(b.get_mass(), px(10));
    assert_eq!(b.get_drawable(), (px(100), px(50), px(10)));
}

#[test]
fn set_position_seeds_velocity() {
    let mut b = Ball::new(px(10), px(10), px(1), px(1), 0);
    b.set_position(Vec2 { x: px(13), y: px(14) });
    assert_eq!(b.get_position(), Vec2 { x: px(13), y: px(14) });
    assert_eq!(b.get_velocity(), Vec2 { x: px(3), y: px(4) });
}

#[test]
fn stop_zeroes_velocity() {
    let mut b = Ball::new(px(10), px(10), px(1), px(1), 0);
    b.set_position(Vec2 { x: px(13), y: px(14) });
    b.stop();
    assert_eq!(b.get_velocity(), Vec2 { x: 0, y: 0 });
    assert_eq!(b.get_position(), Vec2 { x: px(13), y: px(14) });
}

#[test]
fn slowdown_halves_velocity() {
    let mut b = Ball::new(px(0), px(0), px(1), px(1), 0);
    b.set_position(Vec2 { x: px(8), y: px(4) });
    b.slowdown(SCALE / 2);
    assert_eq!(b.get_velocity(), Vec2 { x: px(4), y: px(2) });
}

#[test]
fn add_velocity_displaces_history() {
    let mut b = Ball::new(px(5), px(5), px(1), px(1), 0);
    b.add_velocity(Vec2 { x: px(2), y: -px(1) });
    assert_eq!(b.get_position(), Vec2 { x: px(5), y: px(5) });
    assert_eq!(b.get_velocity(), Vec2 { x: px(2), y: -px(1) });
}

#[test]
fn set_position_same_speed_keeps_velocity() {
    let mut b = Ball::new(px(0), px(0), px(1), px(1), 0);
    b.set_position(Vec2 { x: px(3), y: px(1) });
    let v = b.get_velocity();
    b.set_position_same_speed(Vec2 { x: px(40), y: px(40) });
    assert_eq!(b.get_position(), Vec2 { x: px(40), y: px(40) });
    assert_eq!(b.get_velocity(), v);
}

#[test]
fn moove_shifts_position_only() {
    let mut b = Ball::new(px(10), px(10), px(1), px(1), 0);
    b.moove(Vec2 { x: px(2), y: px(3) });
    assert_eq!(b.get_position(), Vec2 { x: px(12), y: px(13) });
    assert_eq!(b.last_position, Vec2 { x: px(10), y: px(10) });
}

#[test]
fn apply_moves_by_gravity_only_at_rest() {
    let mut b = Ball::new(px(100), px(50), px(10), px(10), 0);
    let dt = SCALE / 60;
    // dt = 1092; dt*dt/SCALE = 18; 30 px/s^2 * 18 / SCALE = 540 sub-units
    b.apply(dt, Vec2 { x: 0, y: 30 * SCALE }, SCALE);
    assert_eq!(b.get_position(), Vec2 { x: px(100), y: px(50) + 540 });
    assert_eq!(b.last_position, Vec2 { x: px(100), y: px(50) });
    assert_eq!(b.get_velocity(), Vec2 { x: 0, y: 540 });
}

#[test]
fn apply_damps_velocity() {
    let mut b = Ball::new(px(0), px(0), px(1), px(1), 0);
    b.set_position(Vec2 { x: px(4), y: 0 });
    // no gravity, damping 1/2: the 4 px velocity becomes 2 px
    b.apply(SCALE / 60, Vec2 { x: 0, y: 0 }, SCALE / 2);
    assert_eq!(b.get_position(), Vec2 { x: px(6), y: 0 });
    assert_eq!(b.get_velocity(), Vec2 { x: px(2), y: 0 });
}

#[test]
fn store_get_and_set() {
    let mut store = Store::new();
    let b = Ball::new(px(1), px(2), px(1), px(1), 0);
    let h = store.insert(b);
    assert_eq!(store.get(h), Some(b));
    let b2 = Ball::new(px(3), px(4), px(1), px(1), 0);
    assert!(store.set(h, b2));
    assert_eq!(store.get(h), Some(b2));
}

#[test]
fn stale_handle_misses_after_removal() {
    let mut store = Store::new();
    let b = Ball::new(px(1), px(2), px(1), px(1), 0);
    let h = store.insert(b);
    assert_eq!(store.remove(h), Some(b));
    assert_eq!(store.get(h), None);
    assert_eq!(store.remove(h), None);
    // the slot is reused, but the old handle still misses
    let b2 = Ball::new(px(9), px(9), px(1), px(1), 0);
    let h2 = store.insert(b2);
    assert_eq!(h2.index, h.index);
    assert_ne!(h2.generation, h.generation);
    assert_eq!(store.get(h), None);
    assert_eq!(store.get(h2), Some(b2));
}

#[test]
fn get_pair_rejects_same_slot() {
    let mut store = Store::new();
    let b = Ball::new(px(1), px(2), px(1), px(1), 0);
    let h = store.insert(b);
    assert_eq!(store.get_pair(h, h), None);
    let h2 = store.insert(b);
    assert_eq!(store.get_pair(h, h2), Some((b, b)));
}

#[test]
fn handles_ascend() {
    let mut store = Store::new();
    let b = Ball::new(px(1), px(2), px(1), px(1), 0);
    let h0 = store.insert(b);
    let h1 = store.insert(b);
    let h2 = store.insert(b);
    store.remove(h1);
    let hs = store.handles();
    assert_eq!(hs.len(), 2);
    assert_eq!(hs[0], h0);
    assert_eq!(hs[1], h2);
}
