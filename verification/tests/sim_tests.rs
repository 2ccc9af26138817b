//! End-to-end tests of the simulation: spawning, stepping, collisions,
//! boundaries, and reproducibility.

use ballsim::ball::Vec2;
use ballsim::fx::SCALE;
use ballsim::sim::{SimConfig, SimError, Simulation};

fn px(v: i64) -> i64 {
    v * SCALE
}

fn arena_config() -> SimConfig {
    SimConfig {
        width: px(640),
        height: px(480),
        gravity: Vec2 { x: 0, y: 30 * SCALE },
        damping: SCALE,
        substeps: 8,
        cell_size: px(20),
    }
}

#[test]
fn spawn_rejects_bad_requests() {
    let mut sim = Simulation::new(arena_config());
    assert_eq!(sim.spawn(px(10), px(10), 0, px(10), 0), Err(SimError::InvalidSpawn));
    assert_eq!(sim.spawn(px(10), px(10), -px(1), px(10), 0), Err(SimError::InvalidSpawn));
    assert_eq!(sim.spawn(px(10), px(10), px(1), 0, 0), Err(SimError::InvalidSpawn));
    assert_eq!(sim.spawn(px(10), px(10), px(1), -px(5), 0), Err(SimError::InvalidSpawn));
    assert_eq!(sim.spawn(px(10), px(10), px(1), px(5), -1), Err(SimError::InvalidSpawn));
    assert_eq!(sim.spawn(px(10), px(10), px(1), px(5), SCALE + 1), Err(SimError::InvalidSpawn));
    assert_eq!(sim.snapshot().len(), 0);
}

#[test]
fn spawn_places_particle_at_rest() {
    let mut sim = Simulation::new(arena_config());
    let h = sim.spawn(px(100), px(50), px(10), px(10), SCALE / 10).unwrap();
    let b = sim.ball(h).unwrap();
    assert_eq!(b.position, Vec2 { x: px(100), y: px(50) });
    assert_eq!(b.last_position, b.position);
    assert_eq!(sim.snapshot(), vec![(px(100), px(50), px(10))]);
}

#[test]
fn first_step_moves_by_gravity_increment() {
    let mut sim = Simulation::new(arena_config());
    sim.spawn(px(100), px(50), px(10), px(10), SCALE / 10).unwrap();
    let dt = SCALE / 60;
    sim.step(dt);
    // gravity contribution per frame: 30 px/s^2 * (dt*dt/SCALE) / SCALE = 540
    assert_eq!(sim.snapshot(), vec![(px(100), px(50) + 540, px(10))]);
}

#[test]
fn falling_ball_clamps_at_floor_and_bounces() {
    let mut sim = Simulation::new(arena_config());
    let h = sim.spawn(px(100), px(50), px(10), px(10), SCALE / 2).unwrap();
    let dt = SCALE / 60;
    let floor_y = px(480 - 10);
    let mut prev_y = px(50);
    let mut clamped = false;
    let mut expected_bounce: i64 = 0;
    for _ in 0..500 {
        let before = sim.ball(h).unwrap();
        // with damping 1 the integrator will add exactly the gravity
        // increment of 540 sub-units to the current velocity
        let vy_integrated = before.position.y - before.last_position.y + 540;
        sim.step(dt);
        let snap = sim.snapshot();
        assert_eq!(snap.len(), 1);
        let (x, y, _) = snap[0];
        assert_eq!(x, px(100));
        if y == floor_y {
            clamped = true;
            // the clamp reverses the velocity scaled by restitution 1/2
            expected_bounce = -(vy_integrated / 2);
            break;
        }
        // the y position grows monotonically every frame until the clamp
        assert!(y > prev_y, "y did not increase before the floor was hit");
        assert!(y < floor_y);
        prev_y = y;
    }
    assert!(clamped, "the ball never reached the floor");
    let b = sim.ball(h).unwrap();
    assert_eq!(b.position.y - b.last_position.y, expected_bounce);
    assert!(expected_bounce < 0);
    assert_eq!(b.position.x - b.last_position.x, 0);
}

#[test]
fn runs_are_reproducible() {
    let run = || {
        let mut sim = Simulation::new(arena_config());
        let dt = SCALE / 60;
        for k in 0..5 {
            sim.spawn(px(100 + 7 * k), px(50), px(10), px(10), SCALE / 10).unwrap();
            for _ in 0..10 {
                sim.step(dt);
            }
        }
        sim.snapshot()
    };
    let a = run();
    let b = run();
    assert_eq!(a, b);
}

#[test]
fn overlapping_pair_separates() {
    let mut cfg = arena_config();
    cfg.gravity = Vec2 { x: 0, y: 0 };
    let mut sim = Simulation::new(cfg);
    // two radius-10 circles 12 px apart: 8 px of penetration
    sim.spawn(px(300), px(200), px(10), px(10), SCALE).unwrap();
    sim.spawn(px(312), px(200), px(10), px(10), SCALE).unwrap();
    sim.step(SCALE / 60);
    let snap = sim.snapshot();
    let gap = snap[1].0 - snap[0].0;
    assert!(gap >= px(20) - 2, "pair still penetrating: gap {}", gap);
    assert_eq!(snap[0].1, px(200));
    assert_eq!(snap[1].1, px(200));
}

#[test]
fn equal_mass_resolution_is_symmetric() {
    let mut cfg = arena_config();
    cfg.gravity = Vec2 { x: 0, y: 0 };
    let mut sim = Simulation::new(cfg);
    sim.spawn(px(300), px(200), px(10), px(10), SCALE).unwrap();
    sim.spawn(px(312), px(200), px(10), px(10), SCALE).unwrap();
    let before: i64 = sim.snapshot().iter().map(|s| s.0).sum();
    sim.step(SCALE / 60);
    // equal and opposite corrections keep the centre of mass in place
    let after: i64 = sim.snapshot().iter().map(|s| s.0).sum();
    assert_eq!(before, after);
}

#[test]
fn distant_pair_is_untouched() {
    let mut cfg = arena_config();
    cfg.gravity = Vec2 { x: 0, y: 0 };
    let mut sim = Simulation::new(cfg);
    sim.spawn(px(100), px(200), px(10), px(10), SCALE).unwrap();
    sim.spawn(px(400), px(200), px(10), px(10), SCALE).unwrap();
    sim.step(SCALE / 60);
    assert_eq!(
        sim.snapshot(),
        vec![(px(100), px(200), px(10)), (px(400), px(200), px(10))]
    );
}
