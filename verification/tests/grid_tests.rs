//! Tests of the spatial index: bucketing, neighbour queries, and the
//! canonical candidate-pair order — and of detection on top of them.

use ballsim::ball::Ball;
use ballsim::collide::detect;
use ballsim::fx::SCALE;
use ballsim::grid::SpatialGrid;
use ballsim::store::Store;

fn px(v: i64) -> i64 {
    v * SCALE
}

fn ball_at(x: i64, y: i64) -> Ball {
    Ball::new(x, y, px(10), px(10), SCALE)
}

#[test]
fn candidates_come_from_adjacent_cells() {
    let mut store = Store::new();
    let h0 = store.insert(ball_at(px(100), px(100)));
    let h1 = store.insert(ball_at(px(112), px(100)));
    let h2 = store.insert(ball_at(px(400), px(400)));
    let grid = SpatialGrid::build(&store, px(20));
    let near = grid.candidates_for(&store, h0);
    assert_eq!(near.len(), 1);
    assert_eq!(near[0], h1);
    let far = grid.candidates_for(&store, h2);
    assert_eq!(far.len(), 0);
}

#[test]
fn stale_handle_has_no_candidates() {
    let mut store = Store::new();
    let h0 = store.insert(ball_at(px(100), px(100)));
    store.insert(ball_at(px(112), px(100)));
    store.remove(h0);
    let grid = SpatialGrid::build(&store, px(20));
    assert_eq!(grid.candidates_for(&store, h0).len(), 0);
}

#[test]
fn pairs_are_canonically_ordered() {
    let mut store = Store::new();
    let h0 = store.insert(ball_at(px(100), px(100)));
    let h1 = store.insert(ball_at(px(112), px(100)));
    let h2 = store.insert(ball_at(px(100), px(112)));
    let grid = SpatialGrid::build(&store, px(20));
    let pairs = grid.all_candidate_pairs(&store);
    let idx: Vec<(usize, usize)> = pairs.iter().map(|p| (p.0.index, p.1.index)).collect();
    assert_eq!(
        idx,
        vec![(h0.index, h1.index), (h0.index, h2.index), (h1.index, h2.index)]
    );
}

#[test]
fn detect_confirms_overlap_with_exact_annotation() {
    let mut store = Store::new();
    store.insert(ball_at(px(312), px(200)));
    store.insert(ball_at(px(300), px(200)));
    store.insert(ball_at(px(100), px(100)));
    let grid = SpatialGrid::build(&store, px(20));
    let contacts = detect(&grid, &store);
    assert_eq!(contacts.len(), 1);
    let ct = contacts[0];
    assert_eq!(ct.a.index, 0);
    assert_eq!(ct.b.index, 1);
    // centres 12 px apart, radii 10 + 10: 8 px penetration
    assert_eq!(ct.pen, px(8));
    assert_eq!(ct.dist2, px(12) * px(12));
    // the normal points from b toward a: the positive x axis
    assert_eq!(ct.nx, SCALE);
    assert_eq!(ct.ny, 0);
}

#[test]
fn detect_skips_separated_pairs() {
    let mut store = Store::new();
    store.insert(ball_at(px(300), px(200)));
    store.insert(ball_at(px(321), px(200)));
    let grid = SpatialGrid::build(&store, px(20));
    assert_eq!(detect(&grid, &store).len(), 0);
}
