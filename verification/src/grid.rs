//! The spatial index: a uniform grid over particle positions.
//!
//! Each frame the grid is rebuilt from scratch. A particle lands in the
//! cell `(floor((x + W) / cell_size), floor((y + W) / cell_size))` (with
//! `W` the world half-width, so the shifted coordinate is nonnegative).
//! Any two overlapping circles of radius at most `cell_size / 2` lie in
//! the same or in adjacent cells, so collision search only has to look at
//! a particle's own cell and its eight neighbours.

use vstd::prelude::*;
use vstd::math::abs;
use crate::ball::{Ball, in_world};
use crate::fx::WORLD_LIMIT;
use crate::seqs::{asc_filter, lemma_asc_filter_props};
use crate::store::{Handle, Slot, Store};

verus! {

/// Largest cell size the grid accepts (2^26 sub-units, 1024 pixels). Keeps
/// squared distances of grid-adjacent particles well inside `i64`.
pub const CELL_LIMIT: i64 = 67108864;

/// Slot `i` of a slot sequence holds a particle.
pub open spec fn slot_live(slots: Seq<Slot>, i: int) -> bool {
    &&& 0 <= i < slots.len()
    &&& slots[i].ball is Some
}

/// The particle in slot `i`.
pub open spec fn slot_ball(slots: Seq<Slot>, i: int) -> Ball {
    slots[i].ball->Some_0
}

/// The grid coordinate of one axis: the world-shifted value binned into
/// cells of width `c`.
pub open spec fn cell_coord(v: int, c: int) -> int {
    (v + WORLD_LIMIT) / c
}

/// The cell of a particle.
pub open spec fn key_of(b: Ball, c: int) -> (int, int) {
    (cell_coord(b.position.x as int, c), cell_coord(b.position.y as int, c))
}

/// Two cells within one step of each other on both axes.
pub open spec fn adjacent(ka: (int, int), kb: (int, int)) -> bool {
    &&& -1 <= ka.0 - kb.0 <= 1
    &&& -1 <= ka.1 - kb.1 <= 1
}

/// The ascending members of one cell: all live slots whose particle falls
/// in it.
pub open spec fn bucket_pred(slots: Seq<Slot>, c: int, key: (int, int)) -> spec_fn(int) -> bool {
    |i: int| slot_live(slots, i) && key_of(slot_ball(slots, i), c) == key
}

/// The members of cell `key`, ascending.
pub open spec fn bucket_spec(slots: Seq<Slot>, c: int, key: (int, int)) -> Seq<int> {
    asc_filter(slots.len(), bucket_pred(slots, c, key))
}

/// The grid coordinate of one axis, executable.
pub fn cell_coord_i64(v: i64, c: i64) -> (r: i64)
    requires
        0 < c <= CELL_LIMIT,
        -WORLD_LIMIT <= v <= WORLD_LIMIT,
    ensures
        r == cell_coord(v as int, c as int),
        0 <= r <= 2 * WORLD_LIMIT,
{
    let shifted = v + WORLD_LIMIT;
    proof {
        vstd::arithmetic::div_mod::lemma_div_pos_is_pos(shifted as int, c as int);
        vstd::arithmetic::div_mod::lemma_div_nonincreasing(shifted as int, c as int);
    }
    shifted / c
}

/// Values binned into the same or adjacent cells are less than two cell
/// widths apart.
pub proof fn lemma_adjacent_close(va: int, vb: int, c: int)
    requires
        c > 0,
        -1 <= cell_coord(va, c) - cell_coord(vb, c) <= 1,
    ensures
        abs(va - vb) < 2 * c,
{
    let a = va + WORLD_LIMIT;
    let b = vb + WORLD_LIMIT;
    vstd::arithmetic::div_mod::lemma_fundamental_div_mod(a, c);
    vstd::arithmetic::div_mod::lemma_fundamental_div_mod(b, c);
    vstd::arithmetic::div_mod::lemma_mod_bound(a, c);
    vstd::arithmetic::div_mod::lemma_mod_bound(b, c);
    let d = a / c - b / c;
    assert(-c <= c * d <= c) by (nonlinear_arith)
        requires -1 <= d <= 1, c > 0;
    assert(a - b == c * d + (a % c - b % c)) by (nonlinear_arith)
        requires a == c * (a / c) + a % c, b == c * (b / c) + b % c, d == a / c - b / c;
}

/// Values at most one cell width apart land in the same or adjacent
/// cells.
pub proof fn lemma_close_adjacent(va: int, vb: int, c: int)
    requires
        c > 0,
        -c <= va - vb <= c,
    ensures
        -1 <= cell_coord(va, c) - cell_coord(vb, c) <= 1,
{
    let a = va + WORLD_LIMIT;
    let b = vb + WORLD_LIMIT;
    assert((a + c) / c == a / c + 1) by {
        vstd::arithmetic::div_mod::lemma_div_plus_one(a, c);
    }
    assert((b + c) / c == b / c + 1) by {
        vstd::arithmetic::div_mod::lemma_div_plus_one(b, c);
    }
    vstd::arithmetic::div_mod::lemma_div_is_ordered(b, a + c, c);
    vstd::arithmetic::div_mod::lemma_div_is_ordered(a, b + c, c);
}

/// The `e`-th key of the 3-by-3 neighbourhood walk around `(cx, cy)`,
/// for `e` in `[0, 9)`: column `e % 3`, row `e / 3`, offsets in
/// `{-1, 0, 1}`.
pub open spec fn walk_key(cx: int, cy: int, e: int) -> (int, int) {
    (cx + e % 3 - 1, cy + e / 3 - 1)
}

/// `key` lies in the first `d` steps of the neighbourhood walk.
pub open spec fn covered(cx: int, cy: int, d: int, key: (int, int)) -> bool {
    exists|e: int| 0 <= e < d && #[trigger] walk_key(cx, cy, e) == key
}

/// The walk visits nine distinct keys.
pub proof fn lemma_walk_keys_distinct(cx: int, cy: int, e1: int, e2: int)
    requires
        0 <= e1 < e2 < 9,
    ensures
        walk_key(cx, cy, e1) != walk_key(cx, cy, e2),
{
    vstd::arithmetic::div_mod::lemma_fundamental_div_mod(e1, 3);
    vstd::arithmetic::div_mod::lemma_fundamental_div_mod(e2, 3);
}

/// The full walk covers exactly the nine cells adjacent to `(cx, cy)`.
pub proof fn lemma_covered_adjacent(cx: int, cy: int, key: (int, int))
    ensures
        covered(cx, cy, 9, key) <==> adjacent(key, (cx, cy)),
{
    if covered(cx, cy, 9, key) {
        let e = choose|e: int| 0 <= e < 9 && #[trigger] walk_key(cx, cy, e) == key;
        vstd::arithmetic::div_mod::lemma_mod_bound(e, 3);
        vstd::arithmetic::div_mod::lemma_div_pos_is_pos(e, 3);
        vstd::arithmetic::div_mod::lemma_div_is_ordered(e, 8, 3);
    }
    if adjacent(key, (cx, cy)) {
        let a = key.0 - cx + 1;
        let b = key.1 - cy + 1;
        let e = 3 * b + a;
        vstd::arithmetic::div_mod::lemma_fundamental_div_mod_converse_mod(e, 3, b, a);
        vstd::arithmetic::div_mod::lemma_fundamental_div_mod_converse_div(e, 3, b, a);
        assert(e == b * 3 + a);
        assert(walk_key(cx, cy, e) == key);
    }
}

/// The broad-phase filter around particle `i`: live particles other than
/// `i` (with only the later ones when `only_greater` is set) whose cell
/// is the same as or adjacent to `i`'s.
pub open spec fn cand_pred(slots: Seq<Slot>, c: int, i: int, only_greater: bool) -> spec_fn(
    int,
) -> bool {
    |j: int|
        {
            &&& slot_live(slots, j)
            &&& j != i
            &&& (only_greater ==> j > i)
            &&& adjacent(key_of(slot_ball(slots, j), c), key_of(slot_ball(slots, i), c))
        }
}

/// The ascending broad-phase candidates around particle `i`.
pub open spec fn neighbors_spec(slots: Seq<Slot>, c: int, i: int, only_greater: bool) -> Seq<
    int,
> {
    asc_filter(slots.len(), cand_pred(slots, c, i, only_greater))
}

/// The candidate pairs contributed by particle `i`: `(i, j)` for each
/// later broad-phase neighbour `j`, ascending in `j`.
pub open spec fn pair_seq(slots: Seq<Slot>, c: int, i: int) -> Seq<(int, int)> {
    neighbors_spec(slots, c, i, true).map_values(|j: int| (i, j))
}

/// All candidate pairs among the first `n` slots, in ascending
/// `(min, max)` order: each unordered pair of distinct live cell-adjacent
/// particles appears exactly once, as `(smaller, larger)`.
pub open spec fn pairs_upto(slots: Seq<Slot>, c: int, n: nat) -> Seq<(int, int)>
    decreases n,
{
    if n == 0 {
        Seq::empty()
    } else {
        pairs_upto(slots, c, (n - 1) as nat) + if slot_live(slots, n - 1) {
            pair_seq(slots, c, n - 1)
        } else {
            Seq::empty()
        }
    }
}

/// The canonical candidate-pair sequence of a slot snapshot.
pub open spec fn candidate_pairs_spec(slots: Seq<Slot>, c: int) -> Seq<(int, int)> {
    pairs_upto(slots, c, slots.len())
}

/// Sorts a duplicate-free list of slot indices ascending, by insertion
/// into an already-sorted output.
#[verifier::loop_isolation(false)]
fn sort_ascending(v: &Vec<usize>) -> (r: Vec<usize>)
    requires
        v@.no_duplicates(),
    ensures
        forall|k1: int, k2: int| 0 <= k1 < k2 < r@.len() ==> r@[k1] < r@[k2],
        forall|x: usize| r@.contains(x) <==> v@.contains(x),
{
    let mut out: Vec<usize> = Vec::new();
    let n = v.len();
    for idx in 0..n
        invariant
            n == v@.len(),
            forall|k1: int, k2: int| 0 <= k1 < k2 < out@.len() ==> out@[k1] < out@[k2],
            forall|x: usize| out@.contains(x) <==> v@.subrange(0, idx as int).contains(x),
    {
        let x = v[idx];
        proof {
            if out@.contains(x) {
                let q = choose|q: int|
                    0 <= q < idx as int && v@.subrange(0, idx as int)[q] == x;
                assert(v@[q] == v@[idx as int]);
            }
        }
        let mut p: usize = 0;
        while p < out.len() && out[p] < x
            invariant
                p <= out@.len(),
                forall|q: int| 0 <= q < p ==> out@[q] < x,
            decreases out@.len() - p,
        {
            p = p + 1;
        }
        proof {
            if p < out@.len() {
                assert(out@.contains(out@[p as int]));
                assert(out@[p as int] != x);
            }
        }
        let ghost out0 = out@;
        out.insert(p, x);
        proof {
            out0.insert_ensures(p as int, x);
            assert forall|k1: int, k2: int|
                0 <= k1 < k2 < out@.len() implies out@[k1] < out@[k2] by {
                if k2 < p {
                } else if k1 < p && k2 == p {
                    assert(out@[k1] == out0[k1]);
                } else if k1 < p {
                    assert(out@[k1] == out0[k1] && out@[k2] == out0[k2 - 1]);
                    assert(out0[p as int - 1] <= out0[k2 - 1] || p as int - 1 == k2 - 1);
                } else if k1 == p {
                    assert(out@[k2] == out0[k2 - 1]);
                    assert(out0[p as int] <= out0[k2 - 1]);
                } else {
                    assert(out@[k1] == out0[k1 - 1] && out@[k2] == out0[k2 - 1]);
                }
            }
            assert forall|y: usize|
                out@.contains(y) <==> v@.subrange(0, idx + 1).contains(y) by {
                assert(v@.subrange(0, idx + 1) =~= v@.subrange(0, idx as int).push(x));
                if out@.contains(y) {
                    let k = choose|k: int| 0 <= k < out@.len() && out@[k] == y;
                    if k == p {
                        assert(y == x);
                        assert(v@.subrange(0, idx + 1)[idx as int] == x);
                    } else {
                        if k < p {
                            assert(out0[k] == y);
                        } else {
                            assert(out0[k - 1] == y);
                        }
                        assert(out0.contains(y));
                        assert(v@.subrange(0, idx as int).contains(y));
                        let q = choose|q: int|
                            0 <= q < idx as int && v@.subrange(0, idx as int)[q] == y;
                        assert(v@.subrange(0, idx + 1)[q] == y);
                    }
                }
                if v@.subrange(0, idx + 1).contains(y) {
                    if y == x {
                        assert(out@[p as int] == y);
                    } else {
                        let q = choose|q: int|
                            0 <= q < idx + 1 && #[trigger] v@.subrange(0, idx + 1)[q] == y;
                        assert(q < idx as int);
                        assert(v@.subrange(0, idx as int)[q] == y);
                        assert(out0.contains(y));
                        let k = choose|k: int| 0 <= k < out0.len() && out0[k] == y;
                        if k < p {
                            assert(out@[k] == y);
                        } else {
                            assert(out@[k + 1] == y);
                        }
                    }
                }
            }
        }
    }
    proof {
        assert(v@.subrange(0, n as int) =~= v@);
    }
    out
}

/// One cell of the grid.
pub struct GridCell {
    /// Horizontal cell coordinate.
    pub cx: i64,
    /// Vertical cell coordinate.
    pub cy: i64,
    /// The slot indices whose particle falls in this cell, ascending.
    pub members: Vec<usize>,
}

/// The uniform grid, rebuilt each frame from the store.
pub struct SpatialGrid {
    /// Width of a square cell, in sub-units.
    pub cell_size: i64,
    /// The non-empty cells, each with its members.
    pub cells: Vec<GridCell>,
}

impl SpatialGrid {
    /// The key of cell `k`.
    pub open spec fn cell_key(self, k: int) -> (int, int) {
        (self.cells@[k].cx as int, self.cells@[k].cy as int)
    }

    /// The members of cell `k`, as mathematical indices.
    pub open spec fn members_int(self, k: int) -> Seq<int> {
        self.cells@[k].members@.map_values(|u: usize| u as int)
    }

    /// No two cells share a key.
    pub open spec fn keys_unique(self) -> bool {
        forall|k1: int, k2: int|
            0 <= k1 < k2 < self.cells@.len() ==> self.cell_key(k1) != self.cell_key(k2)
    }

    /// The grid is a faithful index of `slots`: every cell lists exactly
    /// the live slots that fall in it, and every live slot has its cell
    /// present.
    pub open spec fn matches(self, slots: Seq<Slot>) -> bool {
        &&& 0 < self.cell_size <= CELL_LIMIT
        &&& self.keys_unique()
        &&& forall|k: int|
            0 <= k < self.cells@.len() ==> #[trigger] self.members_int(k) == bucket_spec(
                slots,
                self.cell_size as int,
                self.cell_key(k),
            )
        &&& forall|i: int|
            slot_live(slots, i) ==> exists|k: int|
                0 <= k < self.cells@.len() && #[trigger] self.cell_key(k) == key_of(
                    slot_ball(slots, i),
                    self.cell_size as int,
                )
    }

    /// Finds the cell with the given key, if the grid has one.
    pub fn find_cell(&self, cx: i64, cy: i64) -> (r: Option<usize>)
        ensures
            match r {
                Some(k) => k < self.cells@.len() && self.cell_key(k as int) == (cx as int, cy as int),
                None => forall|k: int|
                    0 <= k < self.cells@.len() ==> #[trigger] self.cell_key(k) != (
                    cx as int,
                    cy as int,
                ),
            },
    {
        let n = self.cells.len();
        for k in 0..n
            invariant
                n == self.cells@.len(),
                forall|k2: int|
                    0 <= k2 < k ==> #[trigger] self.cell_key(k2) != (cx as int, cy as int),
        {
            if self.cells[k].cx == cx && self.cells[k].cy == cy {
                return Some(k);
            }
        }
        None
    }

    /// All broad-phase candidates around live particle `i`, in ascending
    /// slot order: the members of `i`'s cell and its eight neighbours,
    /// except `i` itself — restricted to indices above `i` when
    /// `only_greater` is set (the canonical pair order).
    #[verifier::loop_isolation(false)]
    pub fn gather(&self, store: &Store, i: usize, only_greater: bool) -> (r: Vec<usize>)
        requires
            self.matches(store.slots_seq()),
            store.live_at(i as int),
            in_world(store.ball_at_spec(i as int).position),
        ensures
            r@.map_values(|u: usize| u as int) == neighbors_spec(
                store.slots_seq(),
                self.cell_size as int,
                i as int,
                only_greater,
            ),
            forall|t: int| 0 <= t < r@.len() ==> store.live_at(#[trigger] r@[t] as int),
    {
        let ghost slots = store.slots_seq();
        let ghost c = self.cell_size as int;
        let ghost ikey = key_of(slot_ball(slots, i as int), c);
        let n_slots = store.slot_count();
        let b = store.ball_at(i).unwrap();
        let cx = cell_coord_i64(b.position.x, self.cell_size);
        let cy = cell_coord_i64(b.position.y, self.cell_size);
        proof {
            assert(ikey == (cx as int, cy as int));
        }
        let mut js: Vec<usize> = Vec::new();
        for d in 0..9usize
            invariant
                js@.no_duplicates(),
                forall|x: usize|
                    #[trigger] js@.contains(x) <==> {
                        &&& slot_live(slots, x as int)
                        &&& x as int != i as int
                        &&& (only_greater ==> x as int > i as int)
                        &&& covered(
                            cx as int,
                            cy as int,
                            d as int,
                            key_of(slot_ball(slots, x as int), c),
                        )
                    },
        {
            let ox = cx + (d % 3) as i64 - 1;
            let oy = cy + (d / 3) as i64 - 1;
            let ghost keyd = walk_key(cx as int, cy as int, d as int);
            proof {
                assert((ox as int, oy as int) == keyd);
            }
            match self.find_cell(ox, oy) {
                Some(k) => {
                    let ghost bpred = bucket_pred(slots, c, keyd);
                    proof {
                        assert(self.cell_key(k as int) == keyd);
                        assert(self.members_int(k as int) == bucket_spec(slots, c, keyd));
                        lemma_asc_filter_props(slots.len(), bpred);
                    }
                    let m_len = self.cells[k].members.len();
                    for t in 0..m_len
                        invariant
                            m_len == self.cells@[k as int].members@.len(),
                            k < self.cells@.len(),
                            js@.no_duplicates(),
                            forall|x: usize|
                                #[trigger] js@.contains(x) <==> {
                                    ||| {
                                        &&& slot_live(slots, x as int)
                                        &&& x as int != i as int
                                        &&& (only_greater ==> x as int > i as int)
                                        &&& covered(
                                            cx as int,
                                            cy as int,
                                            d as int,
                                            key_of(slot_ball(slots, x as int), c),
                                        )
                                    }
                                    ||| {
                                        &&& (exists|q: int|
                                            0 <= q < t && #[trigger] self.cells@[
                                                k as int
                                            ].members@[q] == x)
                                        &&& x as int != i as int
                                        &&& (only_greater ==> x as int > i as int)
                                    }
                                },
                    {
                        let j = self.cells[k].members[t];
                        proof {
                            assert(self.cells@[k as int].members@[t as int] == j);
                            assert(self.members_int(k as int)[t as int] == j as int);
                            assert(bpred(j as int));
                        }
                        if j != i && (!only_greater || j > i) {
                            proof {
                                if js@.contains(j) {
                                    if covered(
                                        cx as int,
                                        cy as int,
                                        d as int,
                                        key_of(slot_ball(slots, j as int), c),
                                    ) {
                                        let e = choose|e: int|
                                            0 <= e < d as int && #[trigger] walk_key(
                                                cx as int,
                                                cy as int,
                                                e,
                                            ) == key_of(slot_ball(slots, j as int), c);
                                        lemma_walk_keys_distinct(cx as int, cy as int, e, d as int);
                                        assert(false);
                                    } else {
                                        let q = choose|q: int|
                                            0 <= q < t && #[trigger] self.cells@[
                                                k as int
                                            ].members@[q] == j;
                                        assert(self.members_int(k as int)[q] == j as int);
                                        assert(self.members_int(k as int)[q] < self.members_int(
                                            k as int,
                                        )[t as int]);
                                        assert(false);
                                    }
                                }
                            }
                            let ghost js0 = js@;
                            js.push(j);
                            proof {
                                assert forall|x: usize| #[trigger] js@.contains(x) implies (
                                js0.contains(x) || x == j) by {
                                    let q = choose|q: int| 0 <= q < js@.len() && js@[q] == x;
                                    if q < js0.len() {
                                        assert(js0[q] == x);
                                    }
                                }
                                assert forall|x: usize| js0.contains(x) implies js@.contains(
                                    x,
                                ) by {
                                    let q = choose|q: int| 0 <= q < js0.len() && js0[q] == x;
                                    assert(js@[q] == x);
                                }
                                assert(js@[js@.len() - 1] == j);
                                assert(js@.contains(j));
                                assert forall|q1: int, q2: int|
                                    0 <= q1 < q2 < js@.len() implies js@[q1] != js@[q2] by {
                                    if q2 == js@.len() - 1 {
                                        assert(js0[q1] == js@[q1]);
                                        assert(js0.contains(js@[q1]));
                                    }
                                }
                                assert forall|x: usize| #[trigger] js@.contains(x) implies {
                                    ||| {
                                        &&& slot_live(slots, x as int)
                                        &&& x as int != i as int
                                        &&& (only_greater ==> x as int > i as int)
                                        &&& covered(
                                            cx as int,
                                            cy as int,
                                            d as int,
                                            key_of(slot_ball(slots, x as int), c),
                                        )
                                    }
                                    ||| {
                                        &&& (exists|q: int|
                                            0 <= q < t + 1 && #[trigger] self.cells@[
                                                k as int
                                            ].members@[q] == x)
                                        &&& x as int != i as int
                                        &&& (only_greater ==> x as int > i as int)
                                    }
                                } by {
                                    if x == j {
                                        assert(self.cells@[k as int].members@[t as int] == j);
                                    }
                                }
                                assert forall|x: usize|
                                    #![trigger js@.contains(x)]
                                    ({
                                        ||| {
                                            &&& slot_live(slots, x as int)
                                            &&& x as int != i as int
                                            &&& (only_greater ==> x as int > i as int)
                                            &&& covered(
                                                cx as int,
                                                cy as int,
                                                d as int,
                                                key_of(slot_ball(slots, x as int), c),
                                            )
                                        }
                                        ||| {
                                            &&& (exists|q: int|
                                                0 <= q < t + 1 && #[trigger] self.cells@[
                                                    k as int
                                                ].members@[q] == x)
                                            &&& x as int != i as int
                                            &&& (only_greater ==> x as int > i as int)
                                        }
                                    }) implies js@.contains(x) by {
                                    if exists|q: int|
                                        0 <= q < t + 1 && #[trigger] self.cells@[
                                            k as int
                                        ].members@[q] == x {
                                        let q = choose|q: int|
                                            0 <= q < t + 1 && #[trigger] self.cells@[
                                                k as int
                                            ].members@[q] == x;
                                        if q == t {
                                            assert(x == j);
                                        } else {
                                            assert(js0.contains(x));
                                        }
                                    } else {
                                        if slot_live(slots, x as int) && x as int != i as int && (
                                        only_greater ==> x as int > i as int) && covered(
                                            cx as int,
                                            cy as int,
                                            d as int,
                                            key_of(slot_ball(slots, x as int), c),
                                        ) {
                                            assert(js0.contains(x));
                                        }
                                    }
                                }
                            }
                        } else {
                            proof {
                                assert forall|x: usize|
                                    #![trigger js@.contains(x)]
                                    ((exists|q: int|
                                        0 <= q < t + 1 && #[trigger] self.cells@[
                                            k as int
                                        ].members@[q] == x) && x as int != i as int
                                        && (only_greater ==> x as int > i as int)) implies (
                                    exists|q: int|
                                        0 <= q < t && #[trigger] self.cells@[k as int].members@[q]
                                            == x) by {
                                    let q = choose|q: int|
                                        0 <= q < t + 1 && #[trigger] self.cells@[
                                            k as int
                                        ].members@[q] == x;
                                    if q == t {
                                        assert(x == j);
                                        assert(false);
                                    }
                                }
                            }
                        }
                    }
                    proof {
                        assert forall|x: usize| #[trigger] js@.contains(x) <==> {
                            &&& slot_live(slots, x as int)
                            &&& x as int != i as int
                            &&& (only_greater ==> x as int > i as int)
                            &&& covered(
                                cx as int,
                                cy as int,
                                d + 1,
                                key_of(slot_ball(slots, x as int), c),
                            )
                        } by {
                            let xkey = key_of(slot_ball(slots, x as int), c);
                            if js@.contains(x) {
                                if exists|q: int|
                                    0 <= q < m_len && #[trigger] self.cells@[k as int].members@[q]
                                        == x {
                                    let q = choose|q: int|
                                        0 <= q < m_len && #[trigger] self.cells@[
                                            k as int
                                        ].members@[q] == x;
                                    assert(self.members_int(k as int)[q] == x as int);
                                    assert(bpred(x as int));
                                    assert(walk_key(cx as int, cy as int, d as int) == xkey);
                                }
                            }
                            if {
                                &&& slot_live(slots, x as int)
                                &&& x as int != i as int
                                &&& (only_greater ==> x as int > i as int)
                                &&& covered(cx as int, cy as int, d + 1, xkey)
                            } {
                                let e = choose|e: int|
                                    0 <= e < d + 1 && #[trigger] walk_key(cx as int, cy as int, e)
                                        == xkey;
                                if e == d as int {
                                    assert(bpred(x as int));
                                    assert(bucket_spec(slots, c, keyd).contains(x as int));
                                    let q = choose|q: int|
                                        0 <= q < self.members_int(k as int).len()
                                            && #[trigger] self.members_int(k as int)[q]
                                            == x as int;
                                    assert(self.cells@[k as int].members@[q] == x);
                                } else {
                                    assert(covered(cx as int, cy as int, d as int, xkey));
                                }
                            }
                        }
                    }
                },
                None => {
                    proof {
                        assert forall|x: usize| #[trigger] js@.contains(x) <==> {
                            &&& slot_live(slots, x as int)
                            &&& x as int != i as int
                            &&& (only_greater ==> x as int > i as int)
                            &&& covered(
                                cx as int,
                                cy as int,
                                d + 1,
                                key_of(slot_ball(slots, x as int), c),
                            )
                        } by {
                            let xkey = key_of(slot_ball(slots, x as int), c);
                            if slot_live(slots, x as int) && xkey == keyd {
                                assert(exists|k2: int|
                                    0 <= k2 < self.cells@.len() && #[trigger] self.cell_key(k2)
                                        == xkey);
                                let k2 = choose|k2: int|
                                    0 <= k2 < self.cells@.len() && #[trigger] self.cell_key(k2)
                                        == xkey;
                                assert(false);
                            }
                            if covered(cx as int, cy as int, d + 1, xkey) && !covered(
                                cx as int,
                                cy as int,
                                d as int,
                                xkey,
                            ) {
                                let e = choose|e: int|
                                    0 <= e < d + 1 && #[trigger] walk_key(cx as int, cy as int, e)
                                        == xkey;
                                assert(e == d as int);
                                assert(xkey == keyd);
                            }
                        }
                    }
                },
            }
        }
        let r = sort_ascending(&js);
        proof {
            let s1 = r@.map_values(|u: usize| u as int);
            let pred = cand_pred(slots, c, i as int, only_greater);
            let s2 = neighbors_spec(slots, c, i as int, only_greater);
            lemma_asc_filter_props(slots.len(), pred);
            assert forall|k1: int, k2: int| 0 <= k1 < k2 < s1.len() implies s1[k1] < s1[k2] by {
                assert(r@[k1] < r@[k2]);
            }
            assert forall|z: int| s1.contains(z) <==> s2.contains(z) by {
                lemma_covered_adjacent(
                    cx as int,
                    cy as int,
                    if 0 <= z < slots.len() {
                        key_of(slot_ball(slots, z), c)
                    } else {
                        (0int, 0int)
                    },
                );
                if s1.contains(z) {
                    let q = choose|q: int| 0 <= q < s1.len() && s1[q] == z;
                    assert(r@[q] as int == z);
                    assert(r@.contains(r@[q]));
                    assert(js@.contains(r@[q]));
                    assert(pred(z));
                    assert(s2.contains(z));
                }
                if s2.contains(z) {
                    let q = choose|q: int| 0 <= q < s2.len() && s2[q] == z;
                    assert(pred(z));
                    assert(0 <= z < slots.len());
                    assert(slots.len() == n_slots);
                    let x = z as usize;
                    assert(x as int == z);
                    assert(js@.contains(x));
                    assert(r@.contains(x));
                    let q2 = choose|q2: int| 0 <= q2 < r@.len() && r@[q2] == x;
                    assert(s1[q2] == z);
                }
            }
        }
        proof {
            crate::seqs::lemma_asc_filter_ascending(
                slots.len(),
                cand_pred(slots, c, i as int, only_greater),
            );
            crate::seqs::lemma_asc_seqs_equal(
                r@.map_values(|u: usize| u as int),
                neighbors_spec(slots, c, i as int, only_greater),
            );
            assert forall|t: int| 0 <= t < r@.len() implies store.live_at(
                #[trigger] r@[t] as int,
            ) by {
                assert(r@.contains(r@[t]));
                assert(js@.contains(r@[t]));
            }
        }
        r
    }

    /// The broad-phase candidates near the particle `h` refers to: every
    /// other live particle in `h`'s cell or one of its eight neighbours,
    /// in ascending slot order. Empty for a stale handle.
    #[verifier::loop_isolation(false)]
    pub fn candidates_for(&self, store: &Store, h: Handle) -> (r: Vec<Handle>)
        requires
            self.matches(store.slots_seq()),
            forall|i: int|
                store.live_at(i) ==> in_world(#[trigger] store.ball_at_spec(i).position),
        ensures
            store.live(h) ==> r@.map_values(|x: Handle| x.index as int) == neighbors_spec(
                store.slots_seq(),
                self.cell_size as int,
                h.index as int,
                false,
            ),
            !store.live(h) ==> r@.len() == 0,
            forall|t: int| 0 <= t < r@.len() ==> store.live(#[trigger] r@[t]),
    {
        let mut r: Vec<Handle> = Vec::new();
        if store.get(h).is_none() {
            return r;
        }
        let js = self.gather(store, h.index, false);
        let ghost spec_js = neighbors_spec(
            store.slots_seq(),
            self.cell_size as int,
            h.index as int,
            false,
        );
        let m = js.len();
        for t in 0..m
            invariant
                m == js@.len(),
                r@.len() == t,
                forall|q: int| 0 <= q < t ==> (#[trigger] r@[q]).index == js@[q],
                forall|q: int| 0 <= q < t ==> store.live(#[trigger] r@[q]),
        {
            let j = js[t];
            let hj = store.handle_at(j).unwrap();
            r.push(hj);
        }
        proof {
            assert(r@.map_values(|x: Handle| x.index as int) =~= js@.map_values(
                |u: usize| u as int,
            ));
        }
        r
    }

    /// Every candidate pair of distinct live cell-adjacent particles,
    /// exactly once, in ascending `(min, max)` slot order: the canonical,
    /// deterministic order that collision detection works through.
    #[verifier::loop_isolation(false)]
    #[verifier::rlimit(60)]
    pub fn all_candidate_pairs(&self, store: &Store) -> (r: Vec<(Handle, Handle)>)
        requires
            self.matches(store.slots_seq()),
            forall|i: int|
                store.live_at(i) ==> in_world(#[trigger] store.ball_at_spec(i).position),
        ensures
            r@.map_values(|p: (Handle, Handle)| (p.0.index as int, p.1.index as int))
                == candidate_pairs_spec(store.slots_seq(), self.cell_size as int),
            forall|t: int|
                0 <= t < r@.len() ==> store.live(#[trigger] r@[t].0) && store.live(r@[t].1),
    {
        let ghost slots = store.slots_seq();
        let ghost c = self.cell_size as int;
        let ghost to_idx = |p: (Handle, Handle)| (p.0.index as int, p.1.index as int);
        let mut r: Vec<(Handle, Handle)> = Vec::new();
        let n = store.slot_count();
        for i in 0..n
            invariant
                r@.map_values(to_idx) == pairs_upto(slots, c, i as nat),
                forall|t: int|
                    0 <= t < r@.len() ==> store.live((#[trigger] r@[t]).0) && store.live(
                        r@[t].1,
                    ),
        {
            let ghost r0 = r@;
            match store.handle_at(i) {
                Some(hi) => {
                    let js = self.gather(store, i, true);
                    let ghost spec_js = neighbors_spec(slots, c, i as int, true);
                    let ghost pseq = pair_seq(slots, c, i as int);
                    let m = js.len();
                    for t in 0..m
                        invariant
                            m == js@.len(),
                            js@.map_values(|u: usize| u as int) == spec_js,
                            pseq == pair_seq(slots, c, i as int),
                            hi.index == i,
                            store.live(hi),
                            r@.map_values(to_idx) =~= pairs_upto(slots, c, i as nat) + pseq
                                .subrange(0, t as int),
                            forall|q: int|
                                0 <= q < r@.len() ==> store.live((#[trigger] r@[q]).0)
                                    && store.live(r@[q].1),
                    {
                        let j = js[t];
                        proof {
                            assert(js@[t as int] as int == spec_js[t as int]);
                            assert(store.live_at(j as int));
                        }
                        let hj = store.handle_at(j).unwrap();
                        let ghost r1 = r@;
                        r.push((hi, hj));
                        proof {
                            assert(r@[r@.len() - 1] == (hi, hj));
                            assert(forall|q: int|
                                0 <= q < r1.len() ==> #[trigger] r@[q] == r1[q]);
                            assert(pseq[t as int] == (i as int, j as int));
                            assert(r@.map_values(to_idx) =~= r1.map_values(to_idx).push(
                                (i as int, j as int),
                            ));
                            assert(pseq.subrange(0, t + 1) =~= pseq.subrange(0, t as int).push(
                                pseq[t as int],
                            ));
                            assert(r@.map_values(to_idx) =~= pairs_upto(slots, c, i as nat)
                                + pseq.subrange(0, t + 1));
                        }
                    }
                    proof {
                        assert(pseq.subrange(0, pseq.len() as int) =~= pseq);
                        assert(slot_live(slots, i as int));
                        assert(r@.map_values(to_idx) =~= pairs_upto(slots, c, (i + 1) as nat));
                    }
                },
                None => {
                    proof {
                        assert(!slot_live(slots, i as int));
                        assert(pairs_upto(slots, c, (i + 1) as nat) =~= pairs_upto(
                            slots,
                            c,
                            i as nat,
                        ) + Seq::<(int, int)>::empty());
                        assert(r@.map_values(to_idx) =~= pairs_upto(slots, c, (i + 1) as nat));
                    }
                },
            }
            proof {
                assert(r@.map_values(to_idx) == pairs_upto(slots, c, (i + 1) as nat));
                assert(forall|t: int|
                    0 <= t < r@.len() ==> store.live((#[trigger] r@[t]).0) && store.live(
                        r@[t].1,
                    ));
            }
        }
        proof {
            assert(r@.map_values(|p: (Handle, Handle)| (p.0.index as int, p.1.index as int))
                =~= r@.map_values(to_idx));
            assert(slots.len() == n as nat);
            assert(r@.map_values(to_idx) == pairs_upto(slots, c, slots.len()));
            assert(candidate_pairs_spec(store.slots_seq(), self.cell_size as int) == pairs_upto(
                slots,
                c,
                slots.len(),
            ));
        }
        r
    }

    /// Builds the grid for the store's current particle positions.
    #[verifier::loop_isolation(false)]
    pub fn build(store: &Store, cell_size: i64) -> (g: SpatialGrid)
        requires
            0 < cell_size <= CELL_LIMIT,
            forall|i: int|
                store.live_at(i) ==> in_world(#[trigger] store.ball_at_spec(i).position),
        ensures
            g.matches(store.slots_seq()),
            g.cell_size == cell_size,
    {
        let ghost slots = store.slots_seq();
        let ghost c = cell_size as int;
        let mut g = SpatialGrid { cell_size, cells: Vec::new() };
        let n = store.slot_count();
        for i in 0..n
            invariant
                g.cell_size == cell_size,
                g.keys_unique(),
                forall|k: int|
                    0 <= k < g.cells@.len() ==> #[trigger] g.members_int(k) == asc_filter(
                        i as nat,
                        bucket_pred(slots, c, g.cell_key(k)),
                    ),
                forall|j: int|
                    0 <= j < i && slot_live(slots, j) ==> exists|k: int|
                        0 <= k < g.cells@.len() && #[trigger] g.cell_key(k) == key_of(
                            slot_ball(slots, j),
                            c,
                        ),
        {
            let ghost g0 = g;
            match store.ball_at(i) {
                Some(b) => {
                    let cx = cell_coord_i64(b.position.x, cell_size);
                    let cy = cell_coord_i64(b.position.y, cell_size);
                    let ghost key = key_of(slot_ball(slots, i as int), c);
                    proof {
                        assert(key == (cx as int, cy as int));
                    }
                    match g.find_cell(cx, cy) {
                        Some(k) => {
                            g.cells[k].members.push(i);
                            proof {
                                assert(g.cells@.len() == g0.cells@.len());
                                assert(forall|k2: int|
                                    0 <= k2 < g.cells@.len() && k2 != k as int
                                        ==> g.cells@[k2] == #[trigger] g0.cells@[k2]);
                                assert(g.cells@[k as int].cx == g0.cells@[k as int].cx);
                                assert(g.cells@[k as int].cy == g0.cells@[k as int].cy);
                                assert(g.cells@[k as int].members@ == g0.cells@[
                                    k as int
                                ].members@.push(i));
                                assert(forall|k2: int|
                                    0 <= k2 < g.cells@.len() ==> #[trigger] g.cell_key(k2)
                                        == g0.cell_key(k2));
                                assert(g0.cell_key(k as int) == key);
                                assert forall|k2: int|
                                    0 <= k2 < g.cells@.len() implies #[trigger] g.members_int(k2)
                                    == asc_filter(
                                    (i + 1) as nat,
                                    bucket_pred(slots, c, g.cell_key(k2)),
                                ) by {
                                    let pred = bucket_pred(slots, c, g0.cell_key(k2));
                                    assert(g.cell_key(k2) == g0.cell_key(k2));
                                    assert(g0.members_int(k2) == asc_filter(i as nat, pred));
                                    if k2 == k as int {
                                        assert(pred(i as int));
                                        assert(g.members_int(k2) =~= g0.members_int(k2).push(
                                            i as int,
                                        ));
                                        assert(asc_filter((i + 1) as nat, pred) == asc_filter(
                                            i as nat,
                                            pred,
                                        ).push(i as int));
                                    } else {
                                        assert(g0.cell_key(k2) != g0.cell_key(k as int));
                                        assert(!pred(i as int));
                                        assert(g.members_int(k2) =~= g0.members_int(k2));
                                    }
                                }
                                assert forall|j: int|
                                    0 <= j < i + 1 && slot_live(slots, j) implies exists|k2: int|
                                        0 <= k2 < g.cells@.len() && #[trigger] g.cell_key(k2)
                                            == key_of(slot_ball(slots, j), c) by {
                                    if j == i as int {
                                        assert(g.cell_key(k as int) == key);
                                    } else {
                                        let k3 = choose|k3: int|
                                            0 <= k3 < g0.cells@.len() && #[trigger] g0.cell_key(k3)
                                                == key_of(slot_ball(slots, j), c);
                                        assert(g.cell_key(k3) == key_of(slot_ball(slots, j), c));
                                    }
                                }
                            }
                        },
                        None => {
                            let mut members: Vec<usize> = Vec::new();
                            members.push(i);
                            g.cells.push(GridCell { cx, cy, members });
                            proof {
                                let new_k = g.cells@.len() - 1;
                                assert(g.cells@.len() == g0.cells@.len() + 1);
                                assert(forall|k2: int|
                                    0 <= k2 < g0.cells@.len() ==> g.cells@[k2] == #[trigger] g0
                                        .cells@[k2]);
                                assert(forall|k2: int|
                                    0 <= k2 < g0.cells@.len() ==> #[trigger] g.cell_key(k2)
                                        == g0.cell_key(k2));
                                assert(g.cell_key(new_k) == key);
                                assert(g.members_int(new_k) =~= Seq::<int>::empty().push(i as int));
                                assert forall|k2: int|
                                    0 <= k2 < g0.cells@.len() implies #[trigger] g.cell_key(k2)
                                        != key by {
                                    assert(g0.cell_key(k2) != (cx as int, cy as int));
                                }
                                assert forall|k2: int|
                                    0 <= k2 < g.cells@.len() implies #[trigger] g.members_int(k2)
                                    == asc_filter(
                                    (i + 1) as nat,
                                    bucket_pred(slots, c, g.cell_key(k2)),
                                ) by {
                                    let pred = bucket_pred(slots, c, g.cell_key(k2));
                                    if k2 == new_k {
                                        assert(pred(i as int));
                                        lemma_asc_filter_props(i as nat, pred);
                                        if asc_filter(i as nat, pred).len() > 0 {
                                            let j = asc_filter(i as nat, pred)[0];
                                            assert(pred(j) && 0 <= j < i);
                                            let k3 = choose|k3: int|
                                                0 <= k3 < g0.cells@.len() && #[trigger] g0
                                                    .cell_key(k3) == key_of(
                                                    slot_ball(slots, j),
                                                    c,
                                                );
                                            assert(g.cell_key(k3) != key);
                                            assert(false);
                                        }
                                        assert(asc_filter((i + 1) as nat, pred) =~= asc_filter(
                                            i as nat,
                                            pred,
                                        ).push(i as int));
                                    } else {
                                        assert(g.cell_key(k2) == g0.cell_key(k2));
                                        assert(g0.members_int(k2) == asc_filter(i as nat, pred));
                                        assert(!pred(i as int));
                                        assert(g.members_int(k2) =~= g0.members_int(k2));
                                    }
                                }
                                assert forall|j: int|
                                    0 <= j < i + 1 && slot_live(slots, j) implies exists|k2: int|
                                        0 <= k2 < g.cells@.len() && #[trigger] g.cell_key(k2)
                                            == key_of(slot_ball(slots, j), c) by {
                                    if j == i as int {
                                        assert(g.cell_key(new_k) == key);
                                    } else {
                                        let k3 = choose|k3: int|
                                            0 <= k3 < g0.cells@.len() && #[trigger] g0.cell_key(k3)
                                                == key_of(slot_ball(slots, j), c);
                                        assert(g.cell_key(k3) == key_of(slot_ball(slots, j), c));
                                    }
                                }
                            }
                        },
                    }
                },
                None => {
                    proof {
                        assert forall|k2: int|
                            0 <= k2 < g.cells@.len() implies #[trigger] g.members_int(k2)
                            == asc_filter(
                            (i + 1) as nat,
                            bucket_pred(slots, c, g.cell_key(k2)),
                        ) by {
                            let pred = bucket_pred(slots, c, g.cell_key(k2));
                            assert(!pred(i as int));
                        }
                    }
                },
            }
        }
        g
    }
}

} // verus!
