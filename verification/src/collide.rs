//! Collision detection and position-based resolution.
//!
//! Detection walks the canonical candidate-pair sequence of the grid and
//! confirms each pair by exact squared distance; a confirmed contact
//! carries the fixed-point separating normal and the penetration depth.
//! Resolution pushes the two particles of a contact apart along the
//! normal, the displacement split in inverse proportion to their masses
//! and scaled by the smaller restitution.

use vstd::prelude::*;
use vstd::math::abs;
use crate::ball::{Ball, Vec2};
use crate::fx::{
    SCALE, div_trunc, div_trunc_i64, is_isqrt, isqrt_i64, lemma_div_trunc_bound,
    lemma_isqrt_component_bound, lemma_isqrt_exists, lemma_isqrt_unique, lemma_mul_frac_bound,
    mul_frac, mul_frac_i64, sqrt_val, world_clamp_spec,
};
use crate::grid::{
    SpatialGrid, adjacent, candidate_pairs_spec, cand_pred, key_of, lemma_adjacent_close,
    neighbors_spec, pair_seq, pairs_upto, slot_ball, slot_live,
};
use crate::seqs::lemma_asc_filter_props;
use crate::store::{Handle, Slot, Store};

verus! {

/// Contacts between nearly coincident centres are skipped: squared
/// distances at or below this threshold give no stable normal.
pub const DIST_EPS2: i64 = 16;

/// A confirmed collision between the particles of two live handles:
/// the fixed-point unit normal pointing from `b` toward `a`, the
/// penetration depth, and the squared centre distance.
#[derive(Clone, Copy, Debug, PartialEq, Eq, Structural)]
pub struct Contact {
    pub a: Handle,
    pub b: Handle,
    pub nx: i64,
    pub ny: i64,
    pub pen: i64,
    pub dist2: i64,
}

/// Squared distance between two particle centres.
pub open spec fn dist2_of(ba: Ball, bb: Ball) -> int {
    let dx = ba.position.x - bb.position.x;
    let dy = ba.position.y - bb.position.y;
    dx * dx + dy * dy
}

/// The circles overlap (touching counts).
pub open spec fn colliding(ba: Ball, bb: Ball) -> bool {
    dist2_of(ba, bb) <= (ba.radius + bb.radius) * (ba.radius + bb.radius)
}

/// The fixed-point separating normal, pointing from `bb` toward `ba`;
/// the positive x axis when the centres coincide.
pub open spec fn normal_of(ba: Ball, bb: Ball) -> (int, int) {
    let d = sqrt_val(dist2_of(ba, bb));
    if d == 0 {
        (SCALE as int, 0)
    } else {
        (
            div_trunc((ba.position.x - bb.position.x) * SCALE, d),
            div_trunc((ba.position.y - bb.position.y) * SCALE, d),
        )
    }
}

/// How deep the circles overlap: the radii sum minus the centre distance.
pub open spec fn penetration_of(ba: Ball, bb: Ball) -> int {
    ba.radius + bb.radius - sqrt_val(dist2_of(ba, bb))
}

/// The contact record of a confirmed pair `(i, j)`.
pub open spec fn contact_for(slots: Seq<Slot>, i: int, j: int) -> Contact {
    let ba = slot_ball(slots, i);
    let bb = slot_ball(slots, j);
    Contact {
        a: Handle { index: i as usize, generation: slots[i].generation },
        b: Handle { index: j as usize, generation: slots[j].generation },
        nx: normal_of(ba, bb).0 as i64,
        ny: normal_of(ba, bb).1 as i64,
        pen: penetration_of(ba, bb) as i64,
        dist2: dist2_of(ba, bb) as i64,
    }
}

/// The contacts confirmed among a pair sequence, in pair order.
pub open spec fn contacts_from(slots: Seq<Slot>, pairs: Seq<(int, int)>) -> Seq<Contact>
    decreases pairs.len(),
{
    if pairs.len() == 0 {
        Seq::empty()
    } else {
        let rest = contacts_from(slots, pairs.drop_last());
        let p = pairs.last();
        if colliding(slot_ball(slots, p.0), slot_ball(slots, p.1)) {
            rest.push(contact_for(slots, p.0, p.1))
        } else {
            rest
        }
    }
}

/// All contacts of a slot snapshot: the candidate pairs of the grid,
/// filtered by exact overlap, in canonical order.
pub open spec fn contacts_spec(slots: Seq<Slot>, c: int) -> Seq<Contact> {
    contacts_from(slots, candidate_pairs_spec(slots, c))
}

/// Every candidate pair consists of two distinct live particles in
/// ascending order whose cells are adjacent.
pub proof fn lemma_pairs_upto_props(slots: Seq<Slot>, c: int, n: nat)
    ensures
        forall|t: int|
            0 <= t < pairs_upto(slots, c, n).len() ==> {
                &&& slot_live(slots, (#[trigger] pairs_upto(slots, c, n)[t]).0)
                &&& slot_live(slots, pairs_upto(slots, c, n)[t].1)
                &&& pairs_upto(slots, c, n)[t].0 < pairs_upto(slots, c, n)[t].1
                &&& adjacent(
                    key_of(slot_ball(slots, pairs_upto(slots, c, n)[t].1), c),
                    key_of(slot_ball(slots, pairs_upto(slots, c, n)[t].0), c),
                )
            },
    decreases n,
{
    if n > 0 {
        lemma_pairs_upto_props(slots, c, (n - 1) as nat);
        let i = n - 1;
        let prefix = pairs_upto(slots, c, (n - 1) as nat);
        let whole = pairs_upto(slots, c, n);
        if slot_live(slots, i) {
            let pred = cand_pred(slots, c, i, true);
            lemma_asc_filter_props(slots.len(), pred);
            let ps = pair_seq(slots, c, i);
            assert forall|t: int|
                0 <= t < whole.len() implies {
                &&& slot_live(slots, (#[trigger] whole[t]).0)
                &&& slot_live(slots, whole[t].1)
                &&& whole[t].0 < whole[t].1
                &&& adjacent(
                    key_of(slot_ball(slots, whole[t].1), c),
                    key_of(slot_ball(slots, whole[t].0), c),
                )
            } by {
                if t >= prefix.len() {
                    let q = t - prefix.len();
                    assert(whole[t] == ps[q]);
                    let j = neighbors_spec(slots, c, i, true)[q];
                    assert(ps[q] == (i, j));
                    assert(pred(j));
                }
            }
        }
    }
}

/// Detects all confirmed collisions in the store, using the grid for the
/// broad phase: the canonical candidate pairs, confirmed by squared
/// distance, with normal and penetration attached.
#[verifier::loop_isolation(false)]
pub fn detect(grid: &SpatialGrid, store: &Store) -> (r: Vec<Contact>)
    requires
        grid.matches(store.slots_seq()),
        forall|i: int| store.live_at(i) ==> (#[trigger] store.ball_at_spec(i)).wf(),
    ensures
        r@ == contacts_spec(store.slots_seq(), grid.cell_size as int),
        forall|t: int|
            0 <= t < r@.len() ==> {
                &&& store.live((#[trigger] r@[t]).a)
                &&& store.live(r@[t].b)
                &&& r@[t].a.index < r@[t].b.index
                &&& -SCALE <= r@[t].nx <= SCALE
                &&& -SCALE <= r@[t].ny <= SCALE
                &&& 0 <= r@[t].pen <= crate::ball::RADIUS_LIMIT * 2
                &&& 0 <= r@[t].dist2
            },
{
    let ghost slots = store.slots_seq();
    let ghost c = grid.cell_size as int;
    proof {
        lemma_pairs_upto_props(slots, c, slots.len());
    }
    let pairs = grid.all_candidate_pairs(store);
    let ghost idx_pairs = candidate_pairs_spec(slots, c);
    let mut r: Vec<Contact> = Vec::new();
    let m = pairs.len();
    for t in 0..m
        invariant
            m == pairs@.len(),
            r@ == contacts_from(slots, idx_pairs.subrange(0, t as int)),
            forall|q: int|
                0 <= q < r@.len() ==> {
                    &&& store.live((#[trigger] r@[q]).a)
                    &&& store.live(r@[q].b)
                    &&& r@[q].a.index < r@[q].b.index
                    &&& -SCALE <= r@[q].nx <= SCALE
                    &&& -SCALE <= r@[q].ny <= SCALE
                    &&& 0 <= r@[q].pen <= crate::ball::RADIUS_LIMIT * 2
                    &&& 0 <= r@[q].dist2
                },
    {
        let (ha, hb) = pairs[t];
        let ghost i = idx_pairs[t as int].0;
        let ghost j = idx_pairs[t as int].1;
        proof {
            assert(idx_pairs[t as int] == (ha.index as int, hb.index as int));
            assert(slot_live(slots, i) && slot_live(slots, j) && i < j);
        }
        let pair = store.get_pair(ha, hb).unwrap();
        let (ba, bb) = pair;
        proof {
            assert(ba == slot_ball(slots, i));
            assert(bb == slot_ball(slots, j));
            lemma_adjacent_close(ba.position.x as int, bb.position.x as int, c);
            lemma_adjacent_close(ba.position.y as int, bb.position.y as int, c);
            assert((ba.position.x - bb.position.x) * (ba.position.x - bb.position.x)
                < (2 * crate::grid::CELL_LIMIT) * (2 * crate::grid::CELL_LIMIT)
                && (ba.position.x - bb.position.x) * (ba.position.x - bb.position.x) >= 0)
                by (nonlinear_arith)
                requires
                    abs(ba.position.x - bb.position.x) < 2 * c,
                    0 < c <= crate::grid::CELL_LIMIT,
            ;
            assert((ba.position.y - bb.position.y) * (ba.position.y - bb.position.y)
                < (2 * crate::grid::CELL_LIMIT) * (2 * crate::grid::CELL_LIMIT)
                && (ba.position.y - bb.position.y) * (ba.position.y - bb.position.y) >= 0)
                by (nonlinear_arith)
                requires
                    abs(ba.position.y - bb.position.y) < 2 * c,
                    0 < c <= crate::grid::CELL_LIMIT,
            ;
        }
        let dx = ba.position.x - bb.position.x;
        let dy = ba.position.y - bb.position.y;
        let d2 = dx * dx + dy * dy;
        let sum = ba.radius + bb.radius;
        proof {
            assert(0 <= sum * sum <= 1125899906842624int) by (nonlinear_arith)
                requires 0 < sum <= 33554432int;
        }
        let ghost r0 = r@;
        if d2 <= sum * sum {
            let dist = isqrt_i64(d2);
            proof {
                lemma_isqrt_exists(d2 as int);
                lemma_isqrt_unique(d2 as int, dist as int, sqrt_val(d2 as int));
                assert(dist <= sum) by (nonlinear_arith)
                    requires
                        (dist as int) * (dist as int) <= (sum as int) * (sum as int),
                        dist >= 0,
                        sum > 0,
                ;
            }
            let pen = sum - dist;
            let (nx, ny) = if dist == 0 {
                (SCALE, 0i64)
            } else {
                proof {
                    lemma_isqrt_component_bound(dx as int, dy as int, dist as int);
                    assert(-(SCALE as int) * dist <= (dx as int) * SCALE <= (SCALE as int) * dist)
                        by (nonlinear_arith)
                        requires abs(dx as int) <= dist as int;
                    assert(-(SCALE as int) * dist <= (dy as int) * SCALE <= (SCALE as int) * dist)
                        by (nonlinear_arith)
                        requires abs(dy as int) <= dist as int;
                    lemma_div_trunc_bound((dx as int) * SCALE, dist as int, SCALE as int);
                    lemma_div_trunc_bound((dy as int) * SCALE, dist as int, SCALE as int);
                }
                (div_trunc_i64(dx * SCALE, dist), div_trunc_i64(dy * SCALE, dist))
            };
            let ct = Contact { a: ha, b: hb, nx, ny, pen, dist2: d2 };
            r.push(ct);
            proof {
                assert(ct == contact_for(slots, i, j));
                assert(idx_pairs.subrange(0, t + 1).drop_last() =~= idx_pairs.subrange(
                    0,
                    t as int,
                ));
                assert(idx_pairs.subrange(0, t + 1).last() == idx_pairs[t as int]);
                assert(r@ =~= contacts_from(slots, idx_pairs.subrange(0, t + 1)));
            }
        } else {
            proof {
                assert(!colliding(ba, bb));
                assert(idx_pairs.subrange(0, t + 1).drop_last() =~= idx_pairs.subrange(
                    0,
                    t as int,
                ));
                assert(idx_pairs.subrange(0, t + 1).last() == idx_pairs[t as int]);
                assert(r@ =~= contacts_from(slots, idx_pairs.subrange(0, t + 1)));
            }
        }
    }
    proof {
        assert(idx_pairs.subrange(0, idx_pairs.len() as int) =~= idx_pairs);
    }
    r
}

/// The contact fields any caller of the resolver may rely on: what
/// `detect` guarantees of each record it produces.
pub open spec fn contact_valid(ct: Contact) -> bool {
    &&& -SCALE <= ct.nx <= SCALE
    &&& -SCALE <= ct.ny <= SCALE
    &&& 0 <= ct.pen <= crate::ball::RADIUS_LIMIT * 2
}

/// The scalar positional correction of the particle with mass `own`
/// against partner mass `other`: the penetration scaled by the common
/// restitution and by the partner's share of the total mass.
pub open spec fn corr_scale(pen: int, e: int, own: int, other: int) -> int {
    mul_frac(mul_frac(pen, e), div_trunc(other * SCALE, own + other))
}

/// What resolving one contact does to the slots: both particles are
/// pushed apart along the contact normal, in inverse proportion to their
/// masses, positions clamped to the world box. Nothing happens when
/// either handle is stale, the handles coincide, or the centres are too
/// close for a stable normal.
pub open spec fn apply_contact(slots: Seq<Slot>, ct: Contact) -> Seq<Slot> {
    let i = ct.a.index as int;
    let j = ct.b.index as int;
    if i != j && slot_live(slots, i) && slot_live(slots, j) && slots[i].generation
        == ct.a.generation && slots[j].generation == ct.b.generation && ct.dist2 > DIST_EPS2 {
        let ba = slot_ball(slots, i);
        let bb = slot_ball(slots, j);
        let e = if ba.restitution <= bb.restitution {
            ba.restitution as int
        } else {
            bb.restitution as int
        };
        let sa = corr_scale(ct.pen as int, e, ba.mass as int, bb.mass as int);
        let sb = corr_scale(ct.pen as int, e, bb.mass as int, ba.mass as int);
        let ba2 = Ball {
            position: Vec2 {
                x: world_clamp_spec(ba.position.x + mul_frac(ct.nx as int, sa)) as i64,
                y: world_clamp_spec(ba.position.y + mul_frac(ct.ny as int, sa)) as i64,
            },
            last_position: ba.last_position,
            radius: ba.radius,
            mass: ba.mass,
            restitution: ba.restitution,
        };
        let bb2 = Ball {
            position: Vec2 {
                x: world_clamp_spec(bb.position.x - mul_frac(ct.nx as int, sb)) as i64,
                y: world_clamp_spec(bb.position.y - mul_frac(ct.ny as int, sb)) as i64,
            },
            last_position: bb.last_position,
            radius: bb.radius,
            mass: bb.mass,
            restitution: bb.restitution,
        };
        slots.update(i, Slot { generation: slots[i].generation, ball: Some(ba2) }).update(
            j,
            Slot { generation: slots[j].generation, ball: Some(bb2) },
        )
    } else {
        slots
    }
}

/// Resolves one contact in place, as `apply_contact` says.
pub fn resolve_contact(store: &mut Store, ct: Contact)
    requires
        old(store).wf(),
        forall|i: int| old(store).live_at(i) ==> (#[trigger] old(store).ball_at_spec(i)).wf(),
        contact_valid(ct),
    ensures
        final(store).wf(),
        final(store).slots_seq() == apply_contact(old(store).slots_seq(), ct),
        final(store).free_seq() == old(store).free_seq(),
        forall|i: int| final(store).live_at(i) ==> (#[trigger] final(store).ball_at_spec(i)).wf(),
{
    let ghost slots0 = store.slots_seq();
    if ct.dist2 <= DIST_EPS2 {
        return;
    }
    match store.get_pair(ct.a, ct.b) {
        Some(pair) => {
            let (ba, bb) = pair;
            let ghost i = ct.a.index as int;
            let ghost j = ct.b.index as int;
            let e = if ba.restitution <= bb.restitution {
                ba.restitution
            } else {
                bb.restitution
            };
            let s = mul_frac_i64(ct.pen, e);
            proof {
                lemma_mul_frac_bound(ct.pen as int, e as int);
            }
            let total = ba.mass + bb.mass;
            proof {
                assert(-(SCALE as int) * total <= (bb.mass as int) * SCALE <= (SCALE as int)
                    * total) by (nonlinear_arith)
                    requires 0 < ba.mass, 0 < bb.mass, total == ba.mass + bb.mass;
                assert(-(SCALE as int) * total <= (ba.mass as int) * SCALE <= (SCALE as int)
                    * total) by (nonlinear_arith)
                    requires 0 < ba.mass, 0 < bb.mass, total == ba.mass + bb.mass;
                lemma_div_trunc_bound((bb.mass as int) * SCALE, total as int, SCALE as int);
                lemma_div_trunc_bound((ba.mass as int) * SCALE, total as int, SCALE as int);
                vstd::arithmetic::div_mod::lemma_div_pos_is_pos(
                    (bb.mass as int) * SCALE,
                    total as int,
                );
                vstd::arithmetic::div_mod::lemma_div_pos_is_pos(
                    (ba.mass as int) * SCALE,
                    total as int,
                );
                assert((bb.mass as int) * SCALE >= 0) by (nonlinear_arith)
                    requires bb.mass > 0;
                assert((ba.mass as int) * SCALE >= 0) by (nonlinear_arith)
                    requires ba.mass > 0;
            }
            let wa = div_trunc_i64(bb.mass * SCALE, total);
            let wb = div_trunc_i64(ba.mass * SCALE, total);
            let sa = mul_frac_i64(s, wa);
            let sb = mul_frac_i64(s, wb);
            proof {
                lemma_mul_frac_bound(s as int, wa as int);
                lemma_mul_frac_bound(s as int, wb as int);
                assert(-(sa as int) * SCALE <= (ct.nx as int) * sa <= (sa as int) * SCALE)
                    by (nonlinear_arith)
                    requires -SCALE <= ct.nx <= SCALE, 0 <= sa;
                assert(-(sa as int) * SCALE <= (ct.ny as int) * sa <= (sa as int) * SCALE)
                    by (nonlinear_arith)
                    requires -SCALE <= ct.ny <= SCALE, 0 <= sa;
                assert(-(sb as int) * SCALE <= (ct.nx as int) * sb <= (sb as int) * SCALE)
                    by (nonlinear_arith)
                    requires -SCALE <= ct.nx <= SCALE, 0 <= sb;
                assert(-(sb as int) * SCALE <= (ct.ny as int) * sb <= (sb as int) * SCALE)
                    by (nonlinear_arith)
                    requires -SCALE <= ct.ny <= SCALE, 0 <= sb;
                lemma_div_trunc_bound((ct.nx as int) * sa, SCALE as int, sa as int);
                lemma_div_trunc_bound((ct.ny as int) * sa, SCALE as int, sa as int);
                lemma_div_trunc_bound((ct.nx as int) * sb, SCALE as int, sb as int);
                lemma_div_trunc_bound((ct.ny as int) * sb, SCALE as int, sb as int);
            }
            let cax = div_trunc_i64(ct.nx * sa, SCALE);
            let cay = div_trunc_i64(ct.ny * sa, SCALE);
            let cbx = div_trunc_i64(ct.nx * sb, SCALE);
            let cby = div_trunc_i64(ct.ny * sb, SCALE);
            let mut ba2 = ba;
            ba2.moove(Vec2 { x: cax, y: cay });
            let mut bb2 = bb;
            bb2.moove(Vec2 { x: -cbx, y: -cby });
            store.set_pair(ct.a, ct.b, ba2, bb2);
            proof {
                assert(store.slots_seq() =~= apply_contact(slots0, ct));
                assert forall|k: int| store.live_at(k) implies (
                #[trigger] store.ball_at_spec(k)).wf() by {
                    if k != i && k != j {
                        assert(store.ball_at_spec(k) == old(store).ball_at_spec(k));
                    }
                }
            }
        },
        None => {
            proof {
                assert(store.slots_seq() =~= apply_contact(slots0, ct));
            }
        },
    }
}

/// The slots after resolving a whole contact sequence, in order.
pub open spec fn resolve_fold(slots: Seq<Slot>, contacts: Seq<Contact>) -> Seq<Slot>
    decreases contacts.len(),
{
    if contacts.len() == 0 {
        slots
    } else {
        apply_contact(resolve_fold(slots, contacts.drop_last()), contacts.last())
    }
}

/// Resolves every contact of one detection pass, in canonical order.
#[verifier::loop_isolation(false)]
pub fn resolve_all(store: &mut Store, contacts: &Vec<Contact>)
    requires
        old(store).wf(),
        forall|i: int| old(store).live_at(i) ==> (#[trigger] old(store).ball_at_spec(i)).wf(),
        forall|t: int| 0 <= t < contacts@.len() ==> contact_valid(#[trigger] contacts@[t]),
    ensures
        final(store).wf(),
        final(store).slots_seq() == resolve_fold(old(store).slots_seq(), contacts@),
        final(store).free_seq() == old(store).free_seq(),
        forall|i: int| final(store).live_at(i) ==> (#[trigger] final(store).ball_at_spec(i)).wf(),
{
    let ghost slots0 = store.slots_seq();
    let m = contacts.len();
    for t in 0..m
        invariant
            m == contacts@.len(),
            store.wf(),
            store.slots_seq() == resolve_fold(slots0, contacts@.subrange(0, t as int)),
            store.free_seq() == old(store).free_seq(),
            forall|i: int| store.live_at(i) ==> (#[trigger] store.ball_at_spec(i)).wf(),
    {
        let ct = contacts[t];
        resolve_contact(store, ct);
        proof {
            assert(contacts@.subrange(0, t + 1).drop_last() =~= contacts@.subrange(0, t as int));
            assert(contacts@.subrange(0, t + 1).last() == contacts@[t as int]);
        }
    }
    proof {
        assert(contacts@.subrange(0, m as int) =~= contacts@);
    }
}

} // verus!
