//! The global guarantees of the simulation, stated and proved once over
//! the frame function: confinement to the arena, determinism, Verlet
//! consistency, and the symmetry and convergence of collision
//! resolution.

use vstd::prelude::*;
use crate::ball::{Ball, GRAV_LIMIT, RADIUS_LIMIT, Vec2, integrate_axis};
use crate::collide::{
    Contact, DIST_EPS2, apply_contact, colliding, contact_for, contact_valid, corr_scale,
    dist2_of, normal_of, penetration_of, resolve_fold,
};
use crate::fx::{SCALE, WORLD_LIMIT, mul_frac, world_clamp_spec};
use crate::grid::{pairs_upto, slot_ball, slot_live};
use crate::sim::{
    SimConfig, clamp_axis, clamp_ball_spec, clamp_slots, integrate_ball, integrate_slots,
    step_spec, substep_slots, substeps_slots,
};
use crate::store::Slot;

verus! {

/// Liveness, generations, radius, mass and restitution survive one
/// contact resolution: it only moves positions.
pub proof fn lemma_apply_contact_preserves(slots: Seq<Slot>, ct: Contact)
    ensures
        apply_contact(slots, ct).len() == slots.len(),
        forall|i: int|
            0 <= i < slots.len() ==> {
                &&& (#[trigger] apply_contact(slots, ct)[i]).generation == slots[i].generation
                &&& (apply_contact(slots, ct)[i].ball is Some) == (slots[i].ball is Some)
                &&& slots[i].ball is Some ==> {
                    &&& apply_contact(slots, ct)[i].ball->Some_0.radius == slots[i].ball->Some_0.radius
                    &&& apply_contact(slots, ct)[i].ball->Some_0.mass == slots[i].ball->Some_0.mass
                    &&& apply_contact(slots, ct)[i].ball->Some_0.restitution == slots[
                        i
                    ].ball->Some_0.restitution
                }
            },
{
}

/// The same, over a whole contact sequence.
pub proof fn lemma_resolve_fold_preserves(slots: Seq<Slot>, contacts: Seq<Contact>)
    ensures
        resolve_fold(slots, contacts).len() == slots.len(),
        forall|i: int|
            0 <= i < slots.len() ==> {
                &&& (#[trigger] resolve_fold(slots, contacts)[i]).generation == slots[
                    i
                ].generation
                &&& (resolve_fold(slots, contacts)[i].ball is Some) == (slots[i].ball is Some)
                &&& slots[i].ball is Some ==> {
                    &&& resolve_fold(slots, contacts)[i].ball->Some_0.radius == slots[
                        i
                    ].ball->Some_0.radius
                    &&& resolve_fold(slots, contacts)[i].ball->Some_0.mass == slots[
                        i
                    ].ball->Some_0.mass
                    &&& resolve_fold(slots, contacts)[i].ball->Some_0.restitution == slots[
                        i
                    ].ball->Some_0.restitution
                }
            },
    decreases contacts.len(),
{
    if contacts.len() > 0 {
        lemma_resolve_fold_preserves(slots, contacts.drop_last());
        lemma_apply_contact_preserves(resolve_fold(slots, contacts.drop_last()), contacts.last());
    }
}

/// The same, over any number of detect-and-resolve substeps.
pub proof fn lemma_substeps_preserves(slots: Seq<Slot>, c: int, k: nat)
    ensures
        substeps_slots(slots, c, k).len() == slots.len(),
        forall|i: int|
            0 <= i < slots.len() ==> {
                &&& (#[trigger] substeps_slots(slots, c, k)[i]).generation == slots[i].generation
                &&& (substeps_slots(slots, c, k)[i].ball is Some) == (slots[i].ball is Some)
                &&& slots[i].ball is Some ==> {
                    &&& substeps_slots(slots, c, k)[i].ball->Some_0.radius == slots[
                        i
                    ].ball->Some_0.radius
                    &&& substeps_slots(slots, c, k)[i].ball->Some_0.mass == slots[
                        i
                    ].ball->Some_0.mass
                    &&& substeps_slots(slots, c, k)[i].ball->Some_0.restitution == slots[
                        i
                    ].ball->Some_0.restitution
                }
            },
    decreases k,
{
    if k > 0 {
        lemma_substeps_preserves(slots, c, (k - 1) as nat);
        let mid = substeps_slots(slots, c, (k - 1) as nat);
        lemma_resolve_fold_preserves(mid, crate::collide::contacts_spec(mid, c));
    }
}

/// No tunneling: after a frame, every live particle whose circle fits
/// the arena lies entirely inside it — the boundary clamp is the last
/// phase of every step and projects both axes back into range.
pub proof fn lemma_no_tunneling(slots: Seq<Slot>, cfg: SimConfig, dt: int)
    requires
        cfg.wf(),
        forall|i: int|
            slot_live(slots, i) ==> {
                &&& (#[trigger] slot_ball(slots, i)).radius * 2 <= cfg.width
                &&& slot_ball(slots, i).radius * 2 <= cfg.height
            },
    ensures
        step_spec(slots, cfg, dt).len() == slots.len(),
        forall|i: int|
            slot_live(step_spec(slots, cfg, dt), i) ==> {
                let b = #[trigger] slot_ball(step_spec(slots, cfg, dt), i);
                &&& b.radius <= b.position.x <= cfg.width - b.radius
                &&& b.radius <= b.position.y <= cfg.height - b.radius
            },
{
    let integ = integrate_slots(slots, dt, cfg.gravity, cfg.damping as int);
    let mid = substeps_slots(integ, cfg.cell_size as int, cfg.substeps as nat);
    lemma_substeps_preserves(integ, cfg.cell_size as int, cfg.substeps as nat);
    let out = step_spec(slots, cfg, dt);
    assert forall|i: int| slot_live(out, i) implies {
        let b = #[trigger] slot_ball(out, i);
        &&& b.radius <= b.position.x <= cfg.width - b.radius
        &&& b.radius <= b.position.y <= cfg.height - b.radius
    } by {
        assert(slot_live(slots, i));
        assert(mid[i].ball->Some_0.radius == slot_ball(slots, i).radius);
        assert(slot_ball(out, i) == clamp_ball_spec(
            mid[i].ball->Some_0,
            cfg.width as int,
            cfg.height as int,
        ));
    }
}

/// Liveness, generations, radius, mass and restitution survive a whole
/// frame: a step only moves particles.
pub proof fn lemma_step_preserves(slots: Seq<Slot>, cfg: SimConfig, dt: int)
    ensures
        step_spec(slots, cfg, dt).len() == slots.len(),
        forall|i: int|
            0 <= i < slots.len() ==> {
                &&& (#[trigger] step_spec(slots, cfg, dt)[i]).generation == slots[i].generation
                &&& (step_spec(slots, cfg, dt)[i].ball is Some) == (slots[i].ball is Some)
                &&& slots[i].ball is Some ==> {
                    &&& step_spec(slots, cfg, dt)[i].ball->Some_0.radius == slots[
                        i
                    ].ball->Some_0.radius
                    &&& step_spec(slots, cfg, dt)[i].ball->Some_0.mass == slots[
                        i
                    ].ball->Some_0.mass
                    &&& step_spec(slots, cfg, dt)[i].ball->Some_0.restitution == slots[
                        i
                    ].ball->Some_0.restitution
                }
            },
{
    let integ = integrate_slots(slots, dt, cfg.gravity, cfg.damping as int);
    lemma_substeps_preserves(integ, cfg.cell_size as int, cfg.substeps as nat);
}

/// The particle state after a whole sequence of frames, each with its
/// own `dt`.
pub open spec fn steps_spec(slots: Seq<Slot>, cfg: SimConfig, dts: Seq<int>) -> Seq<Slot>
    decreases dts.len(),
{
    if dts.len() == 0 {
        slots
    } else {
        step_spec(steps_spec(slots, cfg, dts.drop_last()), cfg, dts.last())
    }
}

/// No tunneling over any number of frames: once at least one step has
/// run, every live particle whose circle fits the arena lies entirely
/// inside it, and stays there step after step.
pub proof fn lemma_no_tunneling_steps(slots: Seq<Slot>, cfg: SimConfig, dts: Seq<int>)
    requires
        cfg.wf(),
        dts.len() > 0,
        forall|i: int|
            slot_live(slots, i) ==> {
                &&& (#[trigger] slot_ball(slots, i)).radius * 2 <= cfg.width
                &&& slot_ball(slots, i).radius * 2 <= cfg.height
            },
    ensures
        forall|i: int|
            slot_live(steps_spec(slots, cfg, dts), i) ==> {
                let b = #[trigger] slot_ball(steps_spec(slots, cfg, dts), i);
                &&& b.radius <= b.position.x <= cfg.width - b.radius
                &&& b.radius <= b.position.y <= cfg.height - b.radius
            },
    decreases dts.len(),
{
    let before = steps_spec(slots, cfg, dts.drop_last());
    if dts.len() == 1 {
        assert(before == slots);
    } else {
        lemma_no_tunneling_steps(slots, cfg, dts.drop_last());
    }
    lemma_steps_preserve_radii(slots, cfg, dts.drop_last());
    lemma_no_tunneling(before, cfg, dts.last());
}

/// Radii survive any number of frames, so the fit-the-arena hypothesis
/// carries from the spawned state to every later one.
proof fn lemma_steps_preserve_radii(slots: Seq<Slot>, cfg: SimConfig, dts: Seq<int>)
    ensures
        steps_spec(slots, cfg, dts).len() == slots.len(),
        forall|i: int|
            0 <= i < slots.len() ==> {
                &&& ((#[trigger] steps_spec(slots, cfg, dts)[i]).ball is Some) == (slots[
                    i
                ].ball is Some)
                &&& slots[i].ball is Some ==> steps_spec(slots, cfg, dts)[i].ball->Some_0.radius
                    == slots[i].ball->Some_0.radius
            },
    decreases dts.len(),
{
    if dts.len() > 0 {
        lemma_steps_preserve_radii(slots, cfg, dts.drop_last());
        lemma_step_preserves(steps_spec(slots, cfg, dts.drop_last()), cfg, dts.last());
    }
}

/// The boundary clamp reverses the implicit velocity scaled by the
/// restitution: where the particle pokes out, the new
/// `position - last_position` on that axis is exactly
/// `-mul_frac(old velocity, e)` (away from the world-box edge, where no
/// coordinate clamp engages).
pub proof fn lemma_clamp_reflects(p: int, q: int, r: int, limit: int, e: int)
    requires
        p + r > limit || p - r < 0,
        -WORLD_LIMIT <= (if p + r > limit {
            limit - r
        } else {
            r
        }) + mul_frac(p - q, e) <= WORLD_LIMIT,
    ensures
        clamp_axis(p, q, r, limit, e).0 - clamp_axis(p, q, r, limit, e).1 == -mul_frac(
            p - q,
            e,
        ),
{
}

/// Determinism: the frame is a mathematical function of the particle
/// state, the configuration and `dt`. Two runs fed the same spawns and
/// the same `dt` sequence therefore stay identical frame by frame
/// (`Simulation::step` guarantees the new state is exactly
/// `step_spec` of the old).
pub proof fn lemma_step_deterministic(
    slots1: Seq<Slot>,
    slots2: Seq<Slot>,
    cfg1: SimConfig,
    cfg2: SimConfig,
    dt1: int,
    dt2: int,
)
    requires
        slots1 == slots2,
        cfg1 == cfg2,
        dt1 == dt2,
    ensures
        step_spec(slots1, cfg1, dt1) == step_spec(slots2, cfg2, dt2),
{
}

/// Verlet consistency: the integrator leaves the old position behind as
/// the previous position, so the implicit velocity of the new state —
/// `position - last_position` — is exactly the damped old velocity plus
/// the gravity impulse `g * dt * dt`. No separately stored velocity
/// exists that could drift from this. (Away from the world-box edge,
/// where no coordinate clamp engages.)
pub proof fn lemma_verlet_consistency(b: Ball, dt: int, g: Vec2, damping: int)
    requires
        -WORLD_LIMIT <= b.position.x + mul_frac(b.position.x - b.last_position.x, damping)
            + mul_frac(g.x as int, mul_frac(dt, dt)) <= WORLD_LIMIT,
        -WORLD_LIMIT <= b.position.y + mul_frac(b.position.y - b.last_position.y, damping)
            + mul_frac(g.y as int, mul_frac(dt, dt)) <= WORLD_LIMIT,
    ensures
        integrate_ball(b, dt, g, damping).last_position == b.position,
        integrate_ball(b, dt, g, damping).position.x - integrate_ball(
            b,
            dt,
            g,
            damping,
        ).last_position.x == mul_frac(b.position.x - b.last_position.x, damping) + mul_frac(
            g.x as int,
            mul_frac(dt, dt),
        ),
        integrate_ball(b, dt, g, damping).position.y - integrate_ball(
            b,
            dt,
            g,
            damping,
        ).last_position.y == mul_frac(b.position.y - b.last_position.y, damping) + mul_frac(
            g.y as int,
            mul_frac(dt, dt),
        ),
{
}

/// Momentum-conserving symmetry: resolving a contact between two
/// equal-mass particles displaces them by exactly opposite vectors
/// (away from the world-box edge, where no coordinate clamp engages).
pub proof fn lemma_equal_mass_symmetry(slots: Seq<Slot>, ct: Contact)
    requires
        ct.a.index != ct.b.index,
        slot_live(slots, ct.a.index as int),
        slot_live(slots, ct.b.index as int),
        slots[ct.a.index as int].generation == ct.a.generation,
        slots[ct.b.index as int].generation == ct.b.generation,
        ct.dist2 > DIST_EPS2,
        contact_valid(ct),
        slot_ball(slots, ct.a.index as int).wf(),
        slot_ball(slots, ct.b.index as int).wf(),
        slot_ball(slots, ct.a.index as int).mass == slot_ball(slots, ct.b.index as int).mass,
        -WORLD_LIMIT + RADIUS_LIMIT * 2 <= slot_ball(slots, ct.a.index as int).position.x
            <= WORLD_LIMIT - RADIUS_LIMIT * 2,
        -WORLD_LIMIT + RADIUS_LIMIT * 2 <= slot_ball(slots, ct.a.index as int).position.y
            <= WORLD_LIMIT - RADIUS_LIMIT * 2,
        -WORLD_LIMIT + RADIUS_LIMIT * 2 <= slot_ball(slots, ct.b.index as int).position.x
            <= WORLD_LIMIT - RADIUS_LIMIT * 2,
        -WORLD_LIMIT + RADIUS_LIMIT * 2 <= slot_ball(slots, ct.b.index as int).position.y
            <= WORLD_LIMIT - RADIUS_LIMIT * 2,
    ensures
        ({
            let i = ct.a.index as int;
            let j = ct.b.index as int;
            let ba = slot_ball(slots, i);
            let bb = slot_ball(slots, j);
            let ba2 = slot_ball(apply_contact(slots, ct), i);
            let bb2 = slot_ball(apply_contact(slots, ct), j);
            &&& ba2.position.x - ba.position.x == -(bb2.position.x - bb.position.x)
            &&& ba2.position.y - ba.position.y == -(bb2.position.y - bb.position.y)
        }),
{
    let i = ct.a.index as int;
    let j = ct.b.index as int;
    let ba = slot_ball(slots, i);
    let bb = slot_ball(slots, j);
    let e = if ba.restitution <= bb.restitution {
        ba.restitution as int
    } else {
        bb.restitution as int
    };
    let m = ba.mass as int;
    let total = m + m;
    let w = crate::fx::div_trunc(m * SCALE, total);
    let s = mul_frac(ct.pen as int, e);
    let sa = corr_scale(ct.pen as int, e, m, m);
    assert(sa == mul_frac(s, w));
    crate::fx::lemma_mul_frac_bound(ct.pen as int, e);
    assert(-(SCALE as int) * total <= m * SCALE <= (SCALE as int) * total) by (nonlinear_arith)
        requires m > 0, total == m + m;
    crate::fx::lemma_div_trunc_bound(m * SCALE, total, SCALE as int);
    vstd::arithmetic::div_mod::lemma_div_pos_is_pos(m * SCALE, total);
    assert(m * SCALE >= 0) by (nonlinear_arith)
        requires m > 0;
    assert(0 <= w <= SCALE);
    crate::fx::lemma_mul_frac_bound(s, w);
    assert(0 <= sa <= ct.pen);
    assert(-sa * SCALE <= (ct.nx as int) * sa <= sa * SCALE) by (nonlinear_arith)
        requires -SCALE <= ct.nx <= SCALE, 0 <= sa;
    assert(-sa * SCALE <= (ct.ny as int) * sa <= sa * SCALE) by (nonlinear_arith)
        requires -SCALE <= ct.ny <= SCALE, 0 <= sa;
    crate::fx::lemma_div_trunc_bound((ct.nx as int) * sa, SCALE as int, sa);
    crate::fx::lemma_div_trunc_bound((ct.ny as int) * sa, SCALE as int, sa);
    let out = apply_contact(slots, ct);
    assert(out[i].ball->Some_0.position.x == world_clamp_spec(
        ba.position.x + mul_frac(ct.nx as int, sa),
    ) as i64);
    assert(world_clamp_spec(ba.position.x + mul_frac(ct.nx as int, sa)) == ba.position.x
        + mul_frac(ct.nx as int, sa));
    assert(world_clamp_spec(ba.position.y + mul_frac(ct.ny as int, sa)) == ba.position.y
        + mul_frac(ct.ny as int, sa));
    assert(world_clamp_spec(bb.position.x - mul_frac(ct.nx as int, sa)) == bb.position.x
        - mul_frac(ct.nx as int, sa));
    assert(world_clamp_spec(bb.position.y - mul_frac(ct.ny as int, sa)) == bb.position.y
        - mul_frac(ct.ny as int, sa));
}

/// Non-penetration convergence, in the exactly analysable symmetric
/// case: two equal-mass, fully bouncy particles overlapping head-on
/// along the x axis are separated by a single resolve pass — the centre
/// gap afterwards is at least the radii sum minus one sub-unit of
/// rounding (away from the world-box edge, where no coordinate clamp
/// engages).
pub proof fn lemma_head_on_convergence(slots: Seq<Slot>, ct: Contact)
    requires
        ct.a.index != ct.b.index,
        slot_live(slots, ct.a.index as int),
        slot_live(slots, ct.b.index as int),
        ct == contact_for(slots, ct.a.index as int, ct.b.index as int),
        ct.dist2 > DIST_EPS2,
        slot_ball(slots, ct.a.index as int).wf(),
        slot_ball(slots, ct.b.index as int).wf(),
        slot_ball(slots, ct.a.index as int).mass == slot_ball(slots, ct.b.index as int).mass,
        slot_ball(slots, ct.a.index as int).restitution == SCALE,
        slot_ball(slots, ct.b.index as int).restitution == SCALE,
        slot_ball(slots, ct.a.index as int).position.y == slot_ball(
            slots,
            ct.b.index as int,
        ).position.y,
        slot_ball(slots, ct.a.index as int).position.x > slot_ball(
            slots,
            ct.b.index as int,
        ).position.x,
        colliding(slot_ball(slots, ct.a.index as int), slot_ball(slots, ct.b.index as int)),
        -WORLD_LIMIT + RADIUS_LIMIT * 2 <= slot_ball(slots, ct.a.index as int).position.x
            <= WORLD_LIMIT - RADIUS_LIMIT * 2,
        -WORLD_LIMIT + RADIUS_LIMIT * 2 <= slot_ball(slots, ct.b.index as int).position.x
            <= WORLD_LIMIT - RADIUS_LIMIT * 2,
    ensures
        ({
            let i = ct.a.index as int;
            let j = ct.b.index as int;
            let ba = slot_ball(slots, i);
            let bb = slot_ball(slots, j);
            let ba2 = slot_ball(apply_contact(slots, ct), i);
            let bb2 = slot_ball(apply_contact(slots, ct), j);
            &&& ba2.position.y == ba.position.y
            &&& bb2.position.y == bb.position.y
            &&& ba2.position.x - bb2.position.x >= ba.radius + bb.radius - 1
        }),
{
    let i = ct.a.index as int;
    let j = ct.b.index as int;
    let ba = slot_ball(slots, i);
    let bb = slot_ball(slots, j);
    let dx = ba.position.x - bb.position.x;
    let d2 = dist2_of(ba, bb);
    assert(d2 == dx * dx);
    assert(d2 >= 0) by (nonlinear_arith)
        requires d2 == dx * dx;
    crate::fx::lemma_isqrt_exists(d2);
    assert(d2 < (dx + 1) * (dx + 1)) by (nonlinear_arith)
        requires d2 == dx * dx, dx > 0;
    assert(crate::fx::is_isqrt(d2, dx));
    crate::fx::lemma_isqrt_unique(d2, dx, crate::fx::sqrt_val(d2));
    assert(crate::fx::sqrt_val(d2) == dx);
    let sum = ba.radius + bb.radius;
    assert(dx <= sum) by (nonlinear_arith)
        requires dx * dx <= sum * sum, dx > 0, sum > 0;
    let pen = penetration_of(ba, bb);
    assert(pen == sum - dx);
    assert(0 <= pen <= RADIUS_LIMIT * 2);
    assert(ct.pen == pen as i64);
    assert(ct.pen as int == pen);
    let nx = normal_of(ba, bb).0;
    let ny = normal_of(ba, bb).1;
    assert(nx == crate::fx::div_trunc(dx * SCALE, dx));
    assert(dx * SCALE == (SCALE as int) * dx) by (nonlinear_arith);
    vstd::arithmetic::div_mod::lemma_div_multiples_vanish(SCALE as int, dx);
    assert(dx * SCALE >= 0) by (nonlinear_arith)
        requires dx > 0;
    assert(nx == SCALE);
    assert((ba.position.y - bb.position.y) == 0);
    assert(ny == crate::fx::div_trunc(0, dx));
    vstd::arithmetic::div_mod::lemma_div_of0(dx);
    assert(ny == 0);
    assert(ct.nx == SCALE && ct.ny == 0);
    // the resolver's scalars, computed exactly
    let e = SCALE as int;
    let m = ba.mass as int;
    let total = m + m;
    let s = mul_frac(pen, e);
    assert(pen * SCALE >= 0) by (nonlinear_arith)
        requires pen >= 0;
    vstd::arithmetic::div_mod::lemma_div_multiples_vanish(pen, SCALE as int);
    assert(pen * SCALE == (SCALE as int) * pen) by (nonlinear_arith);
    assert(s == pen);
    let w = crate::fx::div_trunc(m * SCALE, total);
    assert(m * SCALE == 32768 * total);
    assert(m * SCALE >= 0) by (nonlinear_arith)
        requires m > 0;
    vstd::arithmetic::div_mod::lemma_div_multiples_vanish(32768, total);
    assert(32768 * total == total * 32768) by (nonlinear_arith);
    assert(w == 32768);
    let sa = corr_scale(pen, e, m, m);
    assert(sa == mul_frac(s, w));
    let q = pen / 2;
    let rr = pen % 2;
    vstd::arithmetic::div_mod::lemma_fundamental_div_mod(pen, 2);
    vstd::arithmetic::div_mod::lemma_mod_bound(pen, 2);
    assert(pen * 32768 == q * 65536 + rr * 32768) by (nonlinear_arith)
        requires pen == 2 * q + rr;
    assert(0 <= rr * 32768 < 65536) by (nonlinear_arith)
        requires 0 <= rr < 2;
    vstd::arithmetic::div_mod::lemma_fundamental_div_mod_converse_div(
        pen * 32768,
        65536,
        q,
        rr * 32768,
    );
    assert(pen * 32768 >= 0) by (nonlinear_arith)
        requires pen >= 0;
    assert(sa == q);
    // the correction vector: exactly (sa, 0) for a, -(sa, 0) for b
    let cax = mul_frac(ct.nx as int, sa);
    assert((SCALE as int) * sa >= 0) by (nonlinear_arith)
        requires sa >= 0;
    vstd::arithmetic::div_mod::lemma_div_multiples_vanish(sa, SCALE as int);
    assert((SCALE as int) * sa == sa * SCALE) by (nonlinear_arith);
    assert(cax == sa);
    let cay = mul_frac(ct.ny as int, sa);
    vstd::arithmetic::div_mod::lemma_div_of0(SCALE as int);
    assert(cay == 0);
    assert(0 <= sa <= pen);
    let out = apply_contact(slots, ct);
    assert(out[i].ball->Some_0.position.x == world_clamp_spec(ba.position.x + sa) as i64);
    assert(world_clamp_spec(ba.position.x + sa) == ba.position.x + sa);
    assert(world_clamp_spec(ba.position.y + 0) == ba.position.y);
    assert(world_clamp_spec(bb.position.x - sa) == bb.position.x - sa);
    assert(world_clamp_spec(bb.position.y - 0) == bb.position.y);
    let ba2 = slot_ball(out, i);
    let bb2 = slot_ball(out, j);
    assert(ba2.position.x == ba.position.x + sa);
    assert(bb2.position.x == bb.position.x - sa);
    assert(ba2.position.x - bb2.position.x == dx + 2 * q);
    assert(dx + 2 * q == sum - rr);
}

/// The candidate pairs come out in strictly ascending lexicographic
/// order of `(smaller index, larger index)` — so detection, and with it
/// resolution, works through a canonical order that depends on nothing
/// but the particle state.
pub proof fn lemma_pairs_canonical_order(slots: Seq<Slot>, c: int, n: nat)
    ensures
        forall|t: int|
            0 <= t < pairs_upto(slots, c, n).len() ==> 0 <= (#[trigger] pairs_upto(
                slots,
                c,
                n,
            )[t]).0 < n,
        forall|t1: int, t2: int|
            0 <= t1 < t2 < pairs_upto(slots, c, n).len() ==> {
                ||| (#[trigger] pairs_upto(slots, c, n)[t1]).0 < (#[trigger] pairs_upto(
                    slots,
                    c,
                    n,
                )[t2]).0
                ||| (pairs_upto(slots, c, n)[t1].0 == pairs_upto(slots, c, n)[t2].0
                    && pairs_upto(slots, c, n)[t1].1 < pairs_upto(slots, c, n)[t2].1)
            },
    decreases n,
{
    if n > 0 {
        lemma_pairs_canonical_order(slots, c, (n - 1) as nat);
        let i = n - 1;
        let prefix = pairs_upto(slots, c, (n - 1) as nat);
        let whole = pairs_upto(slots, c, n);
        if slot_live(slots, i) {
            let pred = crate::grid::cand_pred(slots, c, i, true);
            crate::seqs::lemma_asc_filter_props(slots.len(), pred);
            let js = crate::grid::neighbors_spec(slots, c, i, true);
            let ps = crate::grid::pair_seq(slots, c, i);
            assert forall|t1: int, t2: int|
                0 <= t1 < t2 < whole.len() implies {
                ||| (#[trigger] whole[t1]).0 < (#[trigger] whole[t2]).0
                ||| (whole[t1].0 == whole[t2].0 && whole[t1].1 < whole[t2].1)
            } by {
                if t2 >= prefix.len() {
                    assert(whole[t2] == ps[t2 - prefix.len()]);
                    assert(whole[t2].0 == i);
                    if t1 >= prefix.len() {
                        assert(whole[t1] == ps[t1 - prefix.len()]);
                        assert(js[t1 - prefix.len()] < js[t2 - prefix.len()]);
                    } else {
                        assert(whole[t1] == prefix[t1]);
                        assert(whole[t1].0 < i);
                    }
                } else {
                    assert(whole[t1] == prefix[t1] && whole[t2] == prefix[t2]);
                }
            }
        }
    }
}

/// A prefix of the candidate pairs stays inside every longer candidate
/// list.
proof fn lemma_pairs_upto_monotone(slots: Seq<Slot>, c: int, n1: nat, n2: nat, p: (int, int))
    requires
        n1 <= n2,
        crate::grid::pairs_upto(slots, c, n1).contains(p),
    ensures
        crate::grid::pairs_upto(slots, c, n2).contains(p),
    decreases n2,
{
    if n1 < n2 {
        lemma_pairs_upto_monotone(slots, c, n1, (n2 - 1) as nat, p);
        let prefix = crate::grid::pairs_upto(slots, c, (n2 - 1) as nat);
        let whole = crate::grid::pairs_upto(slots, c, n2);
        let k = choose|k: int| 0 <= k < prefix.len() && prefix[k] == p;
        assert(whole[k] == p);
    }
}

/// Broad-phase completeness: the grid misses no collision. Any two
/// distinct live overlapping particles whose diameters are at most the
/// cell size land in the same or adjacent cells, so their pair is in the
/// canonical candidate sequence that detection works through.
pub proof fn lemma_broad_phase_complete(slots: Seq<Slot>, c: int, i: int, j: int)
    requires
        0 < c,
        slot_live(slots, i),
        slot_live(slots, j),
        i < j,
        slot_ball(slots, i).wf(),
        slot_ball(slots, j).wf(),
        slot_ball(slots, i).radius * 2 <= c,
        slot_ball(slots, j).radius * 2 <= c,
        colliding(slot_ball(slots, i), slot_ball(slots, j)),
    ensures
        crate::grid::candidate_pairs_spec(slots, c).contains((i, j)),
{
    let ba = slot_ball(slots, i);
    let bb = slot_ball(slots, j);
    let dx = ba.position.x - bb.position.x;
    let dy = ba.position.y - bb.position.y;
    let sum = ba.radius + bb.radius;
    assert(-c <= dx <= c && -c <= dy <= c) by (nonlinear_arith)
        requires
            dx * dx + dy * dy <= sum * sum,
            0 < sum <= c,
    ;
    crate::grid::lemma_close_adjacent(bb.position.x as int, ba.position.x as int, c);
    crate::grid::lemma_close_adjacent(bb.position.y as int, ba.position.y as int, c);
    let pred = crate::grid::cand_pred(slots, c, i, true);
    assert(pred(j));
    crate::seqs::lemma_asc_filter_props(slots.len(), pred);
    let js = crate::grid::neighbors_spec(slots, c, i, true);
    assert(js.contains(j));
    let k = choose|k: int| 0 <= k < js.len() && js[k] == j;
    let ps = crate::grid::pair_seq(slots, c, i);
    assert(ps[k] == (i, j));
    let step1 = crate::grid::pairs_upto(slots, c, (i + 1) as nat);
    assert(step1[crate::grid::pairs_upto(slots, c, i as nat).len() + k] == (i, j));
    assert(step1.contains((i, j)));
    lemma_pairs_upto_monotone(slots, c, (i + 1) as nat, slots.len(), (i, j));
}

} // verus!
