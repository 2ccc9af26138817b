//! The simulation: configuration, spawning, the per-frame step, and the
//! boundary clamp.
//!
//! One `step(dt)` call integrates every particle, then runs the
//! detect-and-resolve cycle for the configured number of substeps, and
//! finally clamps every particle to the arena. The whole frame is a
//! mathematical function of the particle state, the configuration and
//! `dt` (`step_spec`), which is what makes runs reproducible.

use vstd::prelude::*;
use crate::ball::{Ball, GRAV_LIMIT, MASS_LIMIT, RADIUS_LIMIT, Vec2, integrate_axis};
use crate::collide::{contacts_spec, detect, resolve_all, resolve_fold};
use crate::fx::{SCALE, WORLD_LIMIT, mul_frac, mul_frac_i64, world_clamp_i64, world_clamp_spec,
    lemma_mul_frac_bound};
use crate::grid::{CELL_LIMIT, SpatialGrid};
use crate::seqs::asc_filter;
use crate::store::{Handle, Slot, Store};

verus! {

/// The tunables of a simulation, fixed at construction.
#[derive(Clone, Copy, Debug, PartialEq, Eq, Structural)]
pub struct SimConfig {
    /// Arena width, in sub-units.
    pub width: i64,
    /// Arena height, in sub-units.
    pub height: i64,
    /// Gravity, in sub-units per second squared.
    pub gravity: Vec2,
    /// Velocity kept per frame, as a fraction in `[0, SCALE]`.
    pub damping: i64,
    /// Detect-and-resolve cycles per frame.
    pub substeps: usize,
    /// Grid cell width; no collision is missed while every radius stays
    /// at or below half of it.
    pub cell_size: i64,
}

impl SimConfig {
    /// The configuration invariant.
    pub open spec fn wf(self) -> bool {
        &&& 0 < self.width <= WORLD_LIMIT
        &&& 0 < self.height <= WORLD_LIMIT
        &&& -GRAV_LIMIT <= self.gravity.x <= GRAV_LIMIT
        &&& -GRAV_LIMIT <= self.gravity.y <= GRAV_LIMIT
        &&& 0 <= self.damping <= SCALE
        &&& 0 < self.cell_size <= CELL_LIMIT
    }
}

/// What `spawn` rejects.
#[derive(Clone, Copy, Debug, PartialEq, Eq, Structural)]
pub enum SimError {
    /// The spawn request had a non-positive (or out-of-range) radius,
    /// mass, restitution or position.
    InvalidSpawn,
}

/// A spawn request the simulation accepts.
pub open spec fn spawn_valid(x: i64, y: i64, radius: i64, mass: i64, restitution: i64) -> bool {
    &&& -WORLD_LIMIT <= x <= WORLD_LIMIT
    &&& -WORLD_LIMIT <= y <= WORLD_LIMIT
    &&& 0 < radius <= RADIUS_LIMIT
    &&& 0 < mass <= MASS_LIMIT
    &&& 0 <= restitution <= SCALE
}

/// The particle a spawn request creates: at rest at `(x, y)`.
pub open spec fn spawn_ball(x: i64, y: i64, radius: i64, mass: i64, restitution: i64) -> Ball {
    Ball {
        position: Vec2 { x, y },
        last_position: Vec2 { x, y },
        radius,
        mass,
        restitution,
    }
}

/// One Verlet step applied to one particle.
pub open spec fn integrate_ball(b: Ball, dt: int, g: Vec2, damping: int) -> Ball {
    Ball {
        position: Vec2 {
            x: integrate_axis(
                b.position.x as int,
                b.last_position.x as int,
                dt,
                g.x as int,
                damping,
            ) as i64,
            y: integrate_axis(
                b.position.y as int,
                b.last_position.y as int,
                dt,
                g.y as int,
                damping,
            ) as i64,
        },
        last_position: b.position,
        radius: b.radius,
        mass: b.mass,
        restitution: b.restitution,
    }
}

/// The integration phase over the whole store.
pub open spec fn integrate_slots(slots: Seq<Slot>, dt: int, g: Vec2, damping: int) -> Seq<Slot> {
    Seq::new(
        slots.len(),
        |i: int|
            if slots[i].ball is Some {
                Slot {
                    generation: slots[i].generation,
                    ball: Some(integrate_ball(slots[i].ball->Some_0, dt, g, damping)),
                }
            } else {
                slots[i]
            },
    )
}

/// The boundary clamp on one axis: position `p`, previous position `q`,
/// radius `r`, arena extent `limit`, restitution `e`. Where the circle
/// pokes out, the position is projected back inside and the implicit
/// velocity component is reversed and scaled by `e` — by displacing the
/// previous position, so velocity stays `position - previous position`.
pub open spec fn clamp_axis(p: int, q: int, r: int, limit: int, e: int) -> (int, int) {
    if p + r > limit {
        (limit - r, world_clamp_spec(limit - r + mul_frac(p - q, e)))
    } else if p - r < 0 {
        (r, world_clamp_spec(r + mul_frac(p - q, e)))
    } else {
        (p, q)
    }
}

/// The boundary clamp applied to one particle.
pub open spec fn clamp_ball_spec(b: Ball, width: int, height: int) -> Ball {
    let cx = clamp_axis(
        b.position.x as int,
        b.last_position.x as int,
        b.radius as int,
        width,
        b.restitution as int,
    );
    let cy = clamp_axis(
        b.position.y as int,
        b.last_position.y as int,
        b.radius as int,
        height,
        b.restitution as int,
    );
    Ball {
        position: Vec2 { x: cx.0 as i64, y: cy.0 as i64 },
        last_position: Vec2 { x: cx.1 as i64, y: cy.1 as i64 },
        radius: b.radius,
        mass: b.mass,
        restitution: b.restitution,
    }
}

/// The clamp phase over the whole store.
pub open spec fn clamp_slots(slots: Seq<Slot>, width: int, height: int) -> Seq<Slot> {
    Seq::new(
        slots.len(),
        |i: int|
            if slots[i].ball is Some {
                Slot {
                    generation: slots[i].generation,
                    ball: Some(clamp_ball_spec(slots[i].ball->Some_0, width, height)),
                }
            } else {
                slots[i]
            },
    )
}

/// One detect-and-resolve cycle.
pub open spec fn substep_slots(slots: Seq<Slot>, c: int) -> Seq<Slot> {
    resolve_fold(slots, contacts_spec(slots, c))
}

/// `k` detect-and-resolve cycles.
pub open spec fn substeps_slots(slots: Seq<Slot>, c: int, k: nat) -> Seq<Slot>
    decreases k,
{
    if k == 0 {
        slots
    } else {
        substep_slots(substeps_slots(slots, c, (k - 1) as nat), c)
    }
}

/// What one whole frame does to the particle state: integrate, then the
/// configured substeps of collision handling, then the boundary clamp.
pub open spec fn step_spec(slots: Seq<Slot>, cfg: SimConfig, dt: int) -> Seq<Slot> {
    clamp_slots(
        substeps_slots(
            integrate_slots(slots, dt, cfg.gravity, cfg.damping as int),
            cfg.cell_size as int,
            cfg.substeps as nat,
        ),
        cfg.width as int,
        cfg.height as int,
    )
}

/// One frame of `snapshot`: centre coordinates and radius of each live
/// particle, in ascending slot order.
pub open spec fn snapshot_spec(slots: Seq<Slot>) -> Seq<(i64, i64, i64)> {
    asc_filter(slots.len(), |i: int| crate::grid::slot_live(slots, i)).map_values(
        |i: int|
            (
                slots[i].ball->Some_0.position.x,
                slots[i].ball->Some_0.position.y,
                slots[i].ball->Some_0.radius,
            ),
    )
}

/// The boundary clamp, executable.
pub fn clamp_ball(b: &mut Ball, width: i64, height: i64)
    requires
        old(b).wf(),
        0 < width <= WORLD_LIMIT,
        0 < height <= WORLD_LIMIT,
    ensures
        final(b).wf(),
        *final(b) == clamp_ball_spec(*old(b), width as int, height as int),
{
    proof {
        lemma_mul_frac_bound(
            old(b).position.x - old(b).last_position.x,
            old(b).restitution as int,
        );
        lemma_mul_frac_bound(
            old(b).position.y - old(b).last_position.y,
            old(b).restitution as int,
        );
    }
    let vx = mul_frac_i64(b.position.x - b.last_position.x, b.restitution);
    let vy = mul_frac_i64(b.position.y - b.last_position.y, b.restitution);
    let (px, qx) = if b.position.x + b.radius > width {
        let p2 = width - b.radius;
        (p2, world_clamp_i64(p2 + vx))
    } else if b.position.x - b.radius < 0 {
        let p2 = b.radius;
        (p2, world_clamp_i64(p2 + vx))
    } else {
        (b.position.x, b.last_position.x)
    };
    let (py, qy) = if b.position.y + b.radius > height {
        let p2 = height - b.radius;
        (p2, world_clamp_i64(p2 + vy))
    } else if b.position.y - b.radius < 0 {
        let p2 = b.radius;
        (p2, world_clamp_i64(p2 + vy))
    } else {
        (b.position.y, b.last_position.y)
    };
    b.position = Vec2 { x: px, y: py };
    b.last_position = Vec2 { x: qx, y: qy };
}

/// The integration phase: one Verlet step for every live particle.
#[verifier::loop_isolation(false)]
pub fn integrate_all(store: &mut Store, dt: i64, gravity: Vec2, damping: i64)
    requires
        old(store).wf(),
        forall|i: int| old(store).live_at(i) ==> (#[trigger] old(store).ball_at_spec(i)).wf(),
        0 <= dt <= SCALE,
        0 <= damping <= SCALE,
        -GRAV_LIMIT <= gravity.x <= GRAV_LIMIT,
        -GRAV_LIMIT <= gravity.y <= GRAV_LIMIT,
    ensures
        final(store).wf(),
        final(store).slots_seq() == integrate_slots(
            old(store).slots_seq(),
            dt as int,
            gravity,
            damping as int,
        ),
        final(store).free_seq() == old(store).free_seq(),
        forall|i: int| final(store).live_at(i) ==> (#[trigger] final(store).ball_at_spec(i)).wf(),
{
    let ghost slots0 = store.slots_seq();
    let ghost integ = integrate_slots(slots0, dt as int, gravity, damping as int);
    let n = store.slot_count();
    proof {
        assert forall|k: int|
            crate::grid::slot_live(slots0, k) implies (#[trigger] crate::grid::slot_ball(
            slots0,
            k,
        )).wf() by {
            assert(store.ball_at_spec(k) == crate::grid::slot_ball(slots0, k));
        }
    }
    for i in 0..n
        invariant
            store.wf(),
            store.num_slots() == n,
            store.free_seq() == old(store).free_seq(),
            forall|k: int|
                crate::grid::slot_live(store.slots_seq(), k) ==> (
                #[trigger] crate::grid::slot_ball(store.slots_seq(), k)).wf(),
            forall|k: int| 0 <= k < i ==> store.slots_seq()[k] == integ[k],
            forall|k: int| i <= k < n ==> store.slots_seq()[k] == slots0[k],
    {
        match store.ball_at(i) {
            Some(b) => {
                proof {
                    assert(b == crate::grid::slot_ball(store.slots_seq(), i as int));
                }
                let mut b2 = b;
                b2.apply(dt, gravity, damping);
                let ghost pre = store.slots_seq();
                store.set_at(i, b2);
                proof {
                    assert(b == slots0[i as int].ball->Some_0);
                    let bi = integrate_ball(slots0[i as int].ball->Some_0, dt as int, gravity,
                        damping as int);
                    let ix = integrate_axis(b.position.x as int, b.last_position.x as int,
                        dt as int, gravity.x as int, damping as int);
                    let iy = integrate_axis(b.position.y as int, b.last_position.y as int,
                        dt as int, gravity.y as int, damping as int);
                    assert(b2.position.x == ix && b2.position.y == iy);
                    assert(-WORLD_LIMIT <= ix <= WORLD_LIMIT && -WORLD_LIMIT <= iy
                        <= WORLD_LIMIT);
                    assert(bi.position.x == ix as i64 && bi.position.y == iy as i64);
                    assert(b2.position == bi.position);
                    assert(b2 == bi);
                    assert forall|k: int|
                        crate::grid::slot_live(store.slots_seq(), k) implies (
                    #[trigger] crate::grid::slot_ball(store.slots_seq(), k)).wf() by {
                        if k == i as int {
                            assert(crate::grid::slot_ball(store.slots_seq(), k) == b2);
                        } else {
                            assert(store.slots_seq()[k] == pre[k]);
                            assert(crate::grid::slot_ball(store.slots_seq(), k)
                                == crate::grid::slot_ball(pre, k));
                        }
                    }
                }
            },
            None => {},
        }
    }
    proof {
        assert(store.slots_seq() =~= integ);
        assert forall|i: int| store.live_at(i) implies (#[trigger] store.ball_at_spec(i)).wf() by {
            assert(crate::grid::slot_ball(store.slots_seq(), i) == store.ball_at_spec(i));
        }
    }
}

/// The boundary-clamp phase over every live particle.
#[verifier::loop_isolation(false)]
pub fn clamp_all(store: &mut Store, width: i64, height: i64)
    requires
        old(store).wf(),
        forall|i: int| old(store).live_at(i) ==> (#[trigger] old(store).ball_at_spec(i)).wf(),
        0 < width <= WORLD_LIMIT,
        0 < height <= WORLD_LIMIT,
    ensures
        final(store).wf(),
        final(store).slots_seq() == clamp_slots(
            old(store).slots_seq(),
            width as int,
            height as int,
        ),
        final(store).free_seq() == old(store).free_seq(),
        forall|i: int| final(store).live_at(i) ==> (#[trigger] final(store).ball_at_spec(i)).wf(),
{
    let ghost slots0 = store.slots_seq();
    let ghost clamped = clamp_slots(slots0, width as int, height as int);
    let n = store.slot_count();
    proof {
        assert forall|k: int|
            crate::grid::slot_live(slots0, k) implies (#[trigger] crate::grid::slot_ball(
            slots0,
            k,
        )).wf() by {
            assert(store.ball_at_spec(k) == crate::grid::slot_ball(slots0, k));
        }
    }
    for i in 0..n
        invariant
            store.wf(),
            store.num_slots() == n,
            store.free_seq() == old(store).free_seq(),
            forall|k: int|
                crate::grid::slot_live(store.slots_seq(), k) ==> (
                #[trigger] crate::grid::slot_ball(store.slots_seq(), k)).wf(),
            forall|k: int| 0 <= k < i ==> store.slots_seq()[k] == clamped[k],
            forall|k: int| i <= k < n ==> store.slots_seq()[k] == slots0[k],
    {
        match store.ball_at(i) {
            Some(b) => {
                proof {
                    assert(b == crate::grid::slot_ball(store.slots_seq(), i as int));
                }
                let mut b2 = b;
                clamp_ball(&mut b2, width, height);
                let ghost pre = store.slots_seq();
                store.set_at(i, b2);
                proof {
                    assert(b == slots0[i as int].ball->Some_0);
                    assert(b2 == clamp_ball_spec(slots0[i as int].ball->Some_0, width as int,
                        height as int));
                    assert forall|k: int|
                        crate::grid::slot_live(store.slots_seq(), k) implies (
                    #[trigger] crate::grid::slot_ball(store.slots_seq(), k)).wf() by {
                        if k == i as int {
                            assert(crate::grid::slot_ball(store.slots_seq(), k) == b2);
                        } else {
                            assert(store.slots_seq()[k] == pre[k]);
                            assert(crate::grid::slot_ball(store.slots_seq(), k)
                                == crate::grid::slot_ball(pre, k));
                        }
                    }
                }
            },
            None => {},
        }
    }
    proof {
        assert(store.slots_seq() =~= clamped);
        assert forall|i: int| store.live_at(i) implies (#[trigger] store.ball_at_spec(i)).wf() by {
            assert(crate::grid::slot_ball(store.slots_seq(), i) == store.ball_at_spec(i));
        }
    }
}

/// The simulation: the particle store plus its configuration.
pub struct Simulation {
    /// The tunables, fixed at construction.
    pub config: SimConfig,
    /// The particles.
    pub store: Store,
}

impl Simulation {
    /// The simulation invariant: valid configuration, well-formed store,
    /// every live particle well formed.
    pub open spec fn wf(self) -> bool {
        &&& self.config.wf()
        &&& self.store.wf()
        &&& forall|i: int|
            self.store.live_at(i) ==> (#[trigger] self.store.ball_at_spec(i)).wf()
    }

    /// An empty simulation with the given configuration.
    pub fn new(config: SimConfig) -> (s: Simulation)
        requires
            config.wf(),
        ensures
            s.wf(),
            s.config == config,
            s.store.num_slots() == 0,
            s.store.free_seq().len() == 0,
    {
        Simulation { config, store: Store::new() }
    }

    /// Admits a particle at rest at `(x, y)`, or rejects the request —
    /// with nothing changed — when radius or mass is not positive or any
    /// value is out of range.
    pub fn spawn(&mut self, x: i64, y: i64, radius: i64, mass: i64, restitution: i64) -> (r:
        Result<Handle, SimError>)
        requires
            old(self).wf(),
            old(self).store.num_slots() < usize::MAX,
        ensures
            final(self).wf(),
            final(self).config == old(self).config,
            r is Ok <==> spawn_valid(x, y, radius, mass, restitution),
            r is Err ==> *final(self) == *old(self) && r->Err_0 == SimError::InvalidSpawn,
            r is Ok ==> {
                let b = spawn_ball(x, y, radius, mass, restitution);
                let h = r->Ok_0;
                &&& final(self).store.live(h)
                &&& final(self).store.ball_of(h) == b
                &&& old(self).store.free_seq().len() > 0 ==> {
                    let i = old(self).store.free_seq().last() as int;
                    &&& h.index == old(self).store.free_seq().last()
                    &&& final(self).store.slots_seq() == old(self).store.slots_seq().update(
                        i,
                        Slot { generation: h.generation, ball: Some(b) },
                    )
                    &&& final(self).store.free_seq() == old(self).store.free_seq().drop_last()
                }
                &&& old(self).store.free_seq().len() == 0 ==> {
                    &&& h.index == old(self).store.num_slots()
                    &&& final(self).store.slots_seq() == old(self).store.slots_seq().push(
                        Slot { generation: 0, ball: Some(b) },
                    )
                    &&& final(self).store.free_seq() == old(self).store.free_seq()
                }
            },
    {
        if !(-WORLD_LIMIT <= x && x <= WORLD_LIMIT && -WORLD_LIMIT <= y && y <= WORLD_LIMIT
            && 0 < radius && radius <= RADIUS_LIMIT && 0 < mass && mass <= MASS_LIMIT
            && 0 <= restitution && restitution <= SCALE) {
            return Err(SimError::InvalidSpawn);
        }
        let b = Ball::new(x, y, radius, mass, restitution);
        let h = self.store.insert(b);
        proof {
            assert forall|i: int| self.store.live_at(i) implies (
            #[trigger] self.store.ball_at_spec(i)).wf() by {
                if i != h.index as int {
                    assert(old(self).store.ball_at_spec(i).wf());
                }
            }
        }
        Ok(h)
    }

    /// Looks a handle up; `None` once the particle was removed.
    pub fn ball(&self, h: Handle) -> (r: Option<Ball>)
        ensures
            r == if self.store.live(h) {
                Some(self.store.ball_of(h))
            } else {
                None::<Ball>
            },
    {
        self.store.get(h)
    }

    /// Advances the simulation by one frame of length `dt` (fixed-point
    /// seconds): integrate all, detect and resolve collisions for the
    /// configured number of substeps, clamp all to the arena.
    #[verifier::loop_isolation(false)]
    pub fn step(&mut self, dt: i64)
        requires
            old(self).wf(),
            0 <= dt <= SCALE,
        ensures
            final(self).wf(),
            final(self).config == old(self).config,
            final(self).store.slots_seq() == step_spec(
                old(self).store.slots_seq(),
                old(self).config,
                dt as int,
            ),
            final(self).store.free_seq() == old(self).store.free_seq(),
    {
        let ghost cfg = self.config;
        let ghost slots0 = self.store.slots_seq();
        integrate_all(&mut self.store, dt, self.config.gravity, self.config.damping);
        let ghost integ = integrate_slots(slots0, dt as int, cfg.gravity, cfg.damping as int);
        let k_sub = self.config.substeps;
        let ghost c = cfg.cell_size as int;
        for s in 0..k_sub
            invariant
                self.config == cfg,
                self.store.wf(),
                self.store.free_seq() == old(self).store.free_seq(),
                forall|k: int|
                    self.store.live_at(k) ==> (#[trigger] self.store.ball_at_spec(k)).wf(),
                self.store.slots_seq() == substeps_slots(integ, c, s as nat),
        {
            let grid = SpatialGrid::build(&self.store, self.config.cell_size);
            let contacts = detect(&grid, &self.store);
            resolve_all(&mut self.store, &contacts);
        }
        clamp_all(&mut self.store, self.config.width, self.config.height);
    }

    /// A read-only view for a renderer: centre and radius of every live
    /// particle, in ascending slot order.
    #[verifier::loop_isolation(false)]
    pub fn snapshot(&self) -> (r: Vec<(i64, i64, i64)>)
        ensures
            r@ == snapshot_spec(self.store.slots_seq()),
    {
        let ghost slots = self.store.slots_seq();
        let ghost pred = |i: int| crate::grid::slot_live(slots, i);
        let ghost f = |i: int|
            (
                slots[i].ball->Some_0.position.x,
                slots[i].ball->Some_0.position.y,
                slots[i].ball->Some_0.radius,
            );
        let mut r: Vec<(i64, i64, i64)> = Vec::new();
        let n = self.store.slot_count();
        for i in 0..n
            invariant
                r@ == asc_filter(i as nat, pred).map_values(f),
        {
            match self.store.ball_at(i) {
                Some(b) => {
                    let ghost r0 = r@;
                    r.push((b.position.x, b.position.y, b.radius));
                    proof {
                        assert(asc_filter((i + 1) as nat, pred) == asc_filter(i as nat, pred).push(
                            i as int,
                        ));
                        assert(r@ =~= asc_filter((i + 1) as nat, pred).map_values(f));
                    }
                },
                None => {
                    proof {
                        assert(asc_filter((i + 1) as nat, pred) == asc_filter(i as nat, pred));
                    }
                },
            }
        }
        proof {
            assert(snapshot_spec(slots) == asc_filter(n as nat, pred).map_values(f));
        }
        r
    }
}

} // verus!
