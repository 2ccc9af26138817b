//! The particle of the simulation: a circle with Verlet position state.
//!
//! Velocity is implicit: it is `position - last_position`, never stored,
//! so position and velocity cannot drift apart however the position is
//! overridden by collision or boundary handling.

use vstd::prelude::*;
use crate::fx::{
    SCALE, WORLD_LIMIT, clamp_spec, mul_frac, mul_frac_i64, world_clamp_i64, world_clamp_spec,
    lemma_mul_frac_bound,
};

verus! {

/// Largest radius the simulation accepts (2^24 sub-units, 256 pixels).
pub const RADIUS_LIMIT: i64 = 16777216;

/// Largest mass the simulation accepts (2^40 fixed-point units).
pub const MASS_LIMIT: i64 = 1099511627776;

/// Largest gravity magnitude per axis (2^28 sub-units per second squared).
pub const GRAV_LIMIT: i64 = 268435456;

/// A fixed-point plane vector.
#[derive(Clone, Copy, Debug, PartialEq, Eq, Structural)]
pub struct Vec2 {
    pub x: i64,
    pub y: i64,
}

/// Both components lie inside the world box.
pub open spec fn in_world(v: Vec2) -> bool {
    &&& -WORLD_LIMIT <= v.x <= WORLD_LIMIT
    &&& -WORLD_LIMIT <= v.y <= WORLD_LIMIT
}

/// A circular particle. The three scalar fields are fixed to sane ranges
/// by `wf`, which every constructor establishes and every method keeps.
#[derive(Clone, Copy, Debug, PartialEq, Eq, Structural)]
pub struct Ball {
    /// Centre of the circle.
    pub position: Vec2,
    /// Centre one frame ago; `position - last_position` is the velocity.
    pub last_position: Vec2,
    /// Radius of the circle, positive.
    pub radius: i64,
    /// Mass, positive.
    pub mass: i64,
    /// Bounciness as a fraction in `[0, SCALE]`.
    pub restitution: i64,
}

impl Ball {
    /// The particle invariant: positive radius and mass within range,
    /// restitution a fraction, and both positions inside the world box.
    pub open spec fn wf(self) -> bool {
        &&& 0 < self.radius <= RADIUS_LIMIT
        &&& 0 < self.mass <= MASS_LIMIT
        &&& 0 <= self.restitution <= SCALE
        &&& in_world(self.position)
        &&& in_world(self.last_position)
    }

    /// Builds a particle at rest: the previous position coincides with the
    /// current one, so the implicit velocity is zero.
    pub fn new(x: i64, y: i64, radius: i64, mass: i64, restitution: i64) -> (b: Ball)
        requires
            -WORLD_LIMIT <= x <= WORLD_LIMIT,
            -WORLD_LIMIT <= y <= WORLD_LIMIT,
            0 < radius <= RADIUS_LIMIT,
            0 < mass <= MASS_LIMIT,
            0 <= restitution <= SCALE,
        ensures
            b.wf(),
            b.position == (Vec2 { x, y }),
            b.last_position == (Vec2 { x, y }),
            b.radius == radius,
            b.mass == mass,
            b.restitution == restitution,
    {
        Ball {
            position: Vec2 { x, y },
            last_position: Vec2 { x, y },
            radius,
            mass,
            restitution,
        }
    }

    /// The implicit velocity: how far the particle moved last frame.
    pub fn get_velocity(&self) -> (v: Vec2)
        requires
            self.wf(),
        ensures
            v.x == self.position.x - self.last_position.x,
            v.y == self.position.y - self.last_position.y,
    {
        Vec2 { x: self.position.x - self.last_position.x, y: self.position.y - self.last_position.y }
    }

    /// The current centre.
    pub fn get_position(&self) -> (p: Vec2)
        ensures
            p == self.position,
    {
        self.position
    }

    /// The radius.
    pub fn get_radius(&self) -> (r: i64)
        ensures
            r == self.radius,
    {
        self.radius
    }

    /// The mass.
    pub fn get_mass(&self) -> (m: i64)
        ensures
            m == self.mass,
    {
        self.mass
    }

    /// What a renderer needs: centre and radius.
    pub fn get_drawable(&self) -> (d: (i64, i64, i64))
        ensures
            d == (self.position.x, self.position.y, self.radius),
    {
        (self.position.x, self.position.y, self.radius)
    }

    /// Teleports the centre; the old centre becomes the previous position,
    /// so the implicit velocity becomes the jump just made.
    pub fn set_position(&mut self, new_pos: Vec2)
        requires
            old(self).wf(),
            in_world(new_pos),
        ensures
            final(self).wf(),
            final(self).position == new_pos,
            final(self).last_position == old(self).position,
            final(self).radius == old(self).radius,
            final(self).mass == old(self).mass,
            final(self).restitution == old(self).restitution,
    {
        self.last_position = self.position;
        self.position = new_pos;
    }

    /// Brings the particle to rest where it stands.
    pub fn stop(&mut self)
        requires
            old(self).wf(),
        ensures
            final(self).wf(),
            final(self).position == old(self).position,
            final(self).last_position == old(self).position,
            final(self).radius == old(self).radius,
            final(self).mass == old(self).mass,
            final(self).restitution == old(self).restitution,
    {
        self.last_position = self.position;
    }

    /// Scales the implicit velocity down by `1 - ratio`: the previous
    /// position moves the fraction `ratio` of the way toward the current
    /// one.
    pub fn slowdown(&mut self, ratio: i64)
        requires
            old(self).wf(),
            0 <= ratio <= SCALE,
        ensures
            final(self).wf(),
            final(self).position == old(self).position,
            final(self).last_position.x == old(self).last_position.x + mul_frac(
                old(self).position.x - old(self).last_position.x,
                ratio as int,
            ),
            final(self).last_position.y == old(self).last_position.y + mul_frac(
                old(self).position.y - old(self).last_position.y,
                ratio as int,
            ),
            final(self).radius == old(self).radius,
            final(self).mass == old(self).mass,
            final(self).restitution == old(self).restitution,
    {
        let dx = self.position.x - self.last_position.x;
        let dy = self.position.y - self.last_position.y;
        let mx = mul_frac_i64(dx, ratio);
        let my = mul_frac_i64(dy, ratio);
        proof {
            lemma_mul_frac_bound(dx as int, ratio as int);
            lemma_mul_frac_bound(dy as int, ratio as int);
        }
        self.last_position = Vec2 { x: self.last_position.x + mx, y: self.last_position.y + my };
    }

    /// Adds `v` to the implicit velocity by moving the previous position
    /// the opposite way (clamped to the world box).
    pub fn add_velocity(&mut self, v: Vec2)
        requires
            old(self).wf(),
            -WORLD_LIMIT <= v.x <= WORLD_LIMIT,
            -WORLD_LIMIT <= v.y <= WORLD_LIMIT,
        ensures
            final(self).wf(),
            final(self).position == old(self).position,
            final(self).last_position.x == world_clamp_spec(old(self).last_position.x - v.x),
            final(self).last_position.y == world_clamp_spec(old(self).last_position.y - v.y),
            final(self).radius == old(self).radius,
            final(self).mass == old(self).mass,
            final(self).restitution == old(self).restitution,
    {
        let nx = world_clamp_i64(self.last_position.x - v.x);
        let ny = world_clamp_i64(self.last_position.y - v.y);
        self.last_position = Vec2 { x: nx, y: ny };
    }

    /// Teleports the centre while keeping the implicit velocity: the
    /// previous position is carried along (clamped to the world box).
    pub fn set_position_same_speed(&mut self, new_position: Vec2)
        requires
            old(self).wf(),
            in_world(new_position),
        ensures
            final(self).wf(),
            final(self).position == new_position,
            final(self).last_position.x == world_clamp_spec(
                new_position.x + old(self).last_position.x - old(self).position.x,
            ),
            final(self).last_position.y == world_clamp_spec(
                new_position.y + old(self).last_position.y - old(self).position.y,
            ),
            final(self).radius == old(self).radius,
            final(self).mass == old(self).mass,
            final(self).restitution == old(self).restitution,
    {
        let tx = self.last_position.x - self.position.x;
        let ty = self.last_position.y - self.position.y;
        self.position = new_position;
        self.last_position = Vec2 {
            x: world_clamp_i64(new_position.x + tx),
            y: world_clamp_i64(new_position.y + ty),
        };
    }

    /// Displaces the centre by `v` (clamped to the world box) without
    /// touching the previous position, so the displacement flows into the
    /// implicit velocity.
    pub fn moove(&mut self, v: Vec2)
        requires
            old(self).wf(),
            -WORLD_LIMIT <= v.x <= WORLD_LIMIT,
            -WORLD_LIMIT <= v.y <= WORLD_LIMIT,
        ensures
            final(self).wf(),
            final(self).position.x == world_clamp_spec(old(self).position.x + v.x),
            final(self).position.y == world_clamp_spec(old(self).position.y + v.y),
            final(self).last_position == old(self).last_position,
            final(self).radius == old(self).radius,
            final(self).mass == old(self).mass,
            final(self).restitution == old(self).restitution,
    {
        self.position = Vec2 {
            x: world_clamp_i64(self.position.x + v.x),
            y: world_clamp_i64(self.position.y + v.y),
        };
    }

    /// One Verlet integration step: the new position is the old one plus
    /// the damped implicit velocity plus `gravity * dt * dt`; the old
    /// position becomes the previous one (new position clamped to the
    /// world box).
    pub fn apply(&mut self, dt: i64, gravity: Vec2, damping: i64)
        requires
            old(self).wf(),
            0 <= dt <= SCALE,
            0 <= damping <= SCALE,
            -GRAV_LIMIT <= gravity.x <= GRAV_LIMIT,
            -GRAV_LIMIT <= gravity.y <= GRAV_LIMIT,
        ensures
            final(self).wf(),
            final(self).position.x == integrate_axis(
                old(self).position.x as int,
                old(self).last_position.x as int,
                dt as int,
                gravity.x as int,
                damping as int,
            ),
            final(self).position.y == integrate_axis(
                old(self).position.y as int,
                old(self).last_position.y as int,
                dt as int,
                gravity.y as int,
                damping as int,
            ),
            final(self).last_position == old(self).position,
            final(self).radius == old(self).radius,
            final(self).mass == old(self).mass,
            final(self).restitution == old(self).restitution,
    {
        let dt2 = mul_frac_i64(dt, dt);
        proof {
            lemma_mul_frac_bound(dt as int, dt as int);
        }
        let ax = mul_frac_i64(gravity.x, dt2);
        let ay = mul_frac_i64(gravity.y, dt2);
        proof {
            lemma_mul_frac_bound(gravity.x as int, dt2 as int);
            lemma_mul_frac_bound(gravity.y as int, dt2 as int);
        }
        let vx = self.position.x - self.last_position.x;
        let vy = self.position.y - self.last_position.y;
        let dvx = mul_frac_i64(vx, damping);
        let dvy = mul_frac_i64(vy, damping);
        proof {
            lemma_mul_frac_bound(vx as int, damping as int);
            lemma_mul_frac_bound(vy as int, damping as int);
        }
        let nx = world_clamp_i64(self.position.x + dvx + ax);
        let ny = world_clamp_i64(self.position.y + dvy + ay);
        self.last_position = self.position;
        self.position = Vec2 { x: nx, y: ny };
    }
}

/// What one Verlet step does to one axis: damped velocity plus the gravity
/// contribution `g * dt * dt`, clamped to the world box.
pub open spec fn integrate_axis(pos: int, last: int, dt: int, g: int, damping: int) -> int {
    world_clamp_spec(pos + mul_frac(pos - last, damping) + mul_frac(g, mul_frac(dt, dt)))
}

} // verus!
