//! A projectile under gravity and wind, advanced one tick at a time.
use vstd::prelude::*;
use crate::ieee::{Value, value_le};
use crate::scalar::Scalar;
use crate::util::Tuple;

verus! {

/// A position (a point) and a velocity (a vector).
#[derive(Debug, Clone, Copy)]
pub struct Projectile {
    pub pos: Tuple,
    pub vel: Tuple,
}

/// The two accelerations that act on a projectile, both vectors.
#[derive(Debug, Clone, Copy)]
pub struct Environment {
    pub grav: Tuple,
    pub wind: Tuple,
}

impl Projectile {
    /// The projectile one tick later: it has moved by its velocity, and its
    /// velocity has taken up gravity, then wind.
    pub open spec fn advanced(self, env: Environment) -> Projectile {
        Projectile {
            pos: self.pos.plus(self.vel),
            vel: self.vel.plus(env.grav).plus(env.wind),
        }
    }

    /// The projectile after `n` ticks.
    pub open spec fn after(self, env: Environment, n: nat) -> Projectile
        decreases n,
    {
        if n == 0 {
            self
        } else {
            self.after(env, (n - 1) as nat).advanced(env)
        }
    }

    /// Whether the height `y` of the position is zero or below.
    pub open spec fn landed_spec(self) -> bool {
        value_le(self.pos.y@, Value::Finite { negative: false, mag: 0 })
    }

    /// Whether the projectile has come down to the ground.
    pub fn landed(&self) -> (r: bool)
        ensures
            r == self.landed_spec(),
    {
        self.pos.y.le(Scalar::zero())
    }
}

/// Advances the projectile by one tick.
pub fn tick(env: Environment, proj: Projectile) -> (r: Projectile)
    ensures
        r == proj.advanced(env),
{
    let position = proj.pos + proj.vel;
    let velocity = proj.vel + env.grav + env.wind;
    Projectile { pos: position, vel: velocity }
}

/// Lets the projectile fly until it has landed, for `limit` ticks at most.
/// Returns the number of ticks taken and the projectile after them. At least
/// one tick is taken, as long as the limit allows one.
pub fn fly(env: Environment, start: Projectile, limit: u32) -> (r: (u32, Projectile))
    ensures
        r.0 <= limit,
        limit > 0 ==> r.0 >= 1,
        r.1 == start.after(env, r.0 as nat),
        r.0 < limit ==> r.1.landed_spec(),
        forall|i: nat| 0 < i < r.0 ==> !(#[trigger] start.after(env, i)).landed_spec(),
{
    let mut p = start;
    let mut ticks: u32 = 0;
    while ticks < limit
        invariant
            ticks <= limit,
            p == start.after(env, ticks as nat),
            forall|i: nat| 0 < i <= ticks ==> !(#[trigger] start.after(env, i)).landed_spec(),
        decreases limit - ticks,
    {
        p = tick(env, p);
        ticks = ticks + 1;
        if p.landed() {
            return (ticks, p);
        }
    }
    (ticks, p)
}

} // verus!
