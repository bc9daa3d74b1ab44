//! The description of an explosion: how far it reaches and the particles it throws.
use crate::geometry::{magnitude2_spec, coord_minus, Coord};
use vstd::prelude::*;

verus! {

/// The particles an explosion throws. Durations are in nanoseconds.
#[derive(Clone, Copy, Debug, PartialEq, Eq, Structural)]
pub struct ParticleEmitter {
    pub duration: u64,
    pub num_particles_per_frame: u32,
    pub min_step: u64,
    pub max_step: u64,
    pub fade_duration: u64,
}

/// How an explosion affects the world: the distance it reaches.
#[derive(Clone, Copy, Debug, PartialEq, Eq, Structural)]
pub struct Mechanics {
    pub range: u32,
}

/// An explosion.
#[derive(Clone, Copy, Debug, PartialEq, Eq, Structural)]
pub struct Explosion {
    pub mechanics: Mechanics,
    pub particle_emitter: ParticleEmitter,
}


/// Whether `coord` is within reach of an explosion at `explosion_coord`: its squared distance
/// is at most the square of the range. The vector between the two cells must have components
/// of at most 46340 and the range at most 65535 (the squares must fit in a `u32`).
pub fn is_in_explosion_range(explosion_coord: Coord, mechanics: &Mechanics, coord: Coord) -> (b: bool)
    requires
        -46340 <= explosion_coord.x - coord.x <= 46340,
        -46340 <= explosion_coord.y - coord.y <= 46340,
        mechanics.range <= 65535,
    ensures
        b == (magnitude2_spec(coord_minus(explosion_coord, coord)) <= mechanics.range * mechanics.range),
{
    let v = explosion_coord.minus(coord);
    assert(0 <= v.x * v.x <= 46340 * 46340 && 0 <= v.y * v.y <= 46340 * 46340) by (nonlinear_arith)
        requires
            -46340 <= v.x <= 46340,
            -46340 <= v.y <= 46340,
    ;
    let d = v.magnitude2();
    assert(mechanics.range * mechanics.range <= 65535 * 65535) by (nonlinear_arith)
        requires
            mechanics.range <= 65535,
    ;
    d <= mechanics.range * mechanics.range
}

} // verus!
