//! Narrow-phase collision detection between convex shapes with the
//! Gilbert-Johnson-Keerthi algorithm, on integer coordinates. Colliders live on the
//! caller's grid; the search works on a grid `FINE_SCALE` times finer, fine enough that
//! rounding sphere support points never makes overlapping spheres look separated.

pub mod collider;
pub mod geometry;
pub mod gjk;
pub mod soundness;
pub mod vector;

pub use collider::{
    apply_transform_collider, Collider, Shapes, COORD_LIMIT, FINE_SCALE, RADIUS_LIMIT,
};
pub use gjk::{collision_update, gjk, gjk_outcome, GjkOutcome, MAX_ITERATIONS};
pub use vector::Vec3;
