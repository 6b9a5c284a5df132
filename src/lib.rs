//! The acceleration and decision core of a path tracer.
//!
//! Real numbers (ray parameters, coordinates, extents) travel through this
//! library as ranks in the IEEE-754 total order of double-precision values
//! (see [`rank`]): every decision the core makes on them is a comparison, and
//! comparing two ranks decides exactly what comparing the two doubles would.
//! The arithmetic on the doubles themselves belongs to the caller.
pub mod aabb;
pub mod bvh;
pub mod hittable;
pub mod integrator;
pub mod primitives;
pub mod interval;
pub mod rank;
pub mod texture;
