//! A recursive Monte Carlo path tracer for scenes of spheres, verified with
//! Verus.
//!
//! All numbers are [`scalar::Scalar`] values: saturating decimal fixed point
//! with twelve places and a range of about 4.6 million either way. That makes
//! every operation total and exact to state, so the contracts say precisely
//! which value a function returns. Where a result is formed from several
//! products (a dot product, a length, the roots of a sphere) the sum is exact
//! and rounded once; what rounding can still move is bounded by the laws in
//! [`precision`] and [`nearness`].
//!
//! - [`scalar`] and [`vec3`]: the arithmetic, and the laws it obeys.
//! - [`precision`]: how far rounding moves lengths and right angles.
//! - [`ray`]: rays, hit records, the [`ray::Hittable`] protocol and the
//!   recursive shading of a ray.
//! - [`sphere`] and [`scene`]: the things a ray can hit.
//! - [`facing`]: why a sphere shows its back to a ray from inside.
//! - [`nearness`]: how near a reported hit lies to the sphere.
//! - [`materials`]: matte, metallic and glass surfaces.
//! - [`camera`]: the thin-lens camera.
//! - [`color`] and [`render`]: from light to eight-bit pixels.
//! - [`sampling`]: the random source.
//! - [`wide`]: arithmetic on 256-bit numbers, for the roots of a sphere.
//!
//! Randomness comes from the `rand` crate, through one trusted wrapper. A
//! function that draws says what holds of every outcome; beside it stands a
//! function that takes the draw as an argument and says exactly what it
//! returns. So the color of a ray is a function of the ray, the scene, the
//! depth and the samples that the scatterings use.

pub mod camera;
pub mod color;
pub mod facing;
pub mod materials;
pub mod nearness;
pub mod precision;
pub mod ray;
pub mod render;
pub mod sampling;
pub mod scalar;
pub mod scene;
pub mod sphere;
pub mod vec3;
pub mod wide;
