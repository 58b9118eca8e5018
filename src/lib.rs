pub mod fixed;
pub mod interval;
pub mod ray;
pub mod color;
pub mod rng;
pub mod hittable;
pub mod material;
pub mod sphere;
pub mod hittable_vec;
pub mod camera;
