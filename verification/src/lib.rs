//! Discrete core of a small path tracer: pixel scheduling, buffers, noise
//! permutation tables and the message protocol between the render worker and
//! its display. Everything here is integer logic; the geometric and colour
//! arithmetic, which works on floating-point numbers, lives outside.
pub mod vec3;
pub mod batch;
pub mod camera;
pub mod scene;
pub mod components;
pub mod display;
pub mod worker;
