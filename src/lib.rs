//! A small fixed-timestep pixel engine core: a CPU-side RGBA canvas with
//! drawing primitives, a world camera, a time accumulator, an input latch and
//! the integer upscale that presents the canvas on a larger surface.

pub mod arith;
pub mod camera;
pub mod canvas;
pub mod clock;
pub mod error;
pub mod input;
pub mod present;
