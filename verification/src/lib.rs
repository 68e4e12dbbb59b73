//! A small rigid-body physics core: a step pipeline over generational-handle
//! entity sets, with a broad phase, a narrow phase and a fixed-point
//! integrator, and coordinated removal that leaves no dangling references.

pub mod handle;
pub mod arena;
pub mod math;
pub mod entities;
pub mod integrator;
pub mod broad_phase;
pub mod narrow_phase;
pub mod pipeline;
