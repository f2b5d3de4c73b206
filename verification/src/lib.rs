//! The integer-valued core of a GPU path tracer: Sobol direction numbers, the
//! bounding volume hierarchy's topology, the scene's triangle lists, texture
//! renumbering, and the renderer's small per-frame decisions.

pub mod renderer;
pub mod scene;
