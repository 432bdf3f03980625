//! Scene-graph core of a real-time renderer: a hierarchy of spatial nodes whose
//! world transforms are recomputed lazily from their local transforms, and a
//! manager that decides how per-node instance buffers are created or rewritten.
//!
//! The numeric types (transforms, matrices, GPU buffers) are type parameters:
//! the library fixes how values flow through the hierarchy, while the caller
//! supplies the arithmetic and the device operations.
pub mod scene;
pub mod scene_laws;
pub mod instance_manager;
