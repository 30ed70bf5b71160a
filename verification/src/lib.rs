//! An interactive triangle-mesh editor core: a mutable mesh topology with
//! stable corner handles, and a command interpreter whose entire history can
//! be replayed deterministically from a seed shape.

pub mod errors;
pub mod geometry;
pub mod interpreter;
pub mod mesh;
