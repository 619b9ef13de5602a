//! The decision core of a sphere ray tracer.
//!
//! Geometry and shading are arithmetic on doubles, and are carried out by
//! the caller. This crate holds the parts of the renderer that decide
//! rather than measure: when a light path ends and what it ends in, which
//! of a sphere's two crossings counts, which member of a scene is struck
//! first, and how a finished pixel is quantised and written out.
//!
//! Ray parameters appear here as `i64` ranks, integers that order as the
//! parameters do: a smaller rank is a nearer point on the ray. The module
//! [`double`] ranks a double by its bits.

pub mod color;
pub mod double;
pub mod integrator;
pub mod scene;
pub mod sphere;
