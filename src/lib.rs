//! A 2D collision and gravity engine on a fixed-point grid: circular bodies,
//! elastic collision response, Verlet and semi-implicit Euler integration, and a
//! point quadtree that answers rectangular range queries.
//!
//! Every quantity is an integer in the caller's chosen units; a caller that works
//! in floating point scales its values onto the grid before handing them over.

pub mod geometry;
pub mod quad_tree;
pub mod fixed;
pub mod ball;
pub mod simulation;
