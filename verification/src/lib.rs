//! A procedurally built and evolved closed-surface spherical mesh: a geodesic
//! base shape, a mutable cell layer on that mesh, and a tectonic-plate process
//! that moves, destroys, and spawns cells while keeping the triangle mesh
//! topologically valid.
//!
//! All geometric quantities are carried as fixed-point integers so that every
//! algorithm here is exact; sampling noise fields and rotating positions with
//! trigonometry are left to the (unverified) host around this library.

pub mod config;
pub mod geometry;
pub mod mesh;
pub mod rng;
pub mod shape;
pub mod surface;
pub mod systems;
