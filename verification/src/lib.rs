//! The bookkeeping core of a two-dimensional gravitational simulator for a few
//! massive bodies and a large swarm of light ones.
//!
//! The library owns every body and the rules that say which of them pull on
//! which, which pairs are examined for a collision, who survives one, and how a
//! step's results are written back. It never computes on a real quantity: each is
//! held as a [`scalar::Scalar`], and the arithmetic of forces, orbits and distances
//! belongs to the program that drives the library.

pub mod body;
pub mod scalar;
pub mod trail;
pub mod physics;
