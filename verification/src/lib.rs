//! A deterministic mass-spring cloth simulation core.
//!
//! The cloth is a square grid of particles joined by structural, shear and
//! flexion springs. Each tick applies external forces, relaxes the spring
//! network for a fixed number of passes, advances every particle by Verlet
//! integration, and then separates particles that came too close. All state
//! is held in saturating fixed-point scalars, so every tick is a pure,
//! deterministic function of the previous state.

pub mod cloth;
pub mod fixed;
pub mod grid;
pub mod particle;
pub mod vec3;
