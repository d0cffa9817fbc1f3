//! A particle system whose particles age, fade and are swept away.
//!
//! The library keeps the bookkeeping of a particle simulation: the lifespan
//! of every particle, the particle systems that own them, and the scene that
//! owns the systems together with the repellers that push particles around.
//! The physical state of a particle (where it is, how fast it moves, how it
//! reacts to a force) is a [`Body`] chosen by the user of the library; the
//! library advances it and never looks inside.

pub mod lifecycle;
pub mod particle;
pub mod particlesystem;
pub mod scene;

pub use particle::{Body, Particle, FULL_LIFE, LIFE_DELTA};
pub use particlesystem::{ParticleSystem, Repel};
pub use scene::Scene;
