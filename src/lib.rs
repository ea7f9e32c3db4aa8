//! A multi-player maze game engine: a walled grid, players, roaming mobs,
//! candies and flying shots, with every rule of the simulation verified.

pub mod api;
pub mod map;
pub mod laws;
pub mod text;
pub mod world;
mod clock;
mod rng;
