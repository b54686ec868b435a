pub mod grid;
pub mod perlin;
pub mod rng;
