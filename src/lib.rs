pub mod bytes;
pub mod collapser;
pub mod engine;
pub mod field;
pub mod generator;
pub mod opener;
pub mod rng;
pub mod tile;
