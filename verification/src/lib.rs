pub mod grid;
pub mod clusters;
pub mod spanning;
pub mod rng;
pub mod trial;
