pub mod game;
pub mod player;
pub mod rng;
