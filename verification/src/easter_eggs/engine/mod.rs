pub mod game;
pub mod input;
pub mod runner;
pub mod scores;
