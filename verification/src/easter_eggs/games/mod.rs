pub mod flappy;
pub mod snake;
pub mod space_invaders;
pub mod test;
pub mod tetris;
