pub mod engine;
pub mod games;

use vstd::prelude::*;

use crate::text::str_eq;

verus! {

/// The hidden games.
#[derive(Debug, Clone, Copy, PartialEq, Eq, Structural)]
pub enum GameKind {
    Test,
    Snake,
    Dino,
    Flappy,
    Tetris,
    Invaders,
}

/// The game a secret command launches, if it is one.
pub open spec fn game_for(cmd: Seq<char>) -> Option<GameKind> {
    if cmd == "sorb-test"@ {
        Some(GameKind::Test)
    } else if cmd == "sorb-snake"@ {
        Some(GameKind::Snake)
    } else if cmd == "sorb-dino"@ {
        Some(GameKind::Dino)
    } else if cmd == "sorb-flappy"@ {
        Some(GameKind::Flappy)
    } else if cmd == "sorb-tetris"@ {
        Some(GameKind::Tetris)
    } else if cmd == "sorb-invaders"@ {
        Some(GameKind::Invaders)
    } else {
        None
    }
}

/// Checks whether the command is a secret easter egg command, and which
/// game it launches; `None` lets the shell try external execution.
pub fn try_launch(cmd: &str) -> (r: Option<GameKind>)
    ensures
        r == game_for(cmd@),
{
    if str_eq(cmd, "sorb-test") {
        Some(GameKind::Test)
    } else if str_eq(cmd, "sorb-snake") {
        Some(GameKind::Snake)
    } else if str_eq(cmd, "sorb-dino") {
        Some(GameKind::Dino)
    } else if str_eq(cmd, "sorb-flappy") {
        Some(GameKind::Flappy)
    } else if str_eq(cmd, "sorb-tetris") {
        Some(GameKind::Tetris)
    } else if str_eq(cmd, "sorb-invaders") {
        Some(GameKind::Invaders)
    } else {
        None
    }
}

} // verus!
