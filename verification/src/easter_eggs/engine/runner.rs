//! The decisions of the fixed-step game loop; the loop itself, which polls
//! the keyboard, draws and sleeps, runs outside the library.

use vstd::prelude::*;

use super::game::GameState;

verus! {

/// Length of one tick: a sixtieth of a second (rounded to the nearest
/// nanosecond), so that the loop runs at about 60 ticks per second.
pub const TICK_NANOS: u64 = 16_666_667;

/// How long a frame waits for keys: most of a tick, leaving the rest for
/// the game's step and its drawing.
pub const POLL_NANOS: u64 = 14_000_000;

/// What the loop does after a frame.
#[derive(Debug, Clone, Copy, PartialEq, Eq, Structural)]
pub enum FrameOutcome {
    /// Sleep out the tick and go on.
    Continue,
    /// Return to the shell.
    Quit,
    /// Record the score, announce it and return to the shell.
    GameOver { score: u32 },
}

/// Whether a state stops the processing of the frame's remaining inputs.
pub fn stops_frame(state: GameState) -> (r: bool)
    ensures
        r == (state is QuitToShell || state is GameOver),
{
    match state {
        GameState::QuitToShell | GameState::GameOver { .. } => true,
        _ => false,
    }
}

/// What the loop does with the state the frame ended in.
pub fn frame_outcome(state: GameState) -> (r: FrameOutcome)
    ensures
        r == match state {
            GameState::QuitToShell => FrameOutcome::Quit,
            GameState::GameOver { score } => FrameOutcome::GameOver { score },
            _ => FrameOutcome::Continue,
        },
{
    match state {
        GameState::QuitToShell => FrameOutcome::Quit,
        GameState::GameOver { score } => FrameOutcome::GameOver { score },
        _ => FrameOutcome::Continue,
    }
}

/// Whether the end of a game celebrates a new high score: only a new best
/// above zero does.
pub fn celebrates(is_new_best: bool, score: u32) -> (r: bool)
    ensures
        r == (is_new_best && score > 0),
{
    is_new_best && score > 0
}

/// How long to sleep after a frame that took `elapsed` nanoseconds, so
/// that frames start one tick apart.
pub fn sleep_after(elapsed: u64) -> (r: u64)
    ensures
        r == if elapsed < TICK_NANOS { TICK_NANOS - elapsed } else { 0 },
        elapsed < TICK_NANOS ==> elapsed + r == TICK_NANOS,
{
    if elapsed < TICK_NANOS {
        TICK_NANOS - elapsed
    } else {
        0
    }
}

/// Sixty ticks last a second, to within a nanosecond per tick; the
/// frame's wait for keys fits within a tick.
pub proof fn lemma_sixty_ticks_per_second()
    ensures
        60 * (TICK_NANOS - 1) < 1_000_000_000 <= 60 * TICK_NANOS,
        POLL_NANOS < TICK_NANOS,
{
}

} // verus!
