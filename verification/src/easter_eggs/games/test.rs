//! A dummy game that checks that the engine hands control over and back.

use vstd::prelude::*;

use crate::easter_eggs::engine::game::{GameState, Input};

verus! {

/// A dummy test game: it counts ticks and quits on Q.
pub struct TestGame {
    ticks: u32,
}

impl View for TestGame {
    type V = u32;

    /// The number of ticks so far.
    closed spec fn view(&self) -> u32 {
        self.ticks
    }
}

impl TestGame {
    pub fn new() -> (g: Self)
        ensures
            g@ == 0,
    {
        TestGame { ticks: 0 }
    }

    /// The game's name as the score file records it.
    pub fn name(&self) -> (r: &'static str)
        ensures
            r@ == "Engine Test"@,
    {
        "Engine Test"
    }

    /// Counts a tick; Quit returns to the shell, anything else keeps running.
    pub fn tick(&mut self, input: Option<Input>) -> (r: GameState)
        requires
            old(self)@ < u32::MAX,
        ensures
            final(self)@ == old(self)@ + 1,
            r == if input == Some(Input::Quit) {
                GameState::QuitToShell
            } else {
                GameState::Running
            },
    {
        self.ticks = self.ticks + 1;
        if let Some(Input::Quit) = input {
            return GameState::QuitToShell;
        }
        GameState::Running
    }

    /// The number of ticks so far.
    pub fn ticks(&self) -> (r: u32)
        ensures
            r == self@,
    {
        self.ticks
    }

    /// Starts the count over.
    pub fn reset(&mut self)
        ensures
            final(self)@ == 0,
    {
        self.ticks = 0;
    }
}

} // verus!
