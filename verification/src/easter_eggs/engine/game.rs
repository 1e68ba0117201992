//! What every game hands back to the engine, and what the engine hands in.

use vstd::prelude::*;

verus! {

/// Represents the current state of a running game.
#[derive(Debug, Clone, Copy, PartialEq, Eq, Structural)]
pub enum GameState {
    Running,
    Paused,
    GameOver { score: u32 },
    QuitToShell,
}

/// Normalized input events consumed by games.
#[derive(Debug, Clone, Copy, PartialEq, Eq, Hash, Structural)]
pub enum Input {
    Up,
    Down,
    Left,
    Right,
    Action,
    Quit,
}


/// The play area, in cells, that a terminal of `term_w` columns and
/// `term_h` rows leaves: each cell is two columns wide, two columns go to
/// the border and eight rows to the bars, and neither side is below 10.
pub open spec fn spec_play_area(term_w: u16, term_h: u16) -> (u16, u16) {
    let w = if term_w >= 2 { (term_w - 2) / 2 } else { 0 };
    let h = if term_h >= 8 { term_h - 8 } else { 0 };
    ((if w >= 10 { w } else { 10 }) as u16, (if h >= 10 { h } else { 10 }) as u16)
}

/// The play area, in cells, for a terminal of `term_w` columns and
/// `term_h` rows.
pub fn play_area(term_w: u16, term_h: u16) -> (r: (u16, u16))
    ensures
        r == spec_play_area(term_w, term_h),
        10 <= r.0 <= 32766,
        10 <= r.1 <= 65527,
{
    let w = term_w.saturating_sub(2) / 2;
    let h = term_h.saturating_sub(8);
    (if w >= 10 { w } else { 10 }, if h >= 10 { h } else { 10 })
}


/// A difficulty level as a score bar names it.
#[derive(Debug, Clone, Copy, PartialEq, Eq, Structural)]
pub enum Difficulty {
    Easy,
    Medium,
    Hard,
    Expert,
}

impl Difficulty {
    /// The level's name.
    pub fn label(&self) -> (r: &'static str)
        ensures
            r@ == match *self {
                Difficulty::Easy => "Easy"@,
                Difficulty::Medium => "Medium"@,
                Difficulty::Hard => "Hard"@,
                Difficulty::Expert => "Expert"@,
            },
    {
        match self {
            Difficulty::Easy => "Easy",
            Difficulty::Medium => "Medium",
            Difficulty::Hard => "Hard",
            Difficulty::Expert => "Expert",
        }
    }
}

} // verus!
