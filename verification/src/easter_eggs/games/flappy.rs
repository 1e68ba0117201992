//! Flappy Bird's difficulty tables. The bird's flight and the pipes are
//! floating-point physics and run outside the library.

use vstd::prelude::*;

use crate::easter_eggs::engine::game::Difficulty;

verus! {

/// The difficulty shown for a score: Easy below 10, Medium below 20, Hard
/// below 30, Expert from 30.
pub fn difficulty_for(score: u32) -> (r: Difficulty)
    ensures
        r == if score <= 9 {
            Difficulty::Easy
        } else if score <= 19 {
            Difficulty::Medium
        } else if score <= 29 {
            Difficulty::Hard
        } else {
            Difficulty::Expert
        },
{
    if score <= 9 {
        Difficulty::Easy
    } else if score <= 19 {
        Difficulty::Medium
    } else if score <= 29 {
        Difficulty::Hard
    } else {
        Difficulty::Expert
    }
}

/// How far the pipes move per tick at a score, in tenths of a cell: 0.5
/// below 5 points, rising by 0.1 every 5 points to 0.9 from 20 points, and
/// 1.0 from 30 points.
pub fn pipe_speed_tenths(score: u32) -> (r: u32)
    ensures
        r == if score <= 4 {
            5u32
        } else if score <= 9 {
            6
        } else if score <= 14 {
            7
        } else if score <= 19 {
            8
        } else if score <= 29 {
            9
        } else {
            10
        },
        5 <= r <= 10,
{
    if score <= 4 {
        5
    } else if score <= 9 {
        6
    } else if score <= 14 {
        7
    } else if score <= 19 {
        8
    } else if score <= 29 {
        9
    } else {
        10
    }
}

/// The height of the gap between pipes at a score, in half cells: 6 below
/// 10 points, then 5.5, 5 and, from 30 points, 4.5.
pub fn gap_size_halves(score: u32) -> (r: u32)
    ensures
        r == if score <= 9 {
            12u32
        } else if score <= 19 {
            11
        } else if score <= 29 {
            10
        } else {
            9
        },
{
    if score <= 9 {
        12
    } else if score <= 19 {
        11
    } else if score <= 29 {
        10
    } else {
        9
    }
}

/// The game only gets harder: a higher score never brings slower pipes or
/// a wider gap.
pub proof fn lemma_difficulty_monotone(a: u32, b: u32)
    requires
        a <= b,
    ensures
        (if a <= 4 { 5int } else if a <= 9 { 6 } else if a <= 14 { 7 } else if a <= 19 { 8 } else if a <= 29 { 9 } else { 10 })
            <= (if b <= 4 { 5int } else if b <= 9 { 6 } else if b <= 14 { 7 } else if b <= 19 { 8 } else if b <= 29 { 9 } else { 10 }),
        (if a <= 9 { 12int } else if a <= 19 { 11 } else if a <= 29 { 10 } else { 9 })
            >= (if b <= 9 { 12int } else if b <= 19 { 11 } else if b <= 29 { 10 } else { 9 }),
{
}

} // verus!
