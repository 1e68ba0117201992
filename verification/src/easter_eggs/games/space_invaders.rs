//! Space Invaders: a ship at the bottom that fires upwards, a formation of
//! 32 aliens that marches sideways and down and shoots back, a combo that
//! earns a beam weapon, and waves that get faster.
//!
//! Every position of the game is a whole or half cell, so positions are
//! kept exactly as integers counting half cells; speeds are in cells per
//! tick, as the game states them.

use vstd::prelude::*;

use crate::easter_eggs::engine::game::{Difficulty, GameState, Input};
use crate::random::random_below;
use crate::seqs::{lemma_filter_all, lemma_filter_len, lemma_filter_member, lemma_filter_step};

verus! {

/// Width of the field in half cells (40 cells).
pub const FIELD_W: i32 = 80;

/// Height of the field in half cells (20 cells).
pub const FIELD_H: i32 = 40;

/// Row of the ship in half cells (row 18).
pub const SHIP_Y: i32 = 36;

/// Rightmost position of the ship in half cells (38 cells).
pub const SHIP_MAX_X: i32 = 76;

/// A player laser: position in half cells, and the sideways speed (in
/// cells per tick, -1, 0 or 1) inherited from the ship; it rises one cell
/// and drifts half its speed each tick.
#[derive(Debug, Clone, Copy, PartialEq, Eq, Structural)]
pub struct Laser {
    pub x: i32,
    pub y: i32,
    pub vx: i32,
}

/// An alien laser: position in half cells; it falls half a cell each tick.
#[derive(Debug, Clone, Copy, PartialEq, Eq, Structural)]
pub struct Shot {
    pub x: i32,
    pub y: i32,
}

/// An alien: position in half cells (three cells wide, one tall), and
/// whether it is exploding and for how many ticks.
#[derive(Debug, Clone, Copy, PartialEq, Eq, Structural)]
pub struct Alien {
    pub x: i32,
    pub y: i32,
    pub exploding: bool,
    pub explosion_timer: u32,
}

/// Ticks between two formation moves in a wave: 15 minus the wave, but no
/// fewer than 2.
pub open spec fn march_interval(wave: u32) -> u32 {
    if wave >= 13 {
        2
    } else {
        (15 - wave) as u32
    }
}

/// The formation at the start of a wave: 4 rows of 8 aliens, three cells
/// apart from column 5, two rows apart from row 2.
pub open spec fn formation() -> Seq<Alien> {
    Seq::new(
        32,
        |i: int| Alien { x: (10 + 6 * (i % 8)) as i32, y: (4 + 4 * (i / 8)) as i32, exploding: false, explosion_timer: 0 },
    )
}

/// How many aliens satisfy `f`.
pub open spec fn count_where(s: Seq<Alien>, f: spec_fn(Alien) -> bool) -> nat
    decreases s.len(),
{
    if s.len() == 0 {
        0
    } else {
        count_where(s.drop_last(), f) + if f(s.last()) { 1nat } else { 0nat }
    }
}

/// Between the ship's fire and the formation's march, no alien moves up or
/// down: aliens only blow up, age and vanish.
proof fn lemma_phases_keep_heights(v: InvadersView)
    requires
        v.wf(),
        !v.game_over,
    ensures
        above_ship(v.cooled().beamed().lasers_flown().shots_fallen().intercepted().struck().exploded().aliens),
{
    assert(above_ship(v.aliens)) by {
        assert forall|j: int| 0 <= j < v.aliens.len() implies (#[trigger] v.aliens[j]).y < SHIP_Y by {
            assert(alien_ok(v.aliens[j], v.game_over));
        }
    }
    let b = v.cooled().beamed();
    assert(above_ship(b.aliens));
    let t = b.lasers_flown().shots_fallen().intercepted();
    assert(t.aliens == b.aliens);
    let st = t.struck();
    assert(above_ship(st.aliens));
    let aged_all = st.aliens.map_values(age());
    assert(above_ship(aged_all));
    let e = st.exploded();
    assert forall|k: int| 0 <= k < e.aliens.len() implies (#[trigger] e.aliens[k]).y < SHIP_Y by {
        lemma_filter_member(aged_all, shown(), k);
    }
}

/// No more aliens satisfy a predicate than there are aliens.
pub proof fn lemma_count_le(s: Seq<Alien>, f: spec_fn(Alien) -> bool)
    ensures
        count_where(s, f) <= s.len(),
    decreases s.len(),
{
    if s.len() > 0 {
        lemma_count_le(s.drop_last(), f);
    }
}

/// The alien struck, now exploding from tick 0.
pub open spec fn blown(a: Alien) -> Alien {
    Alien { exploding: true, explosion_timer: 0, ..a }
}

/// The beam, fired from the middle of the ship at `ship_x`, meets the
/// alien, which is not already exploding.
pub open spec fn beam_hits(ship_x: i32, a: Alien) -> bool {
    !a.exploding && a.x <= ship_x + 1 <= a.x + 4
}

/// The laser after one tick of flight.
pub open spec fn flown(l: Laser) -> Laser {
    Laser { x: (l.x + l.vx) as i32, y: (l.y - 2) as i32, ..l }
}

/// The laser is still on the field.
pub open spec fn on_field(l: Laser) -> bool {
    l.y >= 0 && l.x >= 0 && l.x < FIELD_W
}

/// The alien shot, having fallen half a cell, meets the ship at `ship_x`.
pub open spec fn hits_ship(s: Shot, ship_x: i32) -> bool {
    SHIP_Y <= s.y + 1 <= SHIP_Y + 2 && ship_x <= s.x <= ship_x + 4
}

/// The alien shots fall half a cell, in order; each that meets the ship
/// costs a life (never below zero), is moved off the field (row 30), and
/// ends the game when no life is left. Gives the shots, lives and whether
/// the game is over.
pub open spec fn shots_fall(shots: Seq<Shot>, ship_x: i32, lives: u32, over: bool) -> (Seq<Shot>, u32, bool)
    decreases shots.len(),
{
    if shots.len() == 0 {
        (shots, lives, over)
    } else {
        let (prev, l, o) = shots_fall(shots.drop_last(), ship_x, lives, over);
        let s = shots.last();
        if hits_ship(s, ship_x) {
            let l2: u32 = if l > 0 { (l - 1) as u32 } else { 0 };
            (prev.push(Shot { x: s.x, y: 60 }), l2, o || l2 == 0)
        } else {
            (prev.push(Shot { x: s.x, y: (s.y + 1) as i32 }), l, o)
        }
    }
}

/// The shot is still on the field (at most 20 cells down).
pub open spec fn shot_on_field(s: Shot) -> bool {
    s.y <= FIELD_H
}

/// A player laser and an alien shot meet: they are less than half a cell
/// apart both ways, that is, at the same position.
pub open spec fn meets(l: Laser, s: Shot) -> bool {
    l.x == s.x && l.y == s.y
}

/// The laser meets one of the shots.
pub open spec fn meets_any_shot(l: Laser, shots: Seq<Shot>) -> bool {
    exists|j: int| 0 <= j < shots.len() && meets(l, #[trigger] shots[j])
}

/// The shot meets one of the lasers.
pub open spec fn meets_any_laser(s: Shot, lasers: Seq<Laser>) -> bool {
    exists|i: int| 0 <= i < lasers.len() && meets(#[trigger] lasers[i], s)
}

/// The laser strikes the alien, which is not already exploding.
pub open spec fn strikes(l: Laser, a: Alien) -> bool {
    !a.exploding && a.x <= l.x <= a.x + 4 && a.y <= l.y <= a.y + 2
}

/// Some laser strikes the alien.
pub open spec fn struck_by_any(a: Alien, lasers: Seq<Laser>) -> bool {
    exists|i: int| 0 <= i < lasers.len() && strikes(#[trigger] lasers[i], a)
}

/// The laser strikes some alien.
pub open spec fn strikes_any(l: Laser, aliens: Seq<Alien>) -> bool {
    exists|j: int| 0 <= j < aliens.len() && strikes(l, #[trigger] aliens[j])
}

/// How many (laser, alien) pairs strike: an alien struck by two lasers
/// counts twice.
pub open spec fn strike_pairs(lasers: Seq<Laser>, aliens: Seq<Alien>) -> nat
    decreases lasers.len(),
{
    if lasers.len() == 0 {
        0
    } else {
        strike_pairs(lasers.drop_last(), aliens) + count_where(aliens, struck_by(lasers.last()))
    }
}

/// The alien one tick further into its explosion.
pub open spec fn aged(a: Alien) -> Alien {
    if a.exploding {
        Alien { explosion_timer: (a.explosion_timer + 1) as u32, ..a }
    } else {
        a
    }
}

/// The alien is still shown: not exploding, or exploding for fewer than
/// ten ticks.
pub open spec fn still_shown(a: Alien) -> bool {
    !a.exploding || a.explosion_timer < 10
}

/// The alien, not exploding, would touch a side of the field after moving
/// in direction `dir`.
pub open spec fn at_wall(a: Alien, dir: i32) -> bool {
    !a.exploding && (a.x + 2 * dir <= 0 || a.x + 4 + 2 * dir >= FIELD_W)
}

/// The alien, unless exploding, moved down a row.
pub open spec fn descended(a: Alien) -> Alien {
    if a.exploding {
        a
    } else {
        Alien { y: (a.y + 2) as i32, ..a }
    }
}

/// The alien, unless exploding, moved a cell in direction `dir`.
pub open spec fn shifted(a: Alien, dir: i32) -> Alien {
    if a.exploding {
        a
    } else {
        Alien { x: (a.x + 2 * dir) as i32, ..a }
    }
}

/// The alien is active and has reached the ship's row.
pub open spec fn landed(a: Alien) -> bool {
    !a.exploding && a.y + 2 >= SHIP_Y
}

/// `beam_hits` for the ship at `ship_x`, as a predicate.
pub open spec fn beam_pred(ship_x: i32) -> spec_fn(Alien) -> bool {
    |a: Alien| beam_hits(ship_x, a)
}

/// What the beam from the ship at `ship_x` does to an alien.
pub open spec fn beam_effect(ship_x: i32) -> spec_fn(Alien) -> Alien {
    |a: Alien| if beam_hits(ship_x, a) { blown(a) } else { a }
}

/// `flown`, as a function.
pub open spec fn fly() -> spec_fn(Laser) -> Laser {
    |l: Laser| flown(l)
}

/// `on_field`, as a predicate.
pub open spec fn laser_kept() -> spec_fn(Laser) -> bool {
    |l: Laser| on_field(l)
}

/// `shot_on_field`, as a predicate.
pub open spec fn shot_kept() -> spec_fn(Shot) -> bool {
    |s: Shot| shot_on_field(s)
}

/// A laser meets none of the shots.
pub open spec fn clear_of_shots(shots: Seq<Shot>) -> spec_fn(Laser) -> bool {
    |l: Laser| !meets_any_shot(l, shots)
}

/// A shot meets none of the lasers.
pub open spec fn clear_of_lasers(lasers: Seq<Laser>) -> spec_fn(Shot) -> bool {
    |s: Shot| !meets_any_laser(s, lasers)
}

/// The aliens that the laser strikes, as a predicate.
pub open spec fn struck_by(l: Laser) -> spec_fn(Alien) -> bool {
    |a: Alien| strikes(l, a)
}

/// The aliens that some laser strikes, as a predicate.
pub open spec fn struck_by_lasers(lasers: Seq<Laser>) -> spec_fn(Alien) -> bool {
    |a: Alien| struck_by_any(a, lasers)
}

/// What the lasers do to an alien.
pub open spec fn strike_effect(lasers: Seq<Laser>) -> spec_fn(Alien) -> Alien {
    |a: Alien| if struck_by_any(a, lasers) { blown(a) } else { a }
}

/// A laser strikes none of the aliens.
pub open spec fn misses_all(aliens: Seq<Alien>) -> spec_fn(Laser) -> bool {
    |l: Laser| !strikes_any(l, aliens)
}

/// `aged`, as a function.
pub open spec fn age() -> spec_fn(Alien) -> Alien {
    |a: Alien| aged(a)
}

/// `still_shown`, as a predicate.
pub open spec fn shown() -> spec_fn(Alien) -> bool {
    |a: Alien| still_shown(a)
}

/// `descended`, as a function.
pub open spec fn descend() -> spec_fn(Alien) -> Alien {
    |a: Alien| descended(a)
}

/// `shifted` in direction `dir`, as a function.
pub open spec fn shift(dir: i32) -> spec_fn(Alien) -> Alien {
    |a: Alien| shifted(a, dir)
}

/// The aliens not exploding, as a predicate.
pub open spec fn active() -> spec_fn(Alien) -> bool {
    |a: Alien| !a.exploding
}

/// Every alien is above the ship's row.
pub open spec fn above_ship(aliens: Seq<Alien>) -> bool {
    forall|j: int| 0 <= j < aliens.len() ==> (#[trigger] aliens[j]).y < SHIP_Y
}

/// Where an alien can be: on the field, above the ship's row while the game
/// goes on, and less than ten ticks into an explosion.
pub open spec fn alien_ok(a: Alien, over: bool) -> bool {
    &&& 0 <= a.x <= FIELD_W
    &&& 0 <= a.y <= FIELD_H
    &&& !over ==> a.y < SHIP_Y
    &&& a.explosion_timer < 10
}

/// Where a player laser can be, and its speed.
pub open spec fn laser_ok(l: Laser) -> bool {
    &&& 0 <= l.x <= FIELD_W
    &&& 0 <= l.y <= FIELD_H
    &&& -1 <= l.vx <= 1
}

/// Where an alien shot can be.
pub open spec fn shot_ok(s: Shot) -> bool {
    &&& 0 <= s.x <= FIELD_W + 2
    &&& 0 <= s.y <= FIELD_H + 2
}

/// Every alien is where an alien can be.
pub open spec fn aliens_ok(aliens: Seq<Alien>, over: bool) -> bool {
    forall|j: int| 0 <= j < aliens.len() ==> alien_ok(#[trigger] aliens[j], over)
}

/// Every player laser is where a laser can be.
pub open spec fn lasers_ok(lasers: Seq<Laser>) -> bool {
    forall|i: int| 0 <= i < lasers.len() ==> laser_ok(#[trigger] lasers[i])
}

/// Every alien shot is where a shot can be.
pub open spec fn shots_ok(shots: Seq<Shot>) -> bool {
    forall|i: int| 0 <= i < shots.len() ==> shot_ok(#[trigger] shots[i])
}

/// A quiet, checked picture of a Space Invaders game.
pub struct InvadersView {
    /// Position of the ship's left edge, in half cells.
    pub ship_x: i32,
    /// The ship's sideways speed this tick: -1, 0 or 1 cells.
    pub ship_vx: i32,
    /// Ticks before the ship can fire again.
    pub ship_cooldown: u32,
    pub player_lasers: Seq<Laser>,
    pub alien_lasers: Seq<Shot>,
    pub aliens: Seq<Alien>,
    /// The formation's direction: 1 right, -1 left.
    pub alien_dir: i32,
    /// Ticks between two formation moves.
    pub alien_speed: u32,
    pub ticks_since_alien_move: u32,
    pub score: u32,
    pub wave: u32,
    pub lives: u32,
    pub game_over: bool,
    /// Aliens struck since the last miss, towards the beam.
    pub consecutive_hits: u32,
    /// The beam is firing.
    pub laser_active: bool,
    /// Ticks the beam has been firing.
    pub laser_timer: u32,
    pub shots_fired: u32,
    /// The ship fires by itself whenever it can.
    pub auto_shoot: bool,
}

impl InvadersView {
    /// The start of a game: the ship in the middle of the field (cell
    /// 20), still and ready to fire by itself; three lives, no score; the
    /// first wave's formation moving right, every 14 ticks; nothing in the
    /// air and no beam.
    pub open spec fn initial() -> InvadersView {
        InvadersView {
            ship_x: 40,
            ship_vx: 0,
            ship_cooldown: 0,
            player_lasers: Seq::empty(),
            alien_lasers: Seq::empty(),
            aliens: formation(),
            alien_dir: 1,
            alien_speed: 14,
            ticks_since_alien_move: 0,
            score: 0,
            wave: 1,
            lives: 3,
            game_over: false,
            consecutive_hits: 0,
            laser_active: false,
            laser_timer: 0,
            shots_fired: 0,
            auto_shoot: true,
        }
    }

    /// What every reachable state satisfies.
    pub open spec fn wf(self) -> bool {
        &&& 0 <= self.ship_x <= SHIP_MAX_X
        &&& self.ship_x % 2 == 0
        &&& -1 <= self.ship_vx <= 1
        &&& self.ship_cooldown <= 5
        &&& self.aliens.len() <= 32
        &&& aliens_ok(self.aliens, self.game_over)
        &&& lasers_ok(self.player_lasers)
        &&& shots_ok(self.alien_lasers)
        &&& self.alien_dir == 1 || self.alien_dir == -1
        &&& 1 <= self.wave
        &&& self.alien_speed == march_interval(self.wave)
        &&& self.ticks_since_alien_move < 15
        &&& self.laser_timer < 60
        &&& self.lives <= 3
    }

    /// A tick with this input acts: the input is neither Quit nor, once
    /// the game is over, Action (both only report back).
    pub open spec fn acts(self, input: Option<Input>) -> bool {
        input != Some(Input::Quit) && !(input == Some(Input::Action) && self.game_over)
    }

    /// No counter can overflow during a tick with this input. The ship
    /// fires (and counts a shot) only with its cannon cool and the beam
    /// off; the score and the combo grow only while the game goes on, by
    /// at most ten points per wave for each of the at most 64 aliens that
    /// the beam and the lasers blow up, and by one per laser and alien.
    pub open spec fn can_tick(self, input: Option<Input>) -> bool {
        &&& self.acts(input) && self.ship_cooldown == 0 && !self.laser_active ==> self.shots_fired < u32::MAX
        &&& self.acts(input) && !self.game_over ==> {
            &&& self.score + 640 * self.wave <= u32::MAX
            &&& self.consecutive_hits + 32 * (self.player_lasers.len() + 1) <= u32::MAX
        }
    }

    /// The input's effect on the ship, and whether it asks to fire: Left
    /// and Right move the ship a cell within the field and give it that
    /// speed; Action fires; Up fires unless the game is over. Without a
    /// move the ship's speed is zero.
    pub open spec fn steered(self, input: Option<Input>) -> (InvadersView, bool) {
        match input {
            Some(Input::Action) => (InvadersView { ship_vx: 0, ..self }, true),
            Some(Input::Left) => {
                let nx: i32 = if self.ship_x - 2 >= 0 { (self.ship_x - 2) as i32 } else { 0 };
                (InvadersView { ship_x: nx, ship_vx: ((nx - self.ship_x) / 2) as i32, ..self }, false)
            },
            Some(Input::Right) => {
                let nx: i32 = if self.ship_x + 2 <= SHIP_MAX_X { (self.ship_x + 2) as i32 } else { SHIP_MAX_X };
                (InvadersView { ship_x: nx, ship_vx: ((nx - self.ship_x) / 2) as i32, ..self }, false)
            },
            Some(Input::Up) => (InvadersView { ship_vx: 0, ..self }, !self.game_over),
            _ => (InvadersView { ship_vx: 0, ..self }, false),
        }
    }

    /// The ship fires when asked to or set to fire by itself, provided it
    /// has cooled down and the beam is off: a laser leaves the ship's
    /// middle one row above it with the ship's speed.
    pub open spec fn fired(self, shoot: bool) -> InvadersView {
        if (shoot || self.auto_shoot) && self.ship_cooldown == 0 && !self.laser_active {
            InvadersView {
                player_lasers: self.player_lasers.push(
                    Laser { x: (self.ship_x + 1) as i32, y: (SHIP_Y - 2) as i32, vx: self.ship_vx },
                ),
                ship_cooldown: 5,
                shots_fired: (self.shots_fired + 1) as u32,
                ..self
            }
        } else {
            self
        }
    }

    /// The cooldown runs down by one tick.
    pub open spec fn cooled(self) -> InvadersView {
        if self.ship_cooldown > 0 {
            InvadersView { ship_cooldown: (self.ship_cooldown - 1) as u32, ..self }
        } else {
            self
        }
    }

    /// A firing beam counts a tick (and stops after 60), and blows up every
    /// alien above the ship's middle, scoring ten points per alien per wave.
    pub open spec fn beamed(self) -> InvadersView {
        if !self.laser_active {
            self
        } else {
            let t = self.laser_timer + 1;
            InvadersView {
                laser_active: t < 60,
                laser_timer: if t < 60 { t as u32 } else { 0 },
                aliens: self.aliens.map_values(beam_effect(self.ship_x)),
                score: (self.score + 10 * self.wave * count_where(self.aliens, beam_pred(self.ship_x))) as u32,
                ..self
            }
        }
    }

    /// The player lasers fly a tick and those that leave the field go.
    pub open spec fn lasers_flown(self) -> InvadersView {
        InvadersView { player_lasers: self.player_lasers.map_values(fly()).filter(laser_kept()), ..self }
    }

    /// The alien shots fall (see `shots_fall`) and those below the field go.
    pub open spec fn shots_fallen(self) -> InvadersView {
        let (shots, lives, over) = shots_fall(self.alien_lasers, self.ship_x, self.lives, self.game_over);
        InvadersView { alien_lasers: shots.filter(shot_kept()), lives, game_over: over, ..self }
    }

    /// Lasers and shots that meet destroy each other.
    pub open spec fn intercepted(self) -> InvadersView {
        let lasers = self.player_lasers;
        let shots = self.alien_lasers;
        InvadersView {
            player_lasers: lasers.filter(clear_of_shots(shots)),
            alien_lasers: shots.filter(clear_of_lasers(lasers)),
            ..self
        }
    }

    /// Lasers strike aliens: every struck alien blows up and scores ten
    /// points per wave; every laser that strikes goes. A laser above the
    /// field that struck nothing breaks the combo; then each striking pair
    /// adds to the combo, and a combo of ten starts the beam and restarts
    /// the count.
    pub open spec fn struck(self) -> InvadersView {
        let lasers = self.player_lasers;
        let aliens = self.aliens;
        let missed = exists|i: int| 0 <= i < lasers.len() && !strikes_any(#[trigger] lasers[i], aliens) && lasers[i].y < 0;
        let c1: int = if missed { 0 } else { self.consecutive_hits as int };
        let pairs = strike_pairs(lasers, aliens);
        let c2: int = if pairs > 0 { c1 + pairs } else { c1 };
        let beam = pairs > 0 && c2 >= 10 && !self.laser_active;
        InvadersView {
            consecutive_hits: if beam { 0 } else { c2 as u32 },
            laser_active: self.laser_active || beam,
            laser_timer: if beam { 0 } else { self.laser_timer },
            aliens: aliens.map_values(strike_effect(lasers)),
            score: (self.score + 10 * self.wave * count_where(aliens, struck_by_lasers(lasers))) as u32,
            player_lasers: lasers.filter(misses_all(aliens)),
            ..self
        }
    }

    /// Explosions count a tick; aliens that have exploded for ten ticks go.
    pub open spec fn exploded(self) -> InvadersView {
        InvadersView { aliens: self.aliens.map_values(age()).filter(shown()), ..self }
    }

    /// The next wave: a fresh formation moving right, faster, with no
    /// lasers or shots in the air.
    pub open spec fn next_wave(self) -> InvadersView {
        let wave = (self.wave + 1) as u32;
        InvadersView {
            wave,
            aliens: formation(),
            player_lasers: Seq::empty(),
            alien_lasers: Seq::empty(),
            alien_dir: 1,
            alien_speed: march_interval(wave),
            ..self
        }
    }

    /// The formation's move: down a row and turning back when an active
    /// alien would touch a side (the game ends if one reaches the ship's
    /// row), else sideways a cell.
    pub open spec fn formation_moved(self) -> InvadersView {
        let wall = exists|j: int| 0 <= j < self.aliens.len() && at_wall(#[trigger] self.aliens[j], self.alien_dir);
        if wall {
            let aliens = self.aliens.map_values(descend());
            let lands = exists|j: int| 0 <= j < aliens.len() && landed(#[trigger] aliens[j]);
            InvadersView {
                alien_dir: (-self.alien_dir) as i32,
                aliens,
                lives: if lands { 0 } else { self.lives },
                game_over: self.game_over || lands,
                ..self
            }
        } else {
            InvadersView { aliens: self.aliens.map_values(shift(self.alien_dir)), ..self }
        }
    }

    /// The formation's fire: when `roll` is under 15 plus twice the wave,
    /// the active alien at `pick` (taken modulo their number) drops a shot
    /// below its middle.
    pub open spec fn aliens_fired(self, roll: nat, pick: nat) -> InvadersView {
        let active = self.aliens.filter(active());
        if active.len() > 0 && roll < 15 + 2 * self.wave {
            let a = active[(pick % active.len()) as int];
            InvadersView { alien_lasers: self.alien_lasers.push(Shot { x: (a.x + 2) as i32, y: (a.y + 2) as i32 }), ..self }
        } else {
            self
        }
    }

    /// The formation's clock ticks; at its interval it restarts, the
    /// formation moves and may fire.
    pub open spec fn marched(self, roll: nat, pick: nat) -> InvadersView {
        let t = self.ticks_since_alien_move + 1;
        if t < self.alien_speed {
            InvadersView { ticks_since_alien_move: t as u32, ..self }
        } else {
            InvadersView { ticks_since_alien_move: 0, ..self }.formation_moved().aliens_fired(roll, pick)
        }
    }

    /// One tick with an optional input. Quit returns to the shell; Action
    /// once the game is over reports the score; otherwise the ship moves
    /// and fires, and unless the game is over the world moves on: the
    /// cooldown, the beam, lasers and shots, interceptions, strikes,
    /// explosions, then either the next wave (when no alien is left) or the
    /// formation's march. `roll` and `pick` stand for the random draws of
    /// the aliens' fire.
    pub open spec fn ticked(self, input: Option<Input>, roll: nat, pick: nat) -> (InvadersView, GameState) {
        if input == Some(Input::Quit) {
            (self, GameState::QuitToShell)
        } else if input == Some(Input::Action) && self.game_over {
            (self, GameState::GameOver { score: self.score })
        } else {
            let (s, shoot) = self.steered(input);
            let f = s.fired(shoot);
            if f.game_over {
                (f, GameState::Running)
            } else {
                let w = f.cooled().beamed().lasers_flown().shots_fallen().intercepted().struck().exploded();
                if w.aliens.len() == 0 {
                    (w.next_wave(), GameState::Running)
                } else {
                    (w.marched(roll, pick), GameState::Running)
                }
            }
        }
    }
}


/// A game of Space Invaders.
pub struct SpaceInvadersGame {
    ship_x: i32,
    ship_vx: i32,
    ship_cooldown: u32,
    player_lasers: Vec<Laser>,
    alien_lasers: Vec<Shot>,
    aliens: Vec<Alien>,
    alien_dir: i32,
    alien_speed: u32,
    ticks_since_alien_move: u32,
    score: u32,
    wave: u32,
    lives: u32,
    game_over: bool,
    consecutive_hits: u32,
    laser_active: bool,
    laser_timer: u32,
    shots_fired: u32,
    auto_shoot: bool,
}

impl View for SpaceInvadersGame {
    type V = InvadersView;

    closed spec fn view(&self) -> InvadersView {
        InvadersView {
            ship_x: self.ship_x,
            ship_vx: self.ship_vx,
            ship_cooldown: self.ship_cooldown,
            player_lasers: self.player_lasers@,
            alien_lasers: self.alien_lasers@,
            aliens: self.aliens@,
            alien_dir: self.alien_dir,
            alien_speed: self.alien_speed,
            ticks_since_alien_move: self.ticks_since_alien_move,
            score: self.score,
            wave: self.wave,
            lives: self.lives,
            game_over: self.game_over,
            consecutive_hits: self.consecutive_hits,
            laser_active: self.laser_active,
            laser_timer: self.laser_timer,
            shots_fired: self.shots_fired,
            auto_shoot: self.auto_shoot,
        }
    }
}

/// Ticks between two formation moves in a wave.
pub fn march_interval_for(wave: u32) -> (r: u32)
    ensures
        r == march_interval(wave),
{
    if wave >= 13 {
        2
    } else {
        15 - wave
    }
}

/// The formation at the start of a wave.
fn new_formation() -> (r: Vec<Alien>)
    ensures
        r@ == formation(),
{
    let mut aliens: Vec<Alien> = Vec::new();
    let mut row: i32 = 0;
    while row < 4
        invariant
            0 <= row <= 4,
            aliens@ == formation().subrange(0, 8 * row),
        decreases 4 - row,
    {
        let mut col: i32 = 0;
        while col < 8
            invariant
                0 <= row < 4,
                0 <= col <= 8,
                aliens@ == formation().subrange(0, 8 * row + col),
            decreases 8 - col,
        {
            let a = Alien { x: 10 + col * 6, y: 4 + row * 4, exploding: false, explosion_timer: 0 };
            proof {
                let i = 8 * row + col;
                assert(i % 8 == col && i / 8 == row) by (nonlinear_arith)
                    requires
                        i == 8 * row + col,
                        0 <= col < 8,
                        0 <= row,
                ;
                assert(formation()[i] == a);
            }
            aliens.push(a);
            assert(aliens@ =~= formation().subrange(0, 8 * row + col + 1));
            col = col + 1;
        }
        row = row + 1;
    }
    assert(aliens@ =~= formation());
    aliens
}

proof fn lemma_formation_ok(over: bool)
    ensures
        formation().len() == 32,
        forall|j: int| 0 <= j < 32 ==> alien_ok(#[trigger] formation()[j], over),
{
    assert forall|j: int| 0 <= j < 32 implies alien_ok(#[trigger] formation()[j], over) by {
        assert(0 <= j % 8 < 8 && 0 <= j / 8 < 4) by (nonlinear_arith)
            requires
                0 <= j < 32,
        ;
    }
}

impl SpaceInvadersGame {
    /// A new game: the ship in the middle of the field (cell 20), three
    /// lives, the first wave's formation, firing by itself.
    pub fn new() -> (g: Self)
        ensures
            g@ == InvadersView::initial(),
            g@.wf(),
    {
        let mut g = SpaceInvadersGame {
            ship_x: 40,
            ship_vx: 0,
            ship_cooldown: 0,
            player_lasers: Vec::new(),
            alien_lasers: Vec::new(),
            aliens: Vec::new(),
            alien_dir: 1,
            alien_speed: 15,
            ticks_since_alien_move: 0,
            score: 0,
            wave: 1,
            lives: 3,
            game_over: false,
            consecutive_hits: 0,
            laser_active: false,
            laser_timer: 0,
            shots_fired: 0,
            auto_shoot: true,
        };
        g.init_wave();
        proof {
            lemma_formation_ok(false);
        }
        g
    }

    /// Sets up the formation of the current wave, with no lasers or shots
    /// in the air.
    fn init_wave(&mut self)
        ensures
            final(self)@ == (InvadersView {
                aliens: formation(),
                player_lasers: Seq::empty(),
                alien_lasers: Seq::empty(),
                alien_dir: 1,
                alien_speed: march_interval(old(self)@.wave),
                ..old(self)@
            }),
    {
        self.aliens = new_formation();
        self.player_lasers = Vec::new();
        self.alien_lasers = Vec::new();
        self.alien_dir = 1;
        self.alien_speed = march_interval_for(self.wave);
    }

    /// Moves the ship for the input; returns whether the input asks to fire.
    fn steer(&mut self, input: Option<Input>) -> (shoot: bool)
        requires
            old(self)@.wf(),
        ensures
            (final(self)@, shoot) == old(self)@.steered(input),
            final(self)@.wf(),
    {
        let mut shoot = false;
        let mut moving = false;
        match input {
            Some(Input::Action) => {
                shoot = true;
            },
            Some(Input::Left) => {
                let new_x: i32 = if self.ship_x - 2 >= 0 { self.ship_x - 2 } else { 0 };
                self.ship_vx = (new_x - self.ship_x) / 2;
                self.ship_x = new_x;
                moving = true;
            },
            Some(Input::Right) => {
                let new_x: i32 = if self.ship_x + 2 <= SHIP_MAX_X { self.ship_x + 2 } else { SHIP_MAX_X };
                self.ship_vx = (new_x - self.ship_x) / 2;
                self.ship_x = new_x;
                moving = true;
            },
            Some(Input::Up) => {
                if !self.game_over {
                    shoot = true;
                }
            },
            _ => {},
        }
        if !moving {
            self.ship_vx = 0;
        }
        shoot
    }

    /// The cooldown runs down by one tick.
    fn cool(&mut self)
        requires
            old(self)@.wf(),
        ensures
            final(self)@ == old(self)@.cooled(),
            final(self)@.wf(),
    {
        let ghost pre = self@;
        if self.ship_cooldown > 0 {
            self.ship_cooldown = self.ship_cooldown - 1;
        }
    }

    /// The beam, if firing, counts a tick and blows up the aliens above the
    /// ship's middle.
    fn beam(&mut self)
        requires
            old(self)@.wf(),
            old(self)@.score + 320 * old(self)@.wave <= u32::MAX,
        ensures
            final(self)@ == old(self)@.beamed(),
            final(self)@.wf(),
    {
        if !self.laser_active {
            return;
        }
        let ghost pre = self@;
        self.laser_timer = self.laser_timer + 1;
        if self.laser_timer >= 60 {
            self.laser_active = false;
            self.laser_timer = 0;
        }
        let ghost mid = self@;
        let laser_x = self.ship_x + 1;
        let points = 10 * self.wave;
        let n = self.aliens.len();
        let mut j: usize = 0;
        assert(pre.aliens.subrange(0, 0) =~= Seq::<Alien>::empty());
        assert(count_where(pre.aliens.subrange(0, 0), beam_pred(pre.ship_x)) == 0);
        assert(0 * points == 0) by (nonlinear_arith);
        while j < n
            invariant
                n == pre.aliens.len(),
                pre.wf(),
                n <= 32,
                j <= n,
                laser_x == pre.ship_x + 1,
                points == 10 * pre.wave,
                pre.score + 320 * pre.wave <= u32::MAX,
                mid == (InvadersView { laser_active: mid.laser_active, laser_timer: mid.laser_timer, ..pre }),
                self@ == (InvadersView { aliens: self@.aliens, score: self@.score, ..mid }),
                self@.aliens.len() == n,
                forall|k: int| 0 <= k < j ==> #[trigger] self@.aliens[k] == beam_effect(pre.ship_x)(pre.aliens[k]),
                forall|k: int| j <= k < n ==> #[trigger] self@.aliens[k] == pre.aliens[k],
                self@.score == pre.score + count_where(pre.aliens.subrange(0, j as int), beam_pred(pre.ship_x)) * points,
                count_where(pre.aliens.subrange(0, j as int), beam_pred(pre.ship_x)) <= j,
            decreases n - j,
        {
            let a = self.aliens[j];
            proof {
                let sub = pre.aliens.subrange(0, j + 1);
                assert(sub.drop_last() =~= pre.aliens.subrange(0, j as int));
                assert(sub.last() == pre.aliens[j as int]);
                assert(beam_pred(pre.ship_x)(a) == beam_hits(pre.ship_x, a));
                assert(beam_effect(pre.ship_x)(a) == if beam_hits(pre.ship_x, a) { blown(a) } else { a });
                assert(count_where(sub, beam_pred(pre.ship_x)) == count_where(pre.aliens.subrange(0, j as int), beam_pred(pre.ship_x))
                    + if beam_hits(pre.ship_x, a) { 1nat } else { 0nat });
            }
            assert(alien_ok(pre.aliens[j as int], pre.game_over));
            if !a.exploding && laser_x >= a.x && laser_x <= a.x + 4 {
                self.aliens.set(j, Alien { exploding: true, explosion_timer: 0, ..a });
                proof {
                    let c = count_where(pre.aliens.subrange(0, j as int), beam_pred(pre.ship_x));
                    let p = points as int;
                    assert((c + 1) * p == c * p + p) by (nonlinear_arith);
                    assert(c * p <= 31 * p) by (nonlinear_arith)
                        requires
                            c <= 31,
                            p >= 0,
                    ;
                    assert(self@.score + points <= pre.score + 32 * p);
                }
                self.score = self.score + points;
            }
            j = j + 1;
        }
        proof {
            assert(pre.aliens.subrange(0, n as int) =~= pre.aliens);
            let c = count_where(pre.aliens, beam_pred(pre.ship_x));
            assert(c * points == 10 * pre.wave * c) by (nonlinear_arith)
                requires
                    points == 10 * pre.wave,
            ;
            assert(self@.aliens =~= pre.aliens.map_values(beam_effect(pre.ship_x)));
            assert forall|k: int| 0 <= k < self@.aliens.len() implies alien_ok(#[trigger] self@.aliens[k], self@.game_over) by {
                assert(alien_ok(pre.aliens[k], pre.game_over));
            }
        }
    }

    /// The player lasers fly a tick; those that leave the field go.
    fn fly_lasers(&mut self)
        requires
            old(self)@.wf(),
        ensures
            final(self)@ == old(self)@.lasers_flown(),
            final(self)@.wf(),
    {
        let ghost pre = self@;
        let ghost moved = pre.player_lasers.map_values(fly());
        let n = self.player_lasers.len();
        let mut kept: Vec<Laser> = Vec::new();
        let mut i: usize = 0;
        while i < n
            invariant
                n == pre.player_lasers.len(),
                self@ == pre,
                pre.wf(),
                moved == pre.player_lasers.map_values(fly()),
                i <= n,
                kept@ == moved.subrange(0, i as int).filter(laser_kept()),
            decreases n - i,
        {
            let l = self.player_lasers[i];
            assert(laser_ok(pre.player_lasers[i as int]));
            let f = Laser { x: l.x + l.vx, y: l.y - 2, vx: l.vx };
            proof {
                assert(moved[i as int] == f);
                lemma_filter_step(moved, laser_kept(), i as int);
            }
            if f.y >= 0 && f.x >= 0 && f.x < FIELD_W {
                kept.push(f);
            }
            i = i + 1;
        }
        assert(moved.subrange(0, n as int) =~= moved);
        self.player_lasers = kept;
        proof {
            assert forall|i: int| 0 <= i < moved.len() implies laser_ok(#[trigger] moved[i]) || !on_field(moved[i]) by {
                assert(laser_ok(pre.player_lasers[i]));
            }
            assert forall|k: int| 0 <= k < self@.player_lasers.len() implies laser_ok(#[trigger] self@.player_lasers[k]) by {
                lemma_filter_member(moved, laser_kept(), k);
                let i = choose|i: int| 0 <= i < moved.len() && moved[i] == moved.filter(laser_kept())[k];
                assert(laser_ok(pre.player_lasers[i]));
            }
        }
    }

    /// The alien shots fall; each that meets the ship costs a life and may
    /// end the game; those below the field go.
    fn fall_shots(&mut self)
        requires
            old(self)@.wf(),
        ensures
            final(self)@ == old(self)@.shots_fallen(),
            final(self)@.wf(),
    {
        let ghost pre = self@;
        let n = self.alien_lasers.len();
        let mut fallen: Vec<Shot> = Vec::new();
        let mut lives = self.lives;
        let mut over = self.game_over;
        let mut i: usize = 0;
        while i < n
            invariant
                n == pre.alien_lasers.len(),
                self@ == pre,
                pre.wf(),
                i <= n,
                (fallen@, lives, over) == shots_fall(pre.alien_lasers.subrange(0, i as int), pre.ship_x, pre.lives, pre.game_over),
                lives <= 3,
                pre.game_over ==> over,
                forall|k: int| 0 <= k < fallen@.len() ==> shot_ok(#[trigger] fallen@[k]) || !shot_on_field(fallen@[k]),
            decreases n - i,
        {
            let s = self.alien_lasers[i];
            assert(shot_ok(pre.alien_lasers[i as int]));
            proof {
                let sub = pre.alien_lasers.subrange(0, i + 1);
                assert(sub.drop_last() =~= pre.alien_lasers.subrange(0, i as int));
                assert(sub.last() == s);
            }
            let y = s.y + 1;
            if y >= SHIP_Y && y <= SHIP_Y + 2 && s.x >= self.ship_x && s.x <= self.ship_x + 4 {
                lives = if lives > 0 { lives - 1 } else { 0 };
                fallen.push(Shot { x: s.x, y: 60 });
                if lives == 0 {
                    over = true;
                }
            } else {
                fallen.push(Shot { x: s.x, y });
            }
            i = i + 1;
        }
        assert(pre.alien_lasers.subrange(0, n as int) =~= pre.alien_lasers);
        let ghost all = fallen@;
        let m = fallen.len();
        let mut kept: Vec<Shot> = Vec::new();
        let mut k: usize = 0;
        while k < m
            invariant
                m == all.len(),
                all == fallen@,
                k <= m,
                kept@ == all.subrange(0, k as int).filter(shot_kept()),
            decreases m - k,
        {
            let s = fallen[k];
            proof {
                lemma_filter_step(all, shot_kept(), k as int);
            }
            if s.y <= FIELD_H {
                kept.push(s);
            }
            k = k + 1;
        }
        assert(all.subrange(0, m as int) =~= all);
        self.alien_lasers = kept;
        self.lives = lives;
        self.game_over = over;
        proof {
            assert forall|k: int| 0 <= k < self@.alien_lasers.len() implies shot_ok(#[trigger] self@.alien_lasers[k]) by {
                lemma_filter_member(all, shot_kept(), k);
            }
            assert forall|j: int| 0 <= j < self@.aliens.len() implies alien_ok(#[trigger] self@.aliens[j], self@.game_over) by {
                assert(alien_ok(pre.aliens[j], pre.game_over));
            }
        }
    }

    /// Lasers and shots that meet destroy each other.
    fn intercept(&mut self)
        requires
            old(self)@.wf(),
        ensures
            final(self)@ == old(self)@.intercepted(),
            final(self)@.wf(),
    {
        let ghost pre = self@;
        let ghost lasers = pre.player_lasers;
        let ghost shots = pre.alien_lasers;
        let nl = self.player_lasers.len();
        let ns = self.alien_lasers.len();
        let mut kept_lasers: Vec<Laser> = Vec::new();
        let mut i: usize = 0;
        while i < nl
            invariant
                nl == lasers.len(),
                ns == shots.len(),
                self@ == pre,
                lasers == pre.player_lasers,
                shots == pre.alien_lasers,
                i <= nl,
                kept_lasers@ == lasers.subrange(0, i as int).filter(clear_of_shots(shots)),
            decreases nl - i,
        {
            let l = self.player_lasers[i];
            let mut hit = false;
            let mut j: usize = 0;
            while j < ns
                invariant
                    ns == shots.len(),
                    self@ == pre,
                    shots == pre.alien_lasers,
                    j <= ns,
                    hit == exists|jj: int| 0 <= jj < j && meets(l, #[trigger] shots[jj]),
                decreases ns - j,
            {
                let s = self.alien_lasers[j];
                if l.x == s.x && l.y == s.y {
                    hit = true;
                }
                proof {
                    if meets(l, shots[j as int]) {
                        assert(exists|jj: int| 0 <= jj < j + 1 && meets(l, #[trigger] shots[jj]));
                    }
                }
                j = j + 1;
            }
            proof {
                assert(lasers[i as int] == l);
                lemma_filter_step(lasers, clear_of_shots(shots), i as int);
            }
            if !hit {
                kept_lasers.push(l);
            }
            i = i + 1;
        }
        assert(lasers.subrange(0, nl as int) =~= lasers);
        let mut kept_shots: Vec<Shot> = Vec::new();
        let mut j: usize = 0;
        while j < ns
            invariant
                nl == lasers.len(),
                ns == shots.len(),
                self@ == pre,
                lasers == pre.player_lasers,
                shots == pre.alien_lasers,
                j <= ns,
                kept_shots@ == shots.subrange(0, j as int).filter(clear_of_lasers(lasers)),
            decreases ns - j,
        {
            let s = self.alien_lasers[j];
            let mut hit = false;
            let mut i: usize = 0;
            while i < nl
                invariant
                    nl == lasers.len(),
                    self@ == pre,
                    lasers == pre.player_lasers,
                    i <= nl,
                    hit == exists|ii: int| 0 <= ii < i && meets(#[trigger] lasers[ii], s),
                decreases nl - i,
            {
                let l = self.player_lasers[i];
                if l.x == s.x && l.y == s.y {
                    hit = true;
                }
                proof {
                    if meets(lasers[i as int], s) {
                        assert(exists|ii: int| 0 <= ii < i + 1 && meets(#[trigger] lasers[ii], s));
                    }
                }
                i = i + 1;
            }
            proof {
                assert(shots[j as int] == s);
                lemma_filter_step(shots, clear_of_lasers(lasers), j as int);
            }
            if !hit {
                kept_shots.push(s);
            }
            j = j + 1;
        }
        assert(shots.subrange(0, ns as int) =~= shots);
        self.player_lasers = kept_lasers;
        self.alien_lasers = kept_shots;
        proof {
            lemma_filter_all(lasers, clear_of_shots(shots), |l: Laser| laser_ok(l));
            lemma_filter_all(shots, clear_of_lasers(lasers), |s: Shot| shot_ok(s));
        }
    }

    /// Which aliens the lasers strike, which lasers strike, how many
    /// (laser, alien) pairs strike, and whether a laser above the field
    /// struck nothing.
    fn find_strikes(&self) -> (r: (Vec<bool>, Vec<bool>, u32, bool))
        requires
            self@.wf(),
            32 * self@.player_lasers.len() <= u32::MAX,
        ensures
            r.0@.len() == self@.aliens.len(),
            forall|j: int| 0 <= j < self@.aliens.len() ==> #[trigger] r.0@[j] == struck_by_any(self@.aliens[j], self@.player_lasers),
            r.1@.len() == self@.player_lasers.len(),
            forall|i: int| 0 <= i < self@.player_lasers.len() ==> #[trigger] r.1@[i] == strikes_any(self@.player_lasers[i], self@.aliens),
            r.2 == strike_pairs(self@.player_lasers, self@.aliens),
            r.2 <= 32 * self@.player_lasers.len(),
            r.3 == exists|i: int|
                0 <= i < self@.player_lasers.len() && !strikes_any(#[trigger] self@.player_lasers[i], self@.aliens)
                    && self@.player_lasers[i].y < 0,
    {
        let ghost lasers = self@.player_lasers;
        let ghost aliens = self@.aliens;
        let nl = self.player_lasers.len();
        let na = self.aliens.len();
        let mut alien_hit: Vec<bool> = Vec::new();
        let mut t: usize = 0;
        while t < na
            invariant
                t <= na,
                alien_hit@.len() == t,
                forall|j: int| 0 <= j < t ==> !#[trigger] alien_hit@[j],
            decreases na - t,
        {
            alien_hit.push(false);
            t = t + 1;
        }
        let mut laser_hit: Vec<bool> = Vec::new();
        let mut pairs: u32 = 0;
        let mut missed = false;
        let mut i: usize = 0;
        assert(lasers.subrange(0, 0) =~= Seq::<Laser>::empty());
        while i < nl
            invariant
                lasers == self@.player_lasers,
                aliens == self@.aliens,
                self@.wf(),
                nl == lasers.len(),
                na == aliens.len(),
                na <= 32,
                i <= nl,
                alien_hit@.len() == na,
                forall|j: int| 0 <= j < na ==> #[trigger] alien_hit@[j] == exists|k: int| 0 <= k < i && strikes(#[trigger] lasers[k], aliens[j]),
                laser_hit@.len() == i,
                forall|k: int| 0 <= k < i ==> #[trigger] laser_hit@[k] == strikes_any(lasers[k], aliens),
                pairs == strike_pairs(lasers.subrange(0, i as int), aliens),
                pairs <= 32 * i,
                32 * nl <= u32::MAX,
                missed == exists|k: int| 0 <= k < i && !strikes_any(#[trigger] lasers[k], aliens) && lasers[k].y < 0,
            decreases nl - i,
        {
            let l = self.player_lasers[i];
            assert(laser_ok(lasers[i as int]));
            let ghost before_hits = alien_hit@;
            let ghost before_pairs = pairs;
            let mut any = false;
            let mut j: usize = 0;
            assert(aliens.subrange(0, 0) =~= Seq::<Alien>::empty());
            while j < na
                invariant
                    lasers == self@.player_lasers,
                    aliens == self@.aliens,
                    self@.wf(),
                    l == lasers[i as int],
                    i < nl,
                    nl == lasers.len(),
                    na == aliens.len(),
                    na <= 32,
                    j <= na,
                    alien_hit@.len() == na,
                    before_hits.len() == na,
                    forall|jj: int| 0 <= jj < na ==> #[trigger] alien_hit@[jj] == (before_hits[jj] || (jj < j && strikes(l, aliens[jj]))),
                    any == exists|jj: int| 0 <= jj < j && strikes(l, #[trigger] aliens[jj]),
                    pairs == before_pairs + count_where(aliens.subrange(0, j as int), struck_by(l)),
                    count_where(aliens.subrange(0, j as int), struck_by(l)) <= j,
                    before_pairs <= 32 * i,
                    32 * nl <= u32::MAX,
                decreases na - j,
            {
                let a = self.aliens[j];
                assert(alien_ok(aliens[j as int], self@.game_over));
                proof {
                    let sub = aliens.subrange(0, j + 1);
                    assert(sub.drop_last() =~= aliens.subrange(0, j as int));
                    assert(sub.last() == a);
                    assert(struck_by(l)(a) == strikes(l, a));
                }
                if !a.exploding && l.x >= a.x && l.x <= a.x + 4 && l.y >= a.y && l.y <= a.y + 2 {
                    alien_hit.set(j, true);
                    pairs = pairs + 1;
                    any = true;
                }
                proof {
                    if strikes(l, aliens[j as int]) {
                        assert(exists|jj: int| 0 <= jj < j + 1 && strikes(l, #[trigger] aliens[jj]));
                    }
                }
                j = j + 1;
            }
            proof {
                assert(aliens.subrange(0, na as int) =~= aliens);
                let sub = lasers.subrange(0, i + 1);
                assert(sub.drop_last() =~= lasers.subrange(0, i as int));
                assert(sub.last() == l);
                assert forall|jj: int| 0 <= jj < na implies #[trigger] alien_hit@[jj] == exists|k: int|
                    0 <= k < i + 1 && strikes(#[trigger] lasers[k], aliens[jj]) by {
                    if strikes(l, aliens[jj]) {
                        assert(strikes(lasers[i as int], aliens[jj]));
                    }
                    if exists|k: int| 0 <= k < i + 1 && strikes(#[trigger] lasers[k], aliens[jj]) {
                        let k = choose|k: int| 0 <= k < i + 1 && strikes(#[trigger] lasers[k], aliens[jj]);
                        if k < i {
                            assert(exists|k: int| 0 <= k < i && strikes(#[trigger] lasers[k], aliens[jj]));
                        }
                    }
                }
                if !any && l.y < 0 {
                    assert(!strikes_any(lasers[i as int], aliens) && lasers[i as int].y < 0);
                }
            }
            laser_hit.push(any);
            if !any && l.y < 0 {
                missed = true;
            }
            proof {
                assert forall|k: int| 0 <= k < i + 1 implies #[trigger] laser_hit@[k] == strikes_any(lasers[k], aliens) by {
                    if k == i {
                        assert(laser_hit@[k] == any);
                    }
                }
                if exists|k: int| 0 <= k < i + 1 && !strikes_any(#[trigger] lasers[k], aliens) && lasers[k].y < 0 {
                    let k = choose|k: int| 0 <= k < i + 1 && !strikes_any(#[trigger] lasers[k], aliens) && lasers[k].y < 0;
                    if k < i {
                        assert(exists|k: int| 0 <= k < i && !strikes_any(#[trigger] lasers[k], aliens) && lasers[k].y < 0);
                    }
                }
            }
            i = i + 1;
        }
        assert(lasers.subrange(0, nl as int) =~= lasers);
        (alien_hit, laser_hit, pairs, missed)
    }

    /// Lasers strike aliens (see `InvadersView::struck`).
    fn strike(&mut self)
        requires
            old(self)@.wf(),
            old(self)@.score + 320 * old(self)@.wave <= u32::MAX,
            old(self)@.consecutive_hits + 32 * old(self)@.player_lasers.len() <= u32::MAX,
        ensures
            final(self)@ == old(self)@.struck(),
            final(self)@.wf(),
    {
        let ghost pre = self@;
        let (alien_hit, laser_hit, pairs, missed) = self.find_strikes();
        if missed {
            self.consecutive_hits = 0;
        }
        if pairs > 0 {
            self.consecutive_hits = self.consecutive_hits + pairs;
            if self.consecutive_hits >= 10 && !self.laser_active {
                self.laser_active = true;
                self.laser_timer = 0;
                self.consecutive_hits = 0;
            }
        }
        let ghost mid = self@;
        let points = 10 * self.wave;
        let na = self.aliens.len();
        let mut j: usize = 0;
        assert(pre.aliens.subrange(0, 0) =~= Seq::<Alien>::empty());
        assert(count_where(pre.aliens.subrange(0, 0), struck_by_lasers(pre.player_lasers)) == 0);
        assert(0 * points == 0) by (nonlinear_arith);
        while j < na
            invariant
                na == pre.aliens.len(),
                na <= 32,
                j <= na,
                points == 10 * pre.wave,
                pre.score + 320 * pre.wave <= u32::MAX,
                mid == (InvadersView {
                    consecutive_hits: mid.consecutive_hits,
                    laser_active: mid.laser_active,
                    laser_timer: mid.laser_timer,
                    ..pre
                }),
                self@ == (InvadersView { aliens: self@.aliens, score: self@.score, ..mid }),
                alien_hit@.len() == na,
                forall|k: int| 0 <= k < na ==> #[trigger] alien_hit@[k] == struck_by_any(pre.aliens[k], pre.player_lasers),
                self@.aliens.len() == na,
                forall|k: int| 0 <= k < j ==> #[trigger] self@.aliens[k] == strike_effect(pre.player_lasers)(pre.aliens[k]),
                forall|k: int| j <= k < na ==> #[trigger] self@.aliens[k] == pre.aliens[k],
                self@.score == pre.score + count_where(pre.aliens.subrange(0, j as int), struck_by_lasers(pre.player_lasers)) * points,
                count_where(pre.aliens.subrange(0, j as int), struck_by_lasers(pre.player_lasers)) <= j,
            decreases na - j,
        {
            let a = self.aliens[j];
            proof {
                let sub = pre.aliens.subrange(0, j + 1);
                assert(sub.drop_last() =~= pre.aliens.subrange(0, j as int));
                assert(sub.last() == pre.aliens[j as int]);
                assert(struck_by_lasers(pre.player_lasers)(a) == struck_by_any(a, pre.player_lasers));
                assert(strike_effect(pre.player_lasers)(a) == if struck_by_any(a, pre.player_lasers) { blown(a) } else { a });
            }
            if alien_hit[j] {
                self.aliens.set(j, Alien { exploding: true, explosion_timer: 0, ..a });
                proof {
                    let c = count_where(pre.aliens.subrange(0, j as int), struck_by_lasers(pre.player_lasers));
                    let p = points as int;
                    assert((c + 1) * p == c * p + p) by (nonlinear_arith);
                    assert(c * p <= 31 * p) by (nonlinear_arith)
                        requires
                            c <= 31,
                            p >= 0,
                    ;
                }
                self.score = self.score + points;
            }
            j = j + 1;
        }
        let ghost lasers = pre.player_lasers;
        let nl = self.player_lasers.len();
        let mut kept: Vec<Laser> = Vec::new();
        let mut i: usize = 0;
        while i < nl
            invariant
                nl == lasers.len(),
                lasers == self@.player_lasers,
                laser_hit@.len() == nl,
                forall|k: int| 0 <= k < nl ==> #[trigger] laser_hit@[k] == strikes_any(lasers[k], pre.aliens),
                i <= nl,
                kept@ == lasers.subrange(0, i as int).filter(misses_all(pre.aliens)),
            decreases nl - i,
        {
            let l = self.player_lasers[i];
            proof {
                assert(misses_all(pre.aliens)(l) == !strikes_any(l, pre.aliens));
                lemma_filter_step(lasers, misses_all(pre.aliens), i as int);
            }
            if !laser_hit[i] {
                kept.push(l);
            }
            i = i + 1;
        }
        assert(lasers.subrange(0, nl as int) =~= lasers);
        self.player_lasers = kept;
        proof {
            assert(pre.aliens.subrange(0, na as int) =~= pre.aliens);
            let c = count_where(pre.aliens, struck_by_lasers(pre.player_lasers));
            assert(c * points == 10 * pre.wave * c) by (nonlinear_arith)
                requires
                    points == 10 * pre.wave,
            ;
            assert(self@.aliens =~= pre.aliens.map_values(strike_effect(pre.player_lasers)));
            assert forall|k: int| 0 <= k < self@.aliens.len() implies alien_ok(#[trigger] self@.aliens[k], self@.game_over) by {
                assert(alien_ok(pre.aliens[k], pre.game_over));
            }
            lemma_filter_all(lasers, misses_all(pre.aliens), |l: Laser| laser_ok(l));
        }
    }

    /// Explosions count a tick; aliens that have exploded for ten ticks go.
    fn explode(&mut self)
        requires
            old(self)@.wf(),
        ensures
            final(self)@ == old(self)@.exploded(),
            final(self)@.wf(),
    {
        let ghost pre = self@;
        let ghost aged_all = pre.aliens.map_values(age());
        let n = self.aliens.len();
        let mut kept: Vec<Alien> = Vec::new();
        let mut i: usize = 0;
        while i < n
            invariant
                n == pre.aliens.len(),
                self@ == pre,
                pre.wf(),
                aged_all == pre.aliens.map_values(age()),
                i <= n,
                kept@ == aged_all.subrange(0, i as int).filter(shown()),
            decreases n - i,
        {
            let a = self.aliens[i];
            assert(alien_ok(pre.aliens[i as int], pre.game_over));
            let b = if a.exploding {
                Alien { explosion_timer: a.explosion_timer + 1, ..a }
            } else {
                a
            };
            proof {
                assert(aged_all[i as int] == b);
                assert(shown()(b) == still_shown(b));
                lemma_filter_step(aged_all, shown(), i as int);
            }
            if !b.exploding || b.explosion_timer < 10 {
                kept.push(b);
            }
            i = i + 1;
        }
        assert(aged_all.subrange(0, n as int) =~= aged_all);
        self.aliens = kept;
        proof {
            assert forall|i: int| 0 <= i < aged_all.len() implies still_shown(#[trigger] aged_all[i]) ==> alien_ok(aged_all[i], pre.game_over) by {
                assert(alien_ok(pre.aliens[i], pre.game_over));
            }
            assert forall|k: int| 0 <= k < self@.aliens.len() implies alien_ok(#[trigger] self@.aliens[k], self@.game_over) by {
                lemma_filter_member(aged_all, shown(), k);
                let i = choose|i: int| 0 <= i < aged_all.len() && aged_all[i] == aged_all.filter(shown())[k];
                assert(still_shown(aged_all[i]) ==> alien_ok(aged_all[i], pre.game_over));
            }
            lemma_filter_len(aged_all, shown());
        }
    }

    /// Whether an active alien would touch a side after the formation's next move.
    fn formation_at_wall(&self) -> (r: bool)
        requires
            self@.wf(),
        ensures
            r == exists|j: int| 0 <= j < self@.aliens.len() && at_wall(#[trigger] self@.aliens[j], self@.alien_dir),
    {
        let n = self.aliens.len();
        let mut j: usize = 0;
        while j < n
            invariant
                n == self@.aliens.len(),
                self@.wf(),
                j <= n,
                forall|k: int| 0 <= k < j ==> !at_wall(#[trigger] self@.aliens[k], self@.alien_dir),
            decreases n - j,
        {
            let a = self.aliens[j];
            assert(alien_ok(self@.aliens[j as int], self@.game_over));
            if !a.exploding && (a.x + 2 * self.alien_dir <= 0 || a.x + 4 + 2 * self.alien_dir >= FIELD_W) {
                assert(at_wall(self@.aliens[j as int], self@.alien_dir));
                return true;
            }
            j = j + 1;
        }
        false
    }

    /// Moves the formation down a row (if `wall`) or sideways a cell.
    fn move_formation(&mut self, wall: bool)
        requires
            old(self)@.wf(),
            above_ship(old(self)@.aliens),
            wall == exists|j: int| 0 <= j < old(self)@.aliens.len() && at_wall(#[trigger] old(self)@.aliens[j], old(self)@.alien_dir),
        ensures
            ({
                let pre = old(self)@;
                if wall {
                    let aliens = pre.aliens.map_values(descend());
                    let lands = exists|j: int| 0 <= j < aliens.len() && landed(#[trigger] aliens[j]);
                    final(self)@ == (InvadersView {
                        alien_dir: (-pre.alien_dir) as i32,
                        aliens,
                        lives: if lands { 0 } else { pre.lives },
                        game_over: pre.game_over || lands,
                        ..pre
                    })
                } else {
                    final(self)@ == (InvadersView { aliens: pre.aliens.map_values(shift(pre.alien_dir)), ..pre })
                }
            }),
            final(self)@.wf(),
    {
        let ghost pre = self@;
        let n = self.aliens.len();
        if wall {
            self.alien_dir = -self.alien_dir;
            let ghost target = pre.aliens.map_values(descend());
            let mut j: usize = 0;
            while j < n
                invariant
                    n == pre.aliens.len(),
                    pre.wf(),
                    above_ship(pre.aliens),
                    target == pre.aliens.map_values(descend()),
                    j <= n,
                    self@.aliens.len() == n,
                    self@ == (InvadersView {
                        aliens: self@.aliens,
                        lives: self@.lives,
                        game_over: self@.game_over,
                        alien_dir: (-pre.alien_dir) as i32,
                        ..pre
                    }),
                    forall|k: int| 0 <= k < j ==> #[trigger] self@.aliens[k] == target[k],
                    forall|k: int| j <= k < n ==> #[trigger] self@.aliens[k] == pre.aliens[k],
                    self@.game_over == (pre.game_over || exists|k: int| 0 <= k < j && landed(#[trigger] target[k])),
                    self@.lives == if exists|k: int| 0 <= k < j && landed(#[trigger] target[k]) { 0 } else { pre.lives },
                decreases n - j,
            {
                let a = self.aliens[j];
                assert(alien_ok(pre.aliens[j as int], pre.game_over));
                if !a.exploding {
                    let b = Alien { y: a.y + 2, ..a };
                    self.aliens.set(j, b);
                    if b.y + 2 >= SHIP_Y {
                        self.lives = 0;
                        self.game_over = true;
                    }
                }
                proof {
                    assert(target[j as int] == descended(a));
                    if landed(target[j as int]) {
                        assert(exists|k: int| 0 <= k < j + 1 && landed(#[trigger] target[k]));
                    }
                    if exists|k: int| 0 <= k < j + 1 && landed(#[trigger] target[k]) {
                        let k = choose|k: int| 0 <= k < j + 1 && landed(#[trigger] target[k]);
                        if k < j {
                            assert(exists|k: int| 0 <= k < j && landed(#[trigger] target[k]));
                        }
                    }
                }
                j = j + 1;
            }
            proof {
                assert(self@.aliens =~= target);
                assert forall|k: int| 0 <= k < n implies alien_ok(#[trigger] self@.aliens[k], self@.game_over) by {
                    assert(alien_ok(pre.aliens[k], pre.game_over));
                    assert(pre.aliens[k].y < SHIP_Y);
                    if !self@.game_over {
                        assert(!landed(target[k]));
                    }
                }
            }
        } else {
            let ghost target = pre.aliens.map_values(shift(pre.alien_dir));
            let mut j: usize = 0;
            while j < n
                invariant
                    n == pre.aliens.len(),
                    pre.wf(),
                    target == pre.aliens.map_values(shift(pre.alien_dir)),
                    forall|k: int| 0 <= k < n ==> !at_wall(#[trigger] pre.aliens[k], pre.alien_dir),
                    j <= n,
                    self@.aliens.len() == n,
                    self@ == (InvadersView { aliens: self@.aliens, ..pre }),
                    forall|k: int| 0 <= k < j ==> #[trigger] self@.aliens[k] == target[k],
                    forall|k: int| j <= k < n ==> #[trigger] self@.aliens[k] == pre.aliens[k],
                decreases n - j,
            {
                let a = self.aliens[j];
                assert(alien_ok(pre.aliens[j as int], pre.game_over));
                assert(!at_wall(pre.aliens[j as int], pre.alien_dir));
                if !a.exploding {
                    self.aliens.set(j, Alien { x: a.x + 2 * self.alien_dir, ..a });
                }
                assert(target[j as int] == shifted(a, pre.alien_dir));
                j = j + 1;
            }
            proof {
                assert(self@.aliens =~= target);
                assert forall|k: int| 0 <= k < n implies alien_ok(#[trigger] self@.aliens[k], self@.game_over) by {
                    assert(alien_ok(pre.aliens[k], pre.game_over));
                    assert(!at_wall(pre.aliens[k], pre.alien_dir));
                }
            }
        }
    }

    /// The aliens not exploding, in order.
    fn active_aliens(&self) -> (r: Vec<Alien>)
        ensures
            r@ == self@.aliens.filter(active()),
    {
        let n = self.aliens.len();
        let mut out: Vec<Alien> = Vec::new();
        let mut i: usize = 0;
        while i < n
            invariant
                n == self@.aliens.len(),
                i <= n,
                out@ == self@.aliens.subrange(0, i as int).filter(active()),
            decreases n - i,
        {
            let a = self.aliens[i];
            proof {
                assert(active()(a) == !a.exploding);
                lemma_filter_step(self@.aliens, active(), i as int);
            }
            if !a.exploding {
                out.push(a);
            }
            i = i + 1;
        }
        assert(self@.aliens.subrange(0, n as int) =~= self@.aliens);
        out
    }

    /// The formation's clock ticks; true when it has reached the interval,
    /// and then it restarts.
    fn march_clock(&mut self) -> (due: bool)
        requires
            old(self)@.wf(),
        ensures
            due == (old(self)@.ticks_since_alien_move + 1 >= old(self)@.alien_speed),
            due ==> final(self)@ == (InvadersView { ticks_since_alien_move: 0, ..old(self)@ }),
            !due ==> final(self)@ == old(self)@.marched(0, 0),
            final(self)@.wf(),
    {
        self.ticks_since_alien_move = self.ticks_since_alien_move + 1;
        if self.ticks_since_alien_move < self.alien_speed {
            false
        } else {
            self.ticks_since_alien_move = 0;
            true
        }
    }

    /// The formation fires as `roll` and `pick` decide, `fighters` being
    /// its active aliens (see `InvadersView::aliens_fired`).
    fn aliens_fire(&mut self, fighters: &Vec<Alien>, roll: u32, pick: usize)
        requires
            old(self)@.wf(),
            15 + 2 * old(self)@.wave <= u32::MAX,
            fighters@ == old(self)@.aliens.filter(active()),
        ensures
            final(self)@ == old(self)@.aliens_fired(roll as nat, pick as nat),
            final(self)@.wf(),
    {
        let ghost pre = self@;
        let n = fighters.len();
        if n > 0 && roll < 15 + self.wave * 2 {
            let a = fighters[pick % n];
            proof {
                lemma_filter_member(pre.aliens, active(), (pick % n) as int);
                let i = choose|i: int| 0 <= i < pre.aliens.len() && pre.aliens[i] == pre.aliens.filter(active())[(pick % n) as int];
                assert(alien_ok(pre.aliens[i], pre.game_over));
            }
            self.alien_lasers.push(Shot { x: a.x + 2, y: a.y + 2 });
            proof {
                assert forall|k: int| 0 <= k < self@.alien_lasers.len() implies shot_ok(#[trigger] self@.alien_lasers[k]) by {
                    if k < pre.alien_lasers.len() {
                        assert(self@.alien_lasers[k] == pre.alien_lasers[k]);
                    }
                }
            }
        }
    }

    /// The formation's march with its fire drawn at random: whether an
    /// alien fires (a roll out of 100) and which of the active ones.
    fn march(&mut self)
        requires
            old(self)@.wf(),
            above_ship(old(self)@.aliens),
            15 + 2 * old(self)@.wave <= u32::MAX,
        ensures
            exists|roll: nat, pick: nat| roll < 100 && final(self)@ == old(self)@.marched(roll, pick),
            final(self)@.wf(),
    {
        let ghost pre = self@;
        if !self.march_clock() {
            return;
        }
        let wall = self.formation_at_wall();
        self.move_formation(wall);
        let fighters = self.active_aliens();
        let mut roll: u32 = 0;
        let mut pick: usize = 0;
        if fighters.len() > 0 {
            roll = random_below(100) as u32;
            if roll < 15 + self.wave * 2 {
                pick = random_below(fighters.len());
            }
        }
        self.aliens_fire(&fighters, roll, pick);
        assert(self@ == pre.marched(roll as nat, pick as nat));
    }

    /// The formation's march with the fire decided by `roll` and `pick`.
    fn march_with(&mut self, roll: u32, pick: usize)
        requires
            old(self)@.wf(),
            above_ship(old(self)@.aliens),
            15 + 2 * old(self)@.wave <= u32::MAX,
        ensures
            final(self)@ == old(self)@.marched(roll as nat, pick as nat),
            final(self)@.wf(),
    {
        if !self.march_clock() {
            return;
        }
        let wall = self.formation_at_wall();
        self.move_formation(wall);
        let fighters = self.active_aliens();
        self.aliens_fire(&fighters, roll, pick);
    }

    /// Everything a tick does before the formation's march; `None` when
    /// the march is still to come, else what the tick returns.
    fn advance(&mut self, input: Option<Input>) -> (r: Option<GameState>)
        requires
            old(self)@.wf(),
            old(self)@.can_tick(input),
        ensures
            final(self)@.wf(),
            match r {
                Some(st) => forall|roll: nat, pick: nat|
                    #[trigger] old(self)@.ticked(input, roll, pick) == (final(self)@, st),
                None => {
                    &&& above_ship(final(self)@.aliens)
                    &&& 15 + 2 * final(self)@.wave <= u32::MAX
                    &&& forall|roll: nat, pick: nat|
                        #[trigger] old(self)@.ticked(input, roll, pick) == (final(self)@.marched(roll, pick), GameState::Running)
                },
            },
    {
        match input {
            Some(Input::Quit) => {
                return Some(GameState::QuitToShell);
            },
            Some(Input::Action) => {
                if self.game_over {
                    return Some(GameState::GameOver { score: self.score });
                }
            },
            _ => {},
        }
        let shoot = self.steer(input);
        self.fire(shoot);
        if self.game_over {
            return Some(GameState::Running);
        }
        let ghost fired = self@;
        proof {
            lemma_count_le(fired.aliens, beam_pred(fired.ship_x));
        }
        self.cool();
        self.beam();
        proof {
            let c = count_where(fired.aliens, beam_pred(fired.ship_x));
            let wv = fired.wave as int;
            assert(10 * wv * c <= 320 * wv) by (nonlinear_arith)
                requires
                    c <= 32,
                    wv >= 0,
            ;
        }
        self.fly_lasers();
        proof {
            lemma_filter_len(fired.player_lasers.map_values(fly()), laser_kept());
        }
        self.fall_shots();
        let ghost before_intercept = self@;
        self.intercept();
        proof {
            lemma_filter_len(before_intercept.player_lasers, clear_of_shots(before_intercept.alien_lasers));
        }
        self.strike();
        self.explode();
        let ghost w = self@;
        assert(w == fired.cooled().beamed().lasers_flown().shots_fallen().intercepted().struck().exploded());
        proof {
            lemma_phases_keep_heights(fired);
        }
        if self.aliens.len() == 0 {
            self.wave = self.wave + 1;
            self.init_wave();
            proof {
                lemma_formation_ok(self@.game_over);
            }
            return Some(GameState::Running);
        }
        None
    }

    /// Advances the game by one tick, handling at most one input (see
    /// `InvadersView::ticked`). Whether an alien fires, and which, is
    /// drawn at random.
    pub fn tick(&mut self, input: Option<Input>) -> (r: GameState)
        requires
            old(self)@.wf(),
            old(self)@.can_tick(input),
        ensures
            final(self)@.wf(),
            exists|roll: nat, pick: nat| roll < 100 && (final(self)@, r) == old(self)@.ticked(input, roll, pick),
    {
        let ghost pre = self@;
        match self.advance(input) {
            Some(st) => {
                assert(pre.ticked(input, 0, 0) == (self@, st));
                st
            },
            None => {
                let ghost w = self@;
                self.march();
                proof {
                    let (roll, pick) = choose|roll: nat, pick: nat| roll < 100 && self@ == w.marched(roll, pick);
                    assert(pre.ticked(input, roll, pick) == (w.marched(roll, pick), GameState::Running));
                }
                GameState::Running
            },
        }
    }

    /// One tick as `tick` makes it, with the formation's fire decided by
    /// `roll` (an alien fires when it is under 15 plus twice the wave) and
    /// `pick` (which active alien, modulo their number).
    pub fn tick_with(&mut self, input: Option<Input>, roll: u32, pick: usize) -> (r: GameState)
        requires
            old(self)@.wf(),
            old(self)@.can_tick(input),
        ensures
            final(self)@.wf(),
            (final(self)@, r) == old(self)@.ticked(input, roll as nat, pick as nat),
    {
        let ghost pre = self@;
        match self.advance(input) {
            Some(st) => {
                assert(pre.ticked(input, roll as nat, pick as nat) == (self@, st));
                st
            },
            None => {
                let ghost w = self@;
                self.march_with(roll, pick);
                assert(pre.ticked(input, roll as nat, pick as nat) == (w.marched(roll as nat, pick as nat), GameState::Running));
                GameState::Running
            },
        }
    }

    /// The game's name as the score file records it.
    pub fn name(&self) -> (r: &'static str)
        ensures
            r@ == "Space Invaders"@,
    {
        "Space Invaders"
    }

    /// Starts over with a fresh game.
    pub fn reset(&mut self)
        ensures
            final(self)@ == InvadersView::initial(),
            final(self)@.wf(),
    {
        *self = SpaceInvadersGame::new();
    }

    /// Whether no counter can overflow during a tick with this input (see
    /// `InvadersView::can_tick`).
    pub fn can_tick(&self, input: Option<Input>) -> (r: bool)
        ensures
            r == self@.can_tick(input),
    {
        let n: usize = self.player_lasers.len();
        let acts = match input {
            Some(Input::Quit) => false,
            Some(Input::Action) => !self.game_over,
            _ => true,
        };
        (!(acts && self.ship_cooldown == 0 && !self.laser_active) || self.shots_fired < u32::MAX) && (!(acts
            && !self.game_over) || (self.score as u64 + 640 * self.wave as u64 <= u32::MAX as u64 && n < 0x1000_0000
            && self.consecutive_hits as u64 + 32 * (n as u64 + 1) <= u32::MAX as u64))
    }

    /// The ship's left edge, in half cells.
    pub fn ship_x(&self) -> (r: i32)
        ensures
            r == self@.ship_x,
    {
        self.ship_x
    }

    pub fn player_lasers(&self) -> (r: Vec<Laser>)
        ensures
            r@ == self@.player_lasers,
    {
        self.player_lasers.clone()
    }

    pub fn alien_lasers(&self) -> (r: Vec<Shot>)
        ensures
            r@ == self@.alien_lasers,
    {
        self.alien_lasers.clone()
    }

    pub fn aliens(&self) -> (r: Vec<Alien>)
        ensures
            r@ == self@.aliens,
    {
        self.aliens.clone()
    }

    pub fn score(&self) -> (r: u32)
        ensures
            r == self@.score,
    {
        self.score
    }

    pub fn wave(&self) -> (r: u32)
        ensures
            r == self@.wave,
    {
        self.wave
    }

    pub fn lives(&self) -> (r: u32)
        ensures
            r == self@.lives,
    {
        self.lives
    }

    pub fn is_game_over(&self) -> (r: bool)
        ensures
            r == self@.game_over,
    {
        self.game_over
    }

    /// Aliens struck since the last miss.
    pub fn consecutive_hits(&self) -> (r: u32)
        ensures
            r == self@.consecutive_hits,
    {
        self.consecutive_hits
    }

    /// Whether the beam is firing, and for how many ticks it has been.
    pub fn beam_state(&self) -> (r: (bool, u32))
        ensures
            r == (self@.laser_active, self@.laser_timer),
    {
        (self.laser_active, self.laser_timer)
    }

    /// The difficulty shown for the wave: Easy for waves 1 and 2, Medium
    /// for 3 and 4, Hard for 5 to 7, Expert beyond.
    pub fn difficulty(&self) -> (r: Difficulty)
        ensures
            r == if 1 <= self@.wave <= 2 {
                Difficulty::Easy
            } else if 3 <= self@.wave <= 4 {
                Difficulty::Medium
            } else if 5 <= self@.wave <= 7 {
                Difficulty::Hard
            } else {
                Difficulty::Expert
            },
    {
        if 1 <= self.wave && self.wave <= 2 {
            Difficulty::Easy
        } else if 3 <= self.wave && self.wave <= 4 {
            Difficulty::Medium
        } else if 5 <= self.wave && self.wave <= 7 {
            Difficulty::Hard
        } else {
            Difficulty::Expert
        }
    }

    /// Fires a laser if asked to or firing by itself, once cooled down and
    /// while the beam is off.
    fn fire(&mut self, shoot: bool)
        requires
            old(self)@.wf(),
            old(self)@.ship_cooldown == 0 && !old(self)@.laser_active ==> old(self)@.shots_fired < u32::MAX,
        ensures
            final(self)@ == old(self)@.fired(shoot),
            final(self)@.wf(),
    {
        let ghost pre = self@;
        let mut shoot = shoot;
        if self.auto_shoot && self.ship_cooldown == 0 && !self.laser_active {
            shoot = true;
        }
        if shoot && self.ship_cooldown == 0 && !self.laser_active {
            self.player_lasers.push(Laser { x: self.ship_x + 1, y: SHIP_Y - 2, vx: self.ship_vx });
            self.ship_cooldown = 5;
            self.shots_fired = self.shots_fired + 1;
            proof {
                let ls = self@.player_lasers;
                assert forall|i: int| 0 <= i < ls.len() implies laser_ok(#[trigger] ls[i]) by {
                    if i < ls.len() - 1 {
                        assert(ls[i] == pre.player_lasers[i]);
                    }
                }
                assert(self@.aliens == pre.aliens);
                assert(self@.alien_lasers == pre.alien_lasers);
                assert(self@.wf());
            }
        }
    }
}


/// Once the game is over it stays over, and nothing but the ship (which
/// still moves and fires) changes: not the aliens, the alien shots, the
/// score, the wave or the lives.
pub proof fn lemma_game_over_freezes(v: InvadersView, input: Option<Input>, roll: nat, pick: nat)
    requires
        v.wf(),
        v.game_over,
    ensures
        ({
            let w = v.ticked(input, roll, pick).0;
            &&& w.game_over
            &&& w.aliens == v.aliens
            &&& w.alien_lasers == v.alien_lasers
            &&& w.score == v.score
            &&& w.wave == v.wave
            &&& w.lives == v.lives
        }),
{
}

/// A tick never lowers the score, never adds a life, and never leaves the
/// wave behind.
pub proof fn lemma_score_and_lives(v: InvadersView, input: Option<Input>, roll: nat, pick: nat)
    requires
        v.wf(),
        v.can_tick(input),
    ensures
        ({
            let w = v.ticked(input, roll, pick).0;
            &&& v.score <= w.score
            &&& w.lives <= v.lives
            &&& v.wave <= w.wave <= v.wave + 1
        }),
{
    if input != Some(Input::Quit) && !(input == Some(Input::Action) && v.game_over) {
        let f = v.steered(input).0.fired(v.steered(input).1);
        if !f.game_over {
            let c = f.cooled();
            lemma_count_le(c.aliens, beam_pred(c.ship_x));
            let n1 = count_where(c.aliens, beam_pred(c.ship_x));
            let wv = c.wave as int;
            assert(10 * wv * n1 <= 320 * wv) by (nonlinear_arith)
                requires
                    n1 <= 32,
                    wv >= 0,
            ;
            let b = c.beamed();
            let t = b.lasers_flown().shots_fallen();
            lemma_shots_fall_lives(b.alien_lasers, b.ship_x, b.lives, b.game_over);
            let i = t.intercepted();
            assert(i.aliens.len() <= 32) by {
                assert(b.aliens.len() == c.aliens.len());
            }
            lemma_count_le(i.aliens, struck_by_lasers(i.player_lasers));
            let n2 = count_where(i.aliens, struck_by_lasers(i.player_lasers));
            assert(10 * wv * n2 <= 320 * wv) by (nonlinear_arith)
                requires
                    n2 <= 32,
                    wv >= 0,
            ;
        }
    }
}

proof fn lemma_shots_fall_lives(shots: Seq<Shot>, ship_x: i32, lives: u32, over: bool)
    ensures
        shots_fall(shots, ship_x, lives, over).1 <= lives,
    decreases shots.len(),
{
    if shots.len() > 0 {
        lemma_shots_fall_lives(shots.drop_last(), ship_x, lives, over);
    }
}

/// Q or Esc returns to the shell at once, whatever the state, and leaves
/// the game as it was.
pub proof fn lemma_quit_returns_to_shell(v: InvadersView, roll: nat, pick: nat)
    ensures
        v.ticked(Some(Input::Quit), roll, pick) == (v, GameState::QuitToShell),
{
}


/// How many of the alien shots meet the ship at `ship_x` as they fall
/// half a cell: those that come to the ship's row or the one below, within
/// the ship's width.
pub open spec fn shots_on_ship(shots: Seq<Shot>, ship_x: i32) -> nat
    decreases shots.len(),
{
    if shots.len() == 0 {
        0
    } else {
        let s = shots.last();
        shots_on_ship(shots.drop_last(), ship_x) + if SHIP_Y <= s.y + 1 <= SHIP_Y + 2 && ship_x <= s.x <= ship_x
            + 4 {
            1nat
        } else {
            0nat
        }
    }
}

/// Every alien shot that meets the ship costs a life, down to none, and
/// the game ends once a hit leaves no life.
pub proof fn lemma_falling_shots_cost_lives(shots: Seq<Shot>, ship_x: i32, lives: u32, over: bool)
    ensures
        ({
            let (_, l, o) = shots_fall(shots, ship_x, lives, over);
            let h = shots_on_ship(shots, ship_x);
            &&& l == if lives >= h { lives - h } else { 0 }
            &&& o == (over || (h > 0 && lives <= h))
        }),
    decreases shots.len(),
{
    if shots.len() > 0 {
        lemma_falling_shots_cost_lives(shots.drop_last(), ship_x, lives, over);
    }
}

/// In a tick of a running game, the ship (where the tick leaves it) loses
/// one life for each alien shot that falls onto it, down to none, unless
/// the formation lands and takes every life; once no life is left the
/// game is over.
pub proof fn lemma_shots_on_ship_cost_lives(v: InvadersView, input: Option<Input>, roll: nat, pick: nat)
    requires
        v.wf(),
        v.acts(input),
        !v.game_over,
    ensures
        ({
            let w = v.ticked(input, roll, pick).0;
            let h = shots_on_ship(v.alien_lasers, w.ship_x);
            &&& w.lives == (if v.lives >= h { v.lives - h } else { 0 }) || w.lives == 0
            &&& (h > 0 && v.lives <= h) ==> w.game_over
        }),
{
    let (st, shoot) = v.steered(input);
    let f = st.fired(shoot);
    let c = f.cooled().beamed().lasers_flown();
    assert(c.alien_lasers == v.alien_lasers && c.ship_x == st.ship_x && c.lives == v.lives && !c.game_over);
    lemma_falling_shots_cost_lives(c.alien_lasers, c.ship_x, c.lives, c.game_over);
    let e = c.shots_fallen().intercepted().struck().exploded();
    assert(e.ship_x == st.ship_x && e.lives == c.shots_fallen().lives && e.game_over == c.shots_fallen().game_over);
    if e.aliens.len() == 0 {
        assert(v.ticked(input, roll, pick).0 == e.next_wave());
    } else {
        assert(v.ticked(input, roll, pick).0 == e.marched(roll, pick));
        let m = InvadersView { ticks_since_alien_move: 0, ..e }.formation_moved();
        assert(m.ship_x == e.ship_x);
        assert(m.lives == e.lives || m.lives == 0);
        assert(e.game_over ==> m.game_over);
    }
}


/// How many of the aliens, not already exploding, some laser touches: a
/// laser touches an alien when it lies within the alien's three cells of
/// width and its row or the half row below.
pub open spec fn aliens_touched(aliens: Seq<Alien>, lasers: Seq<Laser>) -> nat
    decreases aliens.len(),
{
    if aliens.len() == 0 {
        0
    } else {
        let a = aliens.last();
        aliens_touched(aliens.drop_last(), lasers) + if !a.exploding && exists|i: int|
            0 <= i < lasers.len() && a.x <= (#[trigger] lasers[i]).x <= a.x + 4 && a.y <= lasers[i].y <= a.y + 2 {
            1nat
        } else {
            0nat
        }
    }
}

/// How many of the aliens, not already exploding, lie under the beam from
/// the middle of the ship at `ship_x`.
pub open spec fn aliens_under_beam(aliens: Seq<Alien>, ship_x: i32) -> nat
    decreases aliens.len(),
{
    if aliens.len() == 0 {
        0
    } else {
        let a = aliens.last();
        aliens_under_beam(aliens.drop_last(), ship_x) + if !a.exploding && a.x <= ship_x + 1 <= a.x + 4 {
            1nat
        } else {
            0nat
        }
    }
}

proof fn lemma_touched_counts(aliens: Seq<Alien>, lasers: Seq<Laser>, ship_x: i32)
    ensures
        aliens_touched(aliens, lasers) == count_where(aliens, struck_by_lasers(lasers)),
        aliens_under_beam(aliens, ship_x) == count_where(aliens, beam_pred(ship_x)),
    decreases aliens.len(),
{
    if aliens.len() > 0 {
        lemma_touched_counts(aliens.drop_last(), lasers, ship_x);
        let a = aliens.last();
        assert(struck_by_lasers(lasers)(a) == struck_by_any(a, lasers));
        if struck_by_any(a, lasers) {
            let i = choose|i: int| 0 <= i < lasers.len() && strikes(#[trigger] lasers[i], a);
            assert(a.x <= lasers[i].x <= a.x + 4 && a.y <= lasers[i].y <= a.y + 2);
        }
        if !a.exploding && exists|i: int|
            0 <= i < lasers.len() && a.x <= (#[trigger] lasers[i]).x <= a.x + 4 && a.y <= lasers[i].y <= a.y + 2 {
            let i = choose|i: int|
                0 <= i < lasers.len() && a.x <= (#[trigger] lasers[i]).x <= a.x + 4 && a.y <= lasers[i].y <= a.y + 2;
            assert(strikes(lasers[i], a));
        }
    }
}

/// Every alien that the lasers or the beam blow up scores ten points per
/// wave; blown up, it starts exploding, and the lasers that touch aliens
/// are spent.
pub proof fn lemma_blown_aliens_score(v: InvadersView)
    requires
        v.score + 640 * v.wave <= u32::MAX,
        v.aliens.len() <= 32,
    ensures
        v.struck().score == v.score + 10 * v.wave * aliens_touched(v.aliens, v.player_lasers),
        v.laser_active ==> v.beamed().score == v.score + 10 * v.wave * aliens_under_beam(v.aliens, v.ship_x),
        !v.laser_active ==> v.beamed().score == v.score,
        v.struck().aliens.len() == v.aliens.len(),
        forall|j: int|
            0 <= j < v.aliens.len() && !v.aliens[j].exploding && (exists|i: int|
                0 <= i < v.player_lasers.len() && v.aliens[j].x <= (#[trigger] v.player_lasers[i]).x <= v.aliens[j].x
                    + 4 && v.aliens[j].y <= v.player_lasers[i].y <= v.aliens[j].y + 2) ==> (#[trigger] v.struck().aliens[j]).exploding,
{
    lemma_touched_counts(v.aliens, v.player_lasers, v.ship_x);
    lemma_count_le(v.aliens, struck_by_lasers(v.player_lasers));
    lemma_count_le(v.aliens, beam_pred(v.ship_x));
    let n1 = count_where(v.aliens, struck_by_lasers(v.player_lasers));
    let n2 = count_where(v.aliens, beam_pred(v.ship_x));
    let wv = v.wave as int;
    assert(10 * wv * n1 <= 320 * wv) by (nonlinear_arith)
        requires
            n1 <= 32,
            wv >= 0,
    ;
    assert(10 * wv * n2 <= 320 * wv) by (nonlinear_arith)
        requires
            n2 <= 32,
            wv >= 0,
    ;
    assert forall|j: int|
        0 <= j < v.aliens.len() && !v.aliens[j].exploding && (exists|i: int|
            0 <= i < v.player_lasers.len() && v.aliens[j].x <= (#[trigger] v.player_lasers[i]).x <= v.aliens[j].x + 4
                && v.aliens[j].y <= v.player_lasers[i].y <= v.aliens[j].y + 2) implies (#[trigger] v.struck().aliens[j]).exploding by {
        let a = v.aliens[j];
        let i = choose|i: int|
            0 <= i < v.player_lasers.len() && a.x <= (#[trigger] v.player_lasers[i]).x <= a.x + 4 && a.y
                <= v.player_lasers[i].y <= a.y + 2;
        assert(strikes(v.player_lasers[i], a));
        assert(struck_by_any(a, v.player_lasers));
    }
}

/// The formation moves every 15 minus the wave ticks, but never more often
/// than every other tick; at each move an alien fires when the roll (out
/// of 100) is below 15 plus twice the wave and an alien is not exploding,
/// from below the middle of such an alien, and no shot comes otherwise.
pub proof fn lemma_formation_pace_and_fire(v: InvadersView, roll: nat, pick: nat, wave: u32)
    ensures
        wave < 13 ==> march_interval(wave) == 15 - wave,
        wave >= 13 ==> march_interval(wave) == 2,
        ({
            let w = v.aliens_fired(roll, pick);
            let armed = exists|j: int| 0 <= j < v.aliens.len() && !(#[trigger] v.aliens[j]).exploding;
            &&& w.aliens == v.aliens
            &&& if armed && roll < 15 + 2 * v.wave {
                &&& w.alien_lasers.len() == v.alien_lasers.len() + 1
                &&& w.alien_lasers.subrange(0, v.alien_lasers.len() as int) == v.alien_lasers
                &&& exists|j: int|
                    0 <= j < v.aliens.len() && !(#[trigger] v.aliens[j]).exploding && w.alien_lasers.last() == (Shot {
                        x: (v.aliens[j].x + 2) as i32,
                        y: (v.aliens[j].y + 2) as i32,
                    })
            } else {
                w.alien_lasers == v.alien_lasers
            }
        }),
{
    let act = v.aliens.filter(active());
    let armed = exists|j: int| 0 <= j < v.aliens.len() && !(#[trigger] v.aliens[j]).exploding;
    if armed {
        let j = choose|j: int| 0 <= j < v.aliens.len() && !(#[trigger] v.aliens[j]).exploding;
        assert(active()(v.aliens[j]));
        v.aliens.lemma_filter_contains(active(), j);
    }
    if act.len() > 0 {
        let k = (pick % act.len()) as int;
        lemma_filter_member(v.aliens, active(), k);
        if !armed {
            let j = choose|j: int| 0 <= j < v.aliens.len() && v.aliens[j] == act[k];
            assert(!v.aliens[j].exploding);
        }
    }
    let w = v.aliens_fired(roll, pick);
    if act.len() > 0 && roll < 15 + 2 * v.wave {
        assert(w.alien_lasers.subrange(0, v.alien_lasers.len() as int) =~= v.alien_lasers);
    }
}


/// Left and Right move the ship a cell (two half cells) within the field,
/// from column 0 to column 76, and give it the speed it moved at; any
/// other input stops it. The ship fires when asked (Action, or Up while
/// the game goes on) or firing by itself, once its cannon is cool and the
/// beam off: a laser rises from its middle, two half cells above its row,
/// carrying its speed, and the cannon needs five ticks to cool.
pub proof fn lemma_ship_moves_and_fires(v: InvadersView, input: Option<Input>)
    requires
        v.wf(),
    ensures
        ({
            let (s, shoot) = v.steered(input);
            let f = s.fired(shoot);
            &&& input == Some(Input::Left) ==> s.ship_x == (if v.ship_x >= 2 { v.ship_x - 2 } else { 0 }) && s.ship_vx == (
            if v.ship_x >= 2 { -1int } else { 0 })
            &&& input == Some(Input::Right) ==> s.ship_x == (if v.ship_x <= 74 { v.ship_x + 2 } else { 76 })
                && s.ship_vx == (if v.ship_x <= 74 { 1int } else { 0 })
            &&& input != Some(Input::Left) && input != Some(Input::Right) ==> s.ship_x == v.ship_x && s.ship_vx == 0
            &&& shoot == (input == Some(Input::Action) || (input == Some(Input::Up) && !v.game_over))
            &&& if (shoot || v.auto_shoot) && v.ship_cooldown == 0 && !v.laser_active {
                &&& f.player_lasers == v.player_lasers.push(Laser { x: (s.ship_x + 1) as i32, y: 34, vx: s.ship_vx })
                &&& f.ship_cooldown == 5
            } else {
                f.player_lasers == v.player_lasers && f.ship_cooldown == v.ship_cooldown
            }
        }),
{
}


/// The combo: while no laser has left the field, each (laser, alien) hit
/// adds one to it; with the beam off, reaching ten starts the beam (for
/// its first tick) and restarts the count. A laser that leaves the field
/// without a hit resets it.
pub proof fn lemma_combo_starts_beam(v: InvadersView)
    requires
        v.consecutive_hits + strike_pairs(v.player_lasers, v.aliens) <= u32::MAX,
    ensures
        ({
            let w = v.struck();
            let pairs = strike_pairs(v.player_lasers, v.aliens);
            &&& (forall|i: int| 0 <= i < v.player_lasers.len() ==> (#[trigger] v.player_lasers[i]).y >= 0) ==> {
                if !v.laser_active && pairs > 0 && v.consecutive_hits + pairs >= 10 {
                    w.laser_active && w.laser_timer == 0 && w.consecutive_hits == 0
                } else {
                    &&& w.laser_active == v.laser_active
                    &&& w.laser_timer == v.laser_timer
                    &&& w.consecutive_hits == v.consecutive_hits + pairs
                }
            }
            &&& (pairs == 0 && exists|i: int|
                0 <= i < v.player_lasers.len() && (#[trigger] v.player_lasers[i]).y < 0) ==> w.consecutive_hits == 0
        }),
{
    let w = v.struck();
    let pairs = strike_pairs(v.player_lasers, v.aliens);
    if pairs == 0 && exists|i: int| 0 <= i < v.player_lasers.len() && (#[trigger] v.player_lasers[i]).y < 0 {
        let i = choose|i: int| 0 <= i < v.player_lasers.len() && (#[trigger] v.player_lasers[i]).y < 0;
        lemma_no_pairs_no_strike(v.player_lasers, v.aliens, i);
    }
}

proof fn lemma_no_pairs_no_strike(lasers: Seq<Laser>, aliens: Seq<Alien>, i: int)
    requires
        0 <= i < lasers.len(),
        strike_pairs(lasers, aliens) == 0,
    ensures
        !strikes_any(lasers[i], aliens),
    decreases lasers.len(),
{
    if i < lasers.len() - 1 {
        assert(lasers.drop_last()[i] == lasers[i]);
        lemma_no_pairs_no_strike(lasers.drop_last(), aliens, i);
    } else {
        if strikes_any(lasers[i], aliens) {
            let j = choose|j: int| 0 <= j < aliens.len() && strikes(lasers[i], #[trigger] aliens[j]);
            lemma_count_positive(aliens, struck_by(lasers[i]), j);
        }
    }
}

proof fn lemma_count_positive(s: Seq<Alien>, f: spec_fn(Alien) -> bool, j: int)
    requires
        0 <= j < s.len(),
        f(s[j]),
    ensures
        count_where(s, f) > 0,
    decreases s.len(),
{
    if j < s.len() - 1 {
        assert(s.drop_last()[j] == s[j]);
        lemma_count_positive(s.drop_last(), f, j);
    }
}

} // verus!
