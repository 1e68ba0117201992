use sorb::easter_eggs::engine::game::{Difficulty, GameState, Input};
use sorb::easter_eggs::games::space_invaders::{march_interval_for, Alien, Laser, Shot, SpaceInvadersGame};

/// Runs `n` ticks without input in which no alien fires.
fn quiet_ticks(g: &mut SpaceInvadersGame, n: usize) {
    for _ in 0..n {
        assert_eq!(g.tick_with(None, 99, 0), GameState::Running);
    }
}

#[test]
fn a_new_game() {
    let g = SpaceInvadersGame::new();
    assert_eq!(g.name(), "Space Invaders");
    assert_eq!(g.ship_x(), 40);
    assert_eq!(g.score(), 0);
    assert_eq!(g.wave(), 1);
    assert_eq!(g.lives(), 3);
    assert!(!g.is_game_over());
    assert_eq!(g.difficulty(), Difficulty::Easy);
    assert_eq!(g.beam_state(), (false, 0));
    let aliens = g.aliens();
    assert_eq!(aliens.len(), 32);
    assert_eq!(aliens[0], Alien { x: 10, y: 4, exploding: false, explosion_timer: 0 });
    assert_eq!(aliens[31], Alien { x: 52, y: 16, exploding: false, explosion_timer: 0 });
    assert!(g.player_lasers().is_empty());
    assert!(g.alien_lasers().is_empty());
}

#[test]
fn the_formation_speeds_up_with_each_wave() {
    assert_eq!(march_interval_for(1), 14);
    assert_eq!(march_interval_for(12), 3);
    assert_eq!(march_interval_for(13), 2);
    assert_eq!(march_interval_for(1000), 2);
}

#[test]
fn the_ship_fires_by_itself() {
    let mut g = SpaceInvadersGame::new();
    quiet_ticks(&mut g, 1);
    assert_eq!(g.player_lasers(), vec![Laser { x: 41, y: 32, vx: 0 }]);
    // The cannon cools down for five ticks.
    quiet_ticks(&mut g, 4);
    assert_eq!(g.player_lasers().len(), 1);
    quiet_ticks(&mut g, 1);
    assert_eq!(g.player_lasers().len(), 2);
}

#[test]
fn moving_ship_lasers_drift() {
    let mut g = SpaceInvadersGame::new();
    assert_eq!(g.tick_with(Some(Input::Left), 99, 0), GameState::Running);
    assert_eq!(g.ship_x(), 38);
    assert_eq!(g.player_lasers(), vec![Laser { x: 38, y: 32, vx: -1 }]);
    g.tick_with(Some(Input::Right), 99, 0);
    g.tick_with(Some(Input::Right), 99, 0);
    assert_eq!(g.ship_x(), 42);
}

#[test]
fn the_ship_stays_on_the_field() {
    let mut g = SpaceInvadersGame::new();
    for _ in 0..30 {
        g.tick_with(Some(Input::Left), 99, 0);
    }
    assert_eq!(g.ship_x(), 0);
    let mut g = SpaceInvadersGame::new();
    for _ in 0..30 {
        g.tick_with(Some(Input::Right), 99, 0);
    }
    assert_eq!(g.ship_x(), 76);
}

#[test]
fn a_laser_blows_up_the_alien_above() {
    let mut g = SpaceInvadersGame::new();
    quiet_ticks(&mut g, 7);
    assert_eq!(g.score(), 0);
    quiet_ticks(&mut g, 1);
    assert_eq!(g.score(), 10);
    assert_eq!(g.consecutive_hits(), 1);
    let a = g.aliens()[29];
    assert!(a.exploding);
    assert_eq!((a.x, a.y), (40, 16));
    // The explosion lasts ten ticks, then the alien is gone.
    quiet_ticks(&mut g, 8);
    assert_eq!(g.aliens().len(), 32);
    quiet_ticks(&mut g, 1);
    assert_eq!(g.aliens().len(), 31);
}

#[test]
fn the_formation_marches_and_fires() {
    let mut g = SpaceInvadersGame::new();
    quiet_ticks(&mut g, 13);
    assert_eq!(g.aliens()[0].x, 10);
    assert!(g.alien_lasers().is_empty());
    // A roll under 17 on wave 1 makes the first active alien fire.
    g.tick_with(None, 16, 0);
    assert_eq!(g.aliens()[0].x, 12);
    assert_eq!(g.alien_lasers(), vec![Shot { x: 14, y: 6 }]);
    // The shot falls half a cell per tick.
    quiet_ticks(&mut g, 1);
    assert_eq!(g.alien_lasers(), vec![Shot { x: 14, y: 7 }]);
}

#[test]
fn a_high_roll_holds_fire() {
    let mut g = SpaceInvadersGame::new();
    quiet_ticks(&mut g, 13);
    g.tick_with(None, 17, 0);
    assert_eq!(g.aliens()[0].x, 12);
    assert!(g.alien_lasers().is_empty());
}

#[test]
fn random_ticks_keep_the_game_consistent() {
    let mut g = SpaceInvadersGame::new();
    for _ in 0..200 {
        assert!(g.can_tick(None));
        let before = g.score();
        g.tick(None);
        assert!(g.score() >= before);
        assert!(g.lives() <= 3);
        assert!(g.ship_x() >= 0 && g.ship_x() <= 76);
    }
}

#[test]
fn quit_and_game_over() {
    let mut g = SpaceInvadersGame::new();
    assert_eq!(g.tick_with(Some(Input::Quit), 0, 0), GameState::QuitToShell);
    assert!(g.player_lasers().is_empty());
    g.reset();
    assert_eq!(g.score(), 0);
}
