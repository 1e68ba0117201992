use sorb::easter_eggs::engine::game::{GameState, Input};
use sorb::easter_eggs::games::snake::{Direction, SnakeGame};

/// A new 40 x 20 game with the food moved to the free cell at `pick`.
fn game_with_food_at(pick: usize) -> SnakeGame {
    let mut g = SnakeGame::new(None);
    g.place_food(pick);
    g
}

#[test]
fn opposite_directions() {
    assert_eq!(Direction::Up.opposite(), Direction::Down);
    assert_eq!(Direction::Down.opposite(), Direction::Up);
    assert_eq!(Direction::Left.opposite(), Direction::Right);
    assert_eq!(Direction::Right.opposite(), Direction::Left);
}

#[test]
fn a_new_game_starts_in_the_middle_heading_right() {
    let g = SnakeGame::new(None);
    assert_eq!(g.name(), "Snake");
    assert_eq!(g.size(), (40, 20));
    assert_eq!(g.body(), vec![(20, 10), (19, 10), (18, 10)]);
    assert_eq!(g.direction(), Direction::Right);
    assert_eq!(g.score(), 0);
    assert!(!g.is_game_over());
    let food = g.food();
    assert!(food.0 < 40 && food.1 < 20);
    assert!(!g.body().contains(&food));
}

#[test]
fn a_new_game_follows_the_terminal() {
    let g = SnakeGame::new(Some((80, 24)));
    assert_eq!(g.size(), (39, 16));
    assert_eq!(g.body(), vec![(19, 8), (18, 8), (17, 8)]);
}

#[test]
fn food_goes_to_the_free_cell_picked() {
    // Row 10 holds the body at x = 18, 19, 20: the free cells before
    // (21, 10) are the 400 of rows 0 to 9 and the 18 of row 10.
    let g = game_with_food_at(418);
    assert_eq!(g.food(), (21, 10));
    let g = game_with_food_at(0);
    assert_eq!(g.food(), (0, 0));
    // Picks wrap around the 797 free cells.
    let g = game_with_food_at(797 + 1);
    assert_eq!(g.food(), (1, 0));
}

#[test]
fn the_snake_moves_one_cell() {
    let mut g = game_with_food_at(0);
    assert_eq!(g.tick(None, None), GameState::Running);
    assert_eq!(g.body(), vec![(21, 10), (20, 10), (19, 10)]);
    assert_eq!(g.score(), 0);
}

#[test]
fn eating_grows_and_scores_ten() {
    let mut g = game_with_food_at(418);
    assert_eq!(g.tick_with(None, None, 0), GameState::Running);
    assert_eq!(g.body(), vec![(21, 10), (20, 10), (19, 10), (18, 10)]);
    assert_eq!(g.score(), 10);
    assert_eq!(g.food(), (0, 0));
}

#[test]
fn eaten_food_reappears_off_the_body() {
    let mut g = game_with_food_at(418);
    g.tick(None, None);
    assert_eq!(g.score(), 10);
    assert!(!g.body().contains(&g.food()));
}

#[test]
fn reversing_is_ignored_and_turns_are_taken() {
    let mut g = game_with_food_at(0);
    g.tick(Some(Input::Left), None);
    assert_eq!(g.direction(), Direction::Right);
    assert_eq!(g.body()[0], (21, 10));
    g.tick(Some(Input::Up), None);
    assert_eq!(g.direction(), Direction::Up);
    assert_eq!(g.body()[0], (21, 9));
}

#[test]
fn the_board_wraps_around() {
    let mut g = game_with_food_at(0);
    for _ in 0..19 {
        g.tick(None, None);
    }
    assert_eq!(g.body()[0], (39, 10));
    g.tick(None, None);
    assert_eq!(g.body()[0], (0, 10));
    assert!(!g.is_game_over());
}

#[test]
fn running_into_itself_ends_the_game() {
    // Grow to five segments, then turn back on the body.
    let mut g = game_with_food_at(418);
    g.tick_with(None, None, 418);
    assert_eq!(g.food(), (22, 10));
    g.tick_with(None, None, 0);
    assert_eq!(g.body().len(), 5);
    assert_eq!(g.score(), 20);
    g.tick(Some(Input::Up), None);
    g.tick(Some(Input::Left), None);
    assert!(!g.is_game_over());
    g.tick(Some(Input::Down), None);
    assert!(g.is_game_over());
    // Once over, the snake stays put and Action reports the score.
    let body = g.body();
    assert_eq!(g.tick(None, None), GameState::Running);
    assert_eq!(g.body(), body);
    assert_eq!(g.tick(Some(Input::Action), None), GameState::GameOver { score: 20 });
}

#[test]
fn quit_returns_to_the_shell() {
    let mut g = game_with_food_at(0);
    let body = g.body();
    assert_eq!(g.tick(Some(Input::Quit), None), GameState::QuitToShell);
    assert_eq!(g.body(), body);
}

#[test]
fn a_smaller_terminal_brings_the_snake_onto_the_board() {
    let mut g = game_with_food_at(418);
    g.tick_with(None, Some((22, 18)), 0);
    assert_eq!(g.size(), (10, 10));
    // Body and food are taken modulo the new board: the body (20, 10),
    // (19, 10), (18, 10) becomes (0, 0), (9, 0), (8, 0) and the food
    // (21, 10) becomes (1, 0), which the snake then eats.
    assert_eq!(g.body(), vec![(1, 0), (0, 0), (9, 0), (8, 0)]);
    assert_eq!(g.score(), 10);
    assert_eq!(g.food(), (2, 0));
}

#[test]
fn snake_reset_starts_over() {
    let mut g = game_with_food_at(418);
    g.tick(None, None);
    g.reset(None);
    assert_eq!(g.score(), 0);
    assert_eq!(g.body(), vec![(20, 10), (19, 10), (18, 10)]);
    assert!(g.can_tick(None));
}

#[test]
fn the_body_never_covers_a_cell_twice() {
    let mut g = game_with_food_at(418);
    let turns = [Input::Up, Input::Left, Input::Down, Input::Right];
    for t in 0..400 {
        let before = g.body().len();
        let input = if t % 7 == 0 { Some(turns[(t / 7) % 4]) } else { None };
        g.tick(input, None);
        let body = g.body();
        assert!(body.len() >= before);
        for i in 0..body.len() {
            assert!(body[i].0 < 40 && body[i].1 < 20);
            for j in i + 1..body.len() {
                assert_ne!(body[i], body[j]);
            }
        }
        assert!(!body.contains(&g.food()));
        if g.is_game_over() {
            break;
        }
    }
}

#[test]
fn quitting_needs_no_score_headroom() {
    let g = game_with_food_at(0);
    assert!(g.can_tick(Some(Input::Quit)));
    assert!(g.can_tick(Some(Input::Left)));
}
