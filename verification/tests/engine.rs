use sorb::easter_eggs::engine::game::{play_area, Difficulty, GameState, Input};
use sorb::easter_eggs::engine::input::{map_key, InputState, Key, KeyKind, HOLD_NANOS};
use sorb::easter_eggs::engine::runner::{celebrates, frame_outcome, sleep_after, stops_frame, FrameOutcome, POLL_NANOS, TICK_NANOS};
use sorb::easter_eggs::games::test::TestGame;
use sorb::easter_eggs::{try_launch, GameKind};

#[test]
fn secret_commands_name_games() {
    assert_eq!(try_launch("sorb-test"), Some(GameKind::Test));
    assert_eq!(try_launch("sorb-snake"), Some(GameKind::Snake));
    assert_eq!(try_launch("sorb-dino"), Some(GameKind::Dino));
    assert_eq!(try_launch("sorb-flappy"), Some(GameKind::Flappy));
    assert_eq!(try_launch("sorb-tetris"), Some(GameKind::Tetris));
    assert_eq!(try_launch("sorb-invaders"), Some(GameKind::Invaders));
    assert_eq!(try_launch("sorb"), None);
    assert_eq!(try_launch("ls"), None);
    assert_eq!(try_launch("sorb-snake "), None);
}

#[test]
fn play_area_halves_the_width_and_keeps_ten_cells() {
    assert_eq!(play_area(80, 24), (39, 16));
    assert_eq!(play_area(0, 0), (10, 10));
    assert_eq!(play_area(21, 17), (10, 10));
    assert_eq!(play_area(65535, 65535), (32766, 65527));
}

#[test]
fn difficulty_labels() {
    assert_eq!(Difficulty::Easy.label(), "Easy");
    assert_eq!(Difficulty::Medium.label(), "Medium");
    assert_eq!(Difficulty::Hard.label(), "Hard");
    assert_eq!(Difficulty::Expert.label(), "Expert");
}

#[test]
fn keys_map_to_inputs() {
    assert_eq!(map_key(Key::Char('c'), true), Some(Input::Quit));
    assert_eq!(map_key(Key::Char('c'), false), None);
    assert_eq!(map_key(Key::Up, false), Some(Input::Up));
    assert_eq!(map_key(Key::Char('w'), false), Some(Input::Up));
    assert_eq!(map_key(Key::Char('A'), false), Some(Input::Left));
    assert_eq!(map_key(Key::Char('s'), true), Some(Input::Down));
    assert_eq!(map_key(Key::Char('D'), false), Some(Input::Right));
    assert_eq!(map_key(Key::Char(' '), false), Some(Input::Action));
    assert_eq!(map_key(Key::Enter, false), Some(Input::Action));
    assert_eq!(map_key(Key::Char('Q'), false), Some(Input::Quit));
    assert_eq!(map_key(Key::Esc, false), Some(Input::Quit));
    assert_eq!(map_key(Key::Char('x'), false), None);
    assert_eq!(map_key(Key::Backspace, false), None);
    assert_eq!(map_key(Key::Other, true), None);
}

#[test]
fn no_keys_no_inputs() {
    let s = InputState::new();
    assert!(s.generate_inputs().is_empty());
    assert_eq!(s.press_count(), 0);
}

#[test]
fn a_held_key_repeats_every_frame() {
    let mut s = InputState::new();
    assert!(s.key_event(Input::Right, KeyKind::Press, 0));
    assert_eq!(s.generate_inputs(), vec![Input::Right]);
    assert_eq!(s.generate_inputs(), vec![Input::Right]);
    assert!(s.key_event(Input::Right, KeyKind::Repeat, 5));
    assert_eq!(s.press_count(), 1);
}

#[test]
fn the_later_of_two_opposite_keys_is_dropped() {
    let mut s = InputState::new();
    s.key_event(Input::Right, KeyKind::Press, 0);
    s.key_event(Input::Left, KeyKind::Press, 1);
    s.key_event(Input::Up, KeyKind::Press, 2);
    assert_eq!(s.generate_inputs(), vec![Input::Right, Input::Up]);
    assert!(!s.key_event(Input::Right, KeyKind::Release, 3));
    assert_eq!(s.generate_inputs(), vec![Input::Left, Input::Up]);
}

#[test]
fn at_most_three_inputs_in_press_order() {
    let mut s = InputState::new();
    s.key_event(Input::Quit, KeyKind::Press, 0);
    s.key_event(Input::Down, KeyKind::Press, 0);
    s.key_event(Input::Action, KeyKind::Press, 0);
    s.key_event(Input::Left, KeyKind::Press, 0);
    // Seeing a key again keeps its place in the press order.
    s.key_event(Input::Quit, KeyKind::Repeat, 1);
    assert_eq!(s.generate_inputs(), vec![Input::Quit, Input::Down, Input::Action]);
    assert_eq!(s.press_count(), 4);
}

#[test]
fn a_released_key_pressed_again_goes_last() {
    let mut s = InputState::new();
    s.key_event(Input::Up, KeyKind::Press, 0);
    s.key_event(Input::Action, KeyKind::Press, 0);
    s.key_event(Input::Up, KeyKind::Release, 0);
    s.key_event(Input::Up, KeyKind::Press, 0);
    assert_eq!(s.generate_inputs(), vec![Input::Action, Input::Up]);
}

#[test]
fn keys_not_seen_for_100ms_expire() {
    let mut s = InputState::new();
    s.key_event(Input::Left, KeyKind::Press, 1_000);
    s.key_event(Input::Action, KeyKind::Press, 50_000_000);
    s.expire(1_000 + HOLD_NANOS - 1);
    assert_eq!(s.generate_inputs(), vec![Input::Left, Input::Action]);
    s.expire(1_000 + HOLD_NANOS);
    assert_eq!(s.generate_inputs(), vec![Input::Action]);
    s.expire(u64::MAX);
    assert!(s.generate_inputs().is_empty());
}

#[test]
fn filter_opposing_inputs_keeps_the_first_of_each_axis() {
    let s = InputState::new();
    let keys = vec![
        (Input::Down, 0),
        (Input::Left, 1),
        (Input::Up, 2),
        (Input::Right, 3),
        (Input::Action, 4),
        (Input::Down, 5),
        (Input::Quit, 6),
    ];
    assert_eq!(
        s.filter_opposing_inputs(keys),
        vec![Input::Down, Input::Left, Input::Action, Input::Down, Input::Quit]
    );
    assert!(s.filter_opposing_inputs(Vec::new()).is_empty());
}

#[test]
fn frames_stop_on_quit_and_game_over() {
    assert!(stops_frame(GameState::QuitToShell));
    assert!(stops_frame(GameState::GameOver { score: 0 }));
    assert!(!stops_frame(GameState::Running));
    assert!(!stops_frame(GameState::Paused));
    assert_eq!(frame_outcome(GameState::QuitToShell), FrameOutcome::Quit);
    assert_eq!(frame_outcome(GameState::GameOver { score: 42 }), FrameOutcome::GameOver { score: 42 });
    assert_eq!(frame_outcome(GameState::Running), FrameOutcome::Continue);
    assert_eq!(frame_outcome(GameState::Paused), FrameOutcome::Continue);
}

#[test]
fn only_a_positive_new_best_is_celebrated() {
    assert!(celebrates(true, 1));
    assert!(!celebrates(true, 0));
    assert!(!celebrates(false, 500));
}

#[test]
fn a_tick_lasts_a_sixtieth_of_a_second() {
    assert_eq!(TICK_NANOS, 16_666_667);
    assert_eq!(1_000_000_000 / TICK_NANOS, 59);
    assert!(60 * TICK_NANOS >= 1_000_000_000 && 60 * (TICK_NANOS - 1) < 1_000_000_000);
    assert_eq!(sleep_after(0), 16_666_667);
    assert_eq!(sleep_after(10_000_000), 6_666_667);
    assert_eq!(sleep_after(16_666_667), 0);
    assert_eq!(sleep_after(60_000_000), 0);
    assert!(POLL_NANOS < TICK_NANOS);
}

#[test]
fn the_test_game_counts_ticks_and_quits() {
    let mut g = TestGame::new();
    assert_eq!(g.name(), "Engine Test");
    assert_eq!(g.tick(None), GameState::Running);
    assert_eq!(g.tick(Some(Input::Action)), GameState::Running);
    assert_eq!(g.tick(Some(Input::Quit)), GameState::QuitToShell);
    assert_eq!(g.ticks(), 3);
    g.reset();
    assert_eq!(g.ticks(), 0);
}

#[test]
fn a_quiet_frame_forgets_stale_keys() {
    let mut s = InputState::new();
    s.key_event(Input::Up, KeyKind::Press, 0);
    // A key was seen this frame: nothing expires.
    assert_eq!(s.finish_frame(true, 10 * HOLD_NANOS), vec![Input::Up]);
    assert_eq!(s.finish_frame(false, HOLD_NANOS - 1), vec![Input::Up]);
    assert!(s.finish_frame(false, HOLD_NANOS).is_empty());
}
