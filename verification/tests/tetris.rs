use sorb::easter_eggs::engine::game::{GameState, Input};
use sorb::easter_eggs::games::tetris::{
    check_collision, clear_full_rows, is_row_full, piece_at, points_for, rotate_shape, speed_at, PieceColor, Row,
    TetrisGame, Tetromino, GRID_H, GRID_W,
};

fn empty_well() -> Vec<Row> {
    vec![[None; GRID_W]; GRID_H]
}

fn full_row(t: Tetromino) -> Row {
    [Some(t); GRID_W]
}

#[test]
fn pieces_in_their_frames() {
    assert_eq!(Tetromino::I.shape(), [[0, 0, 0, 0], [1, 1, 1, 1], [0, 0, 0, 0], [0, 0, 0, 0]]);
    assert_eq!(Tetromino::O.shape(), [[0, 1, 1, 0], [0, 1, 1, 0], [0, 0, 0, 0], [0, 0, 0, 0]]);
    assert_eq!(Tetromino::T.shape(), [[0, 1, 0, 0], [1, 1, 1, 0], [0, 0, 0, 0], [0, 0, 0, 0]]);
    assert_eq!(Tetromino::Z.shape(), [[1, 1, 0, 0], [0, 1, 1, 0], [0, 0, 0, 0], [0, 0, 0, 0]]);
}

#[test]
fn piece_colours() {
    assert_eq!(Tetromino::I.color(), PieceColor::Cyan);
    assert_eq!(Tetromino::J.color(), PieceColor::Blue);
    assert_eq!(Tetromino::L.color(), PieceColor::Orange);
    assert_eq!(Tetromino::O.color(), PieceColor::Yellow);
    assert_eq!(Tetromino::S.color(), PieceColor::Green);
    assert_eq!(Tetromino::T.color(), PieceColor::Magenta);
    assert_eq!(Tetromino::Z.color(), PieceColor::Red);
}

#[test]
fn pieces_in_order() {
    let all = [Tetromino::I, Tetromino::J, Tetromino::L, Tetromino::O, Tetromino::S, Tetromino::T, Tetromino::Z];
    for (i, t) in all.iter().enumerate() {
        assert_eq!(piece_at(i), *t);
    }
}

#[test]
fn a_quarter_turn_clockwise() {
    let t = Tetromino::T.shape();
    assert_eq!(rotate_shape(&t), [[0, 0, 1, 0], [0, 0, 1, 1], [0, 0, 1, 0], [0, 0, 0, 0]]);
    assert_eq!(rotate_shape(&Tetromino::I.shape()), [[0, 0, 1, 0], [0, 0, 1, 0], [0, 0, 1, 0], [0, 0, 1, 0]]);
}

#[test]
fn four_quarter_turns_come_back() {
    for t in [Tetromino::I, Tetromino::J, Tetromino::L, Tetromino::O, Tetromino::S, Tetromino::T, Tetromino::Z] {
        let s = t.shape();
        let back = rotate_shape(&rotate_shape(&rotate_shape(&rotate_shape(&s))));
        assert_eq!(back, s);
    }
}

#[test]
fn collisions_with_walls_floor_and_blocks() {
    let mut grid = empty_well();
    let i = Tetromino::I.shape();
    assert!(!check_collision(&grid, 3, 0, &i));
    assert!(!check_collision(&grid, 0, 0, &i));
    assert!(check_collision(&grid, -1, 0, &i));
    assert!(!check_collision(&grid, 6, 0, &i));
    assert!(check_collision(&grid, 7, 0, &i));
    assert!(!check_collision(&grid, 3, 18, &i));
    assert!(check_collision(&grid, 3, 19, &i));
    // Above the top is open.
    assert!(!check_collision(&grid, 3, -1, &i));
    grid[5][4] = Some(Tetromino::O);
    assert!(check_collision(&grid, 3, 4, &i));
    assert!(!check_collision(&grid, 3, 5, &i));
}

#[test]
fn full_rows() {
    assert!(is_row_full(&full_row(Tetromino::S)));
    let mut r = full_row(Tetromino::S);
    r[9] = None;
    assert!(!is_row_full(&r));
    assert!(!is_row_full(&[None; GRID_W]));
}

#[test]
fn clearing_drops_the_rows_above() {
    let mut grid = empty_well();
    grid[19] = full_row(Tetromino::I);
    grid[18][0] = Some(Tetromino::T);
    grid[17] = full_row(Tetromino::J);
    grid[16][9] = Some(Tetromino::Z);
    assert_eq!(clear_full_rows(&mut grid), 2);
    assert_eq!(grid.len(), GRID_H);
    assert_eq!(grid[19][0], Some(Tetromino::T));
    assert_eq!(grid[19][1], None);
    assert_eq!(grid[18][9], Some(Tetromino::Z));
    for y in 0..18 {
        assert_eq!(grid[y], [None; GRID_W]);
    }
}

#[test]
fn four_rows_at_once() {
    let mut grid = empty_well();
    for y in 16..20 {
        grid[y] = full_row(Tetromino::L);
    }
    assert_eq!(clear_full_rows(&mut grid), 4);
    assert_eq!(grid, empty_well());
}

#[test]
fn the_top_row_is_never_cleared() {
    let mut grid = empty_well();
    grid[0] = full_row(Tetromino::O);
    assert_eq!(clear_full_rows(&mut grid), 0);
    assert_eq!(grid[0], full_row(Tetromino::O));
}

#[test]
fn points_and_speed() {
    assert_eq!(points_for(0), 0);
    assert_eq!(points_for(1), 100);
    assert_eq!(points_for(2), 300);
    assert_eq!(points_for(3), 500);
    assert_eq!(points_for(4), 800);
    assert_eq!(points_for(5), 0);
    assert_eq!(speed_at(0), 10);
    assert_eq!(speed_at(499), 10);
    assert_eq!(speed_at(500), 9);
    assert_eq!(speed_at(1500), 7);
    assert_eq!(speed_at(2999), 6);
    assert_eq!(speed_at(5999), 4);
    assert_eq!(speed_at(8999), 3);
    assert_eq!(speed_at(9000), 2);
    assert_eq!(speed_at(u32::MAX), 2);
}

#[test]
fn a_new_game_is_empty() {
    let g = TetrisGame::new();
    assert_eq!(g.name(), "Tetris");
    assert_eq!(g.score(), 0);
    assert!(!g.is_game_over());
    assert_eq!(g.position(), (3, 0));
    assert_eq!(g.current_shape(), g.current().shape());
    assert_eq!(g.fall_speed(), 10);
    assert_eq!(g.speed_level(), 1);
    for y in 0..GRID_H {
        for x in 0..GRID_W {
            assert_eq!(g.cell(y, x), None);
        }
    }
}

#[test]
fn gravity_drops_the_piece_every_ten_ticks() {
    let mut g = TetrisGame::with_pieces(Tetromino::T, Tetromino::O);
    for _ in 0..9 {
        assert_eq!(g.tick(None), GameState::Running);
    }
    assert_eq!(g.position(), (3, 0));
    g.tick(None);
    assert_eq!(g.position(), (3, 1));
}

#[test]
fn moves_and_turns_stay_in_the_well() {
    let mut g = TetrisGame::with_pieces(Tetromino::I, Tetromino::O);
    for _ in 0..5 {
        g.tick(Some(Input::Left));
    }
    assert_eq!(g.position(), (0, 0));
    for _ in 0..3 {
        g.tick(Some(Input::Down));
    }
    assert_eq!(g.position(), (0, 3));
    g.tick(Some(Input::Up));
    assert_eq!(g.current_shape(), rotate_shape(&Tetromino::I.shape()));
    // Upright, the I stands in column 2 of its frame and can go further
    // left; this tenth tick also lets gravity drop it a row.
    g.tick(Some(Input::Left));
    assert_eq!(g.position(), (-1, 4));
}

#[test]
fn a_hard_drop_locks_the_piece_and_spawns_the_next() {
    let mut g = TetrisGame::with_pieces(Tetromino::I, Tetromino::O);
    assert_eq!(g.tick_with(Some(Input::Action), Tetromino::T, Tetromino::Z), GameState::Running);
    for x in 3..7 {
        assert_eq!(g.cell(19, x), Some(Tetromino::I));
    }
    assert_eq!(g.cell(19, 2), None);
    assert_eq!(g.current(), Tetromino::O);
    assert_eq!(g.next_piece(), Tetromino::T);
    assert_eq!(g.position(), (3, 0));
    assert_eq!(g.score(), 0);
}

#[test]
fn a_full_row_scores_a_hundred() {
    let mut g = TetrisGame::with_pieces(Tetromino::I, Tetromino::I);
    for _ in 0..3 {
        g.tick(Some(Input::Left));
    }
    g.tick_with(Some(Input::Action), Tetromino::O, Tetromino::O);
    g.tick(Some(Input::Right));
    g.tick_with(Some(Input::Action), Tetromino::T, Tetromino::T);
    assert_eq!(g.current(), Tetromino::O);
    for _ in 0..4 {
        g.tick(Some(Input::Right));
    }
    assert_eq!(g.position(), (7, 1));
    g.tick_with(Some(Input::Action), Tetromino::S, Tetromino::S);
    assert_eq!(g.score(), 100);
    assert_eq!(g.cell(19, 0), None);
    assert_eq!(g.cell(19, 8), Some(Tetromino::O));
    assert_eq!(g.cell(19, 9), Some(Tetromino::O));
    assert_eq!(g.cell(18, 8), None);
    assert_eq!(g.current(), Tetromino::T);
    assert_eq!(g.next_piece(), Tetromino::S);
}

#[test]
fn stacking_to_the_top_ends_the_game() {
    let mut g = TetrisGame::with_pieces(Tetromino::O, Tetromino::O);
    let mut drops = 0;
    while !g.is_game_over() {
        g.tick_with(Some(Input::Action), Tetromino::O, Tetromino::O);
        drops += 1;
        assert!(drops <= 10);
    }
    // Ten two-row pieces fill the column; the eleventh cannot spawn.
    assert_eq!(drops, 10);
    let score = g.score();
    let pos = g.position();
    assert_eq!(g.tick(Some(Input::Left)), GameState::Running);
    assert_eq!(g.position(), pos);
    assert_eq!(g.tick(Some(Input::Action)), GameState::GameOver { score });
    assert_eq!(g.tick(Some(Input::Quit)), GameState::QuitToShell);
}

#[test]
fn tetris_reset_starts_over() {
    let mut g = TetrisGame::with_pieces(Tetromino::I, Tetromino::O);
    g.tick(Some(Input::Action));
    g.reset();
    assert_eq!(g.cell(19, 3), None);
    assert_eq!(g.score(), 0);
    assert!(g.can_tick(None));
}
