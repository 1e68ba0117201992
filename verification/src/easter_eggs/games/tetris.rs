//! Tetris: a 10 x 20 well, seven tetrominoes in 4 x 4 frames, gravity,
//! rotation, line clearing, score and speed.

use vstd::prelude::*;

use crate::easter_eggs::engine::game::{GameState, Input};
use crate::random::random_below;

verus! {

/// Width of the well in cells.
pub const GRID_W: usize = 10;

/// Height of the well in cells.
pub const GRID_H: usize = 20;

/// The seven pieces.
#[derive(Debug, Clone, Copy, PartialEq, Eq, Structural)]
pub enum Tetromino {
    I,
    J,
    L,
    O,
    S,
    T,
    Z,
}

/// The colour a piece is drawn in.
#[derive(Debug, Clone, Copy, PartialEq, Eq, Structural)]
pub enum PieceColor {
    Cyan,
    Blue,
    /// The orange of RGB (255, 165, 0).
    Orange,
    Yellow,
    Green,
    Magenta,
    Red,
}

/// A piece in its 4 x 4 frame, rows top to bottom; a nonzero byte is a block.
pub type Shape = [[u8; 4]; 4];

/// One row of the well, left to right; `Some(piece)` is a locked block.
pub type Row = [Option<Tetromino>; GRID_W];

/// The spawn orientation of each piece.
pub open spec fn shape_of(t: Tetromino) -> Shape {
    match t {
        Tetromino::I => [[0, 0, 0, 0], [1, 1, 1, 1], [0, 0, 0, 0], [0, 0, 0, 0]],
        Tetromino::J => [[1, 0, 0, 0], [1, 1, 1, 0], [0, 0, 0, 0], [0, 0, 0, 0]],
        Tetromino::L => [[0, 0, 1, 0], [1, 1, 1, 0], [0, 0, 0, 0], [0, 0, 0, 0]],
        Tetromino::O => [[0, 1, 1, 0], [0, 1, 1, 0], [0, 0, 0, 0], [0, 0, 0, 0]],
        Tetromino::S => [[0, 1, 1, 0], [1, 1, 0, 0], [0, 0, 0, 0], [0, 0, 0, 0]],
        Tetromino::T => [[0, 1, 0, 0], [1, 1, 1, 0], [0, 0, 0, 0], [0, 0, 0, 0]],
        Tetromino::Z => [[1, 1, 0, 0], [0, 1, 1, 0], [0, 0, 0, 0], [0, 0, 0, 0]],
    }
}

/// `s` turned a quarter clockwise.
pub open spec fn quarter_turn(s: Shape) -> Shape {
    [
        [s[3][0], s[2][0], s[1][0], s[0][0]],
        [s[3][1], s[2][1], s[1][1], s[0][1]],
        [s[3][2], s[2][2], s[1][2], s[0][2]],
        [s[3][3], s[2][3], s[1][3], s[0][3]],
    ]
}

/// `b` is `a` turned a quarter clockwise: the cell at row `r`, column `c`
/// of `b` is the cell at row `3 - c`, column `r` of `a`.
pub open spec fn is_quarter_turn(a: Shape, b: Shape) -> bool {
    forall|r: int, c: int| 0 <= r < 4 && 0 <= c < 4 ==> #[trigger] b[r][c] == a[3 - c][r]
}

/// The shape has at least one block.
pub open spec fn has_block(s: Shape) -> bool {
    exists|r: int, c: int| 0 <= r < 4 && 0 <= c < 4 && #[trigger] s[r][c] != 0
}

/// The block of `s` at frame position (`r`, `c`), placed with its frame's
/// top-left corner at column `x`, row `y`, falls outside the well or on a
/// locked block of `grid`.
pub open spec fn cell_blocked(grid: Seq<Row>, x: int, y: int, s: Shape, r: int, c: int) -> bool {
    &&& s[r][c] != 0
    &&& {
        let mx = x + c;
        let my = y + r;
        ||| mx < 0
        ||| mx >= GRID_W
        ||| my >= GRID_H
        ||| (my >= 0 && grid[my][mx] is Some)
    }
}

/// The shape, placed with its frame's top-left corner at column `x`, row
/// `y`, has a block outside the side walls or below the floor, or on a
/// locked block. Blocks above the top of the well do not collide.
pub open spec fn collides(grid: Seq<Row>, x: int, y: int, s: Shape) -> bool {
    exists|r: int, c: int| 0 <= r < 4 && 0 <= c < 4 && #[trigger] cell_blocked(grid, x, y, s, r, c)
}

/// Every cell of the row holds a block.
pub open spec fn row_full(row: Row) -> bool {
    forall|c: int| 0 <= c < GRID_W ==> (#[trigger] row[c]) is Some
}

/// No cell of the row holds a block.
pub open spec fn row_empty(row: Row) -> bool {
    forall|c: int| 0 <= c < GRID_W ==> (#[trigger] row[c]) is None
}

/// The rows of `rows` that are not full, top to bottom.
pub open spec fn kept_rows(rows: Seq<Row>) -> Seq<Row>
    decreases rows.len(),
{
    if rows.len() == 0 {
        rows
    } else {
        let rest = kept_rows(rows.drop_first());
        if row_full(rows[0]) {
            rest
        } else {
            seq![rows[0]] + rest
        }
    }
}

/// How many rows of `rows` are full.
pub open spec fn full_count(rows: Seq<Row>) -> nat
    decreases rows.len(),
{
    if rows.len() == 0 {
        0
    } else {
        full_count(rows.drop_first()) + if row_full(rows[0]) { 1nat } else { 0nat }
    }
}

/// Some row below the top row is full.
pub open spec fn full_below_top(rows: Seq<Row>) -> bool {
    exists|y: int| 1 <= y < rows.len() && row_full(#[trigger] rows[y])
}

/// Line clearing turns the well `before` into `after`, clearing `lines`
/// rows. The scan runs from the bottom row up to the second row; when it
/// clears a row, everything above drops by one, so the top row is examined
/// only once some row below it has been cleared. Hence: if a row below the
/// top is full, every full row goes, the other rows keep their order and
/// sink to the bottom, and empty rows fill the top; otherwise nothing moves.
pub open spec fn cleared_well(before: Seq<Row>, after: Seq<Row>, lines: nat) -> bool {
    &&& after.len() == before.len()
    &&& if full_below_top(before) {
        &&& lines == full_count(before)
        &&& lines <= after.len()
        &&& (forall|y: int| 0 <= y < lines ==> row_empty(#[trigger] after[y]))
        &&& after.subrange(lines as int, after.len() as int) == kept_rows(before)
    } else {
        &&& lines == 0
        &&& after == before
    }
}

/// Points for clearing `lines` rows at once.
pub open spec fn line_points(lines: nat) -> nat {
    if lines == 1 {
        100
    } else if lines == 2 {
        300
    } else if lines == 3 {
        500
    } else if lines == 4 {
        800
    } else {
        0
    }
}

/// Ticks between two gravity steps at a given score.
pub open spec fn speed_for(score: u32) -> u32 {
    if score <= 499 {
        10
    } else if score <= 999 {
        9
    } else if score <= 1499 {
        8
    } else if score <= 1999 {
        7
    } else if score <= 2999 {
        6
    } else if score <= 3999 {
        5
    } else if score <= 5999 {
        4
    } else if score <= 8999 {
        3
    } else {
        2
    }
}

/// The block at frame position (`r`, `c`) of `s`, placed at column `x`, row
/// `y`, lands on the well's cell at row `wy`, column `wx`.
pub open spec fn covers(x: int, y: int, s: Shape, wy: int, wx: int) -> bool {
    &&& 0 <= wy - y < 4
    &&& 0 <= wx - x < 4
    &&& s[wy - y][wx - x] != 0
}

/// `after` is `before` with the blocks of `s`, placed at column `x`, row
/// `y`, written into the well as `piece`.
pub open spec fn placed(before: Seq<Row>, after: Seq<Row>, x: int, y: int, s: Shape, piece: Tetromino) -> bool {
    &&& after.len() == before.len()
    &&& forall|wy: int, wx: int|
        0 <= wy < before.len() && 0 <= wx < GRID_W ==> #[trigger] after[wy][wx] == if covers(
            x,
            y,
            s,
            wy,
            wx,
        ) {
            Some(piece)
        } else {
            before[wy][wx]
        }
}

impl Tetromino {
    /// The colour of the piece.
    pub fn color(&self) -> (r: PieceColor)
        ensures
            r == match *self {
                Tetromino::I => PieceColor::Cyan,
                Tetromino::J => PieceColor::Blue,
                Tetromino::L => PieceColor::Orange,
                Tetromino::O => PieceColor::Yellow,
                Tetromino::S => PieceColor::Green,
                Tetromino::T => PieceColor::Magenta,
                Tetromino::Z => PieceColor::Red,
            },
    {
        match self {
            Tetromino::I => PieceColor::Cyan,
            Tetromino::J => PieceColor::Blue,
            Tetromino::L => PieceColor::Orange,
            Tetromino::O => PieceColor::Yellow,
            Tetromino::S => PieceColor::Green,
            Tetromino::T => PieceColor::Magenta,
            Tetromino::Z => PieceColor::Red,
        }
    }

    /// The piece in its spawn orientation.
    pub fn shape(&self) -> (s: Shape)
        ensures
            s == shape_of(*self),
            has_block(s),
    {
        let s: Shape = match self {
            Tetromino::I => [[0, 0, 0, 0], [1, 1, 1, 1], [0, 0, 0, 0], [0, 0, 0, 0]],
            Tetromino::J => [[1, 0, 0, 0], [1, 1, 1, 0], [0, 0, 0, 0], [0, 0, 0, 0]],
            Tetromino::L => [[0, 0, 1, 0], [1, 1, 1, 0], [0, 0, 0, 0], [0, 0, 0, 0]],
            Tetromino::O => [[0, 1, 1, 0], [0, 1, 1, 0], [0, 0, 0, 0], [0, 0, 0, 0]],
            Tetromino::S => [[0, 1, 1, 0], [1, 1, 0, 0], [0, 0, 0, 0], [0, 0, 0, 0]],
            Tetromino::T => [[0, 1, 0, 0], [1, 1, 1, 0], [0, 0, 0, 0], [0, 0, 0, 0]],
            Tetromino::Z => [[1, 1, 0, 0], [0, 1, 1, 0], [0, 0, 0, 0], [0, 0, 0, 0]],
        };
        assert(s[1][1] != 0);
        s
    }
}


/// Turns a shape a quarter clockwise.
pub fn rotate_shape(s: &Shape) -> (t: Shape)
    ensures
        t == quarter_turn(*s),
        is_quarter_turn(*s, t),
        has_block(*s) ==> has_block(t),
{
    let t: Shape = [
        [s[3][0], s[2][0], s[1][0], s[0][0]],
        [s[3][1], s[2][1], s[1][1], s[0][1]],
        [s[3][2], s[2][2], s[1][2], s[0][2]],
        [s[3][3], s[2][3], s[1][3], s[0][3]],
    ];
    proof {
        if has_block(*s) {
            let (r, c) = choose|r: int, c: int| 0 <= r < 4 && 0 <= c < 4 && #[trigger] s[r][c] != 0;
            assert(t[c][3 - r] == s[r][c]);
        }
    }
    t
}

proof fn rotate_keeps_block(s: Shape)
    ensures
        has_block(s) ==> has_block(quarter_turn(s)),
{
    if has_block(s) {
        let (r, c) = choose|r: int, c: int| 0 <= r < 4 && 0 <= c < 4 && #[trigger] s[r][c] != 0;
        assert(quarter_turn(s)[c][3 - r] == s[r][c]);
    }
}

/// Four quarter turns bring a shape back to where it started.
pub proof fn lemma_four_quarter_turns(s0: Shape, s1: Shape, s2: Shape, s3: Shape, s4: Shape)
    requires
        is_quarter_turn(s0, s1),
        is_quarter_turn(s1, s2),
        is_quarter_turn(s2, s3),
        is_quarter_turn(s3, s4),
    ensures
        s4 == s0,
{
    assert forall|r: int| 0 <= r < 4 implies #[trigger] s4[r] == s0[r] by {
        assert forall|c: int| 0 <= c < 4 implies #[trigger] s4[r][c] == s0[r][c] by {
            assert(s4[r][c] == s3[3 - c][r]);
            assert(s3[3 - c][r] == s2[3 - r][3 - c]);
            assert(s2[3 - r][3 - c] == s1[c][3 - r]);
            assert(s1[c][3 - r] == s0[r][c]);
        }
        assert(s4[r] =~= s0[r]);
    }
    assert(s4 =~= s0);
}

/// Whether `shape`, placed with its frame's top-left corner at column `x`,
/// row `y`, collides in the well `grid`.
pub fn check_collision(grid: &Vec<Row>, x: i32, y: i32, shape: &Shape) -> (r: bool)
    requires
        grid@.len() == GRID_H,
    ensures
        r == collides(grid@, x as int, y as int, *shape),
{
    let mut r: usize = 0;
    while r < 4
        invariant
            grid@.len() == GRID_H,
            r <= 4,
            forall|rr: int, cc: int|
                0 <= rr < r && 0 <= cc < 4 ==> !#[trigger] cell_blocked(grid@, x as int, y as int, *shape, rr, cc),
        decreases 4 - r,
    {
        let mut c: usize = 0;
        while c < 4
            invariant
                grid@.len() == GRID_H,
                r < 4,
                c <= 4,
                forall|rr: int, cc: int|
                    0 <= rr < r && 0 <= cc < 4 ==> !#[trigger] cell_blocked(grid@, x as int, y as int, *shape, rr, cc),
                forall|cc: int|
                    0 <= cc < c ==> !#[trigger] cell_blocked(grid@, x as int, y as int, *shape, r as int, cc),
            decreases 4 - c,
        {
            if shape[r][c] != 0 {
                let map_x: i64 = x as i64 + c as i64;
                let map_y: i64 = y as i64 + r as i64;
                if map_x < 0 || map_x >= GRID_W as i64 || map_y >= GRID_H as i64 {
                    assert(cell_blocked(grid@, x as int, y as int, *shape, r as int, c as int));
                    return true;
                }
                if map_y >= 0 && grid[map_y as usize][map_x as usize].is_some() {
                    assert(cell_blocked(grid@, x as int, y as int, *shape, r as int, c as int));
                    return true;
                }
            }
            c = c + 1;
        }
        r = r + 1;
    }
    false
}


proof fn lemma_full_count_positive(s: Seq<Row>)
    ensures
        full_count(s) > 0 <==> exists|i: int| 0 <= i < s.len() && row_full(#[trigger] s[i]),
    decreases s.len(),
{
    if s.len() > 0 {
        lemma_full_count_positive(s.drop_first());
        if full_count(s.drop_first()) > 0 {
            let i = choose|i: int| 0 <= i < s.drop_first().len() && row_full(#[trigger] s.drop_first()[i]);
            assert(s[i + 1] == s.drop_first()[i]);
        }
        if exists|i: int| 0 <= i < s.len() && row_full(#[trigger] s[i]) {
            let i = choose|i: int| 0 <= i < s.len() && row_full(#[trigger] s[i]);
            if i > 0 {
                assert(s.drop_first()[i - 1] == s[i]);
            }
        }
    }
}

proof fn lemma_kept_when_none_full(s: Seq<Row>)
    requires
        full_count(s) == 0,
    ensures
        kept_rows(s) == s,
    decreases s.len(),
{
    if s.len() > 0 {
        lemma_kept_when_none_full(s.drop_first());
        assert(seq![s[0]] + s.drop_first() =~= s);
    }
}

proof fn lemma_kept_len(s: Seq<Row>)
    ensures
        kept_rows(s).len() + full_count(s) == s.len(),
    decreases s.len(),
{
    if s.len() > 0 {
        lemma_kept_len(s.drop_first());
    }
}

/// Whether every cell of the row holds a block.
pub fn is_row_full(row: &Row) -> (r: bool)
    ensures
        r == row_full(*row),
{
    let mut x: usize = 0;
    while x < GRID_W
        invariant
            x <= GRID_W,
            forall|c: int| 0 <= c < x ==> (#[trigger] row[c]) is Some,
        decreases GRID_W - x,
    {
        if row[x].is_none() {
            return false;
        }
        x = x + 1;
    }
    true
}

/// Removes row `y` of the well: every row above it drops by one and an
/// empty row enters at the top.
fn remove_row(grid: &mut Vec<Row>, y: usize)
    requires
        y < old(grid)@.len(),
    ensures
        final(grid)@.len() == old(grid)@.len(),
        row_empty(final(grid)@[0]),
        final(grid)@.subrange(1, y + 1) == old(grid)@.subrange(0, y as int),
        final(grid)@.subrange(y + 1, final(grid)@.len() as int) == old(grid)@.subrange(
            y + 1,
            old(grid)@.len() as int,
        ),
{
    let ghost before = grid@;
    let mut sy: usize = y;
    while sy > 0
        invariant
            sy <= y,
            y < before.len(),
            grid@.len() == before.len(),
            forall|i: int| 0 <= i <= sy ==> #[trigger] grid@[i] == before[i],
            forall|i: int| sy < i <= y ==> #[trigger] grid@[i] == before[i - 1],
            forall|i: int| y < i < before.len() ==> #[trigger] grid@[i] == before[i],
        decreases sy,
    {
        let above = grid[sy - 1];
        grid.set(sy, above);
        sy = sy - 1;
    }
    let empty: Row = [None; GRID_W];
    grid.set(0, empty);
    assert(grid@.subrange(1, y + 1) =~= before.subrange(0, y as int));
    assert(grid@.subrange(y + 1, grid@.len() as int) =~= before.subrange(y + 1, before.len() as int));
}

/// Clears full rows, scanning from the bottom row up to the second row and
/// examining a row again after the rows above it drop into it. Returns the
/// number of rows cleared.
pub fn clear_full_rows(grid: &mut Vec<Row>) -> (lines: u32)
    requires
        old(grid)@.len() == GRID_H,
    ensures
        cleared_well(old(grid)@, final(grid)@, lines as nat),
        lines <= GRID_H,
        forall|y: int| 1 <= y < GRID_H ==> !row_full(#[trigger] final(grid)@[y]),
{
    let ghost orig = grid@;
    let ghost mut p: int = GRID_H as int;
    let ghost mut c: int = 0;
    let mut lines: u32 = 0;
    let mut y: usize = GRID_H - 1;
    assert(orig.subrange(20, 20) =~= Seq::<Row>::empty());
    assert(grid@.subrange(0, 20) =~= orig.subrange(0, 20));
    while y > 0
        invariant
            grid@.len() == GRID_H,
            orig.len() == GRID_H,
            0 <= c,
            0 <= p <= GRID_H,
            c + p <= GRID_H,
            lines == c,
            y < GRID_H,
            c == full_count(orig.subrange(p, GRID_H as int)),
            p > 0 ==> y + 1 == c + p,
            p == 0 ==> y + 1 <= c && full_below_top(orig),
            forall|i: int| 0 <= i < c ==> row_empty(#[trigger] grid@[i]),
            grid@.subrange(c, c + p) == orig.subrange(0, p),
            grid@.subrange(c + p, GRID_H as int) == kept_rows(orig.subrange(p, GRID_H as int)),
        decreases y, p,
    {
        let ghost before = grid@;
        let full = is_row_full(&grid[y]);
        if full {
            assert(y >= c) by {
                if y < c {
                    assert(row_empty(grid@[y as int]));
                    assert(grid@[y as int][0] is None);
                }
            }
            assert(p > 0);
            assert(grid@[y as int] == grid@.subrange(c, c + p)[p - 1]);
            let ghost tail = orig.subrange(p - 1, GRID_H as int);
            assert(tail.drop_first() =~= orig.subrange(p, GRID_H as int));
            assert(tail[0] == orig[p - 1]);
            remove_row(grid, y);
            lines = lines + 1;
            proof {
                if p == 1 {
                    lemma_full_count_positive(orig.subrange(1, GRID_H as int));
                    let i = choose|i: int|
                        0 <= i < orig.subrange(1, GRID_H as int).len() && row_full(
                            #[trigger] orig.subrange(1, GRID_H as int)[i],
                        );
                    assert(orig[i + 1] == orig.subrange(1, GRID_H as int)[i]);
                }
                assert forall|i: int| 0 <= i < c + 1 implies row_empty(#[trigger] grid@[i]) by {
                    if i > 0 {
                        assert(grid@[i] == grid@.subrange(1, y + 1)[i - 1]);
                        assert(before[i - 1] == before.subrange(0, y as int)[i - 1]);
                    }
                }
                assert(grid@.subrange(c + 1, c + p) =~= orig.subrange(0, p - 1)) by {
                    assert forall|i: int| 0 <= i < p - 1 implies #[trigger] grid@.subrange(c + 1, c + p)[i]
                        == orig.subrange(0, p - 1)[i] by {
                        assert(grid@[c + 1 + i] == grid@.subrange(1, y + 1)[c + i]);
                        assert(before[c + i] == before.subrange(0, y as int)[c + i]);
                        assert(before[c + i] == before.subrange(c, c + p)[i]);
                    }
                }
                assert(grid@.subrange(c + p, GRID_H as int) =~= before.subrange(c + p, GRID_H as int)) by {
                    assert forall|i: int| 0 <= i < GRID_H - (c + p) implies #[trigger] grid@.subrange(c + p, GRID_H as int)[i]
                        == before.subrange(c + p, GRID_H as int)[i] by {
                        assert(grid@[c + p + i] == grid@.subrange(y + 1, GRID_H as int)[i]);
                        assert(before[c + p + i] == before.subrange(y + 1, GRID_H as int)[i]);
                    }
                }
                c = c + 1;
                p = p - 1;
            }
        } else {
            proof {
                if p > 0 {
                    assert(grid@[y as int] == grid@.subrange(c, c + p)[p - 1]);
                    let tail = orig.subrange(p - 1, GRID_H as int);
                    assert(tail.drop_first() =~= orig.subrange(p, GRID_H as int));
                    assert(tail[0] == orig[p - 1]);
                    assert(kept_rows(tail) == seq![orig[p - 1]] + kept_rows(orig.subrange(p, GRID_H as int)));
                    assert(grid@.subrange(c + p - 1, GRID_H as int) =~= seq![orig[p - 1]]
                        + grid@.subrange(c + p, GRID_H as int));
                    assert(grid@.subrange(c, c + p - 1) =~= orig.subrange(0, p - 1)) by {
                        assert forall|i: int| 0 <= i < p - 1 implies #[trigger] grid@.subrange(c, c + p - 1)[i]
                            == orig.subrange(0, p - 1)[i] by {
                            assert(grid@[c + i] == grid@.subrange(c, c + p)[i]);
                        }
                    }
                    if p == 1 {
                        lemma_full_count_positive(orig.subrange(1, GRID_H as int));
                        let i = choose|i: int|
                            0 <= i < orig.subrange(1, GRID_H as int).len() && row_full(
                                #[trigger] orig.subrange(1, GRID_H as int)[i],
                            );
                        assert(orig[i + 1] == orig.subrange(1, GRID_H as int)[i]);
                    }
                    p = p - 1;
                }
            }
            y = y - 1;
        }
    }
    proof {
        if p > 0 {
            assert(c == 0 && p == 1);
            lemma_full_count_positive(orig.subrange(1, GRID_H as int));
            lemma_kept_when_none_full(orig.subrange(1, GRID_H as int));
            assert(grid@ =~= grid@.subrange(0, 1) + grid@.subrange(1, GRID_H as int));
            assert(orig =~= orig.subrange(0, 1) + orig.subrange(1, GRID_H as int));
            assert(grid@ =~= orig);
            assert(!full_below_top(orig)) by {
                if full_below_top(orig) {
                    let i = choose|i: int| 1 <= i < orig.len() && row_full(#[trigger] orig[i]);
                    assert(orig.subrange(1, GRID_H as int)[i - 1] == orig[i]);
                }
            }
        } else {
            assert(orig.subrange(0, GRID_H as int) =~= orig);
        }
        lemma_kept_len(orig.subrange(p, GRID_H as int));
        assert forall|yy: int| 1 <= yy < GRID_H implies !row_full(#[trigger] grid@[yy]) by {
            if p == 0 {
                if yy < c {
                    assert(grid@[yy][0] is None);
                } else {
                    let k = kept_rows(orig);
                    assert(grid@[yy] == grid@.subrange(c, GRID_H as int)[yy - c]);
                    lemma_kept_rows_not_full(orig, yy - c);
                }
            } else {
                if row_full(grid@[yy]) {
                    assert(orig.subrange(1, GRID_H as int)[yy - 1] == orig[yy]);
                    lemma_full_count_positive(orig.subrange(1, GRID_H as int));
                }
            }
        }
    }
    lines
}

proof fn lemma_kept_rows_not_full(s: Seq<Row>, i: int)
    requires
        0 <= i < kept_rows(s).len(),
    ensures
        !row_full(kept_rows(s)[i]),
    decreases s.len(),
{
    if s.len() > 0 {
        if row_full(s[0]) {
            lemma_kept_rows_not_full(s.drop_first(), i);
        } else if i > 0 {
            lemma_kept_rows_not_full(s.drop_first(), i - 1);
        }
    }
}


/// A row with no blocks.
pub open spec fn empty_row() -> Row {
    [None; GRID_W]
}

/// The row whose cell at column `c` is `f(c)`.
pub open spec fn row_from(f: spec_fn(int) -> Option<Tetromino>) -> Row {
    [f(0), f(1), f(2), f(3), f(4), f(5), f(6), f(7), f(8), f(9)]
}

proof fn lemma_placed_grid_cell(grid: Seq<Row>, x: int, y: int, s: Shape, piece: Tetromino, wy: int, wx: int)
    requires
        0 <= wy < grid.len(),
        0 <= wx < GRID_W,
    ensures
        placed_grid(grid, x, y, s, piece)[wy][wx] == if covers(x, y, s, wy, wx) {
            Some(piece)
        } else {
            grid[wy][wx]
        },
{
    if wx == 0 {
    } else if wx == 1 {
    } else if wx == 2 {
    } else if wx == 3 {
    } else if wx == 4 {
    } else if wx == 5 {
    } else if wx == 6 {
    } else if wx == 7 {
    } else if wx == 8 {
    } else {
        assert(wx == 9);
    }
}

proof fn lemma_empty_row()
    ensures
        row_empty(empty_row()),
{
    broadcast use vstd::array::group_array_axioms;
    assert forall|c: int| 0 <= c < GRID_W implies (#[trigger] empty_row()[c]) is None by {
        assert(empty_row()@[c] is None);
    }
}

/// The well after line clearing (see `cleared_well`).
pub open spec fn cleared(rows: Seq<Row>) -> Seq<Row> {
    if full_below_top(rows) {
        Seq::new(full_count(rows), |i: int| empty_row()) + kept_rows(rows)
    } else {
        rows
    }
}

/// How many rows line clearing removes from the well.
pub open spec fn lines_cleared(rows: Seq<Row>) -> nat {
    if full_below_top(rows) {
        full_count(rows)
    } else {
        0
    }
}

/// The well with the blocks of `s`, placed at column `x`, row `y`, written
/// into it as `piece`.
pub open spec fn placed_grid(grid: Seq<Row>, x: int, y: int, s: Shape, piece: Tetromino) -> Seq<Row> {
    Seq::new(
        grid.len(),
        |wy: int| row_from(|wx: int| if covers(x, y, s, wy, wx) { Some(piece) } else { grid[wy][wx] }),
    )
}

/// The row the piece comes to rest on when dropped straight down from row `y`.
pub open spec fn drop_to(grid: Seq<Row>, x: int, y: int, s: Shape) -> int
    decreases GRID_H - y,
{
    if y >= GRID_H || collides(grid, x, y + 1, s) {
        y
    } else {
        drop_to(grid, x, y + 1, s)
    }
}

proof fn lemma_cleared_well_is_cleared(before: Seq<Row>, after: Seq<Row>, lines: nat)
    requires
        cleared_well(before, after, lines),
    ensures
        after == cleared(before),
        lines == lines_cleared(before),
{
    if full_below_top(before) {
        let e = Seq::new(full_count(before), |i: int| empty_row());
        assert forall|i: int| 0 <= i < lines implies #[trigger] after[i] == e[i] by {
            assert(row_empty(after[i]));
            assert(after[i] =~= empty_row());
        }
        assert(after =~= after.subrange(0, lines as int) + after.subrange(lines as int, after.len() as int));
        assert(after =~= e + kept_rows(before));
    }
}

/// A quiet, checked picture of a Tetris game.
pub struct TetrisView {
    /// The locked blocks, top row first.
    pub grid: Seq<Row>,
    /// The falling piece.
    pub current: Tetromino,
    /// The falling piece in its present orientation.
    pub shape: Shape,
    /// Column of the falling piece's frame.
    pub x: i32,
    /// Row of the falling piece's frame.
    pub y: i32,
    /// The piece that falls after this one.
    pub next: Tetromino,
    pub score: u32,
    pub game_over: bool,
    /// Ticks since gravity last moved the piece.
    pub tick_counter: u32,
    /// Ticks between two gravity steps.
    pub fall_speed: u32,
}

impl TetrisView {
    /// A tick with this input moves the game on: it is not over and the
    /// input is not Quit. Only such a tick computes anything.
    pub open spec fn moves(self, input: Option<Input>) -> bool {
        input != Some(Input::Quit) && !self.game_over
    }

    /// The start of a game: an empty well, the falling piece in its spawn
    /// orientation at column 3 of the top row, no score, gravity every ten
    /// ticks. Which two pieces come first is left open.
    pub open spec fn started(self) -> bool {
        &&& self.wf()
        &&& self.grid.len() == GRID_H
        &&& forall|y: int| 0 <= y < GRID_H ==> row_empty(#[trigger] self.grid[y])
        &&& self.shape == shape_of(self.current)
        &&& self.x == 3 && self.y == 0
        &&& self.score == 0 && !self.game_over && self.tick_counter == 0 && self.fall_speed == 10
    }

    /// The shape fits in the well at column `x`, row `y`.
    pub open spec fn fits(self, x: int, y: int, s: Shape) -> bool {
        !collides(self.grid, x, y, s)
    }

    /// A 20-row well; a falling piece with at least one block that, unless
    /// the game is over, lies inside the well and on no locked block; a
    /// gravity interval that matches the score.
    pub open spec fn in_play(self) -> bool {
        &&& self.grid.len() == GRID_H
        &&& has_block(self.shape)
        &&& -3 <= self.x <= 9
        &&& 0 <= self.y <= 19
        &&& !self.game_over ==> self.fits(self.x as int, self.y as int, self.shape)
        &&& self.fall_speed == speed_for(self.score)
    }

    /// What every state between two ticks satisfies: `in_play`, and a tick
    /// counter below the slowest gravity interval.
    pub open spec fn wf(self) -> bool {
        &&& self.in_play()
        &&& self.tick_counter < 10
    }

    /// The next piece enters at the top; `fresh` becomes the one after it.
    /// The game is over if the new piece does not fit.
    pub open spec fn spawned(self, fresh: Tetromino) -> TetrisView {
        TetrisView {
            current: self.next,
            shape: shape_of(self.next),
            x: 3,
            y: 0,
            next: fresh,
            game_over: self.game_over || collides(self.grid, 3, 0, shape_of(self.next)),
            ..self
        }
    }

    /// The falling piece is written into the well, full rows are cleared
    /// and scored, the gravity interval follows the score, and the next
    /// piece spawns.
    pub open spec fn locked(self, fresh: Tetromino) -> TetrisView {
        let g = placed_grid(self.grid, self.x as int, self.y as int, self.shape, self.current);
        let score = (self.score + line_points(lines_cleared(g))) as u32;
        TetrisView { grid: cleared(g), score, fall_speed: speed_for(score), ..self }.spawned(fresh)
    }

    /// One gravity step: down one row if it fits, otherwise lock.
    pub open spec fn dropped(self, fresh: Tetromino) -> TetrisView {
        if self.fits(self.x as int, self.y + 1, self.shape) {
            TetrisView { y: (self.y + 1) as i32, ..self }
        } else {
            self.locked(fresh)
        }
    }

    /// What an input does before gravity runs.
    pub open spec fn after_input(self, input: Option<Input>, fresh: Tetromino) -> TetrisView {
        match input {
            Some(Input::Action) => TetrisView {
                y: drop_to(self.grid, self.x as int, self.y as int, self.shape) as i32,
                ..self
            }.locked(fresh),
            Some(Input::Up) => {
                let t = quarter_turn(self.shape);
                if !self.game_over && self.fits(self.x as int, self.y as int, t) {
                    TetrisView { shape: t, ..self }
                } else {
                    self
                }
            },
            Some(Input::Down) => if !self.game_over && self.fits(self.x as int, self.y + 1, self.shape) {
                TetrisView { y: (self.y + 1) as i32, ..self }
            } else {
                self
            },
            Some(Input::Left) => if !self.game_over && self.fits(self.x - 1, self.y as int, self.shape) {
                TetrisView { x: (self.x - 1) as i32, ..self }
            } else {
                self
            },
            Some(Input::Right) => if !self.game_over && self.fits(self.x + 1, self.y as int, self.shape) {
                TetrisView { x: (self.x + 1) as i32, ..self }
            } else {
                self
            },
            _ => self,
        }
    }

    /// The tick counter advances; when it reaches the gravity interval the
    /// piece takes a gravity step and the counter restarts.
    pub open spec fn after_gravity(self, fresh: Tetromino) -> TetrisView {
        if self.tick_counter + 1 >= self.fall_speed {
            TetrisView { tick_counter: 0, ..self.dropped(fresh) }
        } else {
            TetrisView { tick_counter: (self.tick_counter + 1) as u32, ..self }
        }
    }

    /// One tick with an optional input: the new state and what the engine
    /// is told. `fresh1` and `fresh2` are the pieces drawn, in order, by the
    /// at most two spawns that the tick can cause.
    pub open spec fn ticked(self, input: Option<Input>, fresh1: Tetromino, fresh2: Tetromino) -> (TetrisView, GameState) {
        if input == Some(Input::Quit) {
            (self, GameState::QuitToShell)
        } else if input == Some(Input::Action) && self.game_over {
            (self, GameState::GameOver { score: self.score })
        } else {
            let v = self.after_input(input, fresh1);
            if v.game_over {
                (v, GameState::Running)
            } else {
                let first = if input == Some(Input::Action) { fresh2 } else { fresh1 };
                (v.after_gravity(first), GameState::Running)
            }
        }
    }
}

/// Draws one of the seven pieces at random.
fn random_piece() -> Tetromino {
    piece_at(random_below(7))
}

/// The piece at position `i` of I, J, L, O, S, T, Z.
pub fn piece_at(i: usize) -> (t: Tetromino)
    requires
        i < 7,
    ensures
        t == [Tetromino::I, Tetromino::J, Tetromino::L, Tetromino::O, Tetromino::S, Tetromino::T, Tetromino::Z]@[i as int],
{
    let pieces = [Tetromino::I, Tetromino::J, Tetromino::L, Tetromino::O, Tetromino::S, Tetromino::T, Tetromino::Z];
    pieces[i]
}

/// Points for `lines` rows cleared at once.
pub fn points_for(lines: u32) -> (p: u32)
    ensures
        p == line_points(lines as nat),
{
    match lines {
        1 => 100,
        2 => 300,
        3 => 500,
        4 => 800,
        _ => 0,
    }
}

/// Ticks between two gravity steps at a given score.
pub fn speed_at(score: u32) -> (s: u32)
    ensures
        s == speed_for(score),
{
    if score <= 499 {
        10
    } else if score <= 999 {
        9
    } else if score <= 1499 {
        8
    } else if score <= 1999 {
        7
    } else if score <= 2999 {
        6
    } else if score <= 3999 {
        5
    } else if score <= 5999 {
        4
    } else if score <= 8999 {
        3
    } else {
        2
    }
}

proof fn lemma_fit_bounds(grid: Seq<Row>, x: int, y: int, s: Shape)
    requires
        has_block(s),
        !collides(grid, x, y, s),
    ensures
        -3 <= x <= 9,
        y <= 19,
{
    let (r, c) = choose|r: int, c: int| 0 <= r < 4 && 0 <= c < 4 && #[trigger] s[r][c] != 0;
    assert(!cell_blocked(grid, x, y, s, r, c));
}

proof fn lemma_drop_to(grid: Seq<Row>, x: int, y: int, s: Shape)
    requires
        has_block(s),
        !collides(grid, x, y, s),
    ensures
        y <= drop_to(grid, x, y, s) <= 19,
        !collides(grid, x, drop_to(grid, x, y, s), s),
        collides(grid, x, drop_to(grid, x, y, s) + 1, s),
    decreases GRID_H - y,
{
    lemma_fit_bounds(grid, x, y, s);
    if !collides(grid, x, y + 1, s) {
        lemma_drop_to(grid, x, y + 1, s);
    }
}

proof fn lemma_spawned_wf(v: TetrisView, k: Tetromino)
    requires
        v.grid.len() == GRID_H,
        v.fall_speed == speed_for(v.score),
    ensures
        v.spawned(k).in_play(),
{
    let s = shape_of(v.next);
    assert(s[1][1] != 0);
}

proof fn lemma_locked_wf(v: TetrisView, k: Tetromino)
    requires
        v.in_play(),
    ensures
        v.locked(k).in_play(),
        v.locked(k).tick_counter == v.tick_counter,
        v.locked(k).score <= v.score + 800,
{
    let g = placed_grid(v.grid, v.x as int, v.y as int, v.shape, v.current);
    lemma_kept_len(g);
    let score = (v.score + line_points(lines_cleared(g))) as u32;
    lemma_spawned_wf(TetrisView { grid: cleared(g), score, fall_speed: speed_for(score), ..v }, k);
}

/// A game of Tetris.
pub struct TetrisGame {
    grid: Vec<Row>,
    current: Tetromino,
    current_shape: Shape,
    current_x: i32,
    current_y: i32,
    next: Tetromino,
    score: u32,
    game_over: bool,
    tick_counter: u32,
    fall_speed: u32,
}

impl View for TetrisGame {
    type V = TetrisView;

    closed spec fn view(&self) -> TetrisView {
        TetrisView {
            grid: self.grid@,
            current: self.current,
            shape: self.current_shape,
            x: self.current_x,
            y: self.current_y,
            next: self.next,
            score: self.score,
            game_over: self.game_over,
            tick_counter: self.tick_counter,
            fall_speed: self.fall_speed,
        }
    }
}

impl TetrisGame {
    /// A new game with two random pieces: the falling one and the next.
    pub fn new() -> (g: Self)
        ensures
            g@.started(),
    {
        let current = random_piece();
        let next = random_piece();
        Self::with_pieces(current, next)
    }

    /// A new game whose falling piece is `current` and whose next piece is `next`.
    pub fn with_pieces(current: Tetromino, next: Tetromino) -> (g: Self)
        ensures
            g@.started(),
            g@.current == current,
            g@.next == next,
    {
        let empty: Row = [None; GRID_W];
        proof {
            lemma_empty_row();
        }
        let mut grid: Vec<Row> = Vec::new();
        let mut i: usize = 0;
        while i < GRID_H
            invariant
                i <= GRID_H,
                grid@.len() == i,
                row_empty(empty),
                forall|y: int| 0 <= y < i ==> row_empty(#[trigger] grid@[y]),
            decreases GRID_H - i,
        {
            grid.push(empty);
            i = i + 1;
        }
        let current_shape = current.shape();
        let g = TetrisGame {
            grid,
            current,
            current_shape,
            current_x: 3,
            current_y: 0,
            next,
            score: 0,
            game_over: false,
            tick_counter: 0,
            fall_speed: 10,
        };
        proof {
            if collides(g.grid@, 3, 0, current_shape) {
                let (r, c) = choose|r: int, c: int|
                    0 <= r < 4 && 0 <= c < 4 && #[trigger] cell_blocked(g.grid@, 3, 0, current_shape, r, c);
                assert(row_empty(g.grid@[r]));
                assert(g.grid@[r][3 + c] is None);
            }
        }
        g
    }

    /// The next piece spawns, with `fresh` as the piece after it.
    fn spawn_with(&mut self, fresh: Tetromino)
        requires
            old(self).grid@.len() == GRID_H,
        ensures
            final(self)@ == old(self)@.spawned(fresh),
    {
        self.current = self.next;
        self.next = fresh;
        self.current_shape = self.current.shape();
        self.current_x = 3;
        self.current_y = 0;
        if check_collision(&self.grid, self.current_x, self.current_y, &self.current_shape) {
            self.game_over = true;
        }
    }

    /// The next piece spawns, with `fresh` after it or, without one, a
    /// random piece.
    fn spawn(&mut self, fresh: Option<Tetromino>)
        requires
            old(self).grid@.len() == GRID_H,
        ensures
            exists|k: Tetromino| final(self)@ == old(self)@.spawned(k),
            fresh matches Some(k) ==> final(self)@ == old(self)@.spawned(k),
    {
        let k = match fresh {
            Some(k) => k,
            None => random_piece(),
        };
        self.spawn_with(k);
    }

    /// Writes the falling piece into the well.
    fn place_piece(&mut self)
        requires
            old(self)@.in_play(),
            !old(self)@.game_over,
        ensures
            final(self)@ == (TetrisView {
                grid: placed_grid(
                    old(self)@.grid,
                    old(self)@.x as int,
                    old(self)@.y as int,
                    old(self)@.shape,
                    old(self)@.current,
                ),
                ..old(self)@
            }),
    {
        let ghost before = self.grid@;
        let ghost pre = self@;
        let ghost x = self.current_x as int;
        let ghost y0 = self.current_y as int;
        let ghost s = self.current_shape;
        let piece = self.current;
        let mut r: usize = 0;
        while r < 4
            invariant
                r <= 4,
                self@ == (TetrisView { grid: self.grid@, ..pre }),
                self.grid@.len() == GRID_H,
                before.len() == GRID_H,
                x == self.current_x,
                y0 == self.current_y,
                s == self.current_shape,
                piece == self.current,
                0 <= y0 <= 19,
                !collides(before, x, y0, s),
                forall|wy: int, wx: int|
                    0 <= wy < GRID_H && 0 <= wx < GRID_W ==> #[trigger] self.grid@[wy][wx] == if covers(x, y0, s, wy, wx)
                        && (wy - y0) * 4 + (wx - x) < r * 4 {
                        Some(piece)
                    } else {
                        before[wy][wx]
                    },
            decreases 4 - r,
        {
            let mut c: usize = 0;
            while c < 4
                invariant
                    r < 4,
                    c <= 4,
                    self@ == (TetrisView { grid: self.grid@, ..pre }),
                    self.grid@.len() == GRID_H,
                    before.len() == GRID_H,
                    x == self.current_x,
                    y0 == self.current_y,
                    s == self.current_shape,
                    piece == self.current,
                    0 <= y0 <= 19,
                    !collides(before, x, y0, s),
                    forall|wy: int, wx: int|
                        0 <= wy < GRID_H && 0 <= wx < GRID_W ==> #[trigger] self.grid@[wy][wx] == if covers(x, y0, s, wy, wx)
                            && (wy - y0) * 4 + (wx - x) < r * 4 + c {
                            Some(piece)
                        } else {
                            before[wy][wx]
                        },
                decreases 4 - c,
            {
                if self.current_shape[r][c] != 0 {
                    let map_x: i64 = self.current_x as i64 + c as i64;
                    let map_y: i64 = self.current_y as i64 + r as i64;
                    assert(!cell_blocked(before, x, y0, s, r as int, c as int));
                    if map_y >= 0 && map_y < GRID_H as i64 && map_x >= 0 && map_x < GRID_W as i64 {
                        let my = map_y as usize;
                        let mx = map_x as usize;
                        let mut row = self.grid[my];
                        row[mx] = Some(piece);
                        self.grid.set(my, row);
                    }
                }
                c = c + 1;
            }
            r = r + 1;
        }
        proof {
            let target = placed_grid(before, x, y0, s, piece);
            assert forall|wy: int| 0 <= wy < GRID_H implies #[trigger] self.grid@[wy] == target[wy] by {
                assert forall|wx: int| 0 <= wx < GRID_W implies self.grid@[wy][wx] == #[trigger] target[wy][wx] by {
                    lemma_placed_grid_cell(before, x, y0, s, piece, wy, wx);
                }
                assert(self.grid@[wy] =~= target[wy]);
            }
            assert(self.grid@ =~= target);
        }
    }

    /// Locks the falling piece, clears and scores full rows, and spawns the
    /// next piece.
    fn lock_piece(&mut self, fresh: Option<Tetromino>)
        requires
            old(self)@.in_play(),
            !old(self)@.game_over,
            old(self)@.score <= u32::MAX - 800,
        ensures
            exists|k: Tetromino| final(self)@ == old(self)@.locked(k),
            fresh matches Some(k) ==> final(self)@ == old(self)@.locked(k),
    {
        let ghost pre = self@;
        self.place_piece();
        let ghost g = self.grid@;
        let lines = clear_full_rows(&mut self.grid);
        proof {
            lemma_cleared_well_is_cleared(g, self.grid@, lines as nat);
        }
        let points = points_for(lines);
        self.score = self.score + points;
        self.fall_speed = speed_at(self.score);
        let ghost mid = self@;
        self.spawn(fresh);
        proof {
            let k = choose|k: Tetromino| self@ == mid.spawned(k);
            assert(self@ == pre.locked(k));
            if let Some(f) = fresh {
                assert(self@ == pre.locked(f));
            }
        }
    }

    /// One gravity step.
    fn drop_piece(&mut self, fresh: Option<Tetromino>)
        requires
            old(self)@.in_play(),
            !old(self)@.game_over,
            old(self)@.score <= u32::MAX - 800,
        ensures
            exists|k: Tetromino| final(self)@ == old(self)@.dropped(k),
            fresh matches Some(k) ==> final(self)@ == old(self)@.dropped(k),
    {
        let ghost pre = self@;
        if !check_collision(&self.grid, self.current_x, self.current_y + 1, &self.current_shape) {
            self.current_y = self.current_y + 1;
            assert(self@ == pre.dropped(Tetromino::I));
            if let Some(f) = fresh {
                assert(self@ == pre.dropped(f));
            }
        } else {
            self.lock_piece(fresh);
            proof {
                let k = choose|k: Tetromino| self@ == pre.locked(k);
                assert(self@ == pre.dropped(k));
                if let Some(f) = fresh {
                    assert(self@ == pre.dropped(f));
                }
            }
        }
    }

    /// Advances the game by one tick, handling at most one input. Quit
    /// always returns to the shell; Action once the game is over reports
    /// the final score; otherwise the input moves, turns, soft-drops or
    /// hard-drops the piece, and gravity runs unless the game is over.
    /// Which pieces the (at most two) spawns of the tick draw is chance.
    pub fn tick(&mut self, input: Option<Input>) -> (r: GameState)
        requires
            old(self)@.wf(),
            old(self)@.moves(input) ==> old(self)@.score <= u32::MAX - 1600,
        ensures
            final(self)@.wf(),
            !final(self)@.game_over ==> !collides(final(self)@.grid, final(self)@.x as int, final(self)@.y as int, final(self)@.shape),
            exists|k1: Tetromino, k2: Tetromino| (final(self)@, r) == old(self)@.ticked(input, k1, k2),
    {
        self.step_game(input, None)
    }

    /// One tick as `tick` makes it, with the pieces that its spawns draw
    /// given: `fresh1` for the first spawn, `fresh2` for a second one
    /// (which only a hard drop followed by gravity can make).
    pub fn tick_with(&mut self, input: Option<Input>, fresh1: Tetromino, fresh2: Tetromino) -> (r: GameState)
        requires
            old(self)@.wf(),
            old(self)@.moves(input) ==> old(self)@.score <= u32::MAX - 1600,
        ensures
            final(self)@.wf(),
            !final(self)@.game_over ==> !collides(final(self)@.grid, final(self)@.x as int, final(self)@.y as int, final(self)@.shape),
            (final(self)@, r) == old(self)@.ticked(input, fresh1, fresh2),
    {
        self.step_game(input, Some((fresh1, fresh2)))
    }

    /// Moves, turns, soft-drops or hard-drops the falling piece as the
    /// input asks; a hard drop locks it and spawns `fresh` (or a random
    /// piece) as the piece after next.
    fn apply_input(&mut self, input: Option<Input>, fresh: Option<Tetromino>)
        requires
            old(self)@.wf(),
            old(self)@.score <= u32::MAX - 1600,
            input != Some(Input::Quit),
            input == Some(Input::Action) ==> !old(self)@.game_over,
        ensures
            final(self)@.wf(),
            exists|k: Tetromino| final(self)@ == old(self)@.after_input(input, k),
            fresh matches Some(k) ==> final(self)@ == old(self)@.after_input(input, k),
    {
        let ghost pre = self@;
        match input {
            Some(Input::Action) => {
                proof {
                    lemma_drop_to(self.grid@, self.current_x as int, self.current_y as int, self.current_shape);
                }
                let ghost target = drop_to(self.grid@, self.current_x as int, self.current_y as int, self.current_shape);
                while !check_collision(&self.grid, self.current_x, self.current_y + 1, &self.current_shape)
                    invariant
                        self@ == (TetrisView { y: self.current_y, ..pre }),
                        pre.wf(),
                        !pre.game_over,
                        pre.y <= self.current_y <= target <= 19,
                        !collides(pre.grid, pre.x as int, self.current_y as int, pre.shape),
                        drop_to(pre.grid, pre.x as int, self.current_y as int, pre.shape) == target,
                    decreases 19 - self.current_y,
                {
                    proof {
                        lemma_fit_bounds(pre.grid, pre.x as int, self.current_y + 1, pre.shape);
                        lemma_drop_to(pre.grid, pre.x as int, self.current_y + 1, pre.shape);
                    }
                    self.current_y = self.current_y + 1;
                }
                let ghost dropped_view = self@;
                self.lock_piece(fresh);
                proof {
                    let k = choose|k: Tetromino| self@ == dropped_view.locked(k);
                    lemma_locked_wf(dropped_view, k);
                    assert(self@ == pre.after_input(input, k));
                    if let Some(f) = fresh {
                        lemma_locked_wf(dropped_view, f);
                        assert(self@ == pre.after_input(input, f));
                    }
                }
            },
            Some(Input::Up) => {
                if !self.game_over {
                    self.rotate();
                    proof {
                        rotate_keeps_block(pre.shape);
                        if pre.fits(pre.x as int, pre.y as int, quarter_turn(pre.shape)) {
                            lemma_fit_bounds(pre.grid, pre.x as int, pre.y as int, quarter_turn(pre.shape));
                        }
                    }
                }
            },
            Some(Input::Down) => {
                if !self.game_over && !check_collision(&self.grid, self.current_x, self.current_y + 1, &self.current_shape) {
                    proof {
                        lemma_fit_bounds(pre.grid, pre.x as int, pre.y + 1, pre.shape);
                    }
                    self.current_y = self.current_y + 1;
                }
            },
            Some(Input::Left) => {
                if !self.game_over && !check_collision(&self.grid, self.current_x - 1, self.current_y, &self.current_shape) {
                    proof {
                        lemma_fit_bounds(pre.grid, pre.x - 1, pre.y as int, pre.shape);
                    }
                    self.current_x = self.current_x - 1;
                }
            },
            Some(Input::Right) => {
                if !self.game_over && !check_collision(&self.grid, self.current_x + 1, self.current_y, &self.current_shape) {
                    proof {
                        lemma_fit_bounds(pre.grid, pre.x + 1, pre.y as int, pre.shape);
                    }
                    self.current_x = self.current_x + 1;
                }
            },
            _ => {},
        }
        proof {
            if input != Some(Input::Action) {
                assert(self@ == pre.after_input(input, Tetromino::I));
                if let Some(f) = fresh {
                    assert(self@ == pre.after_input(input, f));
                }
            }
        }
    }

    /// One tick of gravity: at the fall interval the piece drops a row or,
    /// resting, locks; the spawn after a lock draws `fresh` (or a random
    /// piece).
    fn apply_gravity(&mut self, fresh: Option<Tetromino>)
        requires
            old(self)@.wf(),
            !old(self)@.game_over,
            old(self)@.score <= u32::MAX - 800,
        ensures
            final(self)@.wf(),
            exists|k: Tetromino| final(self)@ == old(self)@.after_gravity(k),
            fresh matches Some(k) ==> final(self)@ == old(self)@.after_gravity(k),
    {
        let ghost pre = self@;
        self.tick_counter = self.tick_counter + 1;
        if self.tick_counter >= self.fall_speed {
            let ghost counted = self@;
            self.drop_piece(fresh);
            let ghost dropped = self@;
            self.tick_counter = 0;
            proof {
                let k = match fresh {
                    Some(f) => f,
                    None => choose|k: Tetromino| dropped == counted.dropped(k),
                };
                if counted.fits(counted.x as int, counted.y + 1, counted.shape) {
                    lemma_fit_bounds(counted.grid, counted.x as int, counted.y + 1, counted.shape);
                } else {
                    lemma_locked_wf(counted, k);
                }
                assert(self@ == pre.after_gravity(k));
                if let Some(f) = fresh {
                    assert(self@ == pre.after_gravity(f));
                }
            }
        } else {
            assert(self@ == pre.after_gravity(Tetromino::I));
            if let Some(f) = fresh {
                assert(self@ == pre.after_gravity(f));
            }
        }
    }

    fn step_game(&mut self, input: Option<Input>, fresh: Option<(Tetromino, Tetromino)>) -> (r: GameState)
        requires
            old(self)@.wf(),
            old(self)@.moves(input) ==> old(self)@.score <= u32::MAX - 1600,
        ensures
            final(self)@.wf(),
            exists|k1: Tetromino, k2: Tetromino| (final(self)@, r) == old(self)@.ticked(input, k1, k2),
            fresh matches Some((f1, f2)) ==> (final(self)@, r) == old(self)@.ticked(input, f1, f2),
    {
        let ghost pre = self@;
        let first: Option<Tetromino> = match fresh {
            Some((f1, _)) => Some(f1),
            None => None,
        };
        let ghost mut k1 = match fresh {
            Some((f1, _)) => f1,
            None => Tetromino::I,
        };
        let ghost k2_given = match fresh {
            Some((_, f2)) => f2,
            None => Tetromino::I,
        };
        match input {
            Some(Input::Quit) => {
                assert((self@, GameState::QuitToShell) == pre.ticked(input, k1, k2_given));
                return GameState::QuitToShell;
            },
            Some(Input::Action) => {
                if self.game_over {
                    assert((self@, GameState::GameOver { score: self.score }) == pre.ticked(input, k1, k2_given));
                    return GameState::GameOver { score: self.score };
                }
            },
            _ => {},
        }
        if self.game_over {
            assert(pre.after_input(input, k1) == pre);
            assert((self@, GameState::Running) == pre.ticked(input, k1, k2_given));
            return GameState::Running;
        }
        self.apply_input(input, first);
        proof {
            if fresh is None {
                k1 = choose|k: Tetromino| self@ == pre.after_input(input, k);
            }
        }
        let ghost mid = self@;
        assert(mid == pre.after_input(input, k1));
        assert(mid.wf());
        if self.game_over {
            assert((self@, GameState::Running) == pre.ticked(input, k1, k2_given));
            return GameState::Running;
        }
        let later: Option<Tetromino> = match fresh {
            Some((f1, f2)) => match input {
                Some(Input::Action) => Some(f2),
                _ => Some(f1),
            },
            None => None,
        };
        self.apply_gravity(later);
        let ghost k2 = match later {
            Some(f) => f,
            None => choose|k: Tetromino| self@ == mid.after_gravity(k),
        };
        proof {
            if input == Some(Input::Action) {
                assert((self@, GameState::Running) == pre.ticked(input, k1, k2));
            } else {
                assert((self@, GameState::Running) == pre.ticked(input, k2, k2_given));
            }
        }
        GameState::Running
    }

    /// The game's name as the score file records it.
    pub fn name(&self) -> (r: &'static str)
        ensures
            r@ == "Tetris"@,
    {
        "Tetris"
    }

    /// Starts over with a fresh game.
    pub fn reset(&mut self)
        ensures
            final(self)@.started(),
    {
        *self = TetrisGame::new();
    }

    /// Whether a tick with this input cannot overflow the score: only a
    /// tick that moves the piece can score, at most two four-row clears.
    pub fn can_tick(&self, input: Option<Input>) -> (r: bool)
        ensures
            r == (self@.moves(input) ==> self@.score <= u32::MAX - 1600),
    {
        !(input != Some(Input::Quit) && !self.game_over) || self.score <= u32::MAX - 1600
    }

    pub fn score(&self) -> (r: u32)
        ensures
            r == self@.score,
    {
        self.score
    }

    pub fn is_game_over(&self) -> (r: bool)
        ensures
            r == self@.game_over,
    {
        self.game_over
    }

    /// Ticks between two gravity steps.
    pub fn fall_speed(&self) -> (r: u32)
        ensures
            r == self@.fall_speed,
    {
        self.fall_speed
    }

    /// The speed level shown to the player: 1 at the slowest interval.
    pub fn speed_level(&self) -> (r: u32)
        requires
            self@.wf(),
        ensures
            r == 11 - self@.fall_speed,
    {
        11 - self.fall_speed
    }

    /// The locked block at row `y`, column `x`.
    pub fn cell(&self, y: usize, x: usize) -> (r: Option<Tetromino>)
        requires
            self@.wf(),
            y < GRID_H,
            x < GRID_W,
        ensures
            r == self@.grid[y as int][x as int],
    {
        self.grid[y][x]
    }

    /// The falling piece.
    pub fn current(&self) -> (r: Tetromino)
        ensures
            r == self@.current,
    {
        self.current
    }

    /// The falling piece in its present orientation.
    pub fn current_shape(&self) -> (r: Shape)
        ensures
            r == self@.shape,
    {
        self.current_shape
    }

    /// Column and row of the falling piece's frame.
    pub fn position(&self) -> (r: (i32, i32))
        ensures
            r == (self@.x, self@.y),
    {
        (self.current_x, self.current_y)
    }

    /// The piece that falls after this one.
    pub fn next_piece(&self) -> (r: Tetromino)
        ensures
            r == self@.next,
    {
        self.next
    }

    /// Turns the falling piece a quarter clockwise if it fits that way.
    fn rotate(&mut self)
        requires
            old(self)@.wf(),
        ensures
            final(self)@ == (if old(self)@.fits(old(self)@.x as int, old(self)@.y as int, quarter_turn(old(self)@.shape)) {
                TetrisView { shape: quarter_turn(old(self)@.shape), ..old(self)@ }
            } else {
                old(self)@
            }),
    {
        let new_shape = rotate_shape(&self.current_shape);
        if !check_collision(&self.grid, self.current_x, self.current_y, &new_shape) {
            self.current_shape = new_shape;
        }
    }
}


/// Once a game is over, ticks change nothing: Quit returns to the shell,
/// Action reports the final score, any other input leaves the game running
/// as it is.
pub proof fn lemma_game_over_is_final(v: TetrisView, input: Option<Input>, k1: Tetromino, k2: Tetromino)
    requires
        v.wf(),
        v.game_over,
    ensures
        v.ticked(input, k1, k2).0 == v,
        v.ticked(input, k1, k2).1 == if input == Some(Input::Quit) {
            GameState::QuitToShell
        } else if input == Some(Input::Action) {
            GameState::GameOver { score: v.score }
        } else {
            GameState::Running
        },
{
}

/// A tick never lowers the score, and each tick adds at most the points of
/// two four-row clears.
pub proof fn lemma_score_never_decreases(v: TetrisView, input: Option<Input>, k1: Tetromino, k2: Tetromino)
    requires
        v.wf(),
        v.moves(input) ==> v.score <= u32::MAX - 1600,
    ensures
        v.score <= v.ticked(input, k1, k2).0.score <= v.score + 1600,
{
    let w = v.after_input(input, k1);
    if input == Some(Input::Action) && !v.game_over {
        lemma_drop_to(v.grid, v.x as int, v.y as int, v.shape);
        let d = TetrisView { y: drop_to(v.grid, v.x as int, v.y as int, v.shape) as i32, ..v };
        lemma_locked_wf(d, k1);
    }
    if !w.game_over && w.tick_counter + 1 >= w.fall_speed && !w.fits(w.x as int, w.y + 1, w.shape) {
        let first = if input == Some(Input::Action) { k2 } else { k1 };
        if input == Some(Input::Action) {
            lemma_locked_wf(TetrisView { y: drop_to(v.grid, v.x as int, v.y as int, v.shape) as i32, ..v }, k1);
        }
        assert(w.in_play()) by {
            if input == Some(Input::Up) {
                rotate_keeps_block(v.shape);
                if v.fits(v.x as int, v.y as int, quarter_turn(v.shape)) {
                    lemma_fit_bounds(v.grid, v.x as int, v.y as int, quarter_turn(v.shape));
                }
            } else if input == Some(Input::Down) && v.fits(v.x as int, v.y + 1, v.shape) {
                lemma_fit_bounds(v.grid, v.x as int, v.y + 1, v.shape);
            } else if input == Some(Input::Left) && v.fits(v.x - 1, v.y as int, v.shape) {
                lemma_fit_bounds(v.grid, v.x - 1, v.y as int, v.shape);
            } else if input == Some(Input::Right) && v.fits(v.x + 1, v.y as int, v.shape) {
                lemma_fit_bounds(v.grid, v.x + 1, v.y as int, v.shape);
            }
        }
        lemma_locked_wf(w, first);
    }
}

/// Q or Esc returns to the shell at once, whatever the state, and leaves
/// the game as it was.
pub proof fn lemma_quit_returns_to_shell(v: TetrisView, k1: Tetromino, k2: Tetromino)
    ensures
        v.ticked(Some(Input::Quit), k1, k2) == (v, GameState::QuitToShell),
{
}


/// Locking a piece scores by the rows it clears at once: 100 for one row,
/// 300 for two, 500 for three, 800 for four, nothing otherwise. The rows
/// cleared are the full rows of the well with the piece written in, once
/// one of them lies below the top row; the well then holds as many empty
/// rows on top, and the other rows in their order below them.
pub proof fn lemma_lock_scores_cleared_rows(v: TetrisView, fresh: Tetromino)
    requires
        v.in_play(),
        !v.game_over,
        v.score <= u32::MAX - 800,
    ensures
        ({
            let g = placed_grid(v.grid, v.x as int, v.y as int, v.shape, v.current);
            let n: nat = if exists|y: int| 1 <= y < g.len() && row_full(#[trigger] g[y]) { full_count(g) } else { 0 };
            let w = v.locked(fresh);
            &&& w.score == v.score + if n == 1 {
                100int
            } else if n == 2 {
                300int
            } else if n == 3 {
                500int
            } else if n == 4 {
                800int
            } else {
                0int
            }
            &&& w.grid.len() == g.len()
            &&& n <= g.len()
            &&& forall|y: int| 0 <= y < n ==> row_empty(#[trigger] w.grid[y])
            &&& w.grid.subrange(n as int, g.len() as int) == if n > 0 { kept_rows(g) } else { g }
        }),
{
    let g = placed_grid(v.grid, v.x as int, v.y as int, v.shape, v.current);
    lemma_kept_len(g);
    let n = lines_cleared(g);
    let w = v.locked(fresh);
    assert(w.grid == cleared(g));
    assert(w.score == v.score + line_points(n));
    if full_below_top(g) {
        let y = choose|y: int| 1 <= y < g.len() && row_full(#[trigger] g[y]);
        lemma_full_count_positive(g);
        let c = cleared(g);
        assert(c.subrange(n as int, g.len() as int) =~= kept_rows(g));
        assert forall|y: int| 0 <= y < n implies row_empty(#[trigger] c[y]) by {
            lemma_empty_row();
        }
    } else {
        assert(g.subrange(0, g.len() as int) =~= g);
    }
}


/// Gravity speeds up with the score: a step every 10 ticks below 500
/// points, 9 below 1000, 8 below 1500, 7 below 2000, 6 below 3000, 5 below
/// 4000, 4 below 6000, 3 below 9000, and every 2 ticks from 9000 on; a
/// lock sets the speed for the score it reaches.
pub proof fn lemma_gravity_speeds_up(v: TetrisView, fresh: Tetromino, score: u32)
    ensures
        score < 500 ==> speed_for(score) == 10,
        500 <= score < 1000 ==> speed_for(score) == 9,
        1000 <= score < 1500 ==> speed_for(score) == 8,
        1500 <= score < 2000 ==> speed_for(score) == 7,
        2000 <= score < 3000 ==> speed_for(score) == 6,
        3000 <= score < 4000 ==> speed_for(score) == 5,
        4000 <= score < 6000 ==> speed_for(score) == 4,
        6000 <= score < 9000 ==> speed_for(score) == 3,
        9000 <= score ==> speed_for(score) == 2,
        v.locked(fresh).fall_speed == speed_for(v.locked(fresh).score),
{
}


/// While the game goes on, Left, Right and Down move the falling piece a
/// column left, a column right or a row down when it fits there, and
/// leave it otherwise; Up turns it a quarter clockwise when the turned
/// piece fits, and leaves it otherwise. None of them touches the well or
/// the score.
pub proof fn lemma_piece_moves(v: TetrisView, fresh: Tetromino)
    requires
        v.in_play(),
        !v.game_over,
    ensures
        ({
            let l = v.after_input(Some(Input::Left), fresh);
            let r = v.after_input(Some(Input::Right), fresh);
            let d = v.after_input(Some(Input::Down), fresh);
            let u = v.after_input(Some(Input::Up), fresh);
            &&& l.x == if !collides(v.grid, v.x - 1, v.y as int, v.shape) { v.x - 1 } else { v.x as int }
            &&& r.x == if !collides(v.grid, v.x + 1, v.y as int, v.shape) { v.x + 1 } else { v.x as int }
            &&& d.y == if !collides(v.grid, v.x as int, v.y + 1, v.shape) { v.y + 1 } else { v.y as int }
            &&& l.y == v.y && r.y == v.y && d.x == v.x && u.x == v.x && u.y == v.y
            &&& l.shape == v.shape && r.shape == v.shape && d.shape == v.shape
            &&& if !collides(v.grid, v.x as int, v.y as int, quarter_turn(v.shape)) {
                is_quarter_turn(v.shape, u.shape)
            } else {
                u.shape == v.shape
            }
            &&& l.grid == v.grid && r.grid == v.grid && d.grid == v.grid && u.grid == v.grid
            &&& l.score == v.score && r.score == v.score && d.score == v.score && u.score == v.score
        }),
{
    let t = quarter_turn(v.shape);
    assert forall|r: int, c: int| 0 <= r < 4 && 0 <= c < 4 implies #[trigger] t[r][c] == v.shape[3 - c][r] by {
        if r == 0 {
        } else if r == 1 {
        } else if r == 2 {
        } else {
        }
    }
}

/// A hard drop locks the piece in the lowest row it reaches falling
/// straight down: a row where it fits, with the row below blocked.
pub proof fn lemma_hard_drop_lands(v: TetrisView, fresh: Tetromino)
    requires
        v.in_play(),
        !v.game_over,
    ensures
        exists|d: int|
            v.y <= d <= 19 && !#[trigger] collides(v.grid, v.x as int, d, v.shape) && collides(v.grid, v.x as int, d + 1, v.shape)
                && v.after_input(Some(Input::Action), fresh) == (TetrisView { y: d as i32, ..v }).locked(fresh),
{
    lemma_drop_to(v.grid, v.x as int, v.y as int, v.shape);
    let d = drop_to(v.grid, v.x as int, v.y as int, v.shape);
    assert(v.after_input(Some(Input::Action), fresh) == (TetrisView { y: d as i32, ..v }).locked(fresh));
}


/// Gravity counts ticks: until the fall interval is reached the piece
/// stays and the count goes up by one; at the interval the count restarts
/// and the piece drops a row if it fits there, or else locks.
pub proof fn lemma_gravity_steps(v: TetrisView, fresh: Tetromino)
    requires
        v.in_play(),
        !v.game_over,
    ensures
        ({
            let w = v.after_gravity(fresh);
            if v.tick_counter + 1 < v.fall_speed {
                &&& w.tick_counter == v.tick_counter + 1
                &&& w.x == v.x && w.y == v.y && w.shape == v.shape && w.grid == v.grid && w.score == v.score
            } else if !collides(v.grid, v.x as int, v.y + 1, v.shape) {
                &&& w.tick_counter == 0
                &&& w.y == v.y + 1
                &&& w.x == v.x && w.shape == v.shape && w.grid == v.grid && w.score == v.score
            } else {
                w == (TetrisView { tick_counter: 0, ..v.locked(fresh) })
            }
        }),
{
}

} // verus!
