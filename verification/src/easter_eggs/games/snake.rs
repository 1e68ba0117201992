//! Snake: a snake on a wrap-around board that grows when it eats and dies
//! when it runs into itself.

use std::collections::VecDeque;

use vstd::prelude::*;

use crate::easter_eggs::engine::game::{play_area, spec_play_area, GameState, Input};
use crate::random::random_below;

verus! {

broadcast use vstd::std_specs::vecdeque::group_vec_dequeue_axioms;

/// Cardinal direction the snake is currently heading.
#[derive(Debug, Clone, Copy, PartialEq, Eq, Structural)]
pub enum Direction {
    Up,
    Down,
    Left,
    Right,
}

/// The direction pointing the other way.
pub open spec fn opposite_of(d: Direction) -> Direction {
    match d {
        Direction::Up => Direction::Down,
        Direction::Down => Direction::Up,
        Direction::Left => Direction::Right,
        Direction::Right => Direction::Left,
    }
}

impl Direction {
    /// Returns the opposite direction (used to prevent 180 degree reversal).
    pub fn opposite(self) -> (r: Direction)
        ensures
            r == opposite_of(self),
    {
        match self {
            Direction::Up => Direction::Down,
            Direction::Down => Direction::Up,
            Direction::Left => Direction::Right,
            Direction::Right => Direction::Left,
        }
    }
}

/// The cells (`x`, `y`) with `x < n` of row `y` that the body does not
/// occupy, left to right.
pub open spec fn free_in_row(body: Seq<(u16, u16)>, y: u16, n: int) -> Seq<(u16, u16)>
    decreases n,
{
    if n <= 0 {
        Seq::empty()
    } else {
        let rest = free_in_row(body, y, n - 1);
        let cell = ((n - 1) as u16, y);
        if body.contains(cell) {
            rest
        } else {
            rest.push(cell)
        }
    }
}

/// The cells of the first `rows` rows of a board `w` cells wide that the
/// body does not occupy, row by row, each row left to right.
pub open spec fn free_in_rows(body: Seq<(u16, u16)>, w: u16, rows: int) -> Seq<(u16, u16)>
    decreases rows,
{
    if rows <= 0 {
        Seq::empty()
    } else {
        free_in_rows(body, w, rows - 1) + free_in_row(body, (rows - 1) as u16, w as int)
    }
}

/// The cells of a `w` x `h` board that the body does not occupy, row by
/// row, each row left to right.
pub open spec fn free_cells(body: Seq<(u16, u16)>, w: u16, h: u16) -> Seq<(u16, u16)> {
    free_in_rows(body, w, h as int)
}

/// The cell next to `head` in direction `d` on a `w` x `h` board that wraps
/// around at its edges.
pub open spec fn step(head: (u16, u16), d: Direction, w: u16, h: u16) -> (u16, u16) {
    match d {
        Direction::Up => (head.0, ((head.1 + h - 1) % (h as int)) as u16),
        Direction::Down => (head.0, ((head.1 + 1) % (h as int)) as u16),
        Direction::Left => (((head.0 + w - 1) % (w as int)) as u16, head.1),
        Direction::Right => (((head.0 + 1) % (w as int)) as u16, head.1),
    }
}

/// A cell brought onto a `w` x `h` board by taking each coordinate modulo
/// the board's side.
pub open spec fn clamped(cell: (u16, u16), w: u16, h: u16) -> (u16, u16) {
    ((cell.0 % w) as u16, (cell.1 % h) as u16)
}

/// A quiet, checked picture of a Snake game.
pub struct SnakeView {
    /// Body segments, head first.
    pub body: Seq<(u16, u16)>,
    pub direction: Direction,
    /// The direction the next move takes.
    pub next_direction: Direction,
    pub food: (u16, u16),
    pub width: u16,
    pub height: u16,
    pub score: u32,
    pub game_over: bool,
}

impl SnakeView {
    /// The cell lies on the board.
    pub open spec fn on_board(self, cell: (u16, u16)) -> bool {
        cell.0 < self.width && cell.1 < self.height
    }

    /// What every state satisfies: a board of at least 10 x 10 cells (and
    /// at most 32768 rows, so that stepping up cannot overflow); at least
    /// three segments, all on the board; food on the board; ten points per
    /// segment grown; and a queued direction that never reverses the
    /// present one.
    pub open spec fn wf(self) -> bool {
        &&& 10 <= self.width <= 32766
        &&& 10 <= self.height <= 32768
        &&& self.body.len() >= 3
        &&& forall|i: int| 0 <= i < self.body.len() ==> self.on_board(#[trigger] self.body[i])
        &&& self.on_board(self.food)
        &&& self.score == 10 * (self.body.len() - 3)
        &&& self.next_direction != opposite_of(self.direction)
    }

    /// A tick with this input moves the snake: the game is not over and
    /// the input is not Quit. Only such a tick computes anything.
    pub open spec fn moves(self, input: Option<Input>) -> bool {
        input != Some(Input::Quit) && !self.game_over
    }

    /// No cell of the body occurs twice.
    pub open spec fn body_simple(self) -> bool {
        forall|i: int, j: int| 0 <= i < j < self.body.len() ==> #[trigger] self.body[i] != #[trigger] self.body[j]
    }

    /// The body takes every cell of the board.
    pub open spec fn board_full(self) -> bool {
        forall|c: (u16, u16)| #[trigger] self.on_board(c) ==> self.body.contains(c)
    }

    /// The food lies off the body, unless the body fills the board.
    pub open spec fn food_clear(self) -> bool {
        !self.body.contains(self.food) || self.board_full()
    }

    /// The terminal's size, if it could be read, gives the present board.
    pub open spec fn keeps_board(self, term_size: Option<(u16, u16)>) -> bool {
        match term_size {
            Some((w, h)) => spec_play_area(w, h) == (self.width, self.height),
            None => true,
        }
    }

    /// The start of a game on the play area of a terminal of the given
    /// size (40 x 20 cells when the size is unknown): a three-segment snake
    /// in the middle heading right, no score, and food on a free cell.
    pub open spec fn started(self, term_size: Option<(u16, u16)>) -> bool {
        &&& self.wf()
        &&& !self.game_over
        &&& self.score == 0
        &&& self.direction == Direction::Right
        &&& self.next_direction == Direction::Right
        &&& (self.width, self.height) == match term_size {
            Some((w, h)) => spec_play_area(w, h),
            None => (40u16, 20u16),
        }
        &&& self.body == seq![
            (self.width / 2, self.height / 2),
            ((self.width / 2 - 1) as u16, self.height / 2),
            ((self.width / 2 - 2) as u16, self.height / 2),
        ]
        &&& free_cells(self.body, self.width, self.height).contains(self.food)
    }

    /// The queued direction after an input: a turn is taken unless it
    /// reverses the present direction.
    pub open spec fn steered(self, input: Option<Input>) -> SnakeView {
        let d = match input {
            Some(Input::Up) => Some(Direction::Up),
            Some(Input::Down) => Some(Direction::Down),
            Some(Input::Left) => Some(Direction::Left),
            Some(Input::Right) => Some(Direction::Right),
            _ => None,
        };
        match d {
            Some(d) => if self.direction != opposite_of(d) {
                SnakeView { next_direction: d, ..self }
            } else {
                self
            },
            None => self,
        }
    }

    /// The board after the terminal reports its size: when the play area
    /// changes, body and food are brought onto the new board.
    pub open spec fn resized(self, term_size: Option<(u16, u16)>) -> SnakeView {
        match term_size {
            Some((tw, th)) => {
                let (w, h) = spec_play_area(tw, th);
                if w != self.width || h != self.height {
                    SnakeView {
                        width: w,
                        height: h,
                        body: self.body.map_values(|c: (u16, u16)| clamped(c, w, h)),
                        food: clamped(self.food, w, h),
                        ..self
                    }
                } else {
                    self
                }
            },
            None => self,
        }
    }

    /// Food moves to the free cell at position `pick` (taken modulo the
    /// number of free cells); with no free cell it stays.
    pub open spec fn fed(self, pick: nat) -> SnakeView {
        let free = free_cells(self.body, self.width, self.height);
        if free.len() > 0 {
            SnakeView { food: free[(pick % free.len()) as int], ..self }
        } else {
            self
        }
    }

    /// One move: the queued direction is taken; running into the body ends
    /// the game; otherwise the head advances, and either the snake eats,
    /// grows, scores ten and new food appears, or the tail follows.
    pub open spec fn moved(self, pick: nat) -> SnakeView {
        let s = SnakeView { direction: self.next_direction, ..self };
        let head = step(s.body[0], s.direction, s.width, s.height);
        if s.body.contains(head) {
            SnakeView { game_over: true, ..s }
        } else if head == s.food {
            SnakeView { body: seq![head] + s.body, score: (s.score + 10) as u32, ..s }.fed(pick)
        } else {
            SnakeView { body: (seq![head] + s.body).drop_last(), ..s }
        }
    }

    /// One tick with an optional input and the terminal's size, if it could
    /// be read. `pick` stands for the random choice among free cells.
    pub open spec fn ticked(self, input: Option<Input>, term_size: Option<(u16, u16)>, pick: nat) -> (SnakeView, GameState) {
        if input == Some(Input::Quit) {
            (self, GameState::QuitToShell)
        } else if input == Some(Input::Action) && self.game_over {
            (self, GameState::GameOver { score: self.score })
        } else {
            let s = self.steered(input);
            if s.game_over {
                (s, GameState::Running)
            } else {
                (s.resized(term_size).moved(pick), GameState::Running)
            }
        }
    }
}

/// A game of Snake.
pub struct SnakeGame {
    body: VecDeque<(u16, u16)>,
    direction: Direction,
    next_direction: Direction,
    food: (u16, u16),
    width: u16,
    height: u16,
    score: u32,
    game_over: bool,
}

impl View for SnakeGame {
    type V = SnakeView;

    closed spec fn view(&self) -> SnakeView {
        SnakeView {
            body: self.body@,
            direction: self.direction,
            next_direction: self.next_direction,
            food: self.food,
            width: self.width,
            height: self.height,
            score: self.score,
            game_over: self.game_over,
        }
    }
}

/// Whether the body occupies `cell`.
fn body_contains(body: &VecDeque<(u16, u16)>, cell: (u16, u16)) -> (r: bool)
    ensures
        r == body@.contains(cell),
{
    let n = body.len();
    let mut i: usize = 0;
    while i < n
        invariant
            n == body@.len(),
            i <= n,
            forall|j: int| 0 <= j < i ==> body@[j] != cell,
        decreases n - i,
    {
        let seg = body[i];
        if seg.0 == cell.0 && seg.1 == cell.1 {
            assert(body@[i as int] == cell);
            return true;
        }
        i = i + 1;
    }
    false
}

/// The cells of a `w` x `h` board that the body does not occupy, row by
/// row, each row left to right.
fn free_spots(body: &VecDeque<(u16, u16)>, w: u16, h: u16) -> (r: Vec<(u16, u16)>)
    ensures
        r@ == free_cells(body@, w, h),
{
    let mut free: Vec<(u16, u16)> = Vec::new();
    let mut y: u16 = 0;
    while y < h
        invariant
            y <= h,
            free@ == free_in_rows(body@, w, y as int),
        decreases h - y,
    {
        let mut x: u16 = 0;
        while x < w
            invariant
                y < h,
                x <= w,
                free@ == free_in_rows(body@, w, y as int) + free_in_row(body@, y, x as int),
            decreases w - x,
        {
            if !body_contains(body, (x, y)) {
                free.push((x, y));
            }
            proof {
                let prev = free_in_rows(body@, w, y as int);
                let row = free_in_row(body@, y, x as int);
                assert((prev + row).push((x, y)) =~= prev + row.push((x, y)));
            }
            x = x + 1;
        }
        y = y + 1;
    }
    free
}

impl SnakeGame {
    /// A new game on the play area of a terminal of the given size (a 40 x
    /// 20 board when the size is unknown): a three-segment snake in the
    /// middle heading right, and food on a random free cell.
    pub fn new(term_size: Option<(u16, u16)>) -> (g: Self)
        requires
            term_size matches Some((w, h)) ==> h <= 32776,
        ensures
            g@.started(term_size),
    {
        let (width, height) = match term_size {
            Some((tw, th)) => play_area(tw, th),
            None => (40, 20),
        };
        let start_x = width / 2;
        let start_y = height / 2;
        let mut body: VecDeque<(u16, u16)> = VecDeque::new();
        body.push_back((start_x, start_y));
        body.push_back((start_x.saturating_sub(1), start_y));
        body.push_back((start_x.saturating_sub(2), start_y));
        let mut game = SnakeGame {
            body,
            direction: Direction::Right,
            next_direction: Direction::Right,
            food: (0, 0),
            width,
            height,
            score: 0,
            game_over: false,
        };
        let ghost pre = game@;
        proof {
            lemma_free_cells_nonempty(game@.body, width, height);
        }
        game.spawn_food(None);
        proof {
            let pick = choose|pick: nat| game@ == pre.fed(pick);
            let free = free_cells(pre.body, width, height);
            assert(free[(pick % free.len()) as int] == game@.food);
            assert(free.contains(game@.food));
            lemma_free_cells_on_board(pre.body, width, height);
            assert(game@.wf());
            assert(game@.body =~= seq![
                (width / 2, height / 2),
                ((width / 2 - 1) as u16, height / 2),
                ((width / 2 - 2) as u16, height / 2),
            ]);
        }
        game
    }

    /// Moves the food to the free cell at position `pick` (modulo the
    /// number of free cells), if there is a free cell.
    pub fn place_food(&mut self, pick: usize)
        ensures
            final(self)@ == old(self)@.fed(pick as nat),
    {
        let free = free_spots(&self.body, self.width, self.height);
        if free.len() > 0 {
            self.food = free[pick % free.len()];
        }
    }

    /// Advances the game by one tick, handling at most one input and the
    /// terminal's size if it could be read. Quit returns to the shell;
    /// Action once the game is over reports the final score; arrows queue a
    /// turn unless it would reverse the snake; then, unless the game is
    /// over, the board follows the terminal and the snake moves. Food that
    /// is eaten reappears on a free cell chosen at random.
    pub fn tick(&mut self, input: Option<Input>, term_size: Option<(u16, u16)>) -> (r: GameState)
        requires
            old(self)@.wf(),
            old(self)@.moves(input) ==> old(self)@.score <= u32::MAX - 10,
            old(self)@.moves(input) ==> (term_size matches Some((w, h)) ==> h <= 32776),
        ensures
            final(self)@.wf(),
            exists|pick: nat| (final(self)@, r) == old(self)@.ticked(input, term_size, pick),
    {
        self.step_game(input, term_size, None)
    }

    /// One tick as `tick` makes it, with eaten food reappearing on the free
    /// cell at `pick` (modulo the number of free cells).
    pub fn tick_with(&mut self, input: Option<Input>, term_size: Option<(u16, u16)>, pick: usize) -> (r: GameState)
        requires
            old(self)@.wf(),
            old(self)@.moves(input) ==> old(self)@.score <= u32::MAX - 10,
            old(self)@.moves(input) ==> (term_size matches Some((w, h)) ==> h <= 32776),
        ensures
            final(self)@.wf(),
            (final(self)@, r) == old(self)@.ticked(input, term_size, pick as nat),
    {
        self.step_game(input, term_size, Some(pick))
    }

    fn step_game(&mut self, input: Option<Input>, term_size: Option<(u16, u16)>, pick: Option<usize>) -> (r: GameState)
        requires
            old(self)@.wf(),
            old(self)@.moves(input) ==> old(self)@.score <= u32::MAX - 10,
            old(self)@.moves(input) ==> (term_size matches Some((w, h)) ==> h <= 32776),
        ensures
            final(self)@.wf(),
            exists|p: nat| (final(self)@, r) == old(self)@.ticked(input, term_size, p),
            pick matches Some(p) ==> (final(self)@, r) == old(self)@.ticked(input, term_size, p as nat),
    {
        let ghost pre = self@;
        if let Some(inp) = input {
            match inp {
                Input::Quit => {
                    assert((self@, GameState::QuitToShell) == pre.ticked(input, term_size, 0));
                    if let Some(q) = pick {
                        assert((self@, GameState::QuitToShell) == pre.ticked(input, term_size, q as nat));
                    }
                    return GameState::QuitToShell;
                },
                Input::Action if self.game_over => {
                    assert((self@, GameState::GameOver { score: self.score }) == pre.ticked(input, term_size, 0));
                    if let Some(q) = pick {
                        assert((self@, GameState::GameOver { score: self.score }) == pre.ticked(input, term_size, q as nat));
                    }
                    return GameState::GameOver { score: self.score };
                },
                _ => {},
            }
        }
        self.steer(input);
        if self.game_over {
            assert((self@, GameState::Running) == pre.ticked(input, term_size, 0));
            if let Some(q) = pick {
                assert((self@, GameState::Running) == pre.ticked(input, term_size, q as nat));
            }
            return GameState::Running;
        }
        self.resize(term_size);
        let ghost sized = self@;
        self.advance(pick);
        proof {
            let p = choose|p: nat| self@ == sized.moved(p);
            assert((self@, GameState::Running) == pre.ticked(input, term_size, p));
            if let Some(q) = pick {
                assert((self@, GameState::Running) == pre.ticked(input, term_size, q as nat));
            }
        }
        GameState::Running
    }

    /// Queues the turn that an arrow asks for, unless it reverses the snake.
    fn steer(&mut self, input: Option<Input>)
        requires
            old(self)@.wf(),
        ensures
            final(self)@ == old(self)@.steered(input),
            final(self)@.wf(),
    {
        if let Some(inp) = input {
            match inp {
                Input::Up => {
                    if self.direction != Direction::Down {
                        self.next_direction = Direction::Up;
                    }
                },
                Input::Down => {
                    if self.direction != Direction::Up {
                        self.next_direction = Direction::Down;
                    }
                },
                Input::Left => {
                    if self.direction != Direction::Right {
                        self.next_direction = Direction::Left;
                    }
                },
                Input::Right => {
                    if self.direction != Direction::Left {
                        self.next_direction = Direction::Right;
                    }
                },
                _ => {},
            }
        }
    }

    /// Follows the terminal's size: when the play area changes, body and
    /// food are brought onto the new board.
    fn resize(&mut self, term_size: Option<(u16, u16)>)
        requires
            old(self)@.wf(),
            term_size matches Some((w, h)) ==> h <= 32776,
        ensures
            final(self)@ == old(self)@.resized(term_size),
            final(self)@.wf(),
    {
        if let Some((term_w, term_h)) = term_size {
            let (new_width, new_height) = play_area(term_w, term_h);
            if new_width != self.width || new_height != self.height {
                let n = self.body.len();
                let mut clamped_body: VecDeque<(u16, u16)> = VecDeque::new();
                let mut i: usize = 0;
                while i < n
                    invariant
                        n == self.body@.len(),
                        i <= n,
                        new_width >= 10,
                        new_height >= 10,
                        clamped_body@ == self.body@.subrange(0, i as int).map_values(
                            |c: (u16, u16)| clamped(c, new_width, new_height),
                        ),
                    decreases n - i,
                {
                    let seg = self.body[i];
                    clamped_body.push_back((seg.0 % new_width, seg.1 % new_height));
                    proof {
                        assert(self.body@.subrange(0, i + 1) =~= self.body@.subrange(0, i as int).push(seg));
                        assert(clamped_body@ =~= self.body@.subrange(0, i + 1).map_values(
                            |c: (u16, u16)| clamped(c, new_width, new_height),
                        ));
                    }
                    i = i + 1;
                }
                assert(self.body@.subrange(0, n as int) =~= self.body@);
                self.width = new_width;
                self.height = new_height;
                self.body = clamped_body;
                self.food = (self.food.0 % self.width, self.food.1 % self.height);
            }
        }
    }

    /// One move of the snake (see `SnakeView::moved`), new food going to
    /// the free cell at `pick` or, without one, to a random one.
    fn advance(&mut self, pick: Option<usize>)
        requires
            old(self)@.wf(),
            !old(self)@.game_over,
            old(self)@.score <= u32::MAX - 10,
        ensures
            exists|p: nat| final(self)@ == old(self)@.moved(p),
            pick matches Some(p) ==> final(self)@ == old(self)@.moved(p as nat),
            final(self)@.wf(),
    {
        let ghost pre = self@;
        self.direction = self.next_direction;
        let head = self.body[0];
        let new_head: (u16, u16) = match self.direction {
            Direction::Up => (head.0, (head.1 + self.height - 1) % self.height),
            Direction::Down => (head.0, (head.1 + 1) % self.height),
            Direction::Left => ((head.0 + self.width - 1) % self.width, head.1),
            Direction::Right => ((head.0 + 1) % self.width, head.1),
        };
        assert(new_head == step(pre.body[0], self.direction, pre.width, pre.height));
        if body_contains(&self.body, new_head) {
            self.game_over = true;
            assert(self@ == pre.moved(0));
            if let Some(q) = pick {
                assert(self@ == pre.moved(q as nat));
            }
            return;
        }
        self.body.push_front(new_head);
        if new_head.0 == self.food.0 && new_head.1 == self.food.1 {
            self.score = self.score + 10;
            let ghost grown = self@;
            self.spawn_food(pick);
            proof {
                let pick: nat = match pick {
                    Some(q) => q as nat,
                    None => choose|p: nat| self@ == grown.fed(p),
                };
                let free = free_cells(grown.body, grown.width, grown.height);
                lemma_free_cells_on_board(grown.body, grown.width, grown.height);
                if free.len() > 0 {
                    assert(free[(pick % free.len()) as int] == self@.food);
                }
                assert forall|i: int| 0 <= i < self@.body.len() implies self@.on_board(#[trigger] self@.body[i]) by {
                    if i > 0 {
                        assert(self@.body[i] == pre.body[i - 1]);
                    }
                }
                assert(self@ == pre.moved(pick));
            }
        } else {
            let _ = self.body.pop_back();
            proof {
                assert forall|i: int| 0 <= i < self@.body.len() implies self@.on_board(#[trigger] self@.body[i]) by {
                    if i > 0 {
                        assert(self@.body[i] == pre.body[i - 1]);
                    }
                }
                assert(self@.body =~= (seq![new_head] + pre.body).drop_last());
                assert(self@ == pre.moved(0));
                if let Some(q) = pick {
                    assert(self@ == pre.moved(q as nat));
                }
            }
        }
    }

    /// The game's name as the score file records it.
    pub fn name(&self) -> (r: &'static str)
        ensures
            r@ == "Snake"@,
    {
        "Snake"
    }

    /// Starts over with a fresh game.
    pub fn reset(&mut self, term_size: Option<(u16, u16)>)
        requires
            term_size matches Some((w, h)) ==> h <= 32776,
        ensures
            final(self)@.started(term_size),
    {
        *self = SnakeGame::new(term_size);
    }

    /// Whether a tick with this input cannot overflow the score: only a
    /// tick that moves the snake adds to it.
    pub fn can_tick(&self, input: Option<Input>) -> (r: bool)
        ensures
            r == (self@.moves(input) ==> self@.score <= u32::MAX - 10),
    {
        !(input != Some(Input::Quit) && !self.game_over) || self.score <= u32::MAX - 10
    }

    pub fn score(&self) -> (r: u32)
        ensures
            r == self@.score,
    {
        self.score
    }

    pub fn is_game_over(&self) -> (r: bool)
        ensures
            r == self@.game_over,
    {
        self.game_over
    }

    /// Width and height of the board in cells.
    pub fn size(&self) -> (r: (u16, u16))
        ensures
            r == (self@.width, self@.height),
    {
        (self.width, self.height)
    }

    pub fn food(&self) -> (r: (u16, u16))
        ensures
            r == self@.food,
    {
        self.food
    }

    pub fn direction(&self) -> (r: Direction)
        ensures
            r == self@.direction,
    {
        self.direction
    }

    /// The body segments, head first.
    pub fn body(&self) -> (r: Vec<(u16, u16)>)
        ensures
            r@ == self@.body,
    {
        let n = self.body.len();
        let mut v: Vec<(u16, u16)> = Vec::new();
        let mut i: usize = 0;
        while i < n
            invariant
                n == self.body@.len(),
                i <= n,
                v@ == self.body@.subrange(0, i as int),
            decreases n - i,
        {
            v.push(self.body[i]);
            assert(v@ =~= self.body@.subrange(0, i + 1));
            i = i + 1;
        }
        assert(self.body@.subrange(0, n as int) =~= self.body@);
        v
    }

    /// Places food on the free cell at `pick` (modulo their number), or on
    /// one chosen at random when no pick is given.
    fn spawn_food(&mut self, pick: Option<usize>)
        ensures
            exists|p: nat| final(self)@ == old(self)@.fed(p),
            pick matches Some(p) ==> final(self)@ == old(self)@.fed(p as nat),
    {
        if let Some(p) = pick {
            self.place_food(p);
            return;
        }
        let free = free_spots(&self.body, self.width, self.height);
        if free.len() > 0 {
            let pick = random_below(free.len());
            self.food = free[pick];
            proof {
                vstd::arithmetic::div_mod::lemma_small_mod(pick as nat, free@.len());
            }
            assert(self@ == old(self)@.fed(pick as nat));
        } else {
            assert(self@ == old(self)@.fed(0));
        }
    }
}

proof fn lemma_free_in_row_on_board(body: Seq<(u16, u16)>, y: u16, n: int, i: int)
    requires
        0 <= i < free_in_row(body, y, n).len(),
        n <= u16::MAX + 1,
    ensures
        free_in_row(body, y, n)[i].0 < n,
        free_in_row(body, y, n)[i].1 == y,
        !body.contains(free_in_row(body, y, n)[i]),
    decreases n,
{
    if n > 0 {
        let rest = free_in_row(body, y, n - 1);
        if i < rest.len() {
            lemma_free_in_row_on_board(body, y, n - 1, i);
        }
    }
}

proof fn lemma_free_in_rows_on_board(body: Seq<(u16, u16)>, w: u16, rows: int, i: int)
    requires
        0 <= i < free_in_rows(body, w, rows).len(),
        rows <= u16::MAX + 1,
    ensures
        free_in_rows(body, w, rows)[i].0 < w,
        free_in_rows(body, w, rows)[i].1 < rows,
        !body.contains(free_in_rows(body, w, rows)[i]),
    decreases rows,
{
    if rows > 0 {
        let prev = free_in_rows(body, w, rows - 1);
        if i < prev.len() {
            lemma_free_in_rows_on_board(body, w, rows - 1, i);
        } else {
            lemma_free_in_row_on_board(body, (rows - 1) as u16, w as int, i - prev.len());
        }
    }
}

/// Every free cell lies on the board and off the body.
pub proof fn lemma_free_cells_on_board(body: Seq<(u16, u16)>, w: u16, h: u16)
    ensures
        forall|i: int|
            0 <= i < free_cells(body, w, h).len() ==> {
                let c = #[trigger] free_cells(body, w, h)[i];
                c.0 < w && c.1 < h && !body.contains(c)
            },
{
    assert forall|i: int| 0 <= i < free_cells(body, w, h).len() implies {
        let c = #[trigger] free_cells(body, w, h)[i];
        c.0 < w && c.1 < h && !body.contains(c)
    } by {
        lemma_free_in_rows_on_board(body, w, h as int, i);
    }
}

proof fn lemma_free_in_row_has(body: Seq<(u16, u16)>, y: u16, n: int, x: int)
    requires
        0 <= x < n <= u16::MAX + 1,
        !body.contains((x as u16, y)),
    ensures
        free_in_row(body, y, n).contains((x as u16, y)),
    decreases n,
{
    if x < n - 1 {
        lemma_free_in_row_has(body, y, n - 1, x);
        let rest = free_in_row(body, y, n - 1);
        let k = choose|k: int| 0 <= k < rest.len() && rest[k] == (x as u16, y);
        if !body.contains(((n - 1) as u16, y)) {
            assert(rest.push(((n - 1) as u16, y))[k] == (x as u16, y));
        }
    } else {
        let rest = free_in_row(body, y, n - 1);
        assert(rest.push((x as u16, y))[rest.len() as int] == (x as u16, y));
    }
}

proof fn lemma_free_in_rows_has(body: Seq<(u16, u16)>, w: u16, rows: int, cell: (u16, u16))
    requires
        rows <= u16::MAX + 1,
        cell.0 < w,
        cell.1 < rows,
        !body.contains(cell),
    ensures
        free_in_rows(body, w, rows).contains(cell),
    decreases rows,
{
    let prev = free_in_rows(body, w, rows - 1);
    let row = free_in_row(body, (rows - 1) as u16, w as int);
    if cell.1 < rows - 1 {
        lemma_free_in_rows_has(body, w, rows - 1, cell);
        let k = choose|k: int| 0 <= k < prev.len() && prev[k] == cell;
        assert((prev + row)[k] == cell);
    } else {
        lemma_free_in_row_has(body, (rows - 1) as u16, w as int, cell.0 as int);
        let k = choose|k: int| 0 <= k < row.len() && row[k] == cell;
        assert((prev + row)[prev.len() + k] == cell);
    }
}

/// A free cell of the board is listed among the free cells: the list holds
/// exactly the board's cells that the body does not occupy.
pub proof fn lemma_free_cells_complete(body: Seq<(u16, u16)>, w: u16, h: u16, cell: (u16, u16))
    requires
        cell.0 < w,
        cell.1 < h,
        !body.contains(cell),
    ensures
        free_cells(body, w, h).contains(cell),
{
    lemma_free_in_rows_has(body, w, h as int, cell);
}

proof fn lemma_free_cells_nonempty(body: Seq<(u16, u16)>, w: u16, h: u16)
    requires
        body.len() == 3,
        w >= 10,
        h >= 10,
        forall|i: int| 0 <= i < 3 ==> (#[trigger] body[i]).1 == h / 2,
    ensures
        free_cells(body, w, h).len() > 0,
{
    let cell = (0u16, 0u16);
    if body.contains(cell) {
        let k = choose|k: int| 0 <= k < body.len() && body[k] == cell;
        assert(body[k].1 == h / 2);
    }
    lemma_free_cells_complete(body, w, h, cell);
}


/// The snake never turns back on itself: after any tick its heading is not
/// the reverse of the heading it had before.
pub proof fn lemma_never_reverses(v: SnakeView, input: Option<Input>, term_size: Option<(u16, u16)>, pick: nat)
    requires
        v.wf(),
    ensures
        v.ticked(input, term_size, pick).0.direction != opposite_of(v.direction),
{
}

/// A tick moves the head by one cell (wrapping at the edges) in the new
/// heading, and the snake grows by at most one segment, exactly when it
/// reaches the food, scoring ten points for it.
pub proof fn lemma_move_and_growth(v: SnakeView, input: Option<Input>, term_size: Option<(u16, u16)>, pick: nat)
    requires
        v.wf(),
        !v.game_over,
        v.score <= u32::MAX - 10,
        input != Some(Input::Quit),
    ensures
        ({
            let w = v.steered(input).resized(term_size);
            let after = v.ticked(input, term_size, pick).0;
            let head = step(w.body[0], w.next_direction, w.width, w.height);
            &&& after.direction == w.next_direction
            &&& if w.body.contains(head) {
                after.game_over && after.body == w.body
            } else {
                &&& after.body[0] == head
                &&& after.body.len() == w.body.len() + if head == w.food { 1int } else { 0int }
                &&& after.score == w.score + if head == w.food { 10int } else { 0int }
            }
        }),
{
    let w = v.steered(input).resized(term_size);
    assert(w.score == v.score);
    let head = step(w.body[0], w.next_direction, w.width, w.height);
    if !w.body.contains(head) && head == w.food {
        let grown = SnakeView { body: seq![head] + w.body, score: (w.score + 10) as u32, direction: w.next_direction, ..w };
        assert(grown.fed(pick).body == grown.body);
    }
}

/// New food always lands on a free cell of the board when there is one.
pub proof fn lemma_food_lands_free(v: SnakeView, pick: nat)
    requires
        free_cells(v.body, v.width, v.height).len() > 0,
    ensures
        v.on_board(v.fed(pick).food),
        !v.body.contains(v.fed(pick).food),
{
    lemma_free_cells_on_board(v.body, v.width, v.height);
    let free = free_cells(v.body, v.width, v.height);
    assert(free[(pick % free.len()) as int] == v.fed(pick).food);
}

/// Once the game is over it stays over: the snake, its food and the score
/// no longer change (only a queued turn may), and Action reports the
/// score.
pub proof fn lemma_game_over_is_final(v: SnakeView, input: Option<Input>, term_size: Option<(u16, u16)>, pick: nat)
    requires
        v.wf(),
        v.game_over,
    ensures
        ({
            let (w, r) = v.ticked(input, term_size, pick);
            &&& w.game_over
            &&& w.body == v.body
            &&& w.food == v.food
            &&& w.score == v.score
            &&& (w.width, w.height) == (v.width, v.height)
            &&& input == Some(Input::Action) ==> r == GameState::GameOver { score: v.score }
        }),
{
}

/// Q or Esc returns to the shell at once, whatever the state, and leaves
/// the game as it was.
pub proof fn lemma_quit_returns_to_shell(v: SnakeView, term_size: Option<(u16, u16)>, pick: nat)
    ensures
        v.ticked(Some(Input::Quit), term_size, pick) == (v, GameState::QuitToShell),
{
}


proof fn lemma_step_on_board(head: (u16, u16), d: Direction, w: u16, h: u16)
    requires
        head.0 < w,
        head.1 < h,
        w >= 1,
        h >= 1,
    ensures
        step(head, d, w, h).0 < w,
        step(head, d, w, h).1 < h,
{
    vstd::arithmetic::div_mod::lemma_mod_pos_bound(head.1 + h - 1, h as int);
    vstd::arithmetic::div_mod::lemma_mod_pos_bound(head.1 + 1, h as int);
    vstd::arithmetic::div_mod::lemma_mod_pos_bound(head.0 + w - 1, w as int);
    vstd::arithmetic::div_mod::lemma_mod_pos_bound(head.0 + 1, w as int);
}

proof fn lemma_same_board(a: SnakeView, b: SnakeView)
    requires
        a.body == b.body,
        a.width == b.width,
        a.height == b.height,
    ensures
        a.board_full() == b.board_full(),
{
    if a.board_full() {
        assert forall|c: (u16, u16)| #[trigger] b.on_board(c) implies b.body.contains(c) by {
            assert(a.on_board(c));
        }
    }
    if b.board_full() {
        assert forall|c: (u16, u16)| #[trigger] a.on_board(c) implies a.body.contains(c) by {
            assert(b.on_board(c));
        }
    }
}

/// While the board keeps its size, the snake's body never covers a cell
/// twice, never shrinks, stays on the board, and the food stays off it
/// (unless the body fills the board).
pub proof fn lemma_body_never_overlaps(
    v: SnakeView,
    input: Option<Input>,
    term_size: Option<(u16, u16)>,
    pick: nat,
)
    requires
        v.wf(),
        v.body_simple(),
        v.food_clear(),
        v.keeps_board(term_size),
    ensures
        ({
            let w = v.ticked(input, term_size, pick).0;
            &&& w.body_simple()
            &&& w.food_clear()
            &&& w.body.len() >= v.body.len()
            &&& (w.width, w.height) == (v.width, v.height)
            &&& forall|i: int| 0 <= i < w.body.len() ==> w.on_board(#[trigger] w.body[i])
            &&& w.on_board(w.food)
        }),
{
    let s = v.steered(input);
    let w0 = v.ticked(input, term_size, pick).0;
    if input == Some(Input::Quit) || (input == Some(Input::Action) && v.game_over) || s.game_over {
        assert(w0.body == v.body && w0.food == v.food && w0.width == v.width && w0.height == v.height);
        lemma_same_board(w0, v);
        return;
    }
    assert(s.resized(term_size) == s);
    let s2 = SnakeView { direction: s.next_direction, ..s };
    let head = step(s2.body[0], s2.direction, s2.width, s2.height);
    assert(s2.on_board(s2.body[0]));
    lemma_step_on_board(s2.body[0], s2.direction, s2.width, s2.height);
    assert(s2.on_board(head));
    assert(v.ticked(input, term_size, pick).0 == s.moved(pick));
    if s2.body.contains(head) {
        assert(s.moved(pick) == SnakeView { game_over: true, ..s2 });
        assert(w0.body == v.body && w0.food == v.food && w0.width == v.width && w0.height == v.height);
        lemma_same_board(w0, v);
    } else if head == s2.food {
        let grown = SnakeView { body: seq![head] + s2.body, score: (s2.score + 10) as u32, ..s2 };
        let w = grown.fed(pick);
        assert(s.moved(pick) == w);
        assert(grown.body_simple()) by {
            assert forall|i: int, j: int| 0 <= i < j < grown.body.len() implies #[trigger] grown.body[i]
                != #[trigger] grown.body[j] by {
                assert(grown.body[j] == s2.body[j - 1]);
                if i == 0 {
                    assert(s2.body.contains(s2.body[j - 1]));
                } else {
                    assert(grown.body[i] == s2.body[i - 1]);
                }
            }
        }
        assert forall|i: int| 0 <= i < w.body.len() implies w.on_board(#[trigger] w.body[i]) by {
            if i > 0 {
                assert(w.body[i] == s2.body[i - 1]);
            }
        }
        let free = free_cells(grown.body, grown.width, grown.height);
        if free.len() > 0 {
            lemma_food_lands_free(grown, pick);
        } else {
            assert forall|c: (u16, u16)| #[trigger] w.on_board(c) implies w.body.contains(c) by {
                if !grown.body.contains(c) {
                    lemma_free_cells_complete(grown.body, grown.width, grown.height, c);
                }
            }
            assert(w.food == head);
        }
    } else {
        let w = SnakeView { body: (seq![head] + s2.body).drop_last(), ..s2 };
        assert(s.moved(pick) == w);
        assert(!v.board_full()) by {
            assert(v.on_board(head));
        }
        assert(!s2.body.contains(s2.food));
        assert forall|i: int, j: int| 0 <= i < j < w.body.len() implies #[trigger] w.body[i] != #[trigger] w.body[j] by {
            assert(w.body[j] == s2.body[j - 1]);
            if i == 0 {
                assert(s2.body.contains(s2.body[j - 1]));
            } else {
                assert(w.body[i] == s2.body[i - 1]);
            }
        }
        assert forall|i: int| 0 <= i < w.body.len() implies w.on_board(#[trigger] w.body[i]) by {
            if i > 0 {
                assert(w.body[i] == s2.body[i - 1]);
            }
        }
        if w.body.contains(w.food) {
            let k = choose|k: int| 0 <= k < w.body.len() && w.body[k] == w.food;
            if k > 0 {
                assert(w.body[k] == s2.body[k - 1]);
            }
        }
    }
}


/// A new game starts with a body that covers no cell twice and food off it.
pub proof fn lemma_start_is_simple(v: SnakeView, term_size: Option<(u16, u16)>)
    requires
        v.started(term_size),
    ensures
        v.body_simple(),
        v.food_clear(),
{
    lemma_free_cells_on_board(v.body, v.width, v.height);
    let free = free_cells(v.body, v.width, v.height);
    let k = choose|k: int| 0 <= k < free.len() && free[k] == v.food;
    assert(!v.body.contains(free[k]));
}


/// An arrow queues its direction unless that reverses the present
/// heading, in which case the queued direction stays; any other input
/// leaves it. Quit, and Action once the game is over, touch nothing. A tick
/// that moves the snake heads it the queued way.
pub proof fn lemma_arrows_turn(v: SnakeView, input: Option<Input>, term_size: Option<(u16, u16)>, pick: nat)
    ensures
        ({
            let w = v.ticked(input, term_size, pick).0;
            &&& input == Some(Input::Up) ==> w.next_direction == if v.direction != Direction::Down {
                Direction::Up
            } else {
                v.next_direction
            }
            &&& input == Some(Input::Down) ==> w.next_direction == if v.direction != Direction::Up {
                Direction::Down
            } else {
                v.next_direction
            }
            &&& input == Some(Input::Left) ==> w.next_direction == if v.direction != Direction::Right {
                Direction::Left
            } else {
                v.next_direction
            }
            &&& input == Some(Input::Right) ==> w.next_direction == if v.direction != Direction::Left {
                Direction::Right
            } else {
                v.next_direction
            }
            &&& (input is None || input == Some(Input::Action) || input == Some(Input::Quit)) ==> w.next_direction
                == v.next_direction
            &&& (input != Some(Input::Quit) && !v.game_over) ==> w.direction == w.next_direction
            &&& (input == Some(Input::Quit) || v.game_over) ==> w.direction == v.direction
        }),
{
}


/// A tick that moves the snake takes its head one cell the queued way,
/// across the edge to the opposite side of the board where there is no
/// cell beyond; unless the snake runs into itself, the new head leads the
/// body and the old segments follow it in their order.
pub proof fn lemma_head_steps_one_cell(v: SnakeView, input: Option<Input>, pick: nat)
    requires
        v.wf(),
        input != Some(Input::Quit),
        !v.game_over,
    ensures
        ({
            let s = v.steered(input);
            let w = v.ticked(input, None, pick).0;
            let (x, y) = v.body[0];
            let head = match s.next_direction {
                Direction::Up => (x, if y == 0 { (v.height - 1) as u16 } else { (y - 1) as u16 }),
                Direction::Down => (x, if y + 1 == v.height { 0u16 } else { (y + 1) as u16 }),
                Direction::Left => (if x == 0 { (v.width - 1) as u16 } else { (x - 1) as u16 }, y),
                Direction::Right => (if x + 1 == v.width { 0u16 } else { (x + 1) as u16 }, y),
            };
            &&& !w.game_over ==> w.body[0] == head && w.body.subrange(1, v.body.len() as int) == v.body.subrange(
                0,
                v.body.len() - 1,
            )
            &&& w.game_over <==> v.body.contains(head)
        }),
{
    let s = v.steered(input);
    let (x, y) = v.body[0];
    assert(v.on_board(v.body[0]));
    let h = v.height as int;
    let wd = v.width as int;
    assert((y + h - 1) % h == if y == 0 { h - 1 } else { y - 1 }) by {
        if y == 0 {
            vstd::arithmetic::div_mod::lemma_mod_self_0(h);
            vstd::arithmetic::div_mod::lemma_mod_add_multiples_vanish(h - 1, h);
            vstd::arithmetic::div_mod::lemma_small_mod((h - 1) as nat, h as nat);
        } else {
            vstd::arithmetic::div_mod::lemma_mod_add_multiples_vanish(y - 1, h);
            vstd::arithmetic::div_mod::lemma_small_mod((y - 1) as nat, h as nat);
        }
    }
    assert((y + 1) % h == if y + 1 == h { 0 } else { y + 1 }) by {
        if y + 1 == h {
            vstd::arithmetic::div_mod::lemma_mod_self_0(h);
        } else {
            vstd::arithmetic::div_mod::lemma_small_mod((y + 1) as nat, h as nat);
        }
    }
    assert((x + wd - 1) % wd == if x == 0 { wd - 1 } else { x - 1 }) by {
        if x == 0 {
            vstd::arithmetic::div_mod::lemma_mod_add_multiples_vanish(wd - 1, wd);
            vstd::arithmetic::div_mod::lemma_small_mod((wd - 1) as nat, wd as nat);
        } else {
            vstd::arithmetic::div_mod::lemma_mod_add_multiples_vanish(x - 1, wd);
            vstd::arithmetic::div_mod::lemma_small_mod((x - 1) as nat, wd as nat);
        }
    }
    assert((x + 1) % wd == if x + 1 == wd { 0 } else { x + 1 }) by {
        if x + 1 == wd {
            vstd::arithmetic::div_mod::lemma_mod_self_0(wd);
        } else {
            vstd::arithmetic::div_mod::lemma_small_mod((x + 1) as nat, wd as nat);
        }
    }
    assert(s.resized(None) == s);
    let s2 = SnakeView { direction: s.next_direction, ..s };
    let hd = step(s2.body[0], s2.direction, s2.width, s2.height);
    if !s2.body.contains(hd) {
        if hd == s2.food {
            let grown = SnakeView { body: seq![hd] + s2.body, score: (s2.score + 10) as u32, ..s2 };
            assert(grown.fed(pick).body == grown.body);
            assert(grown.body.subrange(1, v.body.len() as int) =~= v.body.subrange(0, v.body.len() - 1));
        } else {
            let b = (seq![hd] + s2.body).drop_last();
            assert(b.subrange(1, v.body.len() as int) =~= v.body.subrange(0, v.body.len() - 1));
        }
    }
}

} // verus!
