//! Connect four: a board of seven columns and six rows, pieces that fall to
//! the lowest free cell of their column, and the longest chains of each
//! player. Row 0 is the top row.

use crate::game::MinimaxGame;
use crate::text::{decimal, push_char, push_decimal, push_text};
use vstd::array::*;
use vstd::prelude::*;

verus! {

/// The number of columns.
pub const WIDTH: usize = 7;

/// The number of rows.
pub const HEIGHT: usize = 6;

/// The colour of a piece and of the player who owns it.
#[derive(Debug, Clone, Copy, PartialEq, Eq, Structural)]
pub enum Color {
    White,
    Black,
}

impl Color {
    /// The colour of the other player.
    pub fn other(self) -> (other: Color)
        ensures
            other != self,
    {
        match self {
            Color::White => Color::Black,
            Color::Black => Color::White,
        }
    }
}

/// The cells of a board, row by row.
pub type Cells = Seq<Seq<Option<Color>>>;

/// The board as it is stored.
pub type Board = [[Option<Color>; 7]; 6];

/// The cell in column `x` of row `y`; empty off the board.
pub open spec fn cell_at(cells: Cells, x: int, y: int) -> Option<Color> {
    if 0 <= y < cells.len() && 0 <= x < cells[y].len() {
        cells[y][x]
    } else {
        None
    }
}

/// The eight directions on the board.
#[derive(Debug, Clone, Copy, PartialEq, Eq, Structural)]
pub enum Direction {
    Up,
    UpLeft,
    Left,
    DownLeft,
    Down,
    DownRight,
    Right,
    UpRight,
}

impl Direction {
    /// The change of `x` and of `y` that one step makes.
    pub open spec fn step(self) -> (int, int) {
        match self {
            Direction::Up => (0, -1),
            Direction::UpLeft => (-1, -1),
            Direction::Left => (-1, 0),
            Direction::DownLeft => (-1, 1),
            Direction::Down => (0, 1),
            Direction::DownRight => (1, 1),
            Direction::Right => (1, 0),
            Direction::UpRight => (1, -1),
        }
    }

    /// The cell one step from `(x, y)`. A coordinate that would fall below
    /// zero becomes the largest machine word, which is off every board.
    pub fn calculate_new_indices(&self, x: usize, y: usize) -> (moved: (usize, usize))
        requires
            x < usize::MAX,
            y < usize::MAX,
        ensures
            moved.0 == wrapped(x + self.step().0),
            moved.1 == wrapped(y + self.step().1),
    {
        match self {
            Direction::Up => (x, y.wrapping_sub(1)),
            Direction::UpLeft => (x.wrapping_sub(1), y.wrapping_sub(1)),
            Direction::Left => (x.wrapping_sub(1), y),
            Direction::DownLeft => (x.wrapping_sub(1), y + 1),
            Direction::Down => (x, y + 1),
            Direction::DownRight => (x + 1, y + 1),
            Direction::Right => (x + 1, y),
            Direction::UpRight => (x + 1, y.wrapping_sub(1)),
        }
    }
}

/// A coordinate as a machine word: one below zero is the largest word.
pub open spec fn wrapped(coordinate: int) -> usize {
    if coordinate < 0 {
        usize::MAX
    } else {
        coordinate as usize
    }
}

/// The number of cells of `color` in a row that start one step from
/// `(x, y)`, counted for at most `fuel` steps.
pub open spec fn run(cells: Cells, color: Color, x: int, y: int, step: (int, int), fuel: nat) -> nat
    decreases fuel,
{
    if fuel == 0 {
        0
    } else if cell_at(cells, x + step.0, y + step.1) == Some(color) {
        1 + run(cells, color, x + step.0, y + step.1, step, (fuel - 1) as nat)
    } else {
        0
    }
}

/// The number of cells of the colour of `(x, y)` in a row from it in the
/// given direction, not counting `(x, y)` itself.
pub open spec fn vector_length(cells: Cells, x: int, y: int, direction: Direction) -> nat {
    run(cells, cell_at(cells, x, y).unwrap(), x, y, direction.step(), 7)
}

/// The larger of two numbers.
pub open spec fn larger(a: nat, b: nat) -> nat {
    if a < b {
        b
    } else {
        a
    }
}

/// The length of the longest line of cells of one colour through `(x, y)`.
pub open spec fn chain_length(cells: Cells, x: int, y: int) -> nat {
    let ud = vector_length(cells, x, y, Direction::Up) + vector_length(
        cells,
        x,
        y,
        Direction::Down,
    ) + 1;
    let lr = vector_length(cells, x, y, Direction::Left) + vector_length(
        cells,
        x,
        y,
        Direction::Right,
    ) + 1;
    let urdl = vector_length(cells, x, y, Direction::UpRight) + vector_length(
        cells,
        x,
        y,
        Direction::DownLeft,
    ) + 1;
    let uldr = vector_length(cells, x, y, Direction::UpLeft) + vector_length(
        cells,
        x,
        y,
        Direction::DownRight,
    ) + 1;
    larger(ud, larger(lr, larger(urdl, uldr)))
}

/// The row on which a piece dropped into `column` lands, looking from row
/// `from` down: the row above the topmost piece, or the bottom row.
pub open spec fn landing_row(cells: Cells, column: int, from: int) -> int
    decreases 6 - from,
{
    if from >= 6 {
        5
    } else if cell_at(cells, column, from) is Some {
        from - 1
    } else {
        landing_row(cells, column, from + 1)
    }
}

/// The number of empty cells among the first `n`, counted row by row.
pub open spec fn empty_cells(cells: Cells, n: int) -> nat
    decreases n,
{
    if n <= 0 {
        0
    } else {
        empty_cells(cells, n - 1) + if cell_at(cells, (n - 1) % 7, (n - 1) / 7) is None {
            1nat
        } else {
            0nat
        }
    }
}

/// The distance of a column from the middle column.
pub open spec fn off_centre(column: int) -> int {
    if column <= 3 {
        3 - column
    } else {
        column - 3
    }
}

/// What the first `n` cells, counted row by row, add to the score of
/// `player`: a piece of the player costs its distance from the middle
/// column, a piece of the opponent earns it.
pub open spec fn placement_score(cells: Cells, player: Color, n: int) -> int
    decreases n,
{
    if n <= 0 {
        0
    } else {
        placement_score(cells, player, n - 1) + match cell_at(cells, (n - 1) % 7, (n - 1) / 7) {
            Some(color) => if color == player {
                -off_centre((n - 1) % 7)
            } else {
                off_centre((n - 1) % 7)
            },
            None => 0,
        }
    }
}

/// The mathematical content of a game.
pub struct GameView {
    pub cells: Cells,
    pub current_player: Color,
    pub last_placement: (usize, usize),
    pub current_longest: usize,
    pub opponent_longest: usize,
}

impl GameView {
    /// Whether the piece placed last is part of a line of four.
    pub open spec fn won(self) -> bool {
        cell_at(self.cells, self.last_placement.0 as int, self.last_placement.1 as int) is Some
            && chain_length(self.cells, self.last_placement.0 as int, self.last_placement.1 as int)
            >= 4
    }

    /// Whether the top row is full.
    pub open spec fn tied(self) -> bool {
        forall|x: int| 0 <= x < 7 ==> cell_at(self.cells, x, 0) is Some
    }

    /// The worth of the position for the player to move.
    pub open spec fn score(self) -> int {
        if self.won() {
            -1000
        } else {
            self.current_longest * 10 + placement_score(self.cells, self.current_player, 42)
        }
    }

    /// The position after the player to move dropped a piece into `column`.
    pub open spec fn dropped(self, column: int) -> GameView {
        let row = landing_row(self.cells, column, 0);
        let cells = self.cells.update(
            row,
            self.cells[row].update(column, Some(self.current_player)),
        );
        GameView {
            cells: cells,
            current_player: if self.current_player == Color::White {
                Color::Black
            } else {
                Color::White
            },
            last_placement: (column as usize, row as usize),
            current_longest: self.opponent_longest,
            opponent_longest: larger(
                self.current_longest as nat,
                chain_length(cells, column, row),
            ) as usize,
        }
    }
}

/// The rows of a stored board.
pub open spec fn cells_of(board: Board) -> Cells {
    Seq::new(6, |y: int| board@[y]@)
}

/// A position of the game.
#[derive(Clone, Copy)]
pub struct Game {
    board: Board,
    current_player: Color,
    last_placement: (usize, usize),
    current_longest: usize,
    opponent_longest: usize,
}

impl View for Game {
    type V = GameView;

    closed spec fn view(&self) -> GameView {
        GameView {
            cells: cells_of(self.board),
            current_player: self.current_player,
            last_placement: self.last_placement,
            current_longest: self.current_longest,
            opponent_longest: self.opponent_longest,
        }
    }
}

/// A run leaves the board before it is seven cells long.
pub proof fn lemma_run_bounded(
    cells: Cells,
    color: Color,
    x: int,
    y: int,
    step: (int, int),
    fuel: nat,
)
    requires
        cells.len() == 6,
        forall|r: int| 0 <= r < 6 ==> (#[trigger] cells[r]).len() == 7,
        -1 <= step.0 <= 1,
        -1 <= step.1 <= 1,
        step != (0int, 0int),
        0 <= x <= 6,
        0 <= y <= 5,
    ensures
        run(cells, color, x, y, step, fuel) <= 6,
        step.0 == 1 ==> run(cells, color, x, y, step, fuel) <= 6 - x,
        step.0 == -1 ==> run(cells, color, x, y, step, fuel) <= x,
        step.0 == 0 && step.1 == 1 ==> run(cells, color, x, y, step, fuel) <= 5 - y,
        step.0 == 0 && step.1 == -1 ==> run(cells, color, x, y, step, fuel) <= y,
    decreases fuel,
{
    if fuel > 0 && cell_at(cells, x + step.0, y + step.1) == Some(color) {
        lemma_run_bounded(cells, color, x + step.0, y + step.1, step, (fuel - 1) as nat);
    }
}

/// The rows of a stored board are six rows of seven cells.
pub proof fn lemma_cells_shape(board: Board)
    ensures
        cells_of(board).len() == 6,
        forall|r: int| 0 <= r < 6 ==> (#[trigger] cells_of(board)[r]).len() == 7,
{
    broadcast use group_array_axioms;

}

impl Game {
    /// The last piece lies on the board and no chain is longer than a
    /// line of the board allows.
    #[verifier::type_invariant]
    spec fn inv(self) -> bool {
        &&& self.last_placement.0 < 7
        &&& self.last_placement.1 < 6
        &&& self.current_longest <= 13
        &&& self.opponent_longest <= 13
    }

    /// The empty board, with white to move.
    pub fn new() -> (game: Self)
        ensures
            forall|x: int, y: int| cell_at(game@.cells, x, y) is None,
            game@.current_player == Color::White,
            game@.last_placement == (0usize, 0usize),
            game@.current_longest == 0,
            game@.opponent_longest == 0,
    {
        broadcast use group_array_axioms;

        let game = Game {
            board: [[None; 7]; 6],
            current_player: Color::White,
            last_placement: (0, 0),
            current_longest: 0,
            opponent_longest: 0,
        };
        game
    }

    /// The game with its cells replaced by `board` and its last placement
    /// set to `last_placement`.
    pub fn with_board(&self, board: Board, last_placement: (usize, usize)) -> (game: Self)
        requires
            last_placement.0 < 7,
            last_placement.1 < 6,
        ensures
            game@ == (GameView {
                cells: cells_of(board),
                current_player: self@.current_player,
                last_placement: last_placement,
                current_longest: self@.current_longest,
                opponent_longest: self@.opponent_longest,
            }),
    {
        proof {
            use_type_invariant(self);
        }
        Game {
            board,
            current_player: self.current_player,
            last_placement,
            current_longest: self.current_longest,
            opponent_longest: self.opponent_longest,
        }
    }

    /// The cell in column `index.0` of row `index.1`; empty off the board.
    pub fn index(&self, index: (usize, usize)) -> (cell: Option<Color>)
        ensures
            cell == cell_at(self@.cells, index.0 as int, index.1 as int),
    {
        broadcast use group_array_axioms;

        if index.1 >= HEIGHT || index.0 >= WIDTH {
            None
        } else {
            self.board[index.1][index.0]
        }
    }

    /// The cell in column `x` of row `y`; empty off the board.
    pub fn at(&self, x: usize, y: usize) -> (cell: Option<Color>)
        ensures
            cell == cell_at(self@.cells, x as int, y as int),
    {
        self.index((x, y))
    }

    /// The player to move.
    pub fn current_player(&self) -> (player: Color)
        ensures
            player == self@.current_player,
    {
        self.current_player
    }

    /// The cell of the piece placed last.
    pub fn last_placement(&self) -> (cell: (usize, usize))
        ensures
            cell == self@.last_placement,
            cell.0 < 7,
            cell.1 < 6,
    {
        proof {
            use_type_invariant(self);
        }
        self.last_placement
    }

    /// The longest chain of the player to move.
    pub fn current_longest(&self) -> (length: usize)
        ensures
            length == self@.current_longest,
            length <= 13,
    {
        proof {
            use_type_invariant(self);
        }
        self.current_longest
    }

    /// The longest chain of the player who moved last.
    pub fn opponent_longest(&self) -> (length: usize)
        ensures
            length == self@.opponent_longest,
            length <= 13,
    {
        proof {
            use_type_invariant(self);
        }
        self.opponent_longest
    }

    /// Return the longest chain of tokens matching the color in (x, y) in
    /// the specified direction.
    pub fn get_longest_vector(&self, x: usize, y: usize, direction: Direction) -> (count: usize)
        requires
            cell_at(self@.cells, x as int, y as int) is Some,
        ensures
            count == vector_length(self@.cells, x as int, y as int, direction),
            count <= 6,
    {
        let ghost cells = self@.cells;
        let ghost step = direction.step();
        proof {
            lemma_cells_shape(self.board);
        }
        let color = match self.at(x, y) {
            Some(color) => color,
            None => Color::White,
        };
        let mut count: usize = 0;
        let (mut new_x, mut new_y) = direction.calculate_new_indices(x, y);
        let ghost mut cx: int = x as int;
        let ghost mut cy: int = y as int;
        proof {
            lemma_run_bounded(cells, color, cx, cy, step, 7);
        }
        loop
            invariant
                cells == self@.cells,
                cells.len() == 6,
                forall|r: int| 0 <= r < 6 ==> (#[trigger] cells[r]).len() == 7,
                step == direction.step(),
                0 <= cx <= 6,
                0 <= cy <= 5,
                new_x == wrapped(cx + step.0),
                new_y == wrapped(cy + step.1),
                count <= 6,
                count + run(cells, color, cx, cy, step, (7 - count) as nat) == run(
                    cells,
                    color,
                    x as int,
                    y as int,
                    step,
                    7,
                ),
                run(cells, color, x as int, y as int, step, 7) <= 6,
            ensures
                count == run(cells, color, x as int, y as int, step, 7),
                count <= 6,
            decreases 7 - count,
        {
            match self.at(new_x, new_y) {
                Some(inner) => {
                    if inner != color {
                        break;
                    }
                    proof {
                        cx = cx + step.0;
                        cy = cy + step.1;
                    }
                    let moved = direction.calculate_new_indices(new_x, new_y);
                    new_x = moved.0;
                    new_y = moved.1;
                    count += 1;
                },
                None => {
                    break;
                },
            }
        }
        count
    }

    /// Get the longest chain of tokens matching the color in (x, y).
    pub fn get_longest_chain(&self, x: usize, y: usize) -> (length: usize)
        requires
            cell_at(self@.cells, x as int, y as int) is Some,
        ensures
            length == chain_length(self@.cells, x as int, y as int),
            1 <= length <= 13,
    {
        let ud = self.get_longest_vector(x, y, Direction::Up) + self.get_longest_vector(
            x,
            y,
            Direction::Down,
        ) + 1;
        let lr = self.get_longest_vector(x, y, Direction::Left) + self.get_longest_vector(
            x,
            y,
            Direction::Right,
        ) + 1;
        let urdl = self.get_longest_vector(x, y, Direction::UpRight) + self.get_longest_vector(
            x,
            y,
            Direction::DownLeft,
        ) + 1;
        let uldr = self.get_longest_vector(x, y, Direction::UpLeft) + self.get_longest_vector(
            x,
            y,
            Direction::DownRight,
        ) + 1;
        let mut best = uldr;
        if best < urdl {
            best = urdl;
        }
        if best < lr {
            best = lr;
        }
        if best < ud {
            best = ud;
        }
        best
    }

    /// Returns true if every space is full.
    pub fn has_tied(&self) -> (tied: bool)
        ensures
            tied == self@.tied(),
    {
        // The top row is full exactly when every column is.
        let mut x: usize = 0;
        while x < WIDTH
            invariant
                x <= 7,
                forall|c: int| 0 <= c < x ==> cell_at(self@.cells, c, 0) is Some,
            decreases 7 - x,
        {
            if self.at(x, 0).is_none() {
                return false;
            }
            x += 1;
        }
        true
    }

    /// Returns true if the last piece played won.
    pub fn has_won(&self) -> (won: bool)
        ensures
            won == self@.won(),
    {
        let (x, y) = self.last_placement();
        match self.at(x, y) {
            Some(_) => self.get_longest_chain(x, y) >= 4,
            None => false,
        }
    }

    /// Records the chain through the piece just placed on `(x, y)`: the
    /// players change places, and the longest chain of the player who moved
    /// grows to the chain through that piece if that is longer.
    pub fn set_longest_chains(&mut self, x: usize, y: usize)
        requires
            cell_at(old(self)@.cells, x as int, y as int) is Some,
        ensures
            final(self)@ == (GameView {
                current_longest: old(self)@.opponent_longest,
                opponent_longest: larger(
                    old(self)@.current_longest as nat,
                    chain_length(old(self)@.cells, x as int, y as int),
                ) as usize,
                ..old(self)@
            }),
    {
        proof {
            use_type_invariant(&*self);
        }
        let tmp = self.current_longest;
        let chain = self.get_longest_chain(x, y);
        self.current_longest = self.opponent_longest;
        self.opponent_longest = if tmp < chain {
            chain
        } else {
            tmp
        };
    }

    /// The row on which a piece dropped into `column` lands.
    pub fn landing(&self, column: usize) -> (row: usize)
        requires
            column < 7,
            cell_at(self@.cells, column as int, 0) is None,
        ensures
            row == landing_row(self@.cells, column as int, 0),
            row < 6,
            cell_at(self@.cells, column as int, row as int) is None,
    {
        let mut i: usize = 0;
        while i < HEIGHT
            invariant
                i <= 6,
                column < 7,
                landing_row(self@.cells, column as int, 0) == landing_row(
                    self@.cells,
                    column as int,
                    i as int,
                ),
                i > 0 ==> cell_at(self@.cells, column as int, i - 1) is None,
                i == 0 ==> cell_at(self@.cells, column as int, 0) is None,
            decreases 6 - i,
        {
            match self.at(column, i) {
                None => {},
                Some(_) => {
                    return i - 1;
                },
            }
            i += 1;
        }
        HEIGHT - 1
    }

    /// The position after the player to move dropped a piece into
    /// `column`, which must have room.
    pub fn add_piece(&self, column: usize) -> (next: Self)
        requires
            column < 7,
            cell_at(self@.cells, column as int, 0) is None,
        ensures
            next@ == self@.dropped(column as int),
            empty_cells(next@.cells, 42) + 1 == empty_cells(self@.cells, 42),
    {
        broadcast use group_array_axioms;

        proof {
            use_type_invariant(self);
            lemma_cells_shape(self.board);
        }
        let row = self.landing(column);
        let mut board = self.board;
        let mut line = board[row];
        line[column] = Some(self.current_player);
        board[row] = line;
        let mut next = Game {
            board,
            current_player: self.current_player.other(),
            last_placement: (column, row),
            current_longest: self.current_longest,
            opponent_longest: self.opponent_longest,
        };
        proof {
            lemma_cells_shape(board);
            let goal = self@.cells.update(
                row as int,
                self@.cells[row as int].update(column as int, Some(self.current_player)),
            );
            assert(next@.cells =~= goal) by {
                assert forall|y: int| 0 <= y < 6 implies #[trigger] next@.cells[y] =~= goal[y] by {}
            }
            lemma_empty_cells_filled(
                self@.cells,
                next@.cells,
                column as int,
                row as int,
                42,
            );
        }
        next.set_longest_chains(column, row);
        next
    }
}

/// Filling one empty cell leaves one empty cell less.
pub proof fn lemma_empty_cells_filled(before: Cells, after: Cells, x: int, y: int, n: int)
    requires
        before.len() == 6,
        after.len() == 6,
        forall|r: int| 0 <= r < 6 ==> (#[trigger] before[r]).len() == 7,
        forall|r: int| 0 <= r < 6 ==> (#[trigger] after[r]).len() == 7,
        0 <= x < 7,
        0 <= y < 6,
        0 <= n <= 42,
        cell_at(before, x, y) is None,
        cell_at(after, x, y) is Some,
        forall|a: int, b: int|
            0 <= a < 7 && 0 <= b < 6 && !(a == x && b == y) ==> cell_at(after, a, b) == cell_at(
                before,
                a,
                b,
            ),
    ensures
        empty_cells(after, n) + (if n > x + 7 * y {
            1nat
        } else {
            0nat
        }) == empty_cells(before, n),
    decreases n,
{
    if n > 0 {
        lemma_empty_cells_filled(before, after, x, y, n - 1);
        let a = (n - 1) % 7;
        let b = (n - 1) / 7;
        if !(a == x && b == y) {
            assert(cell_at(after, a, b) == cell_at(before, a, b));
        }
    }
}

/// The moves of a position, tried column by column.
pub struct MoveIterator {
    root_game: Game,
    current: usize,
}

/// The moves of `game` in the columns from `from` on: every column with
/// room, with the position after a piece was dropped into it.
pub open spec fn moves_from(game: Game, from: int) -> Seq<(usize, Game)>
    decreases 7 - from,
{
    if from >= 7 || from < 0 {
        Seq::empty()
    } else if cell_at(game@.cells, from, 0) is Some {
        moves_from(game, from + 1)
    } else {
        seq![(from as usize, game.after_drop(from as usize))] + moves_from(game, from + 1)
    }
}

impl Game {
    /// The position after a piece was dropped into `column`.
    pub closed spec fn after_drop(self, column: usize) -> Game {
        let row = landing_row(cells_of(self.board), column as int, 0);
        let board = spec_array_update(
            self.board,
            row,
            spec_array_update(self.board[row], column as int, Some(self.current_player)),
        );
        Game {
            board: board,
            current_player: if self.current_player == Color::White {
                Color::Black
            } else {
                Color::White
            },
            last_placement: (column, row as usize),
            current_longest: self.opponent_longest,
            opponent_longest: larger(
                self.current_longest as nat,
                chain_length(cells_of(board), column as int, row),
            ) as usize,
        }
    }

    /// Dropping a piece gives the position that `dropped` describes.
    pub proof fn lemma_after_drop(self, column: usize)
        requires
            column < 7,
            cell_at(self@.cells, column as int, 0) is None,
        ensures
            self.after_drop(column)@ == self@.dropped(column as int),
    {
        broadcast use group_array_axioms;

        lemma_cells_shape(self.board);
        lemma_landing_row(self@.cells, column as int, 0);
        let row = landing_row(cells_of(self.board), column as int, 0);
        let goal = self@.cells.update(
            row,
            self@.cells[row].update(column as int, Some(self.current_player)),
        );
        let next = self.after_drop(column);
        assert(next@.cells =~= goal) by {
            assert forall|y: int| 0 <= y < 6 implies #[trigger] next@.cells[y] =~= goal[y] by {}
        }
    }
}

/// A piece lands on a row of the board.
pub proof fn lemma_landing_row(cells: Cells, column: int, from: int)
    requires
        0 <= from <= 6,
        from == 0 ==> cell_at(cells, column, 0) is None,
        from > 0 ==> cell_at(cells, column, from - 1) is None,
    ensures
        0 <= landing_row(cells, column, from) < 6,
        cell_at(cells, column, landing_row(cells, column, from)) is None,
    decreases 6 - from,
{
    if from < 6 && cell_at(cells, column, from) is None {
        lemma_landing_row(cells, column, from + 1);
    }
}

impl MoveIterator {
    /// The moves of `game`, from the first column on.
    pub fn new(game: Game) -> (moves: Self)
        ensures
            moves.remaining() == moves_from(game, 0),
    {
        MoveIterator { root_game: game, current: 0 }
    }

    /// The moves that are still to come.
    pub closed spec fn remaining(&self) -> Seq<(usize, Game)> {
        moves_from(self.root_game, self.current as int)
    }

    /// The next move: the column and the position after a piece was
    /// dropped into it. Full columns are skipped.
    pub fn next(&mut self) -> (item: Option<(usize, Game)>)
        ensures
            match item {
                Some(pair) => old(self).remaining().len() > 0 && pair == old(self).remaining()[0]
                    && final(self).remaining() == old(self).remaining().drop_first(),
                None => old(self).remaining().len() == 0 && final(self).remaining().len() == 0,
            },
    {
        while self.current < WIDTH && self.root_game.at(self.current, 0).is_some()
            invariant
                self.root_game == old(self).root_game,
                self.remaining() == old(self).remaining(),
            decreases 7 - self.current,
        {
            self.current += 1;
        }
        if self.current >= WIDTH {
            None
        } else {
            let game = self.root_game.add_piece(self.current);
            proof {
                self.root_game.lemma_after_drop(self.current);
                self.root_game.lemma_same(game, self.root_game.after_drop(self.current));
                assert(old(self).remaining().drop_first() =~= moves_from(
                    self.root_game,
                    self.current + 1,
                ));
            }
            self.current += 1;
            Some((self.current - 1, game))
        }
    }
}

impl Game {
    /// Two games with the same content are the same game.
    pub proof fn lemma_same(self, a: Game, b: Game)
        requires
            a@ == b@,
        ensures
            a == b,
    {
        broadcast use group_array_axioms;

        assert forall|y: int| 0 <= y < 6 implies a.board[y] == b.board[y] by {
            assert(a@.cells[y] == b@.cells[y]);
            assert forall|x: int| 0 <= x < 7 implies a.board[y][x] == b.board[y][x] by {
                assert(a@.cells[y][x] == b@.cells[y][x]);
            }
            assert(a.board[y] =~= b.board[y]);
        }
        assert(a.board =~= b.board);
    }
}

impl MinimaxGame for Game {
    open spec fn score(&self, depth: usize) -> i64 {
        self@.score() as i64
    }

    open spec fn finished(&self) -> bool {
        self@.won() || self@.tied()
    }

    open spec fn moves(&self) -> Seq<(usize, Self)> {
        moves_from(*self, 0)
    }

    open spec fn rank(&self) -> nat {
        empty_cells(self@.cells, 42)
    }

    /// The worth of the position for the player to move: a lost position
    /// is worth -1000; otherwise ten for each piece of the player's longest
    /// chain, less the distance from the middle column of each of the
    /// player's pieces, plus that of each of the opponent's.
    fn evaluate(&self, _depth: usize) -> (value: i64) {
        proof {
            use_type_invariant(self);
        }
        if self.has_won() {
            return -1000;
        }
        let mut score: i64 = (self.current_longest * 10) as i64;
        let ghost base = score as int;
        let mut n: usize = 0;
        while n < 42
            invariant
                n <= 42,
                base == self@.current_longest * 10,
                0 <= base <= 130,
                score == base + placement_score(self@.cells, self@.current_player, n as int),
                -3 * n <= placement_score(self@.cells, self@.current_player, n as int) <= 3 * n,
            decreases 42 - n,
        {
            let column = n % 7;
            let row = n / 7;
            let delta: i64 = if column <= 3 {
                (3 - column) as i64
            } else {
                (column - 3) as i64
            };
            match self.at(column, row) {
                Some(color) => {
                    if color == self.current_player {
                        score -= delta;
                    } else {
                        score += delta;
                    }
                },
                None => {},
            }
            n += 1;
        }
        score
    }

    fn has_finished(&self) -> (done: bool) {
        self.has_won() || self.has_tied()
    }

    fn get_moves(self) -> (moves: Vec<(usize, Self)>) {
        let mut list: Vec<(usize, Game)> = Vec::new();
        let mut iterator = MoveIterator::new(self);
        let ghost all = iterator.remaining();
        let mut item = iterator.next();
        while item.is_some()
            invariant
                all == moves_from(self, 0),
                match item {
                    Some(pair) => list@.push(pair) + iterator.remaining() == all,
                    None => list@ == all && iterator.remaining().len() == 0,
                },
            decreases iterator.remaining().len() + (if item is Some { 1nat } else { 0nat }),
        {
            let pair = item.unwrap();
            list.push(pair);
            let ghost left = iterator.remaining();
            item = iterator.next();
            proof {
                if item is Some {
                    assert(list@.push(item.unwrap()) + iterator.remaining() =~= list@ + left);
                } else {
                    assert(list@ + left =~= list@);
                }
            }
        }
        proof {
            self.lemma_moves(0);
        }
        list
    }
}

impl Game {
    /// Every move fills one empty cell, and a board whose top row has room
    /// has a move.
    pub proof fn lemma_moves(self, from: int)
        requires
            0 <= from <= 7,
        ensures
            forall|k: int|
                0 <= k < moves_from(self, from).len() ==> empty_cells(
                    (#[trigger] moves_from(self, from)[k]).1@.cells,
                    42,
                ) < empty_cells(self@.cells, 42),
            (exists|x: int| from <= x < 7 && cell_at(self@.cells, x, 0) is None) ==> moves_from(
                self,
                from,
            ).len() > 0,
        decreases 7 - from,
    {
        if from < 7 {
            self.lemma_moves(from + 1);
            if cell_at(self@.cells, from, 0) is None {
                self.lemma_after_drop(from as usize);
                lemma_cells_shape(self.board);
                lemma_landing_row(self@.cells, from, 0);
                let row = landing_row(self@.cells, from, 0);
                let next = self.after_drop(from as usize);
                lemma_cells_shape(next.board);
                lemma_empty_cells_filled(self@.cells, next@.cells, from, row, 42);
                assert forall|k: int| 0 <= k < moves_from(self, from).len() implies empty_cells(
                    (#[trigger] moves_from(self, from)[k]).1@.cells,
                    42,
                ) < empty_cells(self@.cells, 42) by {
                    if k > 0 {
                        assert(moves_from(self, from)[k] == moves_from(self, from + 1)[k - 1]);
                    }
                }
            }
        }
    }
}

/// The mark of a colour: `x` for white, `o` for black.
pub open spec fn mark(color: Color) -> char {
    match color {
        Color::White => 'x',
        Color::Black => 'o',
    }
}

/// The picture of the first `n` cells of a row: the mark of each piece or a
/// space, each followed by a space.
pub open spec fn row_picture(row: Seq<Option<Color>>, n: int) -> Seq<char>
    decreases n,
{
    if n <= 0 {
        Seq::empty()
    } else {
        row_picture(row, n - 1) + (match row[n - 1] {
            Some(color) => seq![mark(color), ' '],
            None => seq![' ', ' '],
        })
    }
}

/// The picture of the first `n` rows: each row after its number, on a line
/// of its own.
pub open spec fn rows_picture(cells: Cells, n: int) -> Seq<char>
    decreases n,
{
    if n <= 0 {
        Seq::empty()
    } else {
        rows_picture(cells, n - 1) + decimal((n - 1) as nat) + seq![' '] + row_picture(
            cells[n - 1],
            7,
        ) + seq!['\n']
    }
}

/// The picture of a board: a line with the numbers of the columns, then the rows.
pub open spec fn picture(cells: Cells) -> Seq<char> {
    "  0 1 2 3 4 5 6\n"@ + rows_picture(cells, 6)
}

impl Color {
    /// Appends the mark of the colour to `out`.
    pub fn fmt(&self, out: &mut String)
        ensures
            final(out)@ == old(out)@.push(mark(*self)),
    {
        match self {
            Color::White => push_char(out, 'x'),
            Color::Black => push_char(out, 'o'),
        }
    }
}

impl Game {
    /// The picture of the board.
    pub fn to_text(&self) -> (text: String)
        ensures
            text@ == picture(self@.cells),
    {
        let mut text = String::new();
        self.fmt(&mut text);
        assert(text@ =~= picture(self@.cells));
        text
    }

    /// Appends the picture of the board to `out`.
    pub fn fmt(&self, out: &mut String)
        ensures
            final(out)@ == old(out)@ + picture(self@.cells),
    {
        let ghost cells = self@.cells;
        proof {
            lemma_cells_shape(self.board);
        }
        let mut text = String::new();
        // Write the board header
        push_text(&mut text, "  0 1 2 3 4 5 6\n");
        let ghost header = text@;
        assert(header =~= "  0 1 2 3 4 5 6\n"@);
        let mut y: usize = 0;
        assert(text@ =~= header + rows_picture(cells, 0));
        while y < HEIGHT
            invariant
                y <= 6,
                cells == self@.cells,
                text@ == header + rows_picture(cells, y as int),
            decreases 6 - y,
        {
            let ghost before = text@;
            push_decimal(&mut text, y as u64);
            push_char(&mut text, ' ');
            let ghost start = text@;
            let mut x: usize = 0;
            assert(text@ =~= start + row_picture(cells[y as int], 0));
            while x < WIDTH
                invariant
                    x <= 7,
                    y < 6,
                    cells == self@.cells,
                    text@ == start + row_picture(cells[y as int], x as int),
                decreases 7 - x,
            {
                let ghost earlier = text@;
                match self.at(x, y) {
                    Some(color) => {
                        color.fmt(&mut text);
                        push_char(&mut text, ' ');
                    },
                    None => {
                        push_text(&mut text, "  ");
                        proof {
                            reveal_strlit("  ");
                            assert("  "@ =~= seq![' ', ' ']);
                        }
                    },
                }
                assert(text@ =~= start + row_picture(cells[y as int], x + 1));
                x += 1;
            }
            push_char(&mut text, '\n');
            assert(text@ =~= header + rows_picture(cells, y + 1));
            y += 1;
        }
        push_text(out, text.as_str());
    }
}

} // verus!
