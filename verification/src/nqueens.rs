//! The N queens puzzle by plain backtracking: every way to stand one queen
//! on each row of an board of N by N cells so that no two attack each other.

use crate::text::{decimal, push_char, push_decimal, push_text};
use vstd::prelude::*;

verus! {

/// A board with some queens on it.
#[derive(Clone, Copy)]
pub struct Queens<const N: usize> {
    board: [[bool; N]; N],
}

impl<const N: usize> View for Queens<N> {
    type V = Set<(int, int)>;

    /// The cells `(x, y)` that hold a queen.
    closed spec fn view(&self) -> Set<(int, int)> {
        Set::new(|p: (int, int)| 0 <= p.0 < N && 0 <= p.1 < N && self.board[p.1][p.0])
    }
}

/// The distance between two coordinates.
pub open spec fn gap(a: int, b: int) -> int {
    if a > b {
        a - b
    } else {
        b - a
    }
}

/// Whether two cells lie on one row, column or diagonal. A cell is aligned
/// with itself.
pub open spec fn aligned(a: (int, int), b: (int, int)) -> bool {
    a.0 == b.0 || a.1 == b.1 || gap(a.0, b.0) == gap(a.1, b.1)
}

/// Whether no queen of `queens` is aligned with the cell `(x, y)`.
pub open spec fn safe(queens: Set<(int, int)>, x: int, y: int) -> bool {
    forall|q: (int, int)| queens.contains(q) ==> !aligned(q, (x, y))
}

/// The step of a direction code: 0 stays, 1 goes up by one, 2 goes down by one.
pub open spec fn step(code: int) -> int {
    if code == 2 {
        -1
    } else {
        code
    }
}

/// The cell that a ray from `(x, y)` reaches after `t` steps in the direction
/// coded by `a` and `b`.
pub open spec fn ray_cell(x: int, y: int, a: int, b: int, t: int) -> (int, int) {
    (x + t * step(a), y + t * step(b))
}

/// The boards that add one safe queen to row `y`, in a column below `upto`,
/// in the order of the columns.
pub open spec fn safe_moves(queens: Set<(int, int)>, y: int, upto: int) -> Seq<Set<(int, int)>>
    decreases upto,
{
    if upto <= 0 {
        Seq::empty()
    } else if safe(queens, upto - 1, y) {
        safe_moves(queens, y, upto - 1).push(queens.insert((upto - 1, y)))
    } else {
        safe_moves(queens, y, upto - 1)
    }
}

/// Every way to complete `queens` with one safe queen on each of the rows
/// `row`, `row - 1`, ..., 0 of a board of side `n`: the columns of a row are
/// tried in order, and each choice is completed before the next is tried.
pub open spec fn completions(queens: Set<(int, int)>, n: int, row: int) -> Seq<Set<(int, int)>>
    decreases row, 1nat, 0nat,
{
    if row <= 0 {
        safe_moves(queens, 0, n)
    } else {
        completions_of(safe_moves(queens, row, n), n, row)
    }
}

/// The completions of each board of `moves` below `row`, one after another.
pub open spec fn completions_of(moves: Seq<Set<(int, int)>>, n: int, row: int) -> Seq<
    Set<(int, int)>,
>
    decreases row, 0nat, moves.len(),
{
    if row <= 0 || moves.len() == 0 {
        Seq::empty()
    } else {
        completions_of(moves.drop_last(), n, row) + completions(moves.last(), n, row - 1)
    }
}

/// The contents of a list of boards.
pub open spec fn boards<const N: usize>(list: Seq<Queens<N>>) -> Seq<Set<(int, int)>> {
    list.map_values(|q: Queens<N>| q@)
}

impl<const N: usize> Queens<N> {
    /// The empty board.
    pub fn new() -> (empty: Self)
        ensures
            empty@ == Set::<(int, int)>::empty(),
    {
        let empty = Queens { board: [[false; N]; N] };
        assert(empty@ =~= Set::<(int, int)>::empty());
        empty
    }

    /// Whether the cell `(x, y)` holds a queen.
    pub fn has_queen(&self, x: usize, y: usize) -> (held: bool)
        ensures
            held == self@.contains((x as int, y as int)),
    {
        x < N && y < N && self.board[y][x]
    }

    /// Whether the ray from `(x, y)` in the direction coded by `i` and `j`
    /// meets no queen on the board. The ray starts on `(x, y)` itself.
    fn ray_clear(&self, x: usize, y: usize, i: usize, j: usize) -> (clear: bool)
        requires
            x < N,
            y < N,
            i < 3,
            j < 3,
            !(i == 0 && j == 0),
        ensures
            clear == forall|t: int|
                0 <= t ==> !self@.contains(
                    #[trigger] ray_cell(x as int, y as int, i as int, j as int, t),
                ),
    {
        let (mut x0, mut y0) = (x, y);
        let ghost dx = step(i as int);
        let ghost dy = step(j as int);
        let ghost mut t: int = 0;
        let mut inside = true;
        while inside && x0 < N && y0 < N
            invariant
                x < N,
                y < N,
                i < 3,
                j < 3,
                !(i == 0 && j == 0),
                dx == step(i as int),
                dy == step(j as int),
                0 <= t,
                inside ==> x0 == x + t * dx && y0 == y + t * dy,
                !inside ==> !(0 <= x + t * dx < N && 0 <= y + t * dy < N),
                forall|s: int|
                    0 <= s < t ==> !self@.contains(
                        #[trigger] ray_cell(x as int, y as int, i as int, j as int, s),
                    ),
                inside && x0 < N && y0 < N ==> t < N,
            decreases (if inside { 1int } else { 0int }), N - t,
        {
            if self.board[y0][x0] {
                assert(self@.contains(ray_cell(x as int, y as int, i as int, j as int, t)));
                return false;
            }
            proof {
                assert((t + 1) * dx == t * dx + dx) by (nonlinear_arith);
                assert((t + 1) * dy == t * dy + dy) by (nonlinear_arith);
                t = t + 1;
            }
            if i == 2 {
                if x0 == 0 {
                    inside = false;
                } else {
                    x0 = x0 - 1;
                }
            } else {
                x0 = x0 + i;
            }
            if j == 2 {
                if y0 == 0 {
                    inside = false;
                } else {
                    y0 = y0 - 1;
                }
            } else if inside {
                y0 = y0 + j;
            }
            proof {
                if inside && x0 < N && y0 < N {
                    lemma_ray_bound(x as int, y as int, dx, dy, t, N as int);
                }
            }
        }
        proof {
            assert forall|s: int| 0 <= s implies !self@.contains(
                #[trigger] ray_cell(x as int, y as int, i as int, j as int, s),
            ) by {
                if s >= t {
                    lemma_ray_leaves(x as int, y as int, dx, dy, t, s, N as int);
                }
            }
        }
        true
    }

    /// Whether a queen may stand on `(x, y)`: no queen of the board is
    /// aligned with that cell. A cell off the board counts as safe.
    pub fn safe_place(&self, x: usize, y: usize) -> (ok: bool)
        ensures
            x < N && y < N ==> ok == safe(self@, x as int, y as int),
            !(x < N && y < N) ==> ok,
    {
        if x >= N || y >= N {
            return true;
        }
        let mut i: usize = 0;
        while i < 3
            invariant
                x < N,
                y < N,
                i <= 3,
                forall|a: int, b: int, t: int|
                    0 <= a < i && 0 <= b < 3 && !(a == 0 && b == 0) && 0 <= t ==> !self@.contains(
                        #[trigger] ray_cell(x as int, y as int, a, b, t),
                    ),
            decreases 3 - i,
        {
            let mut j: usize = 0;
            while j < 3
                invariant
                    x < N,
                    y < N,
                    i < 3,
                    j <= 3,
                    forall|a: int, b: int, t: int|
                        0 <= a < i && 0 <= b < 3 && !(a == 0 && b == 0) && 0 <= t
                            ==> !self@.contains(#[trigger] ray_cell(x as int, y as int, a, b, t)),
                    forall|b: int, t: int|
                        0 <= b < j && !(i == 0 && b == 0) && 0 <= t ==> !self@.contains(
                            #[trigger] ray_cell(x as int, y as int, i as int, b, t),
                        ),
                decreases 3 - j,
            {
                if !(i == 0 && j == 0) {
                    if !self.ray_clear(x, y, i, j) {
                        proof {
                            let t = choose|t: int|
                                0 <= t && self@.contains(
                                    #[trigger] ray_cell(x as int, y as int, i as int, j as int, t),
                                );
                            let q = ray_cell(x as int, y as int, i as int, j as int, t);
                            lemma_ray_aligned(
                                x as int,
                                y as int,
                                step(i as int),
                                step(j as int),
                                t,
                            );
                            assert(self@.contains(q) && aligned(q, (x as int, y as int)));
                        }
                        return false;
                    }
                }
                j += 1;
            }
            i += 1;
        }
        proof {
            {
                assert forall|q: (int, int)| self@.contains(q) implies !aligned(
                    q,
                    (x as int, y as int),
                ) by {
                    self.lemma_on_board(q);
                    if aligned(q, (x as int, y as int)) {
                        lemma_aligned_on_ray(x as int, y as int, q);
                        let (a, b, t) = choose|a: int, b: int, t: int|
                            0 <= a < 3 && 0 <= b < 3 && 0 <= t && (t == 0 || !(a == 0 && b == 0))
                                && q == #[trigger] ray_cell(x as int, y as int, a, b, t);
                        if a == 0 && b == 0 {
                            assert(t * step(0) == 0) by (nonlinear_arith);
                            assert(q == ray_cell(x as int, y as int, 1, 1, 0));
                            assert(!self@.contains(ray_cell(x as int, y as int, 1, 1, 0)));
                        } else {
                            assert(!self@.contains(ray_cell(x as int, y as int, a, b, t)));
                        }
                    }
                }
            }
        }
        true
    }

    /// The board with one more queen on `(x, y)`, or an error if that cell
    /// is off the board.
    pub fn place_queen(&self, x: usize, y: usize) -> (placed: Result<Queens<N>, String>)
        ensures
            placed is Ok <==> x < N && y < N,
            placed matches Ok(next) ==> next@ == self@.insert((x as int, y as int)),
            placed matches Err(message) ==> message@ == "Coordinates out of range"@,
    {
        if x >= N || y >= N {
            return Err("Coordinates out of range".to_string());
        }
        let mut board = self.board;
        let mut row = board[y];
        row[x] = true;
        board[y] = row;
        let next = Queens { board };
        assert(next@ =~= self@.insert((x as int, y as int)));
        Ok(next)
    }

    /// The boards that add one safe queen to row `y`, by column.
    pub fn get_safe_moves(&self, y: usize) -> (moves: Vec<Queens<N>>)
        requires
            y < N,
        ensures
            boards(moves@) == safe_moves(self@, y as int, N as int),
    {
        let mut queens: Vec<Queens<N>> = Vec::new();
        let mut x: usize = 0;
        assert(boards(queens@) =~= safe_moves(self@, y as int, 0));
        while x < N
            invariant
                x <= N,
                y < N,
                boards(queens@) == safe_moves(self@, y as int, x as int),
            decreases N - x,
        {
            if self.safe_place(x, y) {
                let ghost before = queens@;
                match self.place_queen(x, y) {
                    Ok(next) => {
                        queens.push(next);
                        assert(boards(queens@) =~= boards(before).push(next@));
                    },
                    Err(_) => {},
                }
            }
            x += 1;
        }
        queens
    }

    /// Every queen of the board stands on the board.
    pub proof fn lemma_on_board(&self, q: (int, int))
        requires
            self@.contains(q),
        ensures
            0 <= q.0 < N,
            0 <= q.1 < N,
    {
    }
}

/// A ray that is still on the board after `t` steps has made fewer steps
/// than the board is wide.
proof fn lemma_ray_bound(x: int, y: int, dx: int, dy: int, t: int, n: int)
    requires
        0 <= x < n,
        0 <= y < n,
        -1 <= dx <= 1,
        -1 <= dy <= 1,
        !(dx == 0 && dy == 0),
        0 <= t,
        0 <= x + t * dx < n,
        0 <= y + t * dy < n,
    ensures
        t < n,
{
    if dx != 0 {
        assert(t * dx == t || t * dx == -t) by (nonlinear_arith)
            requires
                dx == 1 || dx == -1,
        ;
    } else {
        assert(t * dy == t || t * dy == -t) by (nonlinear_arith)
            requires
                dy == 1 || dy == -1,
        ;
    }
}

/// A ray that has left the board after `t` steps does not come back.
proof fn lemma_ray_leaves(x: int, y: int, dx: int, dy: int, t: int, s: int, n: int)
    requires
        0 <= x < n,
        0 <= y < n,
        -1 <= dx <= 1,
        -1 <= dy <= 1,
        0 <= t <= s,
        !(0 <= x + t * dx < n && 0 <= y + t * dy < n),
    ensures
        !(0 <= x + s * dx < n && 0 <= y + s * dy < n),
{
    assert(dx == 0 ==> s * dx == 0 && t * dx == 0) by (nonlinear_arith);
    assert(dy == 0 ==> s * dy == 0 && t * dy == 0) by (nonlinear_arith);
    assert(dx == 1 ==> s * dx == s && t * dx == t) by (nonlinear_arith);
    assert(dy == 1 ==> s * dy == s && t * dy == t) by (nonlinear_arith);
    assert(dx == -1 ==> s * dx == -s && t * dx == -t) by (nonlinear_arith);
    assert(dy == -1 ==> s * dy == -s && t * dy == -t) by (nonlinear_arith);
}

/// Every cell of a ray is aligned with the cell that the ray starts from.
proof fn lemma_ray_aligned(x: int, y: int, dx: int, dy: int, t: int)
    requires
        -1 <= dx <= 1,
        -1 <= dy <= 1,
        0 <= t,
    ensures
        aligned((x + t * dx, y + t * dy), (x, y)),
{
    assert(dx == 0 ==> t * dx == 0) by (nonlinear_arith);
    assert(dy == 0 ==> t * dy == 0) by (nonlinear_arith);
    assert(dx == 1 ==> t * dx == t) by (nonlinear_arith);
    assert(dy == 1 ==> t * dy == t) by (nonlinear_arith);
    assert(dx == -1 ==> t * dx == -t) by (nonlinear_arith);
    assert(dy == -1 ==> t * dy == -t) by (nonlinear_arith);
}

/// Every cell aligned with `(x, y)` lies on one of the eight rays from it,
/// or is the cell itself.
proof fn lemma_aligned_on_ray(x: int, y: int, q: (int, int))
    requires
        aligned(q, (x, y)),
    ensures
        exists|a: int, b: int, t: int|
            0 <= a < 3 && 0 <= b < 3 && 0 <= t && (t == 0 || !(a == 0 && b == 0)) && q
                == #[trigger] ray_cell(x, y, a, b, t),
{
    let a: int = if q.0 == x {
        0
    } else if q.0 > x {
        1
    } else {
        2
    };
    let b: int = if q.1 == y {
        0
    } else if q.1 > y {
        1
    } else {
        2
    };
    let t: int = if q.0 == x {
        gap(q.1, y)
    } else {
        gap(q.0, x)
    };
    assert(t * step(a) == q.0 - x) by (nonlinear_arith)
        requires
            step(a) == 0 && q.0 == x || step(a) == 1 && t == q.0 - x || step(a) == -1 && t == x
                - q.0,
    ;
    assert(t * step(b) == q.1 - y) by (nonlinear_arith)
        requires
            step(b) == 0 && q.1 == y || step(b) == 1 && t == q.1 - y || step(b) == -1 && t == y
                - q.1,
    ;
    assert(q == ray_cell(x, y, a, b, t));
}

/// Every way to complete `root` with one safe queen on each of the rows
/// `row` down to 0.
pub fn solve_internal<const N: usize>(row: usize, root: Queens<N>) -> (solutions: Vec<Queens<N>>)
    requires
        row < N,
    ensures
        boards(solutions@) == completions(root@, N as int, row as int),
    decreases row,
{
    if row == 0 {
        return root.get_safe_moves(row);
    }
    let mut solutions: Vec<Queens<N>> = Vec::new();
    let moves = root.get_safe_moves(row);
    let mut k: usize = 0;
    assert(boards(solutions@) =~= completions_of(boards(moves@).take(0), N as int, row as int));
    while k < moves.len()
        invariant
            k <= moves.len(),
            0 < row < N,
            boards(solutions@) == completions_of(
                boards(moves@).take(k as int),
                N as int,
                row as int,
            ),
        decreases moves.len() - k,
    {
        let mut deeper = solve_internal(row - 1, moves[k]);
        let ghost before = solutions@;
        let ghost added = deeper@;
        solutions.append(&mut deeper);
        proof {
            assert(boards(moves@).take(k + 1).drop_last() =~= boards(moves@).take(k as int));
            assert(boards(moves@).take(k + 1).last() == moves@[k as int]@);
            assert(boards(solutions@) =~= boards(before) + boards(added));
        }
        k += 1;
    }
    assert(boards(moves@).take(k as int) =~= boards(moves@));
    solutions
}

/// Every solution of the puzzle on a board of side `N`.
pub fn solve<const N: usize>() -> (solutions: Vec<Queens<N>>)
    requires
        N >= 1,
    ensures
        boards(solutions@) == completions(Set::<(int, int)>::empty(), N as int, N - 1),
{
    let queen = Queens::<N>::new();
    solve_internal(N - 1, queen)
}

/// The numbers below `n`, each followed by a space.
pub open spec fn column_numbers(n: int) -> Seq<char>
    decreases n,
{
    if n <= 0 {
        Seq::empty()
    } else {
        column_numbers(n - 1) + decimal((n - 1) as nat) + seq![' ']
    }
}

/// The picture of the first `n` cells of row `y`: `Q` and two spaces for a
/// queen, two spaces for an empty cell.
pub open spec fn row_picture(queens: Set<(int, int)>, y: int, n: int) -> Seq<char>
    decreases n,
{
    if n <= 0 {
        Seq::empty()
    } else {
        row_picture(queens, y, n - 1) + (if queens.contains((n - 1, y)) {
            seq!['Q', ' ', ' ']
        } else {
            seq![' ', ' ']
        })
    }
}

/// The picture of the first `n` rows of a board of side `side`: each row on
/// a new line, after its number.
pub open spec fn rows_picture(queens: Set<(int, int)>, side: int, n: int) -> Seq<char>
    decreases n,
{
    if n <= 0 {
        Seq::empty()
    } else {
        rows_picture(queens, side, n - 1) + seq!['\n'] + decimal((n - 1) as nat) + seq![' ']
            + row_picture(queens, n - 1, side)
    }
}

/// The picture of a board: a line with the numbers of the columns, then the rows.
pub open spec fn picture(queens: Set<(int, int)>, side: int) -> Seq<char> {
    seq![' ', ' '] + column_numbers(side) + rows_picture(queens, side, side)
}

impl<const N: usize> Queens<N> {
    /// The picture of the board.
    pub fn to_text(&self) -> (text: String)
        ensures
            text@ == picture(self@, N as int),
    {
        let mut text = String::new();
        self.fmt(&mut text);
        assert(text@ =~= picture(self@, N as int));
        text
    }

    /// Appends the picture of the board to `out`.
    pub fn fmt(&self, out: &mut String)
        ensures
            final(out)@ == old(out)@ + picture(self@, N as int),
    {
        let mut text = String::new();
        push_text(&mut text, "  ");
        proof {
            reveal_strlit("  ");
            assert("  "@ =~= seq![' ', ' ']);
        }
        let ghost lead = text@;
        let mut i: usize = 0;
        assert(text@ =~= lead + column_numbers(0));
        while i < N
            invariant
                i <= N,
                text@ == lead + column_numbers(i as int),
            decreases N - i,
        {
            push_decimal(&mut text, i as u64);
            push_char(&mut text, ' ');
            assert(text@ =~= lead + column_numbers(i + 1));
            i += 1;
        }
        let ghost head = text@;
        let mut y: usize = 0;
        assert(text@ =~= head + rows_picture(self@, N as int, 0));
        while y < N
            invariant
                y <= N,
                text@ == head + rows_picture(self@, N as int, y as int),
            decreases N - y,
        {
            push_char(&mut text, '\n');
            push_decimal(&mut text, y as u64);
            push_char(&mut text, ' ');
            let ghost start = text@;
            let mut x: usize = 0;
            assert(text@ =~= start + row_picture(self@, y as int, 0));
            while x < N
                invariant
                    x <= N,
                    y < N,
                    text@ == start + row_picture(self@, y as int, x as int),
                decreases N - x,
            {
                if self.has_queen(x, y) {
                    push_text(&mut text, "Q  ");
                    proof {
                        reveal_strlit("Q  ");
                        assert("Q  "@ =~= seq!['Q', ' ', ' ']);
                    }
                } else {
                    push_text(&mut text, "  ");
                    proof {
                        reveal_strlit("  ");
                        assert("  "@ =~= seq![' ', ' ']);
                    }
                }
                assert(text@ =~= start + row_picture(self@, y as int, x + 1));
                x += 1;
            }
            assert(text@ =~= head + rows_picture(self@, N as int, y + 1));
            y += 1;
        }
        push_text(out, text.as_str());
    }
}

} // verus!
