//! Four queens on a 4 by 4 board as a constraint problem: one boolean variable
//! per cell, a constraint between every two cells that share a line, and a
//! global test that prunes boards that cannot be completed.

use crate::csp::constraint::{
    all_assigned, states, BinaryConstraint, BinaryPredicate, ConstraintView, GlobalConstraint,
    StatePredicate,
};
use crate::csp::model::Problem;
use crate::csp::solver::{arcs_of, views, ConstraintSolver};
use crate::csp::variable::{lemma_distinct_of_unique, VarState, Variable};
use std::collections::HashMap;
use vstd::prelude::*;
use vstd::std_specs::hash::*;

verus! {

/// The side of the board.
pub const SIDE: usize = 4;

/// The number of cells.
pub const CELLS: usize = 16;

/// The coordinates of a cell: `x` runs fastest.
pub fn get_xy(index: usize) -> (xy: (usize, usize))
    ensures
        xy.0 == index % 4,
        xy.1 == index / 4,
{
    (index % SIDE, index / SIDE)
}

/// The distance between two coordinates.
pub open spec fn distance(a: int, b: int) -> int {
    if a > b {
        a - b
    } else {
        b - a
    }
}

/// Whether two cells are as far apart in `x` as in `y`.
pub fn on_diagonal(x1: usize, y1: usize, x2: usize, y2: usize) -> (diagonal: bool)
    ensures
        diagonal == (distance(x1 as int, x2 as int) == distance(y1 as int, y2 as int)),
{
    let diff_x = if x1 > x2 {
        x1 - x2
    } else {
        x2 - x1
    };
    let diff_y = if y1 > y2 {
        y1 - y2
    } else {
        y2 - y1
    };
    diff_x == diff_y
}

/// Whether a queen on cell `i` attacks cell `j`: they are different cells on
/// one row, column or diagonal.
pub open spec fn attacks(i: int, j: int) -> bool {
    i != j && (i % 4 == j % 4 || i / 4 == j / 4 || distance(i % 4, j % 4) == distance(i / 4, j / 4))
}

/// Decides `attacks`.
pub fn is_attack(i: usize, j: usize) -> (attack: bool)
    ensures
        attack == attacks(i as int, j as int),
{
    let i_xy = get_xy(i);
    let j_xy = get_xy(j);
    i != j && (i_xy.0 == j_xy.0 || i_xy.1 == j_xy.1 || on_diagonal(i_xy.0, i_xy.1, j_xy.0, j_xy.1))
}

/// Two cells that attack each other do not both hold a queen.
pub fn check(left: &bool, right: &bool) -> (ok: bool)
    ensures
        ok == !(*left && *right),
{
    !(*left && *right)
}

/// The constraint between two cells that attack each other.
#[derive(Clone, Copy, Debug)]
pub struct NoTwoQueens;

impl BinaryPredicate<bool> for NoTwoQueens {
    open spec fn holds(&self, left: bool, right: bool) -> bool {
        !(left && right)
    }

    fn check(&self, left: &bool, right: &bool) -> (ok: bool) {
        check(left, right)
    }
}

/// Whether the cell at `index` holds `value` and lies on the given lines.
pub open spec fn cell_matches(
    cell: VarState<bool>,
    index: int,
    value: Option<bool>,
    at_x: Option<usize>,
    at_y: Option<usize>,
) -> bool {
    &&& cell.value == value
    &&& at_x matches Some(x) ==> index % 4 == x
    &&& at_y matches Some(y) ==> index / 4 == y
}

/// The number of cells among the first `n` that hold `value` and lie on the
/// given lines.
pub open spec fn count_cells(
    board: Seq<VarState<bool>>,
    n: int,
    value: Option<bool>,
    at_x: Option<usize>,
    at_y: Option<usize>,
) -> nat
    decreases n,
{
    if n <= 0 {
        0
    } else {
        count_cells(board, n - 1, value, at_x, at_y) + if cell_matches(
            board[n - 1],
            n - 1,
            value,
            at_x,
            at_y,
        ) {
            1nat
        } else {
            0nat
        }
    }
}

/// Counts the cells that hold `value` and lie on the given lines.
pub fn tally(
    variables: &Vec<Variable<bool>>,
    value: Option<bool>,
    at_x: Option<usize>,
    at_y: Option<usize>,
) -> (count: usize)
    ensures
        count == count_cells(states(variables@), variables.len() as int, value, at_x, at_y),
{
    let mut count: usize = 0;
    let mut i: usize = 0;
    while i < variables.len()
        invariant
            i <= variables.len(),
            count <= i,
            count == count_cells(states(variables@), i as int, value, at_x, at_y),
        decreases variables.len() - i,
    {
        let held = variables[i].value();
        assert(states(variables@)[i as int] == variables@[i as int]@);
        let same = match (held, value) {
            (Some(a), Some(b)) => a == b,
            (None, None) => true,
            _ => false,
        };
        let on_x = match at_x {
            Some(x) => i % SIDE == x,
            None => true,
        };
        let on_y = match at_y {
            Some(y) => i / SIDE == y,
            None => true,
        };
        if same && on_x && on_y {
            count += 1;
        }
        i += 1;
    }
    count
}

/// Every cell is decided and exactly four hold a queen.
pub open spec fn four_queens(board: Seq<VarState<bool>>) -> bool {
    all_assigned(board) && count_cells(board, board.len() as int, Some(true), None, None) == 4
}

/// Decides `four_queens`.
pub fn finished(variables: &Vec<Variable<bool>>) -> (done: bool)
    ensures
        done == four_queens(states(variables@)),
{
    let mut i: usize = 0;
    while i < variables.len()
        invariant
            i <= variables.len(),
            forall|j: int| 0 <= j < i ==> (#[trigger] states(variables@)[j]).value is Some,
        decreases variables.len() - i,
    {
        assert(states(variables@)[i as int] == variables@[i as int]@);
        if variables[i].value().is_none() {
            return false;
        }
        i += 1;
    }
    tally(variables, Some(true), None, None) == 4
}

/// Whether line `line` can still be completed, in both directions: at most
/// one queen on it and not all four cells decided empty.
pub open spec fn line_feasible(board: Seq<VarState<bool>>, line: usize) -> bool {
    let n = board.len() as int;
    &&& count_cells(board, n, Some(true), Some(line), None) <= 1
    &&& count_cells(board, n, Some(true), None, Some(line)) <= 1
    &&& count_cells(board, n, Some(false), Some(line), None) <= 3
    &&& count_cells(board, n, Some(false), None, Some(line)) <= 3
}

/// Whether the board can still be completed: every line is feasible, there
/// are at most four queens, and the queens and the undecided cells together
/// are at least four.
pub open spec fn feasible(board: Seq<VarState<bool>>) -> bool {
    let n = board.len() as int;
    &&& forall|line: usize| line < 4 ==> line_feasible(board, line)
    &&& count_cells(board, n, Some(true), None, None) <= 4
    &&& count_cells(board, n, Some(true), None, None) + count_cells(board, n, None, None, None)
        >= 4
}

/// Decides `feasible`.
pub fn global_constraint(variables: &Vec<Variable<bool>>) -> (ok: bool)
    ensures
        ok == feasible(states(variables@)),
{
    let mut line: usize = 0;
    while line < SIDE
        invariant
            line <= 4,
            forall|l: usize| l < line ==> line_feasible(states(variables@), l),
        decreases 4 - line,
    {
        if tally(variables, Some(true), Some(line), None) > 1 || tally(
            variables,
            Some(true),
            None,
            Some(line),
        ) > 1 || tally(variables, Some(false), Some(line), None) > 3 || tally(
            variables,
            Some(false),
            None,
            Some(line),
        ) > 3 {
            assert(!line_feasible(states(variables@), line));
            return false;
        }
        line += 1;
    }
    let queens = tally(variables, Some(true), None, None);
    let open = tally(variables, None, None, None);
    queens <= 4 && (queens >= 4 || open >= 4 - queens)
}

/// The goal of the puzzle.
#[derive(Clone, Copy, Debug)]
pub struct FourQueens;

impl StatePredicate<bool> for FourQueens {
    open spec fn holds(&self, state: Seq<VarState<bool>>) -> bool {
        four_queens(state)
    }

    fn check(&self, variables: &Vec<Variable<bool>>) -> (ok: bool) {
        finished(variables)
    }
}

/// The global constraint of the puzzle.
#[derive(Clone, Copy, Debug)]
pub struct Completable;

impl StatePredicate<bool> for Completable {
    open spec fn holds(&self, state: Seq<VarState<bool>>) -> bool {
        feasible(state)
    }

    fn check(&self, variables: &Vec<Variable<bool>>) -> (ok: bool) {
        global_constraint(variables)
    }
}

/// The constraints that leave cell `i` toward the cells below `n`, in the
/// order of the cells.
pub open spec fn attack_arcs(i: usize, n: int) -> Seq<ConstraintView<NoTwoQueens>>
    decreases n,
{
    if n <= 0 {
        Seq::empty()
    } else if attacks(i as int, n - 1) {
        attack_arcs(i, n - 1).push(
            ConstraintView { left: i, right: (n - 1) as usize, check: NoTwoQueens },
        )
    } else {
        attack_arcs(i, n - 1)
    }
}

/// Every constraint of `attack_arcs(i, n)` leaves `i` for a cell below `n`.
pub proof fn lemma_attack_arcs(i: usize, n: int)
    requires
        0 <= n <= usize::MAX,
    ensures
        forall|k: int|
            0 <= k < attack_arcs(i, n).len() ==> (#[trigger] attack_arcs(i, n)[k]).left == i
                && attack_arcs(i, n)[k].right < n,
    decreases n,
{
    if n > 0 {
        lemma_attack_arcs(i, n - 1);
        let shorter = attack_arcs(i, n - 1);
        assert forall|k: int| 0 <= k < attack_arcs(i, n).len() implies (#[trigger] attack_arcs(
            i,
            n,
        )[k]).left == i && attack_arcs(i, n)[k].right < n by {
            if k < shorter.len() {
                assert(attack_arcs(i, n)[k] == shorter[k]);
            }
        }
    }
}

/// An undecided cell: it may hold a queen or stay empty.
pub open spec fn undecided_cell() -> VarState<bool> {
    VarState { name: Seq::empty(), value: None, domain: seq![true, false] }
}

/// The puzzle: sixteen undecided cells, a constraint from every cell to each
/// cell that it attacks, and the global test.
pub open spec fn queens_problem() -> Problem<bool, NoTwoQueens, Completable> {
    Problem {
        variables: Seq::new(16, |i: int| undecided_cell()),
        arcs: Map::new(
            |i: usize| i < 16 && attack_arcs(i, 16).len() > 0,
            |i: usize| attack_arcs(i, 16),
        ),
        global: Some(Completable),
    }
}

/// The constraints that leave cell `i`.
fn constraints_from(i: usize) -> (list: Vec<BinaryConstraint<NoTwoQueens>>)
    ensures
        views(list@) == attack_arcs(i, 16),
{
    let mut list: Vec<BinaryConstraint<NoTwoQueens>> = Vec::new();
    let mut j: usize = 0;
    assert(views(list@) =~= attack_arcs(i, 0));
    while j < CELLS
        invariant
            j <= 16,
            views(list@) == attack_arcs(i, j as int),
        decreases 16 - j,
    {
        if is_attack(i, j) {
            let ghost before = list@;
            let constraint = BinaryConstraint::new(i, j, NoTwoQueens);
            list.push(constraint);
            assert(views(list@) =~= views(before).push(constraint@));
        }
        j += 1;
    }
    list
}

/// Solves the puzzle. The result holds one variable per cell, committed to
/// `true` where a queen stands; it is empty if the search finds nothing.
pub fn solve_queens() -> (solution: Vec<Variable<bool>>)
    ensures
        states(solution@) == queens_problem().solution(FourQueens),
{
    broadcast use group_hash_axioms;
    broadcast use vstd::laws_eq::group_laws_eq;

    let mut variables: Vec<Variable<bool>> = Vec::new();
    let mut i: usize = 0;
    while i < CELLS
        invariant
            i <= 16,
            variables.len() == i,
            forall|j: int| 0 <= j < i ==> (#[trigger] variables[j])@ == undecided_cell(),
        decreases 16 - i,
    {
        let mut domain: Vec<bool> = Vec::new();
        domain.push(true);
        domain.push(false);
        proof {
            assert(domain@ =~= seq![true, false]);
            lemma_distinct_of_unique(domain@);
        }
        variables.push(Variable::new(String::new(), domain, None));
        i += 1;
    }
    let mut constraints: HashMap<usize, Vec<BinaryConstraint<NoTwoQueens>>> = HashMap::new();
    let mut i: usize = 0;
    while i < CELLS
        invariant
            i <= 16,
            forall|key: usize|
                constraints@.contains_key(key) <==> key < i && attack_arcs(key, 16).len() > 0,
            forall|key: usize| #[trigger]
                constraints@.contains_key(key) ==> views(constraints@[key]@) == attack_arcs(
                    key,
                    16,
                ),
        decreases 16 - i,
    {
        let list = constraints_from(i);
        if list.len() > 0 {
            constraints.insert(i, list);
        }
        i += 1;
    }
    proof {
        assert(states(variables@) =~= queens_problem().variables);
        assert(arcs_of(constraints@) =~= queens_problem().arcs);
        assert forall|key: usize| #[trigger]
            queens_problem().arcs.dom().contains(key) implies forall|k: int|
            0 <= k < queens_problem().arcs[key].len() ==> (
            #[trigger] queens_problem().arcs[key][k]).left == key
                && queens_problem().arcs[key][k].right < 16 by {
            lemma_attack_arcs(key, 16);
        }
    }
    let built = ConstraintSolver::new(
        variables,
        constraints,
        Some(GlobalConstraint::new(Completable)),
    );
    match built {
        Ok(solver) => solver.solve(FourQueens),
        Err(_) => Vec::new(),
    }
}

} // verus!
