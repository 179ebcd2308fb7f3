//! Sudoku as a constraint problem: one variable per cell, and a constraint
//! from every cell to each other cell of its row, its column and its box.

use crate::csp::constraint::{
    all_assigned, states, BinaryConstraint, BinaryPredicate, ConstraintView, StatePredicate,
};
use crate::csp::model::Problem;
use crate::csp::solver::{arcs_of, views, ConstraintSolver};
use crate::csp::variable::{lemma_distinct_of_unique, VarState, Variable};
use crate::text::{decimal, push_char, push_decimal};
use std::collections::HashMap;
use vstd::prelude::*;
use vstd::std_specs::hash::*;

verus! {

/// A grid of givens and blanks, row by row.
pub type Grid = [[Option<i32>; 9]; 9];

/// The position of the cell in column `x` of row `y`.
pub fn get_index(x: usize, y: usize) -> (index: usize)
    requires
        x + y * 9 <= usize::MAX,
    ensures
        index == x + y * 9,
{
    x + (y * 9)
}

/// The box that holds the cell in column `x` of row `y`.
pub fn get_box(x: usize, y: usize) -> (b: usize)
    requires
        x / 3 + (y / 3) * 3 <= usize::MAX,
    ensures
        b == x / 3 + (y / 3) * 3,
{
    x / 3 + (y / 3) * 3
}

/// Two cells that see each other hold different digits.
pub fn check(left: &i32, right: &i32) -> (ok: bool)
    ensures
        ok == (*left != *right),
{
    *left != *right
}

/// The constraint between two cells that see each other.
#[derive(Clone, Copy, Debug)]
pub struct Different;

impl BinaryPredicate<i32> for Different {
    open spec fn holds(&self, left: i32, right: i32) -> bool {
        left != right
    }

    fn check(&self, left: &i32, right: &i32) -> (ok: bool) {
        check(left, right)
    }
}

/// Decides `all_assigned`.
pub fn finished(variables: &Vec<Variable<i32>>) -> (done: bool)
    ensures
        done == all_assigned(states(variables@)),
{
    let mut i: usize = 0;
    while i < variables.len()
        invariant
            i <= variables.len(),
            forall|j: int| 0 <= j < i ==> (#[trigger] states(variables@)[j]).value is Some,
        decreases variables.len() - i,
    {
        assert(states(variables@)[i as int] == variables@[i as int]@);
        if variables[i].value().is_none() {
            return false;
        }
        i += 1;
    }
    true
}

/// The goal of the puzzle: every cell holds a digit.
#[derive(Clone, Copy, Debug)]
pub struct Filled;

impl StatePredicate<i32> for Filled {
    open spec fn holds(&self, state: Seq<VarState<i32>>) -> bool {
        all_assigned(state)
    }

    fn check(&self, variables: &Vec<Variable<i32>>) -> (ok: bool) {
        finished(variables)
    }
}

/// Whether the cells at positions `p` and `q` see each other: they are
/// different cells of one row, column or box.
pub open spec fn sees(p: int, q: int) -> bool {
    p != q && (p % 9 == q % 9 || p / 9 == q / 9 || (p % 9) / 3 + ((p / 9) / 3) * 3 == (q % 9) / 3
        + ((q / 9) / 3) * 3)
}

/// Decides `sees`.
pub fn is_peer(p: usize, q: usize) -> (peer: bool)
    ensures
        peer == sees(p as int, q as int),
{
    let (x1, y1) = (p % 9, p / 9);
    let (x2, y2) = (q % 9, q / 9);
    !(x1 == x2 && y1 == y2) && (x1 == x2 || y1 == y2 || get_box(x1, y1) == get_box(x2, y2))
}

/// The constraints that leave cell `p` toward the cells below `n`, in the
/// order of the cells.
pub open spec fn peer_arcs(p: usize, n: int) -> Seq<ConstraintView<Different>>
    decreases n,
{
    if n <= 0 {
        Seq::empty()
    } else if sees(p as int, n - 1) {
        peer_arcs(p, n - 1).push(
            ConstraintView { left: p, right: (n - 1) as usize, check: Different },
        )
    } else {
        peer_arcs(p, n - 1)
    }
}

/// Every constraint of `peer_arcs(p, n)` leaves `p` for a cell below `n`.
pub proof fn lemma_peer_arcs(p: usize, n: int)
    requires
        0 <= n <= usize::MAX,
    ensures
        forall|k: int|
            0 <= k < peer_arcs(p, n).len() ==> (#[trigger] peer_arcs(p, n)[k]).left == p
                && peer_arcs(p, n)[k].right < n,
    decreases n,
{
    if n > 0 {
        lemma_peer_arcs(p, n - 1);
        let shorter = peer_arcs(p, n - 1);
        assert forall|k: int| 0 <= k < peer_arcs(p, n).len() implies (#[trigger] peer_arcs(
            p,
            n,
        )[k]).left == p && peer_arcs(p, n)[k].right < n by {
            if k < shorter.len() {
                assert(peer_arcs(p, n)[k] == shorter[k]);
            }
        }
    }
}

/// The name of the cell in column `x` of row `y`: the two numbers in
/// decimal, a space between them.
pub open spec fn cell_label(x: nat, y: nat) -> Seq<char> {
    decimal(x).push(' ') + decimal(y)
}

/// Builds the name of a cell.
pub fn cell_name(x: usize, y: usize) -> (name: String)
    ensures
        name@ == cell_label(x as nat, y as nat),
{
    let mut name = String::new();
    push_decimal(&mut name, x as u64);
    push_char(&mut name, ' ');
    push_decimal(&mut name, y as u64);
    assert(name@ =~= cell_label(x as nat, y as nat));
    name
}

/// The digits one to nine.
pub open spec fn digits() -> Seq<i32> {
    seq![1i32, 2i32, 3i32, 4i32, 5i32, 6i32, 7i32, 8i32, 9i32]
}

/// The variable of the cell at position `p`: committed to its given, or
/// open with all nine digits.
pub open spec fn cell(grid: Grid, p: int) -> VarState<i32> {
    match grid[p / 9][p % 9] {
        Some(given) => VarState {
            name: cell_label((p % 9) as nat, (p / 9) as nat),
            value: Some(given),
            domain: Seq::empty(),
        },
        None => VarState {
            name: cell_label((p % 9) as nat, (p / 9) as nat),
            value: None,
            domain: digits(),
        },
    }
}

/// The puzzle of a grid: eighty-one cells and, from every cell, a constraint
/// to each cell that it sees.
pub open spec fn soduku_problem(grid: Grid) -> Problem<i32, Different, Filled> {
    Problem {
        variables: Seq::new(81, |p: int| cell(grid, p)),
        arcs: Map::new(|p: usize| p < 81, |p: usize| peer_arcs(p, 81)),
        global: None,
    }
}

/// The constraints that leave cell `p`.
fn constraints_from(p: usize) -> (list: Vec<BinaryConstraint<Different>>)
    ensures
        views(list@) == peer_arcs(p, 81),
{
    let mut list: Vec<BinaryConstraint<Different>> = Vec::new();
    let mut q: usize = 0;
    assert(views(list@) =~= peer_arcs(p, 0));
    while q < 81
        invariant
            q <= 81,
            views(list@) == peer_arcs(p, q as int),
        decreases 81 - q,
    {
        if is_peer(p, q) {
            let ghost before = list@;
            let constraint = BinaryConstraint::new(p, q, Different);
            list.push(constraint);
            assert(views(list@) =~= views(before).push(constraint@));
        }
        q += 1;
    }
    list
}

/// The variables of a grid.
fn cells_of(grid: &Grid) -> (variables: Vec<Variable<i32>>)
    ensures
        states(variables@) == soduku_problem(*grid).variables,
{
    broadcast use vstd::laws_eq::group_laws_eq;

    let mut variables: Vec<Variable<i32>> = Vec::new();
    let mut p: usize = 0;
    while p < 81
        invariant
            p <= 81,
            variables.len() == p,
            forall|j: int| 0 <= j < p ==> (#[trigger] variables[j])@ == cell(*grid, j),
        decreases 81 - p,
    {
        let (x, y) = (p % 9, p / 9);
        let variable = match grid[y][x] {
            Some(given) => Variable::new(cell_name(x, y), Vec::new(), Some(given)),
            None => {
                let mut domain: Vec<i32> = Vec::new();
                let mut digit: i32 = 1;
                while digit <= 9
                    invariant
                        1 <= digit <= 10,
                        domain@ == digits().take(digit - 1),
                    decreases 10 - digit,
                {
                    domain.push(digit);
                    assert(domain@ =~= digits().take(digit as int));
                    digit += 1;
                }
                proof {
                    assert(domain@ =~= digits());
                    lemma_distinct_of_unique(domain@);
                }
                Variable::new(cell_name(x, y), domain, None)
            },
        };
        variables.push(variable);
        p += 1;
    }
    assert(states(variables@) =~= soduku_problem(*grid).variables);
    variables
}

/// Solves the puzzle of a grid. The result holds one variable per cell, row
/// by row, each committed to its digit; it is empty if the search finds no
/// completion.
pub fn solve_grid(grid: &Grid) -> (solution: Vec<Variable<i32>>)
    ensures
        states(solution@) == soduku_problem(*grid).solution(Filled),
{
    broadcast use group_hash_axioms;
    broadcast use vstd::laws_eq::group_laws_eq;

    let variables = cells_of(grid);
    let mut constraints: HashMap<usize, Vec<BinaryConstraint<Different>>> = HashMap::new();
    let mut p: usize = 0;
    while p < 81
        invariant
            p <= 81,
            forall|key: usize| constraints@.contains_key(key) <==> key < p,
            forall|key: usize| #[trigger]
                constraints@.contains_key(key) ==> views(constraints@[key]@) == peer_arcs(key, 81),
        decreases 81 - p,
    {
        let list = constraints_from(p);
        constraints.insert(p, list);
        p += 1;
    }
    proof {
        assert(arcs_of(constraints@) =~= soduku_problem(*grid).arcs);
        assert forall|key: usize| #[trigger]
            soduku_problem(*grid).arcs.dom().contains(key) implies forall|k: int|
            0 <= k < soduku_problem(*grid).arcs[key].len() ==> (
            #[trigger] soduku_problem(*grid).arcs[key][k]).left == key && soduku_problem(
                *grid,
            ).arcs[key][k].right < 81 by {
            lemma_peer_arcs(key, 81);
        }
    }
    let built = ConstraintSolver::<i32, Different, Filled>::new(variables, constraints, None);
    match built {
        Ok(solver) => solver.solve(Filled),
        Err(_) => Vec::new(),
    }
}

/// The grid of the example puzzle.
pub open spec fn example_grid() -> Grid {
    [
        [None, None, None, None, Some(6i32), None, None, Some(3i32), None],
        [Some(2i32), None, Some(7i32), Some(3i32), Some(8i32), None, None, Some(4i32), None],
        [Some(6i32), None, None, None, None, None, None, Some(2i32), None],
        [Some(3i32), None, None, Some(1i32), Some(4i32), Some(5i32), Some(2i32), None, None],
        [Some(5i32), Some(6i32), Some(1i32), Some(2i32), Some(9i32), None, None, Some(7i32), None],
        [None, None, Some(9i32), None, Some(7i32), None, None, None, Some(1i32)],
        [Some(8i32), None, Some(2i32), Some(5i32), Some(1i32), None, Some(6i32), None, Some(4i32)],
        [None, Some(4i32), None, Some(9i32), Some(3i32), Some(6i32), Some(8i32), None, None],
        [None, Some(9i32), None, None, None, Some(4i32), Some(3i32), None, Some(7i32)],
    ]
}

/// Builds the grid of the example puzzle.
pub fn puzzle() -> (grid: Grid)
    ensures
        grid == example_grid(),
{
    [
        [None, None, None, None, Some(6), None, None, Some(3), None],
        [Some(2), None, Some(7), Some(3), Some(8), None, None, Some(4), None],
        [Some(6), None, None, None, None, None, None, Some(2), None],
        [Some(3), None, None, Some(1), Some(4), Some(5), Some(2), None, None],
        [Some(5), Some(6), Some(1), Some(2), Some(9), None, None, Some(7), None],
        [None, None, Some(9), None, Some(7), None, None, None, Some(1)],
        [Some(8), None, Some(2), Some(5), Some(1), None, Some(6), None, Some(4)],
        [None, Some(4), None, Some(9), Some(3), Some(6), Some(8), None, None],
        [None, Some(9), None, None, None, Some(4), Some(3), None, Some(7)],
    ]
}

/// Solves the example puzzle.
pub fn solve_soduku() -> (solution: Vec<Variable<i32>>)
    ensures
        states(solution@) == soduku_problem(example_grid()).solution(Filled),
{
    let grid = puzzle();
    solve_grid(&grid)
}

} // verus!
