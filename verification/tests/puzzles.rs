use csp_solver::csp::Variable;
use csp_solver::nqueens_csp;
use csp_solver::soduku;

#[test]
fn four_queens_on_a_board_of_four() {
    let solution = nqueens_csp::solve_queens();
    assert_eq!(solution.len(), 16);
    let queens: Vec<(usize, usize)> = solution
        .iter()
        .enumerate()
        .filter(|(_, v)| v.value() == Some(true))
        .map(|(i, _)| nqueens_csp::get_xy(i))
        .collect();
    assert!(solution.iter().all(|v| v.value().is_some()));
    assert_eq!(queens.len(), 4);
    for (a, (x1, y1)) in queens.iter().enumerate() {
        for (x2, y2) in queens.iter().skip(a + 1) {
            assert_ne!(x1, x2);
            assert_ne!(y1, y2);
            assert!(!nqueens_csp::on_diagonal(*x1, *y1, *x2, *y2));
        }
    }
    // The first solution in the order of the cells and of the candidates.
    assert_eq!(queens, vec![(1, 0), (3, 1), (0, 2), (2, 3)]);
}

#[test]
fn queens_geometry() {
    assert_eq!(nqueens_csp::get_xy(0), (0, 0));
    assert_eq!(nqueens_csp::get_xy(7), (3, 1));
    assert_eq!(nqueens_csp::get_xy(13), (1, 3));
    assert!(nqueens_csp::on_diagonal(0, 0, 3, 3));
    assert!(nqueens_csp::on_diagonal(0, 3, 3, 0));
    assert!(nqueens_csp::on_diagonal(2, 1, 1, 2));
    assert!(!nqueens_csp::on_diagonal(0, 0, 1, 2));
    assert!(nqueens_csp::is_attack(0, 5));
    assert!(nqueens_csp::is_attack(3, 12));
    assert!(nqueens_csp::is_attack(1, 13));
    assert!(!nqueens_csp::is_attack(0, 6));
    assert!(!nqueens_csp::is_attack(5, 5));
    assert!(nqueens_csp::check(&true, &false));
    assert!(nqueens_csp::check(&false, &false));
    assert!(!nqueens_csp::check(&true, &true));
}

fn board(cells: [Option<bool>; 16]) -> Vec<Variable<bool>> {
    cells
        .iter()
        .map(|c| match c {
            Some(v) => Variable::new(String::new(), vec![], Some(*v)),
            None => Variable::new(String::new(), vec![true, false], None),
        })
        .collect()
}

#[test]
fn queens_goal_and_global_constraint() {
    let q = Some(true);
    let e = Some(false);
    let u = None;
    let solved = board([e, q, e, e, e, e, e, q, q, e, e, e, e, e, q, e]);
    assert!(nqueens_csp::finished(&solved));
    assert!(nqueens_csp::global_constraint(&solved));
    assert_eq!(nqueens_csp::tally(&solved, Some(true), None, None), 4);
    assert_eq!(nqueens_csp::tally(&solved, Some(false), Some(0), None), 3);
    assert_eq!(nqueens_csp::tally(&solved, Some(true), None, Some(1)), 1);
    // Three queens only.
    let short = board([e, q, e, e, e, e, e, q, q, e, e, e, e, e, e, e]);
    assert!(!nqueens_csp::finished(&short));
    // A line of four empty cells cannot be completed.
    assert!(!nqueens_csp::global_constraint(&short));
    // Undecided cells are no solution yet, but may become one.
    let partial = board([e, q, e, e, u, u, u, u, u, u, u, u, u, u, u, u]);
    assert!(!nqueens_csp::finished(&partial));
    assert!(nqueens_csp::global_constraint(&partial));
    // Two queens with the same x.
    let clash = board([q, u, u, u, q, u, u, u, u, u, u, u, u, u, u, u]);
    assert!(!nqueens_csp::global_constraint(&clash));
    // Too few cells left for four queens.
    let few = board([q, e, e, e, e, u, u, e, e, e, e, e, e, e, e, e]);
    assert!(!nqueens_csp::global_constraint(&few));
}

#[test]
fn soduku_geometry() {
    assert_eq!(soduku::get_index(0, 0), 0);
    assert_eq!(soduku::get_index(8, 0), 8);
    assert_eq!(soduku::get_index(3, 2), 21);
    assert_eq!(soduku::get_index(8, 8), 80);
    assert_eq!(soduku::get_box(0, 0), 0);
    assert_eq!(soduku::get_box(8, 0), 2);
    assert_eq!(soduku::get_box(4, 4), 4);
    assert_eq!(soduku::get_box(2, 6), 6);
    assert_eq!(soduku::get_box(8, 8), 8);
    assert!(soduku::is_peer(0, 8));
    assert!(soduku::is_peer(0, 72));
    assert!(soduku::is_peer(0, 20));
    assert!(!soduku::is_peer(0, 0));
    assert!(!soduku::is_peer(0, 40));
    assert!(soduku::check(&1, &2));
    assert!(!soduku::check(&7, &7));
    assert_eq!(soduku::cell_name(3, 8), "3 8");
    assert_eq!(soduku::cell_name(12, 0), "12 0");
}

fn check_completion(grid: &soduku::Grid, solution: &Vec<Variable<i32>>) {
    assert_eq!(solution.len(), 81);
    let value = |x: usize, y: usize| solution[x + 9 * y].value().unwrap();
    for y in 0..9 {
        for x in 0..9 {
            let v = value(x, y);
            assert!((1..=9).contains(&v));
            if let Some(g) = grid[y][x] {
                assert_eq!(v, g);
            }
            assert_eq!(solution[x + 9 * y].name(), &format!("{} {}", x, y));
        }
    }
    for line in 0..9 {
        let mut row = vec![false; 10];
        let mut column = vec![false; 10];
        let mut block = vec![false; 10];
        for k in 0..9 {
            row[value(k, line) as usize] = true;
            column[value(line, k) as usize] = true;
            block[value(3 * (line % 3) + k % 3, 3 * (line / 3) + k / 3) as usize] = true;
        }
        assert!(row[1..].iter().all(|b| *b));
        assert!(column[1..].iter().all(|b| *b));
        assert!(block[1..].iter().all(|b| *b));
    }
}

#[test]
fn soduku_example_is_completed() {
    let solution = soduku::solve_soduku();
    check_completion(&soduku::puzzle(), &solution);
    let rows: Vec<Vec<i32>> = solution
        .chunks(9)
        .map(|row| row.iter().map(|v| v.value().unwrap()).collect())
        .collect();
    assert_eq!(
        rows,
        vec![
            vec![9, 8, 4, 7, 6, 2, 1, 3, 5],
            vec![2, 5, 7, 3, 8, 1, 9, 4, 6],
            vec![6, 1, 3, 4, 5, 9, 7, 2, 8],
            vec![3, 7, 8, 1, 4, 5, 2, 6, 9],
            vec![5, 6, 1, 2, 9, 8, 4, 7, 3],
            vec![4, 2, 9, 6, 7, 3, 5, 8, 1],
            vec![8, 3, 2, 5, 1, 7, 6, 9, 4],
            vec![7, 4, 5, 9, 3, 6, 8, 1, 2],
            vec![1, 9, 6, 8, 2, 4, 3, 5, 7],
        ]
    );
}

#[test]
fn soduku_with_clashing_givens_has_no_completion() {
    let mut grid: soduku::Grid = [[None; 9]; 9];
    // The first row is open but for its last cell, which no digit suits:
    // the row already needs all nine, and the column below holds the ninth.
    for x in 0..8 {
        grid[0][x] = Some(x as i32 + 1);
    }
    grid[5][8] = Some(9);
    assert!(soduku::solve_grid(&grid).is_empty());
}

#[test]
fn soduku_goal() {
    let full = vec![Variable::new("a".to_string(), vec![], Some(1))];
    assert!(soduku::finished(&full));
    let open = vec![
        Variable::new("a".to_string(), vec![], Some(1)),
        Variable::new("b".to_string(), vec![1, 2], None),
    ];
    assert!(!soduku::finished(&open));
    assert!(soduku::finished(&vec![]));
}
