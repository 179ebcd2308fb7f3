use csp_solver::nqueens::{solve, Queens};

#[test]
pub fn safe_place() {
    let queens = Queens::<4>::new()
        .place_queen(0, 0)
        .unwrap()
        .place_queen(3, 2)
        .unwrap();

    assert!(!queens.safe_place(0, 0));
    assert!(!queens.safe_place(1, 0));
    assert!(!queens.safe_place(0, 1));
    assert!(!queens.safe_place(3, 3));
    assert!(!queens.safe_place(2, 1));

    assert!(queens.safe_place(1, 3));
}

#[test]
pub fn get_safe_moves() {
    let queens = Queens::<4>::new()
        .place_queen(0, 0)
        .unwrap()
        .place_queen(3, 1)
        .unwrap();

    let moves = queens.get_safe_moves(2);

    assert_eq!(moves.len(), 1);
    assert!(moves[0].has_queen(1, 2));

    let moves = queens.get_safe_moves(3);
    assert_eq!(moves.len(), 1);
    assert!(moves[0].has_queen(2, 3));
}

#[test]
fn place_queen_off_the_board_is_an_error() {
    let queens = Queens::<4>::new();
    assert_eq!(queens.place_queen(4, 0).err(), Some("Coordinates out of range".to_string()));
    assert_eq!(queens.place_queen(0, 4).err(), Some("Coordinates out of range".to_string()));
    assert!(queens.place_queen(3, 3).is_ok());
}

#[test]
fn a_cell_off_the_board_counts_as_safe() {
    let queens = Queens::<4>::new().place_queen(0, 0).unwrap();
    assert!(queens.safe_place(4, 4));
    assert!(queens.safe_place(0, 7));
}

#[test]
fn solve_counts_the_solutions() {
    assert_eq!(solve::<1>().len(), 1);
    assert_eq!(solve::<2>().len(), 0);
    assert_eq!(solve::<3>().len(), 0);
    assert_eq!(solve::<4>().len(), 2);
    assert_eq!(solve::<5>().len(), 10);
    assert_eq!(solve::<6>().len(), 4);
    assert_eq!(solve::<8>().len(), 92);
}

#[test]
fn solutions_of_four_queens_in_order() {
    let solutions = solve::<4>();
    // Rows are filled from the last to the first, columns tried in order.
    let columns = |q: &Queens<4>| -> Vec<usize> {
        (0..4).map(|y| (0..4).find(|x| q.has_queen(*x, y)).unwrap()).collect()
    };
    assert_eq!(columns(&solutions[0]), vec![2, 0, 3, 1]);
    assert_eq!(columns(&solutions[1]), vec![1, 3, 0, 2]);
}

#[test]
fn picture_of_a_board() {
    let queens = Queens::<2>::new().place_queen(1, 0).unwrap();
    assert_eq!(queens.to_text(), "  0 1 \n0   Q  \n1     ");
}
