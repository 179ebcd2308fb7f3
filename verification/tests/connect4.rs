use csp_solver::connect4::{Color, Direction, Game, MoveIterator};
use csp_solver::game::{alpha_beta, minimax, MinimaxGame};

#[test]
pub fn longest_chains_set_correctly() {
    let game = Game::new()
        .add_piece(0)
        .add_piece(1)
        .add_piece(0)
        .add_piece(1)
        .add_piece(1)
        .add_piece(0)
        .add_piece(2)
        .add_piece(4)
        .add_piece(2)
        .add_piece(4)
        .add_piece(3)
        .add_piece(2)
        .add_piece(3)
        .add_piece(5)
        .add_piece(3)
        .add_piece(5)
        .add_piece(2)
        .add_piece(1)
        .add_piece(4)
        .add_piece(0);

    println!("{}", game.to_text());

    assert_eq!(game.current_longest(), 3);
    assert_eq!(game.opponent_longest(), 2);
}

#[test]
pub fn get_longest_vector() {
    let game = Game::new()
        .add_piece(0)
        .add_piece(1)
        .add_piece(0)
        .add_piece(1)
        .add_piece(0)
        .add_piece(1)
        .add_piece(0);

    let longest = game.get_longest_vector(0, 5, Direction::Up);
    assert_eq!(3, longest);

    let longest = game.get_longest_vector(1, 3, Direction::Down);
    assert_eq!(2, longest);
}

#[test]
pub fn get_longest_chain() {
    let game = Game::new()
        .add_piece(0)
        .add_piece(1)
        .add_piece(0)
        .add_piece(1)
        .add_piece(1)
        .add_piece(0)
        .add_piece(2)
        .add_piece(4)
        .add_piece(2)
        .add_piece(4)
        .add_piece(3)
        .add_piece(2)
        .add_piece(3)
        .add_piece(4)
        .add_piece(3)
        .add_piece(3)
        .add_piece(2)
        .add_piece(1)
        .add_piece(4)
        .add_piece(0);

    let longest = game.get_longest_chain(3, 3);
    assert_eq!(3, longest);

    let longest = game.get_longest_chain(1, 2);
    assert_eq!(2, longest);
}

#[test]
pub fn has_won() {
    let game = Game::new();
    let w = Some(Color::White);
    let b = Some(Color::Black);

    let board = [[None; 7],
        [b, w, b, None, None, None, None],
        [b, w, b, None, None, None, None],
        [b, b, w, None, None, None, None],
        [b, b, b, w, None, None, None],
        [w, w, w, b, w, None, None]];

    let game = game.with_board(board, (0, 3));
    assert!(game.has_won());

    let game = game.with_board(board, (2, 3));
    assert!(game.has_won());

    let game = game.with_board(board, (1, 4));
    assert!(!game.has_won());
}

#[test]
pub fn move_iterator() {
    let game = Game::new();
    let w = Some(Color::White);
    let b = Some(Color::Black);

    let board = [[None; 7],
        [None; 7],
        [None; 7],
        [b, b, w, None, None, None, None],
        [b, b, b, w, None, None, None],
        [w, w, w, b, w, None, None]];
    let game = game.with_board(board, (0, 0));

    for (new_move, game) in game.get_moves() {
        assert_eq!(new_move == 1, game.has_won());

        if new_move < 3 {
            assert_eq!(game.last_placement(), (new_move, 2));
        } else if new_move == 3 {
            assert_eq!(game.last_placement(), (new_move, 3));
        } else if new_move == 4 {
            assert_eq!(game.last_placement(), (new_move, 4));
        } else {
            assert_eq!(game.last_placement(), (new_move, 5));
        }

        // Go one level deeper to test black win finding
        if new_move == 1 {
            for (new_move, game) in game.get_moves() {
                assert_eq!(new_move == 0, game.has_won());
            }
        }
    }
}

#[test]
fn a_new_game_is_empty_and_not_over() {
    let game = Game::new();
    assert_eq!(game.current_player(), Color::White);
    assert_eq!(game.last_placement(), (0, 0));
    assert_eq!(game.at(0, 0), None);
    assert_eq!(game.at(6, 5), None);
    assert_eq!(game.at(7, 0), None);
    assert_eq!(game.at(0, 6), None);
    assert!(!game.has_won());
    assert!(!game.has_tied());
    assert!(!game.has_finished());
    assert_eq!(game.get_moves().len(), 7);
}

#[test]
fn a_piece_falls_to_the_lowest_free_cell() {
    let game = Game::new().add_piece(3);
    assert_eq!(game.at(3, 5), Some(Color::White));
    assert_eq!(game.last_placement(), (3, 5));
    assert_eq!(game.current_player(), Color::Black);
    let game = game.add_piece(3);
    assert_eq!(game.at(3, 4), Some(Color::Black));
    assert_eq!(game.at(3, 5), Some(Color::White));
    assert_eq!(game.landing(3), 3);
    assert_eq!(game.landing(0), 5);
}

#[test]
fn full_columns_are_skipped_and_a_full_top_row_is_a_tie() {
    let w = Some(Color::White);
    let b = Some(Color::Black);
    let board = [
        [w, b, w, b, w, b, None],
        [b, w, b, w, b, w, b],
        [b, w, b, w, b, w, b],
        [w, b, w, b, w, b, w],
        [w, b, w, b, w, b, w],
        [b, w, b, w, b, w, b],
    ];
    let game = Game::new().with_board(board, (0, 0));
    assert!(!game.has_tied());
    let mut moves = MoveIterator::new(game);
    let (column, next) = moves.next().unwrap();
    assert_eq!(column, 6);
    assert!(moves.next().is_none());
    assert!(next.has_tied());
    assert!(next.has_finished());
    assert_eq!(next.get_moves().len(), 0);
}

#[test]
fn evaluate_scores_chains_and_the_middle() {
    // White in the middle column: black is to move, and white's piece is
    // worth nothing off the centre.
    let game = Game::new().add_piece(3);
    assert_eq!(game.evaluate(0), 0);
    // White at the left edge earns black three.
    let game = Game::new().add_piece(0);
    assert_eq!(game.evaluate(0), 3);
    // White at the edge, black at the centre; white to move with a chain of one.
    let game = Game::new().add_piece(0).add_piece(3);
    assert_eq!(game.current_longest(), 1);
    assert_eq!(game.opponent_longest(), 1);
    assert_eq!(game.evaluate(0), 10 - 3);
    // A position that was just won is worth -1000 to the player to move.
    let won = Game::new()
        .add_piece(0)
        .add_piece(1)
        .add_piece(0)
        .add_piece(1)
        .add_piece(0)
        .add_piece(1)
        .add_piece(0);
    assert!(won.has_won());
    assert_eq!(won.evaluate(3), -1000);
}

#[test]
fn minimax_takes_the_winning_move() {
    let game = Game::new()
        .add_piece(0)
        .add_piece(1)
        .add_piece(0)
        .add_piece(1)
        .add_piece(0)
        .add_piece(1);
    assert_eq!(minimax(game, 2), 0);
}

#[test]
fn alpha_beta_plays_the_last_free_column() {
    let w = Some(Color::White);
    let b = Some(Color::Black);
    let board = [
        [w, b, w, b, w, b, None],
        [b, w, b, w, b, w, b],
        [b, w, b, w, b, w, b],
        [w, b, w, b, w, b, w],
        [w, b, w, b, w, b, w],
        [b, w, b, w, b, w, b],
    ];
    let game = Game::new().with_board(board, (0, 0));
    assert_eq!(alpha_beta(game, 1), 6);
}

#[test]
fn picture_of_a_game() {
    let game = Game::new().add_piece(0).add_piece(1);
    let text = game.to_text();
    let lines: Vec<&str> = text.split('\n').collect();
    assert_eq!(lines[0], "  0 1 2 3 4 5 6");
    assert_eq!(lines[1], "0               ");
    assert_eq!(lines[6], "5 x o           ");
    assert_eq!(lines.len(), 8);
}
