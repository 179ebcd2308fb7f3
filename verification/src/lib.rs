//! Search algorithms over finite problems: a generic constraint-satisfaction
//! solver with forward checking, and the puzzles, games and graphs it is used with.

pub mod algrebra;
pub mod connect4;
pub mod csp;
pub mod game;
pub mod graph;
pub mod nqueens;
pub mod nqueens_csp;
pub mod senate;
pub mod soduku;
pub mod text;
