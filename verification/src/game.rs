//! Game-tree search for two players who move in turn: plain minimax and
//! minimax with alpha-beta pruning. Scores are from the point of view of the
//! player to move, so a reply is worth the negative of its score.

use vstd::prelude::*;

verus! {

/// A position of a game. `evaluate`, `has_finished` and `get_moves` decide
/// what `score`, `finished` and `moves` state.
pub trait MinimaxGame: Sized {
    /// The worth of the position for the player to move.
    open spec fn score(&self, depth: usize) -> i64 {
        arbitrary()
    }

    /// Whether the game is over.
    open spec fn finished(&self) -> bool {
        arbitrary()
    }

    /// The moves of the player to move, each with the position it leads to.
    open spec fn moves(&self) -> Seq<(usize, Self)> {
        arbitrary()
    }

    /// A bound on the number of moves that can still be made.
    open spec fn rank(&self) -> nat {
        arbitrary()
    }

    /// The worth of the position; never the least integer, so that it can
    /// be negated.
    fn evaluate(&self, depth: usize) -> (value: i64)
        ensures
            value == self.score(depth),
            value > i64::MIN,
    ;

    /// Whether the game is over.
    fn has_finished(&self) -> (done: bool)
        ensures
            done == self.finished(),
    ;

    /// The moves of the player to move. A game that is not over has one,
    /// and every move leads to a position of lower rank.
    fn get_moves(self) -> (moves: Vec<(usize, Self)>)
        ensures
            moves@ == self.moves(),
            !self.finished() ==> moves.len() > 0,
            forall|k: int| 0 <= k < moves.len() ==> (#[trigger] moves[k]).1.rank() < self.rank(),
    ;
}

/// The larger of two integers.
pub open spec fn larger(a: int, b: int) -> int {
    if a < b {
        b
    } else {
        a
    }
}

/// The minimax value of a position, searched `depth` moves deep: the score
/// of a position that is over or at depth 0, otherwise the best of the
/// negated values of the replies.
pub open spec fn minimax_score<G: MinimaxGame>(game: G, depth: usize) -> int
    decreases depth, 1nat, 0nat,
{
    if depth == 0 || game.finished() {
        game.score(depth) as int
    } else {
        best_reply(game.moves(), depth, game.moves().len())
    }
}

/// The best of the negated values of the first `n` replies, each searched
/// `depth - 1` moves deep.
pub open spec fn best_reply<G: MinimaxGame>(moves: Seq<(usize, G)>, depth: usize, n: nat) -> int
    decreases depth, 0nat, n,
{
    if depth == 0 || n == 0 {
        i64::MIN as int
    } else {
        let value = -minimax_score(moves[n - 1].1, (depth - 1) as usize);
        if n == 1 {
            value
        } else {
            larger(best_reply(moves, depth, (n - 1) as nat), value)
        }
    }
}

/// The first of the first `n` moves whose negated value is the best, with
/// that value.
pub open spec fn best_move<G: MinimaxGame>(moves: Seq<(usize, G)>, depth: usize, n: nat) -> (
    usize,
    int,
)
    decreases n,
{
    if depth == 0 || n == 0 {
        (0, i64::MIN as int)
    } else {
        let value = -minimax_score(moves[n - 1].1, (depth - 1) as usize);
        if n == 1 {
            (moves[0].0, value)
        } else {
            let earlier = best_move(moves, depth, (n - 1) as nat);
            if earlier.1 < value {
                (moves[n - 1].0, value)
            } else {
                earlier
            }
        }
    }
}

/// Returns the minimax value from the current node, searching as far as depth.
pub fn minimax_value<T: MinimaxGame>(game: T, depth: usize) -> (value: i64)
    ensures
        value == minimax_score(game, depth),
        value > i64::MIN,
    decreases depth,
{
    if depth == 0 || game.has_finished() {
        return game.evaluate(depth);
    }
    let moves = game.get_moves();
    let ghost all = moves@;
    let mut best: i64 = i64::MIN;
    let mut first = true;
    for reply in iter: moves
        invariant
            depth > 0,
            iter.seq() == all,
            first == (iter.index() == 0),
            !first ==> best > i64::MIN,
            best == best_reply(all, depth, iter.index() as nat),
    {
        let value = -minimax_value(reply.1, depth - 1);
        if first || best < value {
            best = value;
        }
        first = false;
    }
    best
}

/// Returns the best move, searching as far as depth: the first move whose
/// reply has the least minimax value at `depth - 1`.
pub fn minimax<T: MinimaxGame>(game: T, depth: usize) -> (choice: usize)
    requires
        depth >= 1,
        game.moves().len() > 0,
    ensures
        choice == best_move(game.moves(), depth, game.moves().len()).0,
{
    let moves = game.get_moves();
    let ghost all = moves@;
    let mut best: i64 = i64::MIN;
    let mut choice: usize = 0;
    let mut first = true;
    for reply in iter: moves
        invariant
            depth >= 1,
            iter.seq() == all,
            first == (iter.index() == 0),
            (choice, best as int) == best_move(all, depth, iter.index() as nat),
    {
        let value = -minimax_value(reply.1, depth - 1);
        if first || best < value {
            best = value;
            choice = reply.0;
        }
        first = false;
    }
    choice
}

/// The value that the pruned search gives a position inside the window from
/// `alpha` to `beta`: the score of a position that is over or at depth 0,
/// otherwise `alpha` raised by the negated values of the replies, which are
/// searched in the negated window, until it exceeds `beta`.
pub open spec fn alpha_beta_score<G: MinimaxGame>(
    game: G,
    depth: usize,
    alpha: int,
    beta: int,
) -> int
    decreases game.rank(), 1nat, 0nat,
{
    if depth == 0 || game.finished() {
        game.score(depth) as int
    } else {
        raise(game.moves(), depth, alpha, beta, 0, game.rank())
    }
}

/// `alpha` raised by the replies from the `k`-th on. Replies that do not
/// lower the rank below `bound` are not searched.
pub open spec fn raise<G: MinimaxGame>(
    moves: Seq<(usize, G)>,
    depth: usize,
    alpha: int,
    beta: int,
    k: nat,
    bound: nat,
) -> int
    decreases bound, 0nat, moves.len() - k,
{
    if k >= moves.len() {
        alpha
    } else if moves[k as int].1.rank() >= bound {
        alpha
    } else {
        let value = -alpha_beta_score(moves[k as int].1, depth, -beta, -alpha);
        let raised = larger(alpha, value);
        if raised > beta {
            raised
        } else {
            raise(moves, depth, raised, beta, k + 1, bound)
        }
    }
}

/// Returns the minimax value from the current node using alpha beta
/// pruning. The replies are searched at the same depth.
pub fn alpha_beta_value<T: MinimaxGame>(game: T, depth: usize, alpha: i64, beta: i64) -> (value:
    i64)
    requires
        alpha > i64::MIN,
        beta > i64::MIN,
    ensures
        value == alpha_beta_score(game, depth, alpha as int, beta as int),
        value > i64::MIN,
    decreases game.rank(),
{
    if depth == 0 || game.has_finished() {
        return game.evaluate(depth);
    }
    let ghost bound = game.rank();
    let ghost floor = alpha as int;
    let moves = game.get_moves();
    let ghost all = moves@;
    let mut alpha = alpha;
    let mut pruned = false;
    for reply in iter: moves
        invariant
            iter.seq() == all,
            alpha > i64::MIN,
            beta > i64::MIN,
            bound == game.rank(),
            forall|k: int| 0 <= k < all.len() ==> (#[trigger] all[k]).1.rank() < bound,
            !pruned ==> alpha_beta_score(game, depth, floor, beta as int) == raise(
                all,
                depth,
                alpha as int,
                beta as int,
                iter.index() as nat,
                bound,
            ),
            pruned ==> alpha_beta_score(game, depth, floor, beta as int) == alpha,
    {
        if !pruned {
            assert(reply == all[iter.index()]);
            let value = -alpha_beta_value(reply.1, depth, -beta, -alpha);
            if value > alpha {
                alpha = value;
            }
            if alpha > beta {
                pruned = true;
            }
        }
    }
    alpha
}

/// The first of the first `n` moves whose negated pruned value is the best,
/// with that value. Every reply is searched in the full window.
pub open spec fn best_pruned_move<G: MinimaxGame>(moves: Seq<(usize, G)>, depth: usize, n: nat) -> (
    usize,
    int,
)
    decreases n,
{
    if depth == 0 || n == 0 {
        (0, i64::MIN as int)
    } else {
        let value = -alpha_beta_score(
            moves[n - 1].1,
            (depth - 1) as usize,
            i64::MIN + 1,
            i64::MAX as int,
        );
        if n == 1 {
            (moves[0].0, value)
        } else {
            let earlier = best_pruned_move(moves, depth, (n - 1) as nat);
            if earlier.1 < value {
                (moves[n - 1].0, value)
            } else {
                earlier
            }
        }
    }
}

/// Returns the best move using alpha beta pruning, searching as far as depth.
pub fn alpha_beta<T: MinimaxGame>(game: T, depth: usize) -> (choice: usize)
    requires
        depth >= 1,
        game.moves().len() > 0,
    ensures
        choice == best_pruned_move(game.moves(), depth, game.moves().len()).0,
{
    let moves = game.get_moves();
    let ghost all = moves@;
    let mut best: i64 = i64::MIN;
    let mut choice: usize = 0;
    let mut first = true;
    for reply in iter: moves
        invariant
            depth >= 1,
            iter.seq() == all,
            first == (iter.index() == 0),
            (choice, best as int) == best_pruned_move(all, depth, iter.index() as nat),
    {
        let value = -alpha_beta_value(reply.1, depth - 1, i64::MIN + 1, i64::MAX);
        if first || best < value {
            best = value;
            choice = reply.0;
        }
        first = false;
    }
    choice
}

} // verus!
