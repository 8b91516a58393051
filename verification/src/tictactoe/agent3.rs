use vstd::prelude::*;

use crate::tictactoe::board::{
    Board, Cell, Grid, Player, grid_apply, grid_full, grid_moves, grid_score, grid_wf, in_grid,
    lemma_apply_move_count, lemma_moves_exist, lemma_moves_sound, better, worst, MAX_SIZE,
};

verus! {

/// The score at which a player stops looking further: 1 for X, -1 for O.
pub open spec fn winning(p: Player) -> int {
    match p {
        Player::X => 1,
        Player::O => -1,
    }
}

/// Whether `v` is strictly better than `best` for `p`.
pub open spec fn improves(p: Player, v: int, best: int) -> bool {
    match p {
        Player::X => v > best,
        Player::O => v < best,
    }
}

/// The worth of the position `g` with `p` to move, searched to the end: the score once
/// the board is full, else the best worth among the positions after each move, where the
/// search stops at the first move that reaches `winning(p)`.
pub open spec fn solve_value(g: Grid, p: Player) -> int
    decreases grid_moves(g).len(), grid_moves(g).len() + 1,
{
    if grid_full(g) {
        grid_score(g)
    } else {
        solve_fold(g, p, grid_moves(g).len() as int).0
    }
}

/// The best worth for `p` over the first `k` moves of `g`, and the position of the move
/// that first reached it (0 before any move); once `winning(p)` is reached the later
/// moves are not looked at.
pub open spec fn solve_fold(g: Grid, p: Player, k: int) -> (int, int)
    decreases grid_moves(g).len(), k,
{
    if k <= 0 || k > grid_moves(g).len() || !grid_wf(g) {
        (worst(p), 0)
    } else {
        let prev = solve_fold(g, p, k - 1);
        if prev.0 == winning(p) {
            prev
        } else {
            let m = grid_moves(g)[k - 1];
            proof {
                lemma_moves_sound(g);
                assert(in_grid(g, m.0 as int, m.1 as int));
                lemma_apply_move_count(g, m.0 as int, m.1 as int, p);
            }
            let v = solve_value(grid_apply(g, m.0 as int, m.1 as int, p), p.spec_other());
            if improves(p, v, prev.0) {
                (v, k - 1)
            } else {
                prev
            }
        }
    }
}

/// Once the search has reached `winning(p)` it stays where it is.
pub proof fn lemma_fold_stops(g: Grid, p: Player, k: int, k2: int)
    requires
        0 <= k <= k2 <= grid_moves(g).len(),
        grid_wf(g),
        solve_fold(g, p, k).0 == winning(p),
    ensures
        solve_fold(g, p, k2) == solve_fold(g, p, k),
    decreases k2 - k,
{
    if k < k2 {
        lemma_fold_stops(g, p, k, k2 - 1);
    }
}

/// The agent for small boards, which searches to the end of the game.
pub struct SolutionAgent {}

impl SolutionAgent {
    /// The worth of the position for `player` and the move that reaches it: (0, 0) as the
    /// move once the board is full, else the move found by `solve_fold`.
    pub fn solve(board: &mut Board, player: Player, _time_limit: u64) -> (r: (i32, usize, usize))
        ensures
            final(board)@ == old(board)@,
            r.0 == solve_value(old(board)@, player),
            -4 * MAX_SIZE * MAX_SIZE <= r.0 <= 4 * MAX_SIZE * MAX_SIZE,
            grid_full(old(board)@) ==> r.1 == 0 && r.2 == 0,
            !grid_full(old(board)@) ==> r.0 == solve_value(
                grid_apply(old(board)@, r.1 as int, r.2 as int, player),
                player.spec_other(),
            ),
            !grid_full(old(board)@) ==> in_grid(old(board)@, r.1 as int, r.2 as int)
                && old(board)@[r.1 as int][r.2 as int] == Cell::Empty,
            !grid_full(old(board)@) ==> (r.1, r.2) == grid_moves(old(board)@)[solve_fold(
                old(board)@,
                player,
                grid_moves(old(board)@).len() as int,
            ).1],
        decreases grid_moves(old(board)@).len(),
    {
        let ghost g = board@;
        if board.game_over() {
            return (board.score(), 0, 0);
        }
        proof {
            lemma_moves_exist(g);
            lemma_moves_sound(g);
        }
        let moves = board.moves();
        let mut best_move = moves[0];
        let mut best_score = match player {
            Player::X => i32::MIN,
            Player::O => i32::MAX,
        };
        let ghost mut best_idx: int = 0;
        let mut i: usize = 0;
        while i < moves.len()
            invariant_except_break
                (best_score as int, best_idx) == solve_fold(g, player, i as int),
                best_score != winning(player),
            invariant
                0 <= i <= moves@.len(),
                moves@ == grid_moves(g),
                moves@.len() > 0,
                board@ == g,
                grid_wf(g),
                !grid_full(g),
                forall|k: int|
                    0 <= k < grid_moves(g).len() ==> {
                        let m = #[trigger] grid_moves(g)[k];
                        &&& in_grid(g, m.0 as int, m.1 as int)
                        &&& g[m.0 as int][m.1 as int] == Cell::Empty
                    },
                0 <= best_idx < moves@.len(),
                best_move == moves@[best_idx],
                i == 0 ==> best_score == worst(player),
                i > 0 ==> -4 * MAX_SIZE * MAX_SIZE <= best_score <= 4 * MAX_SIZE * MAX_SIZE,
                i > 0 ==> best_score == solve_value(
                    grid_apply(g, best_move.0 as int, best_move.1 as int, player),
                    player.spec_other(),
                ),
            ensures
                (best_score as int, best_idx) == solve_fold(g, player, moves@.len() as int),
                -4 * MAX_SIZE * MAX_SIZE <= best_score <= 4 * MAX_SIZE * MAX_SIZE,
                best_score == solve_value(
                    grid_apply(g, best_move.0 as int, best_move.1 as int, player),
                    player.spec_other(),
                ),
            decreases moves.len() - i,
        {
            let (x, y) = moves[i];
            let mut new_board = board.clone();
            new_board.apply_move((x, y), player);
            proof {
                lemma_apply_move_count(g, x as int, y as int, player);
            }
            let next_player = match player {
                Player::X => Player::O,
                Player::O => Player::X,
            };
            let (score, _, _) = SolutionAgent::solve(&mut new_board, next_player, _time_limit);
            assert(next_player == player.spec_other());
            assert(solve_fold(g, player, i + 1) == (if improves(player, score as int, best_score as int) {
                (score as int, i as int)
            } else {
                (best_score as int, best_idx)
            }));
            match player {
                Player::X => {
                    if score > best_score {
                        best_score = score;
                        best_move = (x, y);
                        proof {
                            best_idx = i as int;
                        }
                    }
                },
                Player::O => {
                    if score < best_score {
                        best_score = score;
                        best_move = (x, y);
                        proof {
                            best_idx = i as int;
                        }
                    }
                },
            }
            i = i + 1;
            if best_score == 1 && player == Player::X {
                proof {
                    lemma_fold_stops(g, player, i as int, moves@.len() as int);
                }
                break;
            }
            if best_score == -1 && player == Player::O {
                proof {
                    lemma_fold_stops(g, player, i as int, moves@.len() as int);
                }
                break;
            }
        }
        (best_score, best_move.0, best_move.1)
    }
}

} // verus!

verus! {

/// Plain minimax to the end of the game, with no early stop.
pub open spec fn plain_value(g: Grid, p: Player) -> int
    decreases grid_moves(g).len(), grid_moves(g).len() + 1,
{
    if grid_full(g) {
        grid_score(g)
    } else {
        plain_fold(g, p, grid_moves(g).len() as int)
    }
}

/// The best plain minimax worth for `p` over the first `k` moves of `g`.
pub open spec fn plain_fold(g: Grid, p: Player, k: int) -> int
    decreases grid_moves(g).len(), k,
{
    if k <= 0 || k > grid_moves(g).len() || !grid_wf(g) {
        worst(p)
    } else {
        let m = grid_moves(g)[k - 1];
        proof {
            lemma_moves_sound(g);
            assert(in_grid(g, m.0 as int, m.1 as int));
            lemma_apply_move_count(g, m.0 as int, m.1 as int, p);
        }
        better(
            p,
            plain_fold(g, p, k - 1),
            plain_value(grid_apply(g, m.0 as int, m.1 as int, p), p.spec_other()),
        )
    }
}

/// Whether every finished game reachable from `g` with `p` to move ends with a score
/// between -1 and 1.
pub open spec fn scores_small(g: Grid, p: Player) -> bool
    decreases grid_moves(g).len(), grid_moves(g).len() + 1,
{
    if grid_full(g) {
        -1 <= grid_score(g) <= 1
    } else {
        small_fold(g, p, grid_moves(g).len() as int)
    }
}

/// Whether `scores_small` holds after each of the first `k` moves of `g`.
pub open spec fn small_fold(g: Grid, p: Player, k: int) -> bool
    decreases grid_moves(g).len(), k,
{
    if k <= 0 || k > grid_moves(g).len() || !grid_wf(g) {
        true
    } else {
        let m = grid_moves(g)[k - 1];
        proof {
            lemma_moves_sound(g);
            assert(in_grid(g, m.0 as int, m.1 as int));
            lemma_apply_move_count(g, m.0 as int, m.1 as int, p);
        }
        small_fold(g, p, k - 1) && scores_small(
            grid_apply(g, m.0 as int, m.1 as int, p),
            p.spec_other(),
        )
    }
}

/// "Can't do better than winning": where no reachable finished game scores beyond
/// one line either way, stopping at the first winning move gives the plain minimax worth.
pub proof fn lemma_early_stop_sound(g: Grid, p: Player)
    requires
        grid_wf(g),
        scores_small(g, p),
    ensures
        solve_value(g, p) == plain_value(g, p),
        -1 <= plain_value(g, p) <= 1,
    decreases grid_moves(g).len(), grid_moves(g).len() + 1,
{
    if !grid_full(g) {
        lemma_moves_exist(g);
        lemma_early_stop_fold(g, p, grid_moves(g).len() as int);
    }
}

/// The fold form of `lemma_early_stop_sound`, over the first `k` moves.
pub proof fn lemma_early_stop_fold(g: Grid, p: Player, k: int)
    requires
        grid_wf(g),
        !grid_full(g),
        0 <= k <= grid_moves(g).len(),
        small_fold(g, p, k),
    ensures
        solve_fold(g, p, k).0 == plain_fold(g, p, k),
        k > 0 ==> -1 <= plain_fold(g, p, k) <= 1,
    decreases grid_moves(g).len(), k,
{
    if k > 0 {
        lemma_early_stop_fold(g, p, k - 1);
        let m = grid_moves(g)[k - 1];
        lemma_moves_sound(g);
        assert(in_grid(g, m.0 as int, m.1 as int));
        lemma_apply_move_count(g, m.0 as int, m.1 as int, p);
        let child = grid_apply(g, m.0 as int, m.1 as int, p);
        lemma_early_stop_sound(child, p.spec_other());
    }
}

} // verus!

verus! {

/// The move the search keeps is one it looked at, and the worth it keeps is the worth of
/// the position after that move; only before any move improves on the start does it keep
/// the start worth and the first move.
pub proof fn lemma_solve_fold_move(g: Grid, p: Player, k: int)
    requires
        grid_wf(g),
        0 < k <= grid_moves(g).len(),
    ensures
        0 <= solve_fold(g, p, k).1 < k,
        ({
            let m = grid_moves(g)[solve_fold(g, p, k).1];
            ||| solve_fold(g, p, k) == (worst(p), 0int)
            ||| solve_fold(g, p, k).0 == solve_value(
                grid_apply(g, m.0 as int, m.1 as int, p),
                p.spec_other(),
            )
        }),
    decreases k,
{
    let prev = solve_fold(g, p, k - 1);
    if k > 1 {
        lemma_solve_fold_move(g, p, k - 1);
    } else {
        assert(prev == (worst(p), 0int));
    }
    assert(worst(p) != winning(p));
    let m = grid_moves(g)[k - 1];
    let v = solve_value(grid_apply(g, m.0 as int, m.1 as int, p), p.spec_other());
    assert(solve_fold(g, p, k) == (if prev.0 == winning(p) {
        prev
    } else if improves(p, v, prev.0) {
        (v, k - 1)
    } else {
        prev
    }));
}

} // verus!
