use vstd::prelude::*;

use crate::tictactoe::board::{
    Board, Cell, Direction, Grid, Player, cells_in_grid, count_cells, grid_apply, grid_full,
    grid_moves, grid_score, grid_wf, in_grid, lemma_moves_exist, lemma_moves_sound, make_window,
    sum_grid, sum_row, window, windows_fit, better, worst, MAX_SIZE, swap_grid, swap_cell,
    lemma_count_swap, lemma_count_two_kinds, lemma_sum_grid_neg, lemma_score_swap, d_row, d_col,
};

verus! {

/// What a window of squares is worth: nothing if it holds a wall or both marks;
/// otherwise 10, 3 or 1 for three, two or one X, and -10, -3 or -1 for O.
pub open spec fn window_value(g: Grid, cells: Seq<(usize, usize)>) -> int {
    let x = count_cells(g, cells, Cell::X);
    let o = count_cells(g, cells, Cell::O);
    let w = count_cells(g, cells, Cell::Wall);
    if w > 0 {
        0
    } else if x > 0 && o > 0 {
        0
    } else if o == 0 {
        if x == 3 {
            10
        } else if x == 2 {
            3
        } else if x == 1 {
            1
        } else {
            0
        }
    } else if x == 0 {
        if o == 3 {
            -10
        } else if o == 2 {
            -3
        } else if o == 1 {
            -1
        } else {
            0
        }
    } else {
        0
    }
}

/// Scores one window of squares.
pub fn evaluate_window(board: &Board, cells: &[(usize, usize)]) -> (v: i32)
    requires
        cells_in_grid(board@, cells@),
    ensures
        v == window_value(board@, cells@),
        -10 <= v <= 10,
{
    let mut x_count: usize = 0;
    let mut o_count: usize = 0;
    let mut wall_count: usize = 0;
    let mut i: usize = 0;
    while i < cells.len()
        invariant
            i <= cells@.len(),
            cells_in_grid(board@, cells@),
            x_count == count_cells(board@, cells@.take(i as int), Cell::X),
            o_count == count_cells(board@, cells@.take(i as int), Cell::O),
            wall_count == count_cells(board@, cells@.take(i as int), Cell::Wall),
            x_count <= i,
            o_count <= i,
            wall_count <= i,
        decreases cells.len() - i,
    {
        let (row, col) = cells[i];
        assert(cells@.take(i + 1).drop_last() =~= cells@.take(i as int));
        assert(in_grid(board@, cells@[i as int].0 as int, cells@[i as int].1 as int));
        match board.get_cell(row, col) {
            Cell::X => x_count = x_count + 1,
            Cell::O => o_count = o_count + 1,
            Cell::Wall => wall_count = wall_count + 1,
            Cell::Empty => {},
        }
        i = i + 1;
    }
    assert(cells@.take(cells.len() as int) =~= cells@);
    if wall_count > 0 {
        return 0;
    }
    if x_count > 0 && o_count > 0 {
        return 0;
    }
    if o_count == 0 {
        return match x_count {
            3 => 10,
            2 => 3,
            1 => 1,
            _ => 0,
        };
    }
    if x_count == 0 {
        return match o_count {
            3 => -10,
            2 => -3,
            1 => -1,
            _ => 0,
        };
    }
    0
}

/// `window_value` of the window that starts at each square, in direction `d`.
pub open spec fn window_fn(g: Grid, d: Direction) -> spec_fn(int, int) -> int {
    |r: int, c: int| window_value(g, window(r, c, d))
}

/// The sum of `window_value` over the windows of the top-left five by five squares.
pub open spec fn windows_sum(g: Grid) -> int {
    sum_grid(0, 5, 0, 3, window_fn(g, Direction::Right)) + sum_grid(
        0,
        3,
        0,
        5,
        window_fn(g, Direction::Down),
    ) + sum_grid(0, 3, 0, 3, window_fn(g, Direction::DownRight)) + sum_grid(
        0,
        3,
        2,
        5,
        window_fn(g, Direction::DownLeft),
    )
}

/// The worth of a position: a hundred times the score, and, while the game goes on,
/// the worth of every window of three squares.
pub open spec fn heuristic_value(g: Grid) -> int {
    if grid_full(g) {
        grid_score(g) * 100
    } else {
        grid_score(g) * 100 + windows_sum(g)
    }
}

/// A bound on the worth of any position.
pub open spec fn value_bound() -> int {
    400 * MAX_SIZE * MAX_SIZE + 1000
}

/// The sum of `window_value` over the windows that start in rows `rlo..rhi`
/// and columns `clo..chi`, in direction `d`.
fn windows_in_range(board: &Board, d: Direction, rlo: usize, rhi: usize, clo: usize, chi: usize) -> (v: i32)
    requires
        rlo <= rhi <= rlo + 5,
        clo <= chi <= clo + 5,
        rhi <= MAX_SIZE,
        chi <= MAX_SIZE,
        windows_fit(board@.len() as int, d, rlo as int, rhi as int, clo as int, chi as int),
        grid_wf(board@),
    ensures
        v == sum_grid(rlo as int, rhi as int, clo as int, chi as int, window_fn(board@, d)),
        -250 <= v <= 250,
{
    let ghost f = window_fn(board@, d);
    let mut acc: i32 = 0;
    let mut r: usize = rlo;
    while r < rhi
        invariant
            rlo <= r <= rhi <= rlo + 5,
            clo <= chi <= clo + 5,
            rhi <= MAX_SIZE,
            chi <= MAX_SIZE,
            grid_wf(board@),
            windows_fit(board@.len() as int, d, rlo as int, rhi as int, clo as int, chi as int),
            f == window_fn(board@, d),
            acc == sum_grid(rlo as int, r as int, clo as int, chi as int, f),
            -(r - rlo) * 50 <= acc <= (r - rlo) * 50,
        decreases rhi - r,
    {
        let mut c: usize = clo;
        let ghost base = acc;
        while c < chi
            invariant
                rlo <= r < rhi <= rlo + 5,
                clo <= c <= chi <= clo + 5,
                rhi <= MAX_SIZE,
                chi <= MAX_SIZE,
                grid_wf(board@),
                windows_fit(board@.len() as int, d, rlo as int, rhi as int, clo as int, chi as int),
                f == window_fn(board@, d),
                base == sum_grid(rlo as int, r as int, clo as int, chi as int, f),
                acc == base + sum_row(r as int, clo as int, c as int, f),
                -(r - rlo) * 50 - (c - clo) * 10 <= acc <= (r - rlo) * 50 + (c - clo) * 10,
            decreases chi - c,
        {
            let w = make_window(r, c, d);
            assert(in_grid(board@, w@[0].0 as int, w@[0].1 as int));
            assert(in_grid(board@, w@[1].0 as int, w@[1].1 as int));
            assert(in_grid(board@, w@[2].0 as int, w@[2].1 as int));
            assert(cells_in_grid(board@, w@));
            let v = evaluate_window(board, w.as_slice());
            acc = acc + v;
            c = c + 1;
        }
        r = r + 1;
    }
    acc
}

/// The worth of a position of a board of side at least five.
pub fn heuristic(board: &Board) -> (v: i32)
    requires
        board@.len() >= 5,
    ensures
        v == heuristic_value(board@),
        -value_bound() <= v <= value_bound(),
{
    if board.game_over() {
        return board.score() * 100;
    }
    let mut score = board.score() * 100;
    score = score + windows_in_range(board, Direction::Right, 0, 5, 0, 3);
    score = score + windows_in_range(board, Direction::Down, 0, 3, 0, 5);
    score = score + windows_in_range(board, Direction::DownRight, 0, 3, 0, 3);
    score = score + windows_in_range(board, Direction::DownLeft, 0, 3, 2, 5);
    score
}

} // verus!

verus! {

/// The minimax worth of the position `g` with `p` to move, searched `depth` plies deep
/// of `max_depth`: the heuristic worth when the board is full or the depth is reached,
/// else the best worth for `p` among the positions after each move.
pub open spec fn minimax_value(g: Grid, p: Player, depth: int, max_depth: int) -> int
    decreases max_depth - depth, 0int,
{
    if grid_full(g) || depth >= max_depth {
        heuristic_value(g)
    } else {
        minimax_fold(g, p, depth, max_depth, grid_moves(g).len() as int)
    }
}

/// The best worth for `p` among the positions after the first `k` moves of `g`,
/// starting from `worst(p)`.
pub open spec fn minimax_fold(g: Grid, p: Player, depth: int, max_depth: int, k: int) -> int
    decreases max_depth - depth - 1, k,
{
    if k <= 0 {
        worst(p)
    } else {
        let m = grid_moves(g)[k - 1];
        better(
            p,
            minimax_fold(g, p, depth, max_depth, k - 1),
            minimax_value(grid_apply(g, m.0 as int, m.1 as int, p), p.spec_other(), depth + 1, max_depth),
        )
    }
}

/// What alpha-beta search with the window (alpha, beta) owes: the true worth where the
/// result lies inside the window, and a bound on it on the side where the result falls out.
pub open spec fn alpha_beta_result(v: int, r: int, alpha: int, beta: int) -> bool {
    &&& (r <= alpha ==> v <= r)
    &&& (r >= beta ==> v >= r)
    &&& (alpha < r < beta ==> v == r)
}

/// The worth found along the first line of play from `g`: each side in turn takes the
/// first of its moves, until the board is full or `max_depth` plies are reached, and the
/// position there is scored by the heuristic. An empty window (`alpha >= beta`) makes
/// the search cut off after its first move at every level, so it returns this worth.
pub open spec fn first_line_value(g: Grid, p: Player, depth: int, max_depth: int) -> int
    decreases max_depth - depth,
{
    if grid_full(g) || depth >= max_depth {
        heuristic_value(g)
    } else {
        let m = grid_moves(g)[0];
        first_line_value(grid_apply(g, m.0 as int, m.1 as int, p), p.spec_other(), depth + 1, max_depth)
    }
}

/// Minimax search with alpha-beta pruning, to `max_depth` plies.
///
/// The search is entered at a depth no greater than `max_depth` and stops when it gets
/// there, so `depth <= max_depth` is what every call keeps; the function does not test it.
pub fn minimax(board: &mut Board, player: Player, depth: u32, max_depth: u32, alpha: i32, beta: i32) -> (r: i32)
    requires
        old(board)@.len() >= 5,
        depth <= max_depth,
    ensures
        final(board)@ == old(board)@,
        -value_bound() <= r <= value_bound(),
        alpha < beta ==> alpha_beta_result(
            minimax_value(old(board)@, player, depth as int, max_depth as int),
            r as int,
            alpha as int,
            beta as int,
        ),
        grid_full(old(board)@) || depth == max_depth ==> r == heuristic_value(old(board)@),
        alpha >= beta ==> r == first_line_value(old(board)@, player, depth as int, max_depth as int),
        alpha == i32::MIN && beta == i32::MAX ==> r == minimax_value(
            old(board)@,
            player,
            depth as int,
            max_depth as int,
        ),
    decreases max_depth - depth,
{
    let ghost g = board@;
    if board.game_over() || depth == max_depth {
        return heuristic(board);
    }
    proof {
        lemma_moves_exist(g);
        lemma_moves_sound(g);
    }
    let moves = board.moves();
    let ghost alpha0 = alpha as int;
    let mut alpha = alpha;
    let mut beta = beta;
    let ghost beta0 = beta as int;
    let mut best_score: i32 = match player {
        Player::X => i32::MIN,
        Player::O => i32::MAX,
    };
    let mut i: usize = 0;
    while i < moves.len()
        invariant_except_break
            alpha0 < beta0 ==> alpha < beta,
            alpha0 >= beta0 ==> i == 0,
        invariant
            0 <= i <= moves@.len(),
            moves@ == grid_moves(g),
            moves@.len() > 0,
            board@ == g,
            grid_wf(g),
            g.len() >= 5,
            !grid_full(g),
            depth < max_depth,
            forall|k: int|
                0 <= k < grid_moves(g).len() ==> {
                    let m = #[trigger] grid_moves(g)[k];
                    &&& in_grid(g, m.0 as int, m.1 as int)
                    &&& g[m.0 as int][m.1 as int] == Cell::Empty
                },
            i > 0 ==> -value_bound() <= best_score <= value_bound(),
            i == 0 ==> best_score == worst(player),
            player == Player::X ==> {
                &&& beta == beta0
                &&& alpha == (if best_score > alpha0 {
                    best_score as int
                } else {
                    alpha0
                })
                &&& (alpha0 < beta0 ==> {
                    &&& (best_score <= alpha0 ==> minimax_fold(
                        g,
                        player,
                        depth as int,
                        max_depth as int,
                        i as int,
                    ) <= best_score)
                    &&& (best_score > alpha0 && best_score < beta0 ==> minimax_fold(
                        g,
                        player,
                        depth as int,
                        max_depth as int,
                        i as int,
                    ) == best_score)
                    &&& (best_score >= beta0 ==> minimax_fold(
                        g,
                        player,
                        depth as int,
                        max_depth as int,
                        i as int,
                    ) >= best_score)
                })
            },
            player == Player::O ==> {
                &&& alpha == alpha0
                &&& beta == (if best_score < beta0 {
                    best_score as int
                } else {
                    beta0
                })
                &&& (alpha0 < beta0 ==> {
                    &&& (best_score >= beta0 ==> minimax_fold(
                        g,
                        player,
                        depth as int,
                        max_depth as int,
                        i as int,
                    ) >= best_score)
                    &&& (best_score < beta0 && best_score > alpha0 ==> minimax_fold(
                        g,
                        player,
                        depth as int,
                        max_depth as int,
                        i as int,
                    ) == best_score)
                    &&& (best_score <= alpha0 ==> minimax_fold(
                        g,
                        player,
                        depth as int,
                        max_depth as int,
                        i as int,
                    ) <= best_score)
                })
            },
        ensures
            i > 0,
            -value_bound() <= best_score <= value_bound(),
            alpha0 >= beta0 ==> best_score == first_line_value(
                g,
                player,
                depth as int,
                max_depth as int,
            ),
            alpha0 < beta0 ==> alpha_beta_result(
                minimax_value(g, player, depth as int, max_depth as int),
                best_score as int,
                alpha0,
                beta0,
            ),
        decreases moves.len() - i,
    {
        let (x, y) = moves[i];
        let mut new_board = board.clone();
        new_board.apply_move((x, y), player);
        let ghost child = new_board@;
        let score = minimax(&mut new_board, player.other(), depth + 1, max_depth, alpha, beta);
        let ghost v = minimax_value(child, player.spec_other(), depth + 1, max_depth as int);
        assert(alpha0 >= beta0 ==> score == first_line_value(g, player, depth as int, max_depth as int));
        assert(minimax_fold(g, player, depth as int, max_depth as int, i + 1) == better(
            player,
            minimax_fold(g, player, depth as int, max_depth as int, i as int),
            v,
        ));
        match player {
            Player::X => {
                if score > best_score {
                    best_score = score;
                }
                if score > alpha {
                    alpha = score;
                }
                if alpha >= beta {
                    i = i + 1;
                    proof {
                        lemma_fold_bound(g, player, depth as int, max_depth as int, i as int);
                    }
                    break;
                }
            },
            Player::O => {
                if score < best_score {
                    best_score = score;
                }
                if score < beta {
                    beta = score;
                }
                if alpha >= beta {
                    i = i + 1;
                    proof {
                        lemma_fold_bound(g, player, depth as int, max_depth as int, i as int);
                    }
                    break;
                }
            },
        }
        i = i + 1;
    }
    best_score
}

/// Looking at more moves only makes the best worth better for the player.
pub proof fn lemma_fold_bound(g: Grid, p: Player, depth: int, max_depth: int, k: int)
    requires
        0 <= k <= grid_moves(g).len(),
        depth < max_depth,
        !grid_full(g),
    ensures
        p == Player::X ==> minimax_value(g, p, depth, max_depth) >= minimax_fold(g, p, depth, max_depth, k),
        p == Player::O ==> minimax_value(g, p, depth, max_depth) <= minimax_fold(g, p, depth, max_depth, k),
    decreases grid_moves(g).len() - k,
{
    if k < grid_moves(g).len() {
        lemma_fold_bound(g, p, depth, max_depth, k + 1);
    }
}

} // verus!

verus! {

/// The search depth below the first move.
pub const SEARCH_DEPTH: u32 = 4;

/// The worth, for the search, of playing move `k` of `g` as `p`: the minimax worth of the
/// position after it, with the other player to move, searched `SEARCH_DEPTH` plies.
pub open spec fn child_value(g: Grid, p: Player, k: int) -> int {
    let m = grid_moves(g)[k];
    minimax_value(grid_apply(g, m.0 as int, m.1 as int, p), p.spec_other(), 0, SEARCH_DEPTH as int)
}

/// The best child worth for `p` over all moves of `g` (the fold one ply above depth 0,
/// so that each child is searched from depth 0).
pub open spec fn root_value(g: Grid, p: Player) -> int {
    minimax_fold(g, p, -1, SEARCH_DEPTH as int, grid_moves(g).len() as int)
}

/// The agent for boards of side five or more, with walls.
pub struct SolutionAgent {}

impl SolutionAgent {
    /// Picks a move for `player`: the first move, in the order of `Board::moves`, whose
    /// child worth is the best for `player`, with that worth.
    pub fn solve(board: &mut Board, player: Player, _time_limit: u64) -> (r: (i32, usize, usize))
        requires
            old(board)@.len() >= 5,
            !grid_full(old(board)@),
        ensures
            final(board)@ == old(board)@,
            in_grid(old(board)@, r.1 as int, r.2 as int) && old(board)@[r.1 as int][r.2 as int]
                == Cell::Empty,
            r.0 == root_value(old(board)@, player),
            forall|k: int|
                0 <= k < grid_moves(old(board)@).len() ==> (player == Player::X ==> #[trigger] child_value(
                    old(board)@,
                    player,
                    k,
                ) <= r.0) && (player == Player::O ==> child_value(old(board)@, player, k) >= r.0),
            exists|j: int|
                #![trigger grid_moves(old(board)@)[j]]
                0 <= j < grid_moves(old(board)@).len() && grid_moves(old(board)@)[j] == (r.1, r.2)
                    && child_value(old(board)@, player, j) == r.0 && forall|k: int|
                    0 <= k < j ==> child_value(old(board)@, player, k) != r.0,
    {
        let ghost g = board@;
        let moves = board.moves();
        proof {
            lemma_moves_exist(g);
            lemma_moves_sound(g);
        }
        let mut best_move = moves[0];
        let ghost mut best_idx: int = 0;
        let mut best_score = match player {
            Player::X => i32::MIN,
            Player::O => i32::MAX,
        };
        let mut alpha = i32::MIN;
        let mut beta = i32::MAX;
        let mut i: usize = 0;
        while i < moves.len()
            invariant
                0 <= i <= moves@.len(),
                moves@ == grid_moves(g),
                moves@.len() > 0,
                board@ == g,
                grid_wf(g),
                g.len() >= 5,
                forall|k: int|
                    0 <= k < grid_moves(g).len() ==> {
                        let m = #[trigger] grid_moves(g)[k];
                        &&& in_grid(g, m.0 as int, m.1 as int)
                        &&& g[m.0 as int][m.1 as int] == Cell::Empty
                    },
                i == 0 ==> best_score == worst(player) && best_idx == 0,
                i > 0 ==> -value_bound() <= best_score <= value_bound(),
                0 <= best_idx < moves@.len(),
                i > 0 ==> best_idx < i,
                best_move == moves@[best_idx],
                best_score == minimax_fold(g, player, -1, SEARCH_DEPTH as int, i as int),
                i > 0 ==> child_value(g, player, best_idx) == best_score,
                forall|k: int| 0 <= k < best_idx ==> child_value(g, player, k) != best_score,
                player == Player::X ==> alpha == best_score && beta == i32::MAX,
                player == Player::O ==> beta == best_score && alpha == i32::MIN,
                forall|k: int|
                    0 <= k < i ==> (player == Player::X ==> child_value(g, player, k) <= best_score)
                        && (player == Player::O ==> child_value(g, player, k) >= best_score),
            decreases moves.len() - i,
        {
            let (x, y) = moves[i];
            let mut new_board = board.clone();
            new_board.apply_move((x, y), player);
            let next_player = match player {
                Player::X => Player::O,
                Player::O => Player::X,
            };
            let score = minimax(&mut new_board, next_player, 0, SEARCH_DEPTH, alpha, beta);
            assert(child_value(g, player, i as int) == minimax_value(
                new_board@,
                next_player,
                0,
                SEARCH_DEPTH as int,
            ));
            assert(minimax_fold(g, player, -1, SEARCH_DEPTH as int, i + 1) == better(
                player,
                minimax_fold(g, player, -1, SEARCH_DEPTH as int, i as int),
                child_value(g, player, i as int),
            ));
            match player {
                Player::X => {
                    if score > best_score {
                        best_score = score;
                        best_move = (x, y);
                        proof {
                            best_idx = i as int;
                        }
                    }
                    if score > alpha {
                        alpha = score;
                    }
                },
                Player::O => {
                    if score < best_score {
                        best_score = score;
                        best_move = (x, y);
                        proof {
                            best_idx = i as int;
                        }
                    }
                    if score < beta {
                        beta = score;
                    }
                },
            }
            i = i + 1;
        }
        (best_score, best_move.0, best_move.1)
    }
}

} // verus!

verus! {

/// Exchanging the marks negates the worth of every window that lies on the board.
pub proof fn lemma_window_swap(g: Grid, cells: Seq<(usize, usize)>)
    requires
        grid_wf(g),
        cells_in_grid(g, cells),
    ensures
        window_value(swap_grid(g), cells) == -window_value(g, cells),
{
    lemma_count_swap(g, cells, Cell::X);
    lemma_count_swap(g, cells, Cell::O);
    lemma_count_swap(g, cells, Cell::Wall);
    lemma_count_two_kinds(g, cells, Cell::X, Cell::O);
    lemma_count_two_kinds(g, cells, Cell::O, Cell::X);
    assert(swap_cell(Cell::X) == Cell::O && swap_cell(Cell::O) == Cell::X && swap_cell(Cell::Wall)
        == Cell::Wall);
}

/// The windows summed by the heuristic, in direction `d`, negate under the exchange.
proof fn lemma_windows_swap(g: Grid, d: Direction, rlo: int, rhi: int, clo: int, chi: int)
    requires
        grid_wf(g),
        g.len() >= 5,
        0 <= rlo,
        0 <= clo,
        rhi + 2 * d_row(d) <= 5,
        d == Direction::DownLeft ==> clo >= 2 && chi <= 5,
        d != Direction::DownLeft ==> chi + 2 * d_col(d) <= 5,
    ensures
        sum_grid(rlo, rhi, clo, chi, window_fn(swap_grid(g), d)) == -sum_grid(
            rlo,
            rhi,
            clo,
            chi,
            window_fn(g, d),
        ),
{
    let f1 = window_fn(g, d);
    let f2 = window_fn(swap_grid(g), d);
    assert forall|r: int, c: int| rlo <= r < rhi && clo <= c < chi implies #[trigger] f2(r, c)
        == -f1(r, c) by {
        let w = window(r, c, d);
        assert(in_grid(g, w[0].0 as int, w[0].1 as int));
        assert(in_grid(g, w[1].0 as int, w[1].1 as int));
        assert(in_grid(g, w[2].0 as int, w[2].1 as int));
        assert(cells_in_grid(g, w));
        lemma_window_swap(g, w);
    }
    lemma_sum_grid_neg(rlo, rhi, clo, chi, f1, f2);
}

/// Exchanging X and O negates the worth of a position.
pub proof fn lemma_heuristic_swap(g: Grid)
    requires
        grid_wf(g),
        g.len() >= 5,
    ensures
        heuristic_value(swap_grid(g)) == -heuristic_value(g),
{
    lemma_score_swap(g);
    lemma_windows_swap(g, Direction::Right, 0, 5, 0, 3);
    lemma_windows_swap(g, Direction::Down, 0, 3, 0, 5);
    lemma_windows_swap(g, Direction::DownRight, 0, 3, 0, 3);
    lemma_windows_swap(g, Direction::DownLeft, 0, 3, 2, 5);
}

} // verus!

verus! {

/// The best over the first `n` moves is at least as good for `p` as each of them.
proof fn lemma_root_fold_best(g: Grid, p: Player, n: int)
    requires
        0 <= n <= grid_moves(g).len(),
    ensures
        forall|k: int|
            0 <= k < n ==> (p == Player::X ==> #[trigger] child_value(g, p, k) <= minimax_fold(
                g,
                p,
                -1,
                SEARCH_DEPTH as int,
                n,
            )) && (p == Player::O ==> child_value(g, p, k) >= minimax_fold(
                g,
                p,
                -1,
                SEARCH_DEPTH as int,
                n,
            )),
    decreases n,
{
    if n > 0 {
        lemma_root_fold_best(g, p, n - 1);
        assert(minimax_fold(g, p, -1, SEARCH_DEPTH as int, n) == better(
            p,
            minimax_fold(g, p, -1, SEARCH_DEPTH as int, n - 1),
            child_value(g, p, n - 1),
        ));
    }
}

/// No move of the board is worth more to the player than the root worth: X's root worth
/// is at least, and O's at most, the worth of every move.
pub proof fn lemma_root_value_best(g: Grid, p: Player)
    ensures
        forall|k: int|
            0 <= k < grid_moves(g).len() ==> (p == Player::X ==> #[trigger] child_value(g, p, k)
                <= root_value(g, p)) && (p == Player::O ==> child_value(g, p, k) >= root_value(g, p)),
{
    lemma_root_fold_best(g, p, grid_moves(g).len() as int);
}

} // verus!
