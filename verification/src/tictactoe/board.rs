use vstd::prelude::*;

verus! {

/// The largest board side that a `Board` takes.
pub const MAX_SIZE: usize = 1000;

/// The player who moves next.
#[derive(Clone, Copy, Debug, PartialEq, Eq, Structural)]
pub enum Player {
    X,
    O,
}

impl Player {
    pub open spec fn spec_other(self) -> Player {
        match self {
            Player::X => Player::O,
            Player::O => Player::X,
        }
    }

    /// The other player.
    pub fn other(self) -> (r: Player)
        ensures
            r == self.spec_other(),
    {
        match self {
            Player::X => Player::O,
            Player::O => Player::X,
        }
    }
}

/// The better of two worths for `p`: the larger for X, the smaller for O.
pub open spec fn better(p: Player, a: int, b: int) -> int {
    match p {
        Player::X => if a >= b {
            a
        } else {
            b
        },
        Player::O => if a <= b {
            a
        } else {
            b
        },
    }
}

/// The worst worth for `p`, where a search for `p` starts.
pub open spec fn worst(p: Player) -> int {
    match p {
        Player::X => i32::MIN as int,
        Player::O => i32::MAX as int,
    }
}

/// One square of the board.
#[derive(Clone, Copy, Debug, PartialEq, Eq, Structural)]
pub enum Cell {
    Empty,
    X,
    O,
    /// A square that nobody can take.
    Wall,
}

/// The mark that a player puts down.
pub open spec fn mark(p: Player) -> Cell {
    match p {
        Player::X => Cell::X,
        Player::O => Cell::O,
    }
}

/// The squares of a board, row by row.
pub type Grid = Seq<Seq<Cell>>;

/// Whether `g` is a square grid of side at most `MAX_SIZE`.
pub open spec fn grid_wf(g: Grid) -> bool {
    &&& g.len() <= MAX_SIZE
    &&& forall|r: int| 0 <= r < g.len() ==> (#[trigger] g[r]).len() == g.len()
}

/// Whether (r, c) is a square of `g`.
pub open spec fn in_grid(g: Grid, r: int, c: int) -> bool {
    0 <= r < g.len() && 0 <= c < g.len()
}

/// The grid after `p` marks square (r, c).
pub open spec fn grid_apply(g: Grid, r: int, c: int, p: Player) -> Grid {
    g.update(r, g[r].update(c, mark(p)))
}

/// Whether no square is empty.
pub open spec fn grid_full(g: Grid) -> bool {
    forall|r: int, c: int| in_grid(g, r, c) ==> #[trigger] g[r][c] != Cell::Empty
}

/// The empty squares of columns `0..c` of row `r`, left to right.
pub open spec fn empty_in_row(g: Grid, r: int, c: int) -> Seq<(usize, usize)>
    decreases c,
{
    if c <= 0 {
        Seq::empty()
    } else if g[r][c - 1] == Cell::Empty {
        empty_in_row(g, r, c - 1).push((r as usize, (c - 1) as usize))
    } else {
        empty_in_row(g, r, c - 1)
    }
}

/// The empty squares of rows `0..r`, row by row, left to right.
pub open spec fn empty_in_rows(g: Grid, r: int) -> Seq<(usize, usize)>
    decreases r,
{
    if r <= 0 {
        Seq::empty()
    } else {
        empty_in_rows(g, r - 1) + empty_in_row(g, r - 1, g.len() as int)
    }
}

/// The moves that can be played: the empty squares, row by row, left to right.
pub open spec fn grid_moves(g: Grid) -> Seq<(usize, usize)> {
    empty_in_rows(g, g.len() as int)
}

/// The sum of `f(r, c)` over columns `clo..chi` of row `r`.
pub open spec fn sum_row(r: int, clo: int, chi: int, f: spec_fn(int, int) -> int) -> int
    decreases chi - clo,
{
    if chi <= clo {
        0
    } else {
        sum_row(r, clo, chi - 1, f) + f(r, chi - 1)
    }
}

/// The sum of `f(r, c)` over rows `rlo..rhi` and columns `clo..chi`.
pub open spec fn sum_grid(rlo: int, rhi: int, clo: int, chi: int, f: spec_fn(int, int) -> int) -> int
    decreases rhi - rlo,
{
    if rhi <= rlo {
        0
    } else {
        sum_grid(rlo, rhi - 1, clo, chi, f) + sum_row(rhi - 1, clo, chi, f)
    }
}

/// A direction in which three squares can line up.
#[derive(Clone, Copy, Debug, PartialEq, Eq, Structural)]
pub enum Direction {
    Right,
    Down,
    DownRight,
    DownLeft,
}

/// The row step of a direction.
pub open spec fn d_row(d: Direction) -> int {
    match d {
        Direction::Right => 0,
        _ => 1,
    }
}

/// The column step of a direction.
pub open spec fn d_col(d: Direction) -> int {
    match d {
        Direction::Right => 1,
        Direction::Down => 0,
        Direction::DownRight => 1,
        Direction::DownLeft => -1,
    }
}

/// The three squares from (r, c) on in direction `d`.
pub open spec fn window(r: int, c: int, d: Direction) -> Seq<(usize, usize)> {
    seq![
        (r as usize, c as usize),
        ((r + d_row(d)) as usize, (c + d_col(d)) as usize),
        ((r + 2 * d_row(d)) as usize, (c + 2 * d_col(d)) as usize),
    ]
}

/// How many of `cells` hold `k`.
pub open spec fn count_cells(g: Grid, cells: Seq<(usize, usize)>, k: Cell) -> int
    decreases cells.len(),
{
    if cells.len() == 0 {
        0
    } else {
        count_cells(g, cells.drop_last(), k) + if g[cells.last().0 as int][cells.last().1 as int]
            == k {
            1int
        } else {
            0int
        }
    }
}

/// 1 if X holds all three squares, -1 if O does, 0 otherwise.
pub open spec fn line_value(g: Grid, cells: Seq<(usize, usize)>) -> int {
    if count_cells(g, cells, Cell::X) == 3 {
        1
    } else if count_cells(g, cells, Cell::O) == 3 {
        -1
    } else {
        0
    }
}

/// The rows of the starting squares of the windows in direction `d` on a board of side `n`.
pub open spec fn row_range(n: int, d: Direction) -> (int, int) {
    match d {
        Direction::Right => (0, n),
        _ => (0, n - 2),
    }
}

/// The columns of the starting squares of the windows in direction `d`.
pub open spec fn col_range(n: int, d: Direction) -> (int, int) {
    match d {
        Direction::Right => (0, n - 2),
        Direction::Down => (0, n),
        Direction::DownRight => (0, n - 2),
        Direction::DownLeft => (2, n),
    }
}

/// `line_value` of the window that starts at each square, in direction `d`.
pub open spec fn line_fn(g: Grid, d: Direction) -> spec_fn(int, int) -> int {
    |r: int, c: int| line_value(g, window(r, c, d))
}

/// The sum of `line_value` over the windows of the board in direction `d`.
pub open spec fn lines_in(g: Grid, d: Direction) -> int {
    let n = g.len() as int;
    sum_grid(row_range(n, d).0, row_range(n, d).1, col_range(n, d).0, col_range(n, d).1, line_fn(g, d))
}

/// Whether every square of `cells` is on the board.
pub open spec fn cells_in_grid(g: Grid, cells: Seq<(usize, usize)>) -> bool {
    forall|k: int| 0 <= k < cells.len() ==> in_grid(g, (#[trigger] cells[k]).0 as int, cells[k].1 as int)
}

/// The three squares from (r, c) on in direction `d`.
pub fn make_window(r: usize, c: usize, d: Direction) -> (w: Vec<(usize, usize)>)
    requires
        r + 2 <= usize::MAX,
        c + 2 <= usize::MAX,
        d == Direction::DownLeft ==> c >= 2,
    ensures
        w@ == window(r as int, c as int, d),
{
    let w = match d {
        Direction::Right => vec![(r, c), (r, c + 1), (r, c + 2)],
        Direction::Down => vec![(r, c), (r + 1, c), (r + 2, c)],
        Direction::DownRight => vec![(r, c), (r + 1, c + 1), (r + 2, c + 2)],
        Direction::DownLeft => vec![(r, c), (r + 1, c - 1), (r + 2, c - 2)],
    };
    assert(w@ =~= window(r as int, c as int, d));
    w
}

/// The windows that start in rows `rlo..rhi` and columns `clo..chi` lie on the board.
pub open spec fn windows_fit(n: int, d: Direction, rlo: int, rhi: int, clo: int, chi: int) -> bool {
    (rlo < rhi && clo < chi) ==> {
        &&& 0 <= rlo
        &&& 0 <= clo
        &&& rhi + 2 * d_row(d) <= n
        &&& (if d == Direction::DownLeft {
            clo >= 2 && chi <= n
        } else {
            chi + 2 * d_col(d) <= n
        })
    }
}

/// The score: the number of three-in-a-rows of X minus that of O, in all four directions.
pub open spec fn grid_score(g: Grid) -> int {
    lines_in(g, Direction::Right) + lines_in(g, Direction::Down) + lines_in(g, Direction::DownRight)
        + lines_in(g, Direction::DownLeft)
}

/// A square board.
pub struct Board {
    cells: Vec<Vec<Cell>>,
}

impl View for Board {
    type V = Grid;

    closed spec fn view(&self) -> Grid {
        self.cells@.map_values(|row: Vec<Cell>| row@)
    }
}

/// Copies a row of squares.
fn copy_row(row: &Vec<Cell>) -> (r: Vec<Cell>)
    ensures
        r@ == row@,
{
    let mut r: Vec<Cell> = Vec::new();
    let mut i: usize = 0;
    while i < row.len()
        invariant
            i <= row@.len(),
            r@ == row@.take(i as int),
        decreases row.len() - i,
    {
        r.push(row[i]);
        assert(r@ =~= row@.take(i + 1));
        i = i + 1;
    }
    assert(row@.take(row.len() as int) =~= row@);
    r
}

impl Board {
    /// The side of the board.
    pub open spec fn side(&self) -> int {
        self@.len() as int
    }

    /// Every board is square, of side at most `MAX_SIZE`.
    #[verifier::type_invariant]
    closed spec fn inv(&self) -> bool {
        grid_wf(self@)
    }

    /// An empty board of the given side.
    pub fn new(size: usize) -> (r: Board)
        requires
            size <= MAX_SIZE,
        ensures
            r@.len() == size,
            forall|i: int, j: int| in_grid(r@, i, j) ==> #[trigger] r@[i][j] == Cell::Empty,
    {
        let mut cells: Vec<Vec<Cell>> = Vec::new();
        let mut i: usize = 0;
        while i < size
            invariant
                i <= size,
                cells@.len() == i,
                forall|k: int| 0 <= k < i ==> (#[trigger] cells@[k])@.len() == size,
                forall|k: int, j: int|
                    0 <= k < i && 0 <= j < size ==> #[trigger] cells@[k]@[j] == Cell::Empty,
            decreases size - i,
        {
            let mut row: Vec<Cell> = Vec::new();
            let mut j: usize = 0;
            while j < size
                invariant
                    j <= size,
                    row@.len() == j,
                    forall|m: int| 0 <= m < j ==> #[trigger] row@[m] == Cell::Empty,
                decreases size - j,
            {
                row.push(Cell::Empty);
                j = j + 1;
            }
            cells.push(row);
            i = i + 1;
        }
        let b = Board { cells };
        assert(grid_wf(b@));
        b
    }

    /// The board with the given rows, if they make a square of side at most `MAX_SIZE`.
    pub fn from_cells(cells: Vec<Vec<Cell>>) -> (r: Option<Board>)
        ensures
            match r {
                Some(b) => b@ == cells@.map_values(|row: Vec<Cell>| row@),
                None => !grid_wf(cells@.map_values(|row: Vec<Cell>| row@)),
            },
    {
        let ghost g = cells@.map_values(|row: Vec<Cell>| row@);
        let n = cells.len();
        if n > MAX_SIZE {
            return None;
        }
        let mut i: usize = 0;
        while i < n
            invariant
                i <= n,
                n == cells@.len(),
                g == cells@.map_values(|row: Vec<Cell>| row@),
                forall|k: int| 0 <= k < i ==> (#[trigger] g[k]).len() == n,
            decreases n - i,
        {
            if cells[i].len() != n {
                assert(g[i as int].len() != g.len());
                return None;
            }
            i = i + 1;
        }
        Some(Board { cells })
    }

    /// The side of the board.
    pub fn size(&self) -> (r: usize)
        ensures
            r == self@.len(),
            grid_wf(self@),
    {
        proof {
            use_type_invariant(self);
        }
        self.cells.len()
    }

    /// The rows of the board.
    pub fn get_cells(&self) -> (r: &Vec<Vec<Cell>>)
        ensures
            r@.map_values(|row: Vec<Cell>| row@) == self@,
    {
        &self.cells
    }

    /// The square in row `r`, column `c`.
    pub fn get_cell(&self, r: usize, c: usize) -> (res: Cell)
        requires
            in_grid(self@, r as int, c as int),
        ensures
            res == self@[r as int][c as int],
    {
        proof {
            use_type_invariant(self);
        }
        assert(self.cells@[r as int]@ == self@[r as int]);
        self.cells[r][c]
    }

    /// Whether no square is empty.
    pub fn game_over(&self) -> (r: bool)
        ensures
            r == grid_full(self@),
            grid_wf(self@),
    {
        proof {
            use_type_invariant(self);
        }
        let n = self.cells.len();
        let mut i: usize = 0;
        while i < n
            invariant
                i <= n,
                n == self@.len(),
                grid_wf(self@),
                forall|r: int, c: int|
                    0 <= r < i && 0 <= c < n ==> #[trigger] self@[r][c] != Cell::Empty,
            decreases n - i,
        {
            let mut j: usize = 0;
            assert(self.cells@[i as int]@ == self@[i as int]);
            while j < n
                invariant
                    i < n,
                    j <= n,
                    n == self@.len(),
                    grid_wf(self@),
                    self.cells@[i as int]@ == self@[i as int],
                    forall|r: int, c: int|
                        0 <= r < i && 0 <= c < n ==> #[trigger] self@[r][c] != Cell::Empty,
                    forall|c: int| 0 <= c < j ==> #[trigger] self@[i as int][c] != Cell::Empty,
                decreases n - j,
            {
                if self.cells[i][j] == Cell::Empty {
                    assert(self@[i as int][j as int] == Cell::Empty);
                    return false;
                }
                j = j + 1;
            }
            i = i + 1;
        }
        true
    }

    /// The empty squares, row by row, left to right.
    pub fn moves(&self) -> (r: Vec<(usize, usize)>)
        ensures
            r@ == grid_moves(self@),
            grid_wf(self@),
    {
        proof {
            use_type_invariant(self);
        }
        let ghost g = self@;
        let n = self.cells.len();
        let mut r: Vec<(usize, usize)> = Vec::new();
        let mut i: usize = 0;
        while i < n
            invariant
                i <= n,
                n == g.len(),
                g == self@,
                grid_wf(g),
                r@ == empty_in_rows(g, i as int),
            decreases n - i,
        {
            let mut j: usize = 0;
            assert(self.cells@[i as int]@ == g[i as int]);
            while j < n
                invariant
                    i < n,
                    j <= n,
                    n == g.len(),
                    g == self@,
                    grid_wf(g),
                    self.cells@[i as int]@ == g[i as int],
                    r@ == empty_in_rows(g, i as int) + empty_in_row(g, i as int, j as int),
                decreases n - j,
            {
                if self.cells[i][j] == Cell::Empty {
                    r.push((i, j));
                }
                assert(r@ =~= empty_in_rows(g, i as int) + empty_in_row(g, i as int, j + 1));
                j = j + 1;
            }
            i = i + 1;
        }
        r
    }

    /// `player` marks square (r, c).
    pub fn apply_move(&mut self, mv: (usize, usize), player: Player)
        requires
            in_grid(old(self)@, mv.0 as int, mv.1 as int),
        ensures
            final(self)@ == grid_apply(old(self)@, mv.0 as int, mv.1 as int, player),
    {
        proof {
            use_type_invariant(&*self);
        }
        let (r, c) = mv;
        assert(self.cells@[r as int]@ == self@[r as int]);
        let mut row = copy_row(&self.cells[r]);
        let cell = match player {
            Player::X => Cell::X,
            Player::O => Cell::O,
        };
        row.set(c, cell);
        let ghost g = grid_apply(old(self)@, r as int, c as int, player);
        let mut cells: Vec<Vec<Cell>> = Vec::new();
        std::mem::swap(&mut cells, &mut self.cells);
        cells.set(r, row);
        assert(cells@.map_values(|row: Vec<Cell>| row@) =~= g);
        self.cells = cells;
    }

    /// A copy of the board.
    pub fn copy(&self) -> (r: Board)
        ensures
            r@ == self@,
    {
        proof {
            use_type_invariant(self);
        }
        let mut cells: Vec<Vec<Cell>> = Vec::new();
        let mut i: usize = 0;
        while i < self.cells.len()
            invariant
                i <= self.cells@.len(),
                cells@.len() == i,
                forall|k: int| 0 <= k < i ==> (#[trigger] cells@[k])@ == self.cells@[k]@,
            decreases self.cells.len() - i,
        {
            cells.push(copy_row(&self.cells[i]));
            i = i + 1;
        }
        assert(cells@.map_values(|row: Vec<Cell>| row@) =~= self@);
        let b = Board { cells };
        b
    }
}

impl Board {
    /// How many of `cells` hold `k`.
    pub fn count_kind(&self, cells: &[(usize, usize)], k: Cell) -> (r: usize)
        requires
            cells_in_grid(self@, cells@),
        ensures
            r == count_cells(self@, cells@, k),
            r <= cells@.len(),
    {
        let mut n: usize = 0;
        let mut i: usize = 0;
        while i < cells.len()
            invariant
                i <= cells@.len(),
                cells_in_grid(self@, cells@),
                n == count_cells(self@, cells@.take(i as int), k),
                n <= i,
            decreases cells.len() - i,
        {
            let (r, c) = cells[i];
            assert(cells@.take(i + 1).drop_last() =~= cells@.take(i as int));
            assert(in_grid(self@, cells@[i as int].0 as int, cells@[i as int].1 as int));
            if self.get_cell(r, c) == k {
                n = n + 1;
            }
            i = i + 1;
        }
        assert(cells@.take(cells.len() as int) =~= cells@);
        n
    }

    /// `line_value` of the window from (r, c) in direction `d`.
    pub fn line_at(&self, r: usize, c: usize, d: Direction) -> (v: i64)
        requires
            windows_fit(self@.len() as int, d, r as int, r + 1, c as int, c + 1),
        ensures
            v == line_value(self@, window(r as int, c as int, d)),
            -1 <= v <= 1,
    {
        proof {
            use_type_invariant(self);
        }
        let w = make_window(r, c, d);
        assert(in_grid(self@, w@[0].0 as int, w@[0].1 as int));
        assert(in_grid(self@, w@[1].0 as int, w@[1].1 as int));
        assert(in_grid(self@, w@[2].0 as int, w@[2].1 as int));
        assert(cells_in_grid(self@, w@));
        let xs = self.count_kind(w.as_slice(), Cell::X);
        let os = self.count_kind(w.as_slice(), Cell::O);
        if xs == 3 {
            1
        } else if os == 3 {
            -1
        } else {
            0
        }
    }

    /// The sum of `line_value` over the windows that start in rows `rlo..rhi`
    /// and columns `clo..chi`, in direction `d`.
    pub fn lines_in_range(&self, d: Direction, rlo: usize, rhi: usize, clo: usize, chi: usize) -> (v: i64)
        requires
            rlo <= rhi <= MAX_SIZE,
            clo <= chi <= MAX_SIZE,
            windows_fit(self@.len() as int, d, rlo as int, rhi as int, clo as int, chi as int),
        ensures
            v == sum_grid(rlo as int, rhi as int, clo as int, chi as int, line_fn(self@, d)),
            -(MAX_SIZE * MAX_SIZE) <= v <= MAX_SIZE * MAX_SIZE,
    {
        let ghost f = line_fn(self@, d);
        let mut acc: i64 = 0;
        let mut r: usize = rlo;
        while r < rhi
            invariant
                rlo <= r <= rhi <= MAX_SIZE,
                clo <= chi <= MAX_SIZE,
                windows_fit(self@.len() as int, d, rlo as int, rhi as int, clo as int, chi as int),
                f == line_fn(self@, d),
                acc == sum_grid(rlo as int, r as int, clo as int, chi as int, f),
                -(r - rlo) * 1000 <= acc <= (r - rlo) * 1000,
            decreases rhi - r,
        {
            let mut c: usize = clo;
            let ghost base = acc;
            while c < chi
                invariant
                    rlo <= r < rhi <= MAX_SIZE,
                    clo <= c <= chi <= MAX_SIZE,
                    windows_fit(self@.len() as int, d, rlo as int, rhi as int, clo as int, chi as int),
                    f == line_fn(self@, d),
                    base == sum_grid(rlo as int, r as int, clo as int, chi as int, f),
                    acc == base + sum_row(r as int, clo as int, c as int, f),
                    -(r - rlo) * 1000 - (c - clo) <= acc <= (r - rlo) * 1000 + (c - clo),
                decreases chi - c,
            {
                let v = self.line_at(r, c, d);
                acc = acc + v;
                c = c + 1;
            }
            r = r + 1;
        }
        assert(-(MAX_SIZE * MAX_SIZE) <= -(rhi - rlo) * 1000) by (nonlinear_arith)
            requires rlo <= rhi <= 1000;
        acc
    }

    /// The score: three-in-a-rows of X minus those of O, in all four directions.
    pub fn score(&self) -> (v: i32)
        ensures
            v == grid_score(self@),
            -4 * MAX_SIZE * MAX_SIZE <= v <= 4 * MAX_SIZE * MAX_SIZE,
    {
        proof {
            use_type_invariant(self);
        }
        let n = self.cells.len();
        let m = if n >= 2 { n - 2 } else { 0 };
        let right = self.lines_in_range(Direction::Right, 0, n, 0, m);
        let down = self.lines_in_range(Direction::Down, 0, m, 0, n);
        let diag = self.lines_in_range(Direction::DownRight, 0, m, 0, m);
        let anti = if n >= 2 { self.lines_in_range(Direction::DownLeft, 0, m, 2, n) } else { 0 };
        proof {
            let f = line_fn(self@, Direction::Right);
            if n < 2 {
                assert(sum_row(0, 0, n - 2, f) == 0);
                assert(sum_row(0, 0, 0, f) == 0);
                assert(sum_grid(0, 0, 0, n - 2, f) == 0);
                assert(sum_grid(0, 0, 0, 0, f) == 0);
                assert(sum_grid(0, n as int, 0, n - 2, f) == sum_grid(0, n as int, 0, 0, f));
                assert(anti == lines_in(self@, Direction::DownLeft));
            }
        }
        (right + down + diag + anti) as i32
    }
}

impl Clone for Board {
    fn clone(&self) -> (r: Self)
        ensures
            r@ == self@,
    {
        self.copy()
    }
}

} // verus!

verus! {

/// The squares listed for row `r` are empty squares of that row, to the left of `c`.
pub proof fn lemma_empty_in_row_sound(g: Grid, r: int, c: int)
    requires
        grid_wf(g),
        0 <= r < g.len(),
        c <= g.len(),
    ensures
        forall|k: int|
            0 <= k < empty_in_row(g, r, c).len() ==> {
                let m = #[trigger] empty_in_row(g, r, c)[k];
                &&& m.0 == r
                &&& 0 <= m.1 < c
                &&& g[r][m.1 as int] == Cell::Empty
            },
    decreases c,
{
    if c > 0 {
        lemma_empty_in_row_sound(g, r, c - 1);
    }
}

/// Every listed move is an empty square of the board.
pub proof fn lemma_empty_in_rows_sound(g: Grid, r: int)
    requires
        grid_wf(g),
        r <= g.len(),
    ensures
        forall|k: int|
            0 <= k < empty_in_rows(g, r).len() ==> {
                let m = #[trigger] empty_in_rows(g, r)[k];
                &&& 0 <= m.0 < r
                &&& in_grid(g, m.0 as int, m.1 as int)
                &&& g[m.0 as int][m.1 as int] == Cell::Empty
            },
    decreases r,
{
    if r > 0 {
        lemma_empty_in_rows_sound(g, r - 1);
        lemma_empty_in_row_sound(g, r - 1, g.len() as int);
        let a = empty_in_rows(g, r - 1);
        let b = empty_in_row(g, r - 1, g.len() as int);
        assert forall|k: int| 0 <= k < empty_in_rows(g, r).len() implies {
            let m = #[trigger] empty_in_rows(g, r)[k];
            &&& 0 <= m.0 < r
            &&& in_grid(g, m.0 as int, m.1 as int)
            &&& g[m.0 as int][m.1 as int] == Cell::Empty
        } by {
            if k < a.len() {
                assert(empty_in_rows(g, r)[k] == a[k]);
            } else {
                assert(empty_in_rows(g, r)[k] == b[k - a.len()]);
            }
        }
    }
}

/// Every move is an empty square of the board.
pub proof fn lemma_moves_sound(g: Grid)
    requires
        grid_wf(g),
    ensures
        forall|k: int|
            0 <= k < grid_moves(g).len() ==> {
                let m = #[trigger] grid_moves(g)[k];
                &&& in_grid(g, m.0 as int, m.1 as int)
                &&& g[m.0 as int][m.1 as int] == Cell::Empty
            },
{
    lemma_empty_in_rows_sound(g, g.len() as int);
}

/// An empty square at (r, c) with c < j gives row `r` a listed move among its first `j` columns.
proof fn lemma_empty_in_row_nonempty(g: Grid, r: int, c: int, j: int)
    requires
        0 <= c < j,
        g[r][c] == Cell::Empty,
    ensures
        empty_in_row(g, r, j).len() > 0,
    decreases j,
{
    if j - 1 != c {
        lemma_empty_in_row_nonempty(g, r, c, j - 1);
    }
}

/// An empty square in a row below `i` gives at least one move among the first `i` rows.
proof fn lemma_empty_in_rows_nonempty(g: Grid, r: int, c: int, i: int)
    requires
        grid_wf(g),
        0 <= r < i <= g.len(),
        0 <= c < g.len(),
        g[r][c] == Cell::Empty,
    ensures
        empty_in_rows(g, i).len() > 0,
    decreases i,
{
    if i - 1 == r {
        lemma_empty_in_row_nonempty(g, r, c, g.len() as int);
    } else {
        lemma_empty_in_rows_nonempty(g, r, c, i - 1);
    }
}

/// A board that is not full has a move.
pub proof fn lemma_moves_exist(g: Grid)
    requires
        grid_wf(g),
        !grid_full(g),
    ensures
        grid_moves(g).len() > 0,
{
    let (r, c) = choose|r: int, c: int| in_grid(g, r, c) && #[trigger] g[r][c] == Cell::Empty;
    lemma_empty_in_rows_nonempty(g, r, c, g.len() as int);
}

/// Marking the empty square (r, c) takes one move away from row `r` after column `c`.
proof fn lemma_apply_row(g: Grid, r: int, c: int, p: Player, j: int)
    requires
        grid_wf(g),
        in_grid(g, r, c),
        g[r][c] == Cell::Empty,
        0 <= j <= g.len(),
    ensures
        empty_in_row(grid_apply(g, r, c, p), r, j).len() == empty_in_row(g, r, j).len() - (if j
            > c {
            1int
        } else {
            0int
        }),
    decreases j,
{
    if j > 0 {
        lemma_apply_row(g, r, c, p, j - 1);
    }
}

/// Rows other than `r` keep their moves.
proof fn lemma_apply_other_row(g: Grid, r: int, c: int, p: Player, r2: int, j: int)
    requires
        grid_wf(g),
        in_grid(g, r, c),
        0 <= r2 < g.len(),
        r2 != r,
        0 <= j <= g.len(),
    ensures
        empty_in_row(grid_apply(g, r, c, p), r2, j) == empty_in_row(g, r2, j),
    decreases j,
{
    if j > 0 {
        lemma_apply_other_row(g, r, c, p, r2, j - 1);
    }
}

/// Marking the empty square (r, c) takes one move away from the rows after `r`.
proof fn lemma_apply_rows(g: Grid, r: int, c: int, p: Player, i: int)
    requires
        grid_wf(g),
        in_grid(g, r, c),
        g[r][c] == Cell::Empty,
        0 <= i <= g.len(),
    ensures
        empty_in_rows(grid_apply(g, r, c, p), i).len() == empty_in_rows(g, i).len() - (if i > r {
            1int
        } else {
            0int
        }),
    decreases i,
{
    if i > 0 {
        lemma_apply_rows(g, r, c, p, i - 1);
        let n = g.len() as int;
        if i - 1 == r {
            lemma_apply_row(g, r, c, p, n);
        } else {
            lemma_apply_other_row(g, r, c, p, i - 1, n);
        }
    }
}

/// Playing a move leaves one move fewer.
pub proof fn lemma_apply_move_count(g: Grid, r: int, c: int, p: Player)
    requires
        grid_wf(g),
        in_grid(g, r, c),
        g[r][c] == Cell::Empty,
    ensures
        grid_wf(grid_apply(g, r, c, p)),
        grid_moves(grid_apply(g, r, c, p)).len() == grid_moves(g).len() - 1,
{
    lemma_apply_rows(g, r, c, p, g.len() as int);
}

} // verus!

verus! {

/// The square with the marks of X and O exchanged.
pub open spec fn swap_cell(c: Cell) -> Cell {
    match c {
        Cell::X => Cell::O,
        Cell::O => Cell::X,
        other => other,
    }
}

/// The grid with every X made O and every O made X; walls and empty squares stay.
pub open spec fn swap_grid(g: Grid) -> Grid {
    Seq::new(g.len(), |r: int| Seq::new(g[r].len(), |c: int| swap_cell(g[r][c])))
}

/// Exchanging the marks counts, for each kind of square, the squares of the swapped kind.
pub proof fn lemma_count_swap(g: Grid, cells: Seq<(usize, usize)>, k: Cell)
    requires
        grid_wf(g),
        cells_in_grid(g, cells),
    ensures
        count_cells(swap_grid(g), cells, swap_cell(k)) == count_cells(g, cells, k),
    decreases cells.len(),
{
    if cells.len() > 0 {
        let prev = cells.drop_last();
        assert forall|i: int| 0 <= i < prev.len() implies in_grid(
            g,
            (#[trigger] prev[i]).0 as int,
            prev[i].1 as int,
        ) by {
            assert(prev[i] == cells[i]);
        }
        lemma_count_swap(g, prev, k);
        let m = cells.last();
        assert(in_grid(g, cells[cells.len() - 1].0 as int, cells[cells.len() - 1].1 as int));
        assert(swap_grid(g)[m.0 as int][m.1 as int] == swap_cell(g[m.0 as int][m.1 as int]));
    }
}

/// Squares of two different kinds are at most as many as the squares.
pub proof fn lemma_count_two_kinds(g: Grid, cells: Seq<(usize, usize)>, k1: Cell, k2: Cell)
    requires
        k1 != k2,
    ensures
        count_cells(g, cells, k1) + count_cells(g, cells, k2) <= cells.len(),
        count_cells(g, cells, k1) >= 0,
    decreases cells.len(),
{
    if cells.len() > 0 {
        lemma_count_two_kinds(g, cells.drop_last(), k1, k2);
    }
}

/// The sum of a function that is the negation of another, over the same squares, is the
/// negation of its sum.
pub proof fn lemma_sum_row_neg(r: int, clo: int, chi: int, f1: spec_fn(int, int) -> int, f2: spec_fn(int, int) -> int)
    requires
        forall|c: int| clo <= c < chi ==> #[trigger] f2(r, c) == -f1(r, c),
    ensures
        sum_row(r, clo, chi, f2) == -sum_row(r, clo, chi, f1),
    decreases chi - clo,
{
    if chi > clo {
        lemma_sum_row_neg(r, clo, chi - 1, f1, f2);
    }
}

/// The grid form of `lemma_sum_row_neg`.
pub proof fn lemma_sum_grid_neg(
    rlo: int,
    rhi: int,
    clo: int,
    chi: int,
    f1: spec_fn(int, int) -> int,
    f2: spec_fn(int, int) -> int,
)
    requires
        forall|r: int, c: int| rlo <= r < rhi && clo <= c < chi ==> #[trigger] f2(r, c) == -f1(r, c),
    ensures
        sum_grid(rlo, rhi, clo, chi, f2) == -sum_grid(rlo, rhi, clo, chi, f1),
    decreases rhi - rlo,
{
    if rhi > rlo {
        lemma_sum_grid_neg(rlo, rhi - 1, clo, chi, f1, f2);
        lemma_sum_row_neg(rhi - 1, clo, chi, f1, f2);
    }
}

/// The three squares of a window that starts inside the ranges of `d` lie on the board.
pub proof fn lemma_window_in_grid(g: Grid, n: int, d: Direction, r: int, c: int)
    requires
        grid_wf(g),
        n == g.len(),
        row_range(n, d).0 <= r < row_range(n, d).1,
        col_range(n, d).0 <= c < col_range(n, d).1,
    ensures
        cells_in_grid(g, window(r, c, d)),
{
    let w = window(r, c, d);
    assert(in_grid(g, w[0].0 as int, w[0].1 as int));
    assert(in_grid(g, w[1].0 as int, w[1].1 as int));
    assert(in_grid(g, w[2].0 as int, w[2].1 as int));
}

/// Exchanging the marks turns every line of X into one of O and back.
pub proof fn lemma_lines_swap(g: Grid, d: Direction)
    requires
        grid_wf(g),
    ensures
        lines_in(swap_grid(g), d) == -lines_in(g, d),
{
    let n = g.len() as int;
    let f1 = line_fn(g, d);
    let f2 = line_fn(swap_grid(g), d);
    assert forall|r: int, c: int|
        row_range(n, d).0 <= r < row_range(n, d).1 && col_range(n, d).0 <= c < col_range(n, d).1
        implies #[trigger] f2(r, c) == -f1(r, c) by {
        lemma_window_in_grid(g, n, d, r, c);
        let w = window(r, c, d);
        lemma_count_swap(g, w, Cell::X);
        lemma_count_swap(g, w, Cell::O);
        lemma_count_two_kinds(g, w, Cell::X, Cell::O);
        assert(swap_cell(Cell::X) == Cell::O && swap_cell(Cell::O) == Cell::X);
    }
    assert(swap_grid(g).len() == n);
    lemma_sum_grid_neg(row_range(n, d).0, row_range(n, d).1, col_range(n, d).0, col_range(n, d).1, f1, f2);
}

/// Exchanging X and O negates the score and keeps the board full or not.
pub proof fn lemma_score_swap(g: Grid)
    requires
        grid_wf(g),
    ensures
        grid_wf(swap_grid(g)),
        grid_score(swap_grid(g)) == -grid_score(g),
        grid_full(swap_grid(g)) == grid_full(g),
{
    let s = swap_grid(g);
    assert forall|r: int| 0 <= r < s.len() implies (#[trigger] s[r]).len() == s.len() by {}
    lemma_lines_swap(g, Direction::Right);
    lemma_lines_swap(g, Direction::Down);
    lemma_lines_swap(g, Direction::DownRight);
    lemma_lines_swap(g, Direction::DownLeft);
    assert(grid_full(s) == grid_full(g)) by {
        if grid_full(g) {
            assert forall|r: int, c: int| in_grid(s, r, c) implies #[trigger] s[r][c] != Cell::Empty by {
                assert(g[r][c] != Cell::Empty);
            }
        }
        if grid_full(s) {
            assert forall|r: int, c: int| in_grid(g, r, c) implies #[trigger] g[r][c] != Cell::Empty by {
                assert(s[r][c] != Cell::Empty);
            }
        }
    }
}

} // verus!
