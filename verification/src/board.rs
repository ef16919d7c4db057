//! The tic-tac-toe board: a square grid of cells that players mark in turn.
//! A player scores one point for each run of three of its marks in a row,
//! column or diagonal; walls block runs.
use vstd::prelude::*;

verus! {

/// The content of one square.
#[derive(Clone, Copy, Debug, PartialEq, Eq, Structural)]
pub enum Cell {
    X,
    O,
    Empty,
    Wall,
}

/// A player.
#[derive(Clone, Copy, Debug, PartialEq, Eq, Structural)]
pub enum Player {
    X,
    O,
}

/// The mark that `p` puts on the board.
pub open spec fn mark(p: Player) -> Cell {
    match p {
        Player::X => Cell::X,
        Player::O => Cell::O,
    }
}

/// The other player.
pub open spec fn other(p: Player) -> Player {
    match p {
        Player::X => Player::O,
        Player::O => Player::X,
    }
}

/// Each player's opponent is the other player, and the opponent's opponent is
/// the player again.
pub proof fn law_other_is_an_involution(p: Player)
    ensures
        other(p) != p,
        other(other(p)) == p,
{
}

/// Whether `b` is a square grid whose side is a machine size.
pub open spec fn square(b: Seq<Seq<Cell>>) -> bool {
    &&& b.len() <= usize::MAX
    &&& forall|i: int| 0 <= i < b.len() ==> (#[trigger] b[i]).len() == b.len()
}

/// The grid with square `m` set to `c`.
pub open spec fn place(b: Seq<Seq<Cell>>, m: (usize, usize), c: Cell) -> Seq<Seq<Cell>> {
    b.update(m.0 as int, b[m.0 as int].update(m.1 as int, c))
}

/// Whether `m` is an empty square of `b`.
pub open spec fn open_square(b: Seq<Seq<Cell>>, m: (usize, usize)) -> bool {
    &&& m.0 < b.len()
    &&& m.1 < b[m.0 as int].len()
    &&& b[m.0 as int][m.1 as int] == Cell::Empty
}

/// The empty squares of row `i` (whose cells are `row`) among its first `j`
/// columns, left to right.
pub open spec fn row_moves(row: Seq<Cell>, i: int, j: int) -> Seq<(usize, usize)>
    decreases j,
{
    if j <= 0 {
        Seq::empty()
    } else {
        let prev = row_moves(row, i, j - 1);
        if row[j - 1] == Cell::Empty {
            prev.push((i as usize, (j - 1) as usize))
        } else {
            prev
        }
    }
}

/// The empty squares of the first `i` rows, row by row.
pub open spec fn moves_upto(b: Seq<Seq<Cell>>, i: int) -> Seq<(usize, usize)>
    decreases i,
{
    if i <= 0 {
        Seq::empty()
    } else {
        moves_upto(b, i - 1) + row_moves(b[i - 1], i - 1, b[i - 1].len() as int)
    }
}

/// The empty squares of `b`, row by row and left to right.
pub open spec fn empty_squares(b: Seq<Seq<Cell>>) -> Seq<(usize, usize)> {
    moves_upto(b, b.len() as int)
}

/// The row offset of direction `d`: right, down, down-right, down-left.
pub open spec fn di(d: int) -> int {
    if d == 0 {
        0
    } else {
        1
    }
}

/// The column offset of direction `d`.
pub open spec fn dj(d: int) -> int {
    if d == 0 {
        1
    } else if d == 1 {
        0
    } else if d == 2 {
        1
    } else {
        -1
    }
}

/// Whether the run of three squares from `(i, j)` in direction `d` lies on a
/// board of side `n`.
pub open spec fn fits(n: int, i: int, j: int, d: int) -> bool {
    &&& 0 <= i < n
    &&& 0 <= j < n
    &&& i + 2 * di(d) < n
    &&& 0 <= j + 2 * dj(d) < n
}

/// The `k`-th square (k in 0..3) of the run from `(i, j)` in direction `d`.
pub open spec fn run_cell(b: Seq<Seq<Cell>>, i: int, j: int, d: int, k: int) -> Cell {
    if k == 0 {
        b[i][j]
    } else if k == 1 {
        b[i + di(d)][j + dj(d)]
    } else {
        b[i + 2 * di(d)][j + 2 * dj(d)]
    }
}

/// How many squares of the run hold `c`.
pub open spec fn run_count(b: Seq<Seq<Cell>>, i: int, j: int, d: int, c: Cell) -> int {
    (if run_cell(b, i, j, d, 0) == c { 1int } else { 0int })
        + (if run_cell(b, i, j, d, 1) == c { 1int } else { 0int })
        + (if run_cell(b, i, j, d, 2) == c { 1int } else { 0int })
}

/// +1 for a run of three X, -1 for a run of three O, 0 otherwise.
pub open spec fn line_value(b: Seq<Seq<Cell>>, i: int, j: int, d: int) -> int {
    if !fits(b.len() as int, i, j, d) {
        0
    } else if run_count(b, i, j, d, Cell::X) == 3 {
        1
    } else if run_count(b, i, j, d, Cell::O) == 3 {
        -1
    } else {
        0
    }
}

/// The runs that start at `(i, j)`, in all four directions.
pub open spec fn square_lines(b: Seq<Seq<Cell>>, i: int, j: int) -> int {
    line_value(b, i, j, 0) + line_value(b, i, j, 1) + line_value(b, i, j, 2) + line_value(b, i, j, 3)
}

/// The runs that start in the first `j` squares of row `i`.
pub open spec fn row_lines(b: Seq<Seq<Cell>>, i: int, j: int) -> int
    decreases j,
{
    if j <= 0 {
        0
    } else {
        row_lines(b, i, j - 1) + square_lines(b, i, j - 1)
    }
}

/// The runs that start in the first `i` rows.
pub open spec fn grid_lines(b: Seq<Seq<Cell>>, i: int) -> int
    decreases i,
{
    if i <= 0 {
        0
    } else {
        grid_lines(b, i - 1) + row_lines(b, i - 1, b.len() as int)
    }
}

/// The score: the runs of three X minus the runs of three O.
pub open spec fn score(b: Seq<Seq<Cell>>) -> int {
    grid_lines(b, b.len() as int)
}

pub proof fn lemma_row_lines_bound(b: Seq<Seq<Cell>>, i: int, j: int)
    requires
        0 <= j,
    ensures
        -4 * j <= row_lines(b, i, j) <= 4 * j,
    decreases j,
{
    if j > 0 {
        lemma_row_lines_bound(b, i, j - 1);
    }
}

pub proof fn lemma_grid_lines_bound(b: Seq<Seq<Cell>>, i: int)
    requires
        0 <= i,
    ensures
        -4 * (b.len() * i) <= grid_lines(b, i) <= 4 * (b.len() * i),
    decreases i,
{
    if i > 0 {
        let n = b.len() as int;
        lemma_grid_lines_bound(b, i - 1);
        lemma_row_lines_bound(b, i - 1, n);
        assert(n * (i - 1) + n == n * i) by (nonlinear_arith);
    }
}

/// The number of squares before square `(i, j)` of a board of side `n`,
/// `n * i + j`, is at most the number of squares of the board.
pub proof fn lemma_squares_before(n: int, i: int, j: int)
    requires
        0 <= i < n,
        0 <= j <= n,
    ensures
        0 <= n * i,
        n * i + j <= n * n,
{
    assert(0 <= n * i) by (nonlinear_arith)
        requires
            0 <= i,
            0 <= n,
    ;
    assert(n * i + n <= n * n) by (nonlinear_arith)
        requires
            0 <= i < n,
    ;
}

/// The largest absolute value of the score of a board of side `n`: four runs
/// start at each square.
pub open spec fn score_bound(n: int) -> int {
    4 * (n * n)
}

/// Whether every score of a board of side `n` is an `i32`.
pub open spec fn score_fits(n: int) -> bool {
    score_bound(n) <= i32::MAX
}

pub proof fn lemma_score_bound(b: Seq<Seq<Cell>>)
    ensures
        0 <= b.len() * b.len(),
        -score_bound(b.len() as int) <= score(b) <= score_bound(b.len() as int),
{
    let n = b.len() as int;
    lemma_grid_lines_bound(b, n);
    assert(0 <= n * n) by (nonlinear_arith);
    assert(score(b) == grid_lines(b, n));
}

pub proof fn lemma_row_moves_valid(row: Seq<Cell>, i: int, j: int)
    requires
        0 <= i <= usize::MAX,
        0 <= j <= row.len(),
        row.len() <= usize::MAX,
    ensures
        forall|k: int| 0 <= k < row_moves(row, i, j).len() ==> {
            let m = #[trigger] row_moves(row, i, j)[k];
            &&& m.0 == i
            &&& m.1 < j
            &&& row[m.1 as int] == Cell::Empty
        },
    decreases j,
{
    if j > 0 {
        lemma_row_moves_valid(row, i, j - 1);
        let prev = row_moves(row, i, j - 1);
        assert forall|k: int| 0 <= k < row_moves(row, i, j).len() implies {
            let m = #[trigger] row_moves(row, i, j)[k];
            &&& m.0 == i
            &&& m.1 < j
            &&& row[m.1 as int] == Cell::Empty
        } by {
            if k < prev.len() {
                assert(row_moves(row, i, j)[k] == prev[k]);
            } else {
                assert(row_moves(row, i, j)[k] == (i as usize, (j - 1) as usize));
            }
        }
    }
}

pub proof fn lemma_moves_upto_valid(b: Seq<Seq<Cell>>, i: int)
    requires
        square(b),
        0 <= i <= b.len(),
    ensures
        forall|k: int| 0 <= k < moves_upto(b, i).len() ==> {
            let m = #[trigger] moves_upto(b, i)[k];
            m.0 < i && open_square(b, m)
        },
    decreases i,
{
    if i > 0 {
        lemma_moves_upto_valid(b, i - 1);
        lemma_row_moves_valid(b[i - 1], i - 1, b[i - 1].len() as int);
        let prev = moves_upto(b, i - 1);
        let row = row_moves(b[i - 1], i - 1, b[i - 1].len() as int);
        assert forall|k: int| 0 <= k < moves_upto(b, i).len() implies {
            let m = #[trigger] moves_upto(b, i)[k];
            m.0 < i && open_square(b, m)
        } by {
            if k < prev.len() {
                assert(moves_upto(b, i)[k] == prev[k]);
            } else {
                assert(moves_upto(b, i)[k] == row[k - prev.len()]);
            }
        }
    }
}

/// Every listed move is an empty square of the board.
pub proof fn lemma_empty_squares_valid(b: Seq<Seq<Cell>>)
    requires
        square(b),
    ensures
        forall|k: int| 0 <= k < empty_squares(b).len() ==> open_square(b, #[trigger] empty_squares(b)[k]),
{
    lemma_moves_upto_valid(b, b.len() as int);
}

pub proof fn lemma_row_moves_place(row: Seq<Cell>, i: int, j: int, col: int, c: Cell)
    requires
        0 <= j <= row.len(),
        0 <= col < row.len(),
        row[col] == Cell::Empty,
        c != Cell::Empty,
    ensures
        col < j ==> row_moves(row.update(col, c), i, j).len() == row_moves(row, i, j).len() - 1,
        col >= j ==> row_moves(row.update(col, c), i, j) == row_moves(row, i, j),
    decreases j,
{
    if j > 0 {
        lemma_row_moves_place(row, i, j - 1, col, c);
    }
}

pub proof fn lemma_moves_upto_place(b: Seq<Seq<Cell>>, i: int, m: (usize, usize), c: Cell)
    requires
        square(b),
        0 <= i <= b.len(),
        open_square(b, m),
        c != Cell::Empty,
    ensures
        m.0 < i ==> moves_upto(place(b, m, c), i).len() == moves_upto(b, i).len() - 1,
        m.0 >= i ==> moves_upto(place(b, m, c), i) == moves_upto(b, i),
    decreases i,
{
    if i > 0 {
        lemma_moves_upto_place(b, i - 1, m, c);
        let nb = place(b, m, c);
        if i - 1 == m.0 {
            lemma_row_moves_place(b[i - 1], i - 1, b[i - 1].len() as int, m.1 as int, c);
        } else {
            assert(nb[i - 1] == b[i - 1]);
        }
    }
}

/// Marking an empty square leaves one empty square fewer.
pub proof fn lemma_place_fills(b: Seq<Seq<Cell>>, m: (usize, usize), c: Cell)
    requires
        square(b),
        open_square(b, m),
        c != Cell::Empty,
    ensures
        empty_squares(place(b, m, c)).len() == empty_squares(b).len() - 1,
        square(place(b, m, c)),
{
    lemma_moves_upto_place(b, b.len() as int, m, c);
    let nb = place(b, m, c);
    assert forall|i: int| 0 <= i < nb.len() implies (#[trigger] nb[i]).len() == nb.len() by {
        if i != m.0 {
            assert(nb[i] == b[i]);
        }
    }
}

/// Clearing a square that was just marked restores the board.
pub proof fn lemma_place_undo(b: Seq<Seq<Cell>>, m: (usize, usize), c: Cell)
    requires
        open_square(b, m),
    ensures
        place(place(b, m, c), m, Cell::Empty) == b,
{
    let nb = place(place(b, m, c), m, Cell::Empty);
    assert(nb[m.0 as int] =~= b[m.0 as int]);
    assert(nb =~= b);
}

/// Whether the run from `(i, j)` in direction `d` lies on the board.
pub fn run_fits(n: usize, i: usize, j: usize, d: usize) -> (r: bool)
    requires
        i < n,
        j < n,
        d < 4,
    ensures
        r == fits(n as int, i as int, j as int, d as int),
{
    if d == 0 {
        n - j > 2
    } else if d == 1 {
        n - i > 2
    } else if d == 2 {
        n - i > 2 && n - j > 2
    } else {
        n - i > 2 && j >= 2
    }
}

/// The `k`-th square of the run from `(i, j)` in direction `d`.
pub fn run_at(cells: &Vec<Vec<Cell>>, i: usize, j: usize, d: usize, k: usize) -> (c: Cell)
    requires
        square(grid_view(cells@)),
        d < 4,
        k < 3,
        fits(cells@.len() as int, i as int, j as int, d as int),
    ensures
        c == run_cell(grid_view(cells@), i as int, j as int, d as int, k as int),
{
    let ghost b = grid_view(cells@);
    let (r, c) = if d == 0 {
        (i, j + k)
    } else if d == 1 {
        (i + k, j)
    } else if d == 2 {
        (i + k, j + k)
    } else {
        (i + k, j - k)
    };
    assert(b[r as int] == cells@[r as int]@);
    cells[r][c]
}

/// `line_value` of the run from `(i, j)` in direction `d`.
fn run_line(cells: &Vec<Vec<Cell>>, i: usize, j: usize, d: usize) -> (v: i32)
    requires
        square(grid_view(cells@)),
        i < cells@.len(),
        j < cells@.len(),
        d < 4,
    ensures
        v == line_value(grid_view(cells@), i as int, j as int, d as int),
{
    if !run_fits(cells.len(), i, j, d) {
        return 0;
    }
    let a = run_at(cells, i, j, d, 0);
    let b = run_at(cells, i, j, d, 1);
    let c = run_at(cells, i, j, d, 2);
    if a == Cell::X && b == Cell::X && c == Cell::X {
        1
    } else if a == Cell::O && b == Cell::O && c == Cell::O {
        -1
    } else {
        0
    }
}

/// The cell with X and O exchanged.
pub open spec fn swap_cell(c: Cell) -> Cell {
    match c {
        Cell::X => Cell::O,
        Cell::O => Cell::X,
        _ => c,
    }
}

/// The grid with X and O exchanged.
pub open spec fn swap_marks(b: Seq<Seq<Cell>>) -> Seq<Seq<Cell>> {
    b.map_values(|r: Seq<Cell>| r.map_values(|c: Cell| swap_cell(c)))
}

pub proof fn lemma_swap_run(b: Seq<Seq<Cell>>, i: int, j: int, d: int)
    requires
        square(b),
        0 <= d < 4,
        fits(b.len() as int, i, j, d),
    ensures
        forall|k: int| 0 <= k < 3 ==> #[trigger] run_cell(swap_marks(b), i, j, d, k) == swap_cell(run_cell(b, i, j, d, k)),
        swap_marks(b).len() == b.len(),
{
    assert forall|k: int| 0 <= k < 3 implies #[trigger] run_cell(swap_marks(b), i, j, d, k) == swap_cell(run_cell(b, i, j, d, k)) by {
        let r = if k == 0 { i } else if k == 1 { i + di(d) } else { i + 2 * di(d) };
        assert(0 <= r < b.len());
        assert(b[r].len() == b.len());
    }
}

pub proof fn lemma_swap_line(b: Seq<Seq<Cell>>, i: int, j: int, d: int)
    requires
        square(b),
        0 <= d < 4,
    ensures
        line_value(swap_marks(b), i, j, d) == -line_value(b, i, j, d),
{
    if fits(b.len() as int, i, j, d) {
        lemma_swap_run(b, i, j, d);
        assert(run_cell(swap_marks(b), i, j, d, 0) == swap_cell(run_cell(b, i, j, d, 0)));
        assert(run_cell(swap_marks(b), i, j, d, 1) == swap_cell(run_cell(b, i, j, d, 1)));
        assert(run_cell(swap_marks(b), i, j, d, 2) == swap_cell(run_cell(b, i, j, d, 2)));
    }
}

pub proof fn lemma_swap_row_lines(b: Seq<Seq<Cell>>, i: int, j: int)
    requires
        square(b),
        0 <= j,
    ensures
        row_lines(swap_marks(b), i, j) == -row_lines(b, i, j),
    decreases j,
{
    if j > 0 {
        lemma_swap_row_lines(b, i, j - 1);
        lemma_swap_line(b, i, j - 1, 0);
        lemma_swap_line(b, i, j - 1, 1);
        lemma_swap_line(b, i, j - 1, 2);
        lemma_swap_line(b, i, j - 1, 3);
    }
}

pub proof fn lemma_swap_grid_lines(b: Seq<Seq<Cell>>, i: int)
    requires
        square(b),
        0 <= i,
    ensures
        grid_lines(swap_marks(b), i) == -grid_lines(b, i),
    decreases i,
{
    if i > 0 {
        lemma_swap_grid_lines(b, i - 1);
        lemma_swap_row_lines(b, i - 1, b.len() as int);
    }
}

/// The score is X's: exchanging every X and O negates it.
pub proof fn law_score_is_from_x_side(b: Seq<Seq<Cell>>)
    requires
        square(b),
    ensures
        score(swap_marks(b)) == -score(b),
{
    lemma_swap_grid_lines(b, b.len() as int);
}

/// An agent that chooses a move for `player`: it returns the value it gives
/// the move and the move's row and column. The board has an empty square,
/// and the agent leaves it as it found it. Each agent says on which sides of
/// board its arithmetic stays within `i32`.
pub trait Agent {
    /// Whether the agent's arithmetic stays within `i32` on boards of side `n`.
    spec fn board_fits(n: int) -> bool;

    fn solve(board: &mut Board, player: Player, time_limit: u64) -> (r: (i32, usize, usize))
        requires
            square(old(board)@),
            Self::board_fits(old(board)@.len() as int),
            empty_squares(old(board)@).len() > 0,
    ;
}

/// The board of a game.
#[derive(Debug)]
pub struct Board {
    cells: Vec<Vec<Cell>>,
}

impl View for Board {
    type V = Seq<Seq<Cell>>;

    closed spec fn view(&self) -> Seq<Seq<Cell>> {
        self.cells@.map_values(|r: Vec<Cell>| r@)
    }
}

/// The view of a grid of cells.
pub open spec fn grid_view(cells: Seq<Vec<Cell>>) -> Seq<Seq<Cell>> {
    cells.map_values(|r: Vec<Cell>| r@)
}

impl Board {
    /// An empty board of side `n`.
    pub fn new(n: usize) -> (b: Board)
        ensures
            square(b@),
            b@.len() == n,
            forall|i: int, j: int| 0 <= i < n && 0 <= j < n ==> b@[i][j] == Cell::Empty,
    {
        let mut cells: Vec<Vec<Cell>> = Vec::new();
        for i in 0..n
            invariant
                cells@.len() == i,
                forall|r: int| 0 <= r < i ==> (#[trigger] cells@[r])@.len() == n,
                forall|r: int, j: int| 0 <= r < i && 0 <= j < n ==> cells@[r]@[j] == Cell::Empty,
        {
            let mut row: Vec<Cell> = Vec::new();
            for j in 0..n
                invariant
                    row@.len() == j,
                    forall|k: int| 0 <= k < j ==> row@[k] == Cell::Empty,
            {
                row.push(Cell::Empty);
            }
            cells.push(row);
        }
        Board { cells }
    }

    /// The board with the given cells.
    pub fn from_cells(cells: Vec<Vec<Cell>>) -> (b: Board)
        requires
            square(grid_view(cells@)),
        ensures
            b@ == grid_view(cells@),
    {
        Board { cells }
    }

    /// The cells, row by row.
    pub fn get_cells(&self) -> (c: &Vec<Vec<Cell>>)
        ensures
            grid_view(c@) == self@,
    {
        &self.cells
    }

    /// The side of the board.
    pub fn size(&self) -> (n: usize)
        ensures
            n == self@.len(),
    {
        self.cells.len()
    }

    /// The empty squares, row by row and left to right.
    pub fn moves(&self) -> (ms: Vec<(usize, usize)>)
        requires
            square(self@),
        ensures
            ms@ == empty_squares(self@),
    {
        let n = self.cells.len();
        let ghost b = self@;
        let mut ms: Vec<(usize, usize)> = Vec::new();
        for i in 0..n
            invariant
                n == b.len(),
                b == self@,
                square(b),
                ms@ == moves_upto(b, i as int),
        {
            let row = &self.cells[i];
            assert(row@ == b[i as int]);
            let ghost before = ms@;
            for j in 0..n
                invariant
                    n == b.len(),
                    row@ == b[i as int],
                    row@.len() == n,
                    ms@ == before + row_moves(b[i as int], i as int, j as int),
            {
                if row[j] == Cell::Empty {
                    ms.push((i, j));
                }
                assert(ms@ =~= before + row_moves(b[i as int], i as int, j + 1));
            }
        }
        ms
    }

    /// Whether no empty square remains.
    pub fn game_over(&self) -> (over: bool)
        requires
            square(self@),
        ensures
            over == (empty_squares(self@).len() == 0),
    {
        let ms = self.moves();
        ms.len() == 0
    }

    /// Puts `player`'s mark on the empty square `m`.
    pub fn apply_move(&mut self, m: (usize, usize), player: Player)
        requires
            square(old(self)@),
            open_square(old(self)@, m),
        ensures
            final(self)@ == place(old(self)@, m, mark(player)),
    {
        let c = match player {
            Player::X => Cell::X,
            Player::O => Cell::O,
        };
        self.set_cell(m, c);
    }

    /// Clears square `m`, taking back `player`'s move there.
    pub fn undo_move(&mut self, m: (usize, usize), player: Player)
        requires
            m.0 < old(self)@.len(),
            m.1 < old(self)@[m.0 as int].len(),
        ensures
            final(self)@ == place(old(self)@, m, Cell::Empty),
    {
        self.set_cell(m, Cell::Empty);
    }

    /// The score: the runs of three X minus the runs of three O.
    pub fn score(&self) -> (s: i32)
        requires
            square(self@),
            score_fits(self@.len() as int),
        ensures
            s == score(self@),
    {
        let n = self.cells.len();
        let ghost b = self@;
        let mut total: i32 = 0;
        for i in 0..n
            invariant
                n == b.len(),
                b == self@,
                b == grid_view(self.cells@),
                square(b),
                score_fits(n as int),
                total == grid_lines(b, i as int),
        {
            for j in 0..n
                invariant
                    n == b.len(),
                    b == grid_view(self.cells@),
                    square(b),
                    score_fits(n as int),
                    0 <= i < n,
                    total == grid_lines(b, i as int) + row_lines(b, i as int, j as int),
            {
                proof {
                    lemma_grid_lines_bound(b, i as int);
                    lemma_row_lines_bound(b, i as int, j + 1);
                    lemma_squares_before(n as int, i as int, j + 1);
                }
                let here = run_line(&self.cells, i, j, 0) + run_line(&self.cells, i, j, 1)
                    + run_line(&self.cells, i, j, 2) + run_line(&self.cells, i, j, 3);
                total = total + here;
            }
        }
        total
    }

    fn set_cell(&mut self, m: (usize, usize), c: Cell)
        requires
            m.0 < old(self)@.len(),
            m.1 < old(self)@[m.0 as int].len(),
        ensures
            final(self)@ == place(old(self)@, m, c),
    {
        let mut row = self.cells.remove(m.0);
        row.set(m.1, c);
        self.cells.insert(m.0, row);
        assert(self@ =~= place(old(self)@, m, c));
    }
}

} // verus!
