//! An agent for 5x5 tic-tac-toe with walls: a depth-limited alpha-beta search
//! over moves ordered by their immediate gain, guided by a positional
//! evaluation of runs of three squares.
use vstd::prelude::*;
use crate::board::{
    Agent, Board, Cell, Player, empty_squares, fits, grid_view, lemma_empty_squares_valid,
    lemma_place_fills, lemma_place_undo, lemma_score_bound, lemma_squares_before, mark,
    open_square, other, place, score_bound,
    run_at, run_cell, run_count, run_fits, score, square, swap_cell, swap_marks, lemma_swap_run,
    law_score_is_from_x_side,
};

verus! {

/// The points of a run of three squares holding `x` X and `o` O and no wall,
/// from X's side.
pub open spec fn window_points(x: int, o: int) -> int {
    if x == 3 && o == 0 {
        120
    } else if x == 0 && o == 3 {
        -120
    } else if x == 2 && o == 0 {
        35
    } else if x == 0 && o == 2 {
        -35
    } else if x == 1 && o == 0 {
        10
    } else if x == 0 && o == 1 {
        -10
    } else {
        0
    }
}

/// The points of the run from `(i, j)` in direction `d`: 0 when it leaves the
/// board or holds a wall.
pub open spec fn window_value(b: Seq<Seq<Cell>>, i: int, j: int, d: int) -> int {
    if !fits(b.len() as int, i, j, d) || run_count(b, i, j, d, Cell::Wall) > 0 {
        0
    } else {
        window_points(run_count(b, i, j, d, Cell::X), run_count(b, i, j, d, Cell::O))
    }
}

/// The points of the runs that start at `(i, j)`.
pub open spec fn square_points(b: Seq<Seq<Cell>>, i: int, j: int) -> int {
    window_value(b, i, j, 0) + window_value(b, i, j, 1) + window_value(b, i, j, 2) + window_value(b, i, j, 3)
}

/// The points of the runs that start in the first `j` squares of row `i`.
pub open spec fn row_points(b: Seq<Seq<Cell>>, i: int, j: int) -> int
    decreases j,
{
    if j <= 0 {
        0
    } else {
        row_points(b, i, j - 1) + square_points(b, i, j - 1)
    }
}

/// The points of the runs that start in the first `i` rows.
pub open spec fn grid_points(b: Seq<Seq<Cell>>, i: int) -> int
    decreases i,
{
    if i <= 0 {
        0
    } else {
        grid_points(b, i - 1) + row_points(b, i - 1, b.len() as int)
    }
}

/// The evaluation of a board from X's side: a thousand times the score plus
/// the points of all runs.
pub open spec fn evaluation(b: Seq<Seq<Cell>>) -> int {
    1000 * score(b) + grid_points(b, b.len() as int)
}

/// A bound on the absolute value of `evaluation` on a board of side `n`: a
/// thousand times the score bound, and at most 480 points for the runs that
/// start at each square.
pub open spec fn eval_bound(n: int) -> int {
    4480 * (n * n)
}

/// Whether every evaluation of a board of side `n` is an `i32`.
pub open spec fn evaluation_fits(n: int) -> bool {
    eval_bound(n) <= i32::MAX
}

pub proof fn lemma_row_points_bound(b: Seq<Seq<Cell>>, i: int, j: int)
    requires
        0 <= j,
    ensures
        -480 * j <= row_points(b, i, j) <= 480 * j,
    decreases j,
{
    if j > 0 {
        lemma_row_points_bound(b, i, j - 1);
    }
}

pub proof fn lemma_grid_points_bound(b: Seq<Seq<Cell>>, i: int)
    requires
        0 <= i,
    ensures
        -480 * (b.len() * i) <= grid_points(b, i) <= 480 * (b.len() * i),
    decreases i,
{
    if i > 0 {
        let n = b.len() as int;
        lemma_grid_points_bound(b, i - 1);
        lemma_row_points_bound(b, i - 1, n);
        assert(n * (i - 1) + n == n * i) by (nonlinear_arith);
    }
}

pub proof fn lemma_evaluation_bound(b: Seq<Seq<Cell>>)
    ensures
        0 <= b.len() * b.len(),
        -eval_bound(b.len() as int) <= evaluation(b) <= eval_bound(b.len() as int),
{
    lemma_score_bound(b);
    lemma_grid_points_bound(b, b.len() as int);
}

/// A window scores the same for O as for X, with the opposite sign.
pub proof fn law_window_points_antisymmetric(x: int, o: int)
    ensures
        window_points(o, x) == -window_points(x, o),
{
}

pub proof fn lemma_swap_window(b: Seq<Seq<Cell>>, i: int, j: int, d: int)
    requires
        square(b),
        0 <= d < 4,
    ensures
        window_value(swap_marks(b), i, j, d) == -window_value(b, i, j, d),
{
    if fits(b.len() as int, i, j, d) {
        lemma_swap_run(b, i, j, d);
        assert(run_cell(swap_marks(b), i, j, d, 0) == swap_cell(run_cell(b, i, j, d, 0)));
        assert(run_cell(swap_marks(b), i, j, d, 1) == swap_cell(run_cell(b, i, j, d, 1)));
        assert(run_cell(swap_marks(b), i, j, d, 2) == swap_cell(run_cell(b, i, j, d, 2)));
        law_window_points_antisymmetric(run_count(b, i, j, d, Cell::X), run_count(b, i, j, d, Cell::O));
    }
}

pub proof fn lemma_swap_row_points(b: Seq<Seq<Cell>>, i: int, j: int)
    requires
        square(b),
        0 <= j,
    ensures
        row_points(swap_marks(b), i, j) == -row_points(b, i, j),
    decreases j,
{
    if j > 0 {
        lemma_swap_row_points(b, i, j - 1);
        lemma_swap_window(b, i, j - 1, 0);
        lemma_swap_window(b, i, j - 1, 1);
        lemma_swap_window(b, i, j - 1, 2);
        lemma_swap_window(b, i, j - 1, 3);
    }
}

pub proof fn lemma_swap_grid_points(b: Seq<Seq<Cell>>, i: int)
    requires
        square(b),
        0 <= i,
    ensures
        grid_points(swap_marks(b), i) == -grid_points(b, i),
    decreases i,
{
    if i > 0 {
        lemma_swap_grid_points(b, i - 1);
        lemma_swap_row_points(b, i - 1, b.len() as int);
    }
}

/// The evaluation is from X's side: exchanging every X and O negates it.
pub proof fn law_evaluation_is_from_x_side(b: Seq<Seq<Cell>>)
    requires
        square(b),
    ensures
        evaluation(swap_marks(b)) == -evaluation(b),
{
    law_score_is_from_x_side(b);
    lemma_swap_grid_points(b, b.len() as int);
}

/// How many of the first `k` squares of the run hold `c`.
pub open spec fn prefix_count(b: Seq<Seq<Cell>>, i: int, j: int, d: int, c: Cell, k: int) -> int {
    (if k > 0 && run_cell(b, i, j, d, 0) == c { 1int } else { 0int })
        + (if k > 1 && run_cell(b, i, j, d, 1) == c { 1int } else { 0int })
        + (if k > 2 && run_cell(b, i, j, d, 2) == c { 1int } else { 0int })
}


/// The change of score when `p` marks square `m`.
pub open spec fn gain(b: Seq<Seq<Cell>>, m: (usize, usize), p: Player) -> int {
    score(place(b, m, mark(p))) - score(b)
}

/// The best gain for `p` (largest for X, smallest for O) over the first `k`
/// empty squares, starting from `i32::MIN` for X and `i32::MAX` for O.
pub open spec fn best_gain(b: Seq<Seq<Cell>>, p: Player, k: int) -> int
    decreases k,
{
    if k <= 0 {
        if p == Player::X { i32::MIN as int } else { i32::MAX as int }
    } else {
        let prev = best_gain(b, p, k - 1);
        let g = gain(b, empty_squares(b)[k - 1], p);
        if p == Player::X {
            if g > prev { g } else { prev }
        } else {
            if g < prev { g } else { prev }
        }
    }
}

/// The best gain that `p` can make in one move, 0 on a full board.
pub open spec fn immediate_swing(b: Seq<Seq<Cell>>, p: Player) -> int {
    if empty_squares(b).len() == 0 {
        0
    } else {
        best_gain(b, p, empty_squares(b).len() as int)
    }
}

/// A bound on the absolute value of a gain on a board of side `n`: twice the
/// score bound.
pub open spec fn gain_bound(n: int) -> int {
    8 * (n * n)
}

/// Whether every gain on a board of side `n` is an `i32`.
pub open spec fn gains_fit(n: int) -> bool {
    gain_bound(n) <= i32::MAX
}

pub proof fn lemma_gain_bound(b: Seq<Seq<Cell>>, m: (usize, usize), p: Player)
    requires
        square(b),
        open_square(b, m),
    ensures
        -gain_bound(b.len() as int) <= gain(b, m, p) <= gain_bound(b.len() as int),
{
    lemma_place_fills(b, m, mark(p));
    lemma_score_bound(b);
    lemma_score_bound(place(b, m, mark(p)));
}

pub proof fn lemma_best_gain_bound(b: Seq<Seq<Cell>>, p: Player, k: int)
    requires
        square(b),
        1 <= k <= empty_squares(b).len(),
    ensures
        -gain_bound(b.len() as int) <= best_gain(b, p, k) <= gain_bound(b.len() as int),
    decreases k,
{
    lemma_empty_squares_valid(b);
    lemma_gain_bound(b, empty_squares(b)[k - 1], p);
    if k > 1 {
        lemma_best_gain_bound(b, p, k - 1);
    }
}

pub proof fn lemma_immediate_swing_bound(b: Seq<Seq<Cell>>, p: Player)
    requires
        square(b),
    ensures
        -gain_bound(b.len() as int) <= immediate_swing(b, p) <= gain_bound(b.len() as int),
{
    if empty_squares(b).len() > 0 {
        lemma_best_gain_bound(b, p, empty_squares(b).len() as int);
    }
}

/// Whether an entry with key `a` stays before a later entry with key `c` in
/// the order of `p`: larger gains first for X, smaller first for O.
pub open spec fn stays_before(a: i32, c: i32, p: Player) -> bool {
    if p == Player::X {
        a >= c
    } else {
        a <= c
    }
}

/// `s`, sorted in the order of `p`, with `e` put after every entry that stays
/// before it.
pub open spec fn insert_in_order(s: Seq<(i32, (usize, usize))>, e: (i32, (usize, usize)), p: Player) -> Seq<(i32, (usize, usize))>
    decreases s.len(),
{
    if s.len() == 0 {
        seq![e]
    } else if stays_before(s.last().0, e.0, p) {
        s.push(e)
    } else {
        insert_in_order(s.drop_last(), e, p).push(s.last())
    }
}

/// The stable sort of `s` by key in the order of `p`.
pub open spec fn stable_sort(s: Seq<(i32, (usize, usize))>, p: Player) -> Seq<(i32, (usize, usize))>
    decreases s.len(),
{
    if s.len() == 0 {
        Seq::empty()
    } else {
        insert_in_order(stable_sort(s.drop_last(), p), s.last(), p)
    }
}

/// The empty squares, each with the gain of marking it for `p`.
pub open spec fn scored_moves(b: Seq<Seq<Cell>>, p: Player) -> Seq<(i32, (usize, usize))> {
    empty_squares(b).map_values(|m: (usize, usize)| (gain(b, m, p) as i32, m))
}

/// The empty squares in the order of search: by gain for `p`, best first,
/// ties in board order.
pub open spec fn ordered(b: Seq<Seq<Cell>>, p: Player) -> Seq<(usize, usize)> {
    stable_sort(scored_moves(b, p), p).map_values(|e: (i32, (usize, usize))| e.1)
}

pub proof fn lemma_insert_in_order(s: Seq<(i32, (usize, usize))>, e: (i32, (usize, usize)), p: Player, pos: int)
    requires
        0 <= pos <= s.len(),
        forall|q: int| pos <= q < s.len() ==> !stays_before(#[trigger] s[q].0, e.0, p),
        pos > 0 ==> stays_before(s[pos - 1].0, e.0, p),
    ensures
        insert_in_order(s, e, p) == s.insert(pos, e),
    decreases s.len(),
{
    if s.len() == 0 {
        assert(s.insert(pos, e) =~= seq![e]);
    } else if pos == s.len() {
        assert(s.insert(pos, e) =~= s.push(e));
    } else {
        lemma_insert_in_order(s.drop_last(), e, p, pos);
        assert(s.insert(pos, e) =~= s.drop_last().insert(pos, e).push(s.last()));
    }
}

pub proof fn lemma_insert_in_order_contents(s: Seq<(i32, (usize, usize))>, e: (i32, (usize, usize)), p: Player)
    ensures
        insert_in_order(s, e, p).len() == s.len() + 1,
        forall|x: (i32, (usize, usize))| #[trigger] insert_in_order(s, e, p).contains(x) <==> (s.contains(x) || x == e),
    decreases s.len(),
{
    if s.len() > 0 && !stays_before(s.last().0, e.0, p) {
        lemma_insert_in_order_contents(s.drop_last(), e, p);
        let r = insert_in_order(s.drop_last(), e, p);
        assert forall|x: (i32, (usize, usize))| #[trigger] insert_in_order(s, e, p).contains(x) <==> (s.contains(x) || x == e) by {
            assert(s =~= s.drop_last().push(s.last()));
            if r.push(s.last()).contains(x) {
                let k = choose|k: int| 0 <= k < r.push(s.last()).len() && r.push(s.last())[k] == x;
                if k < r.len() {
                    assert(r.contains(x));
                    if s.drop_last().contains(x) {
                        let q = choose|q: int| 0 <= q < s.drop_last().len() && s.drop_last()[q] == x;
                        assert(s[q] == x);
                    }
                } else {
                    assert(s[s.len() - 1] == x);
                }
            }
            if s.contains(x) {
                let q = choose|q: int| 0 <= q < s.len() && s[q] == x;
                if q < s.len() - 1 {
                    assert(s.drop_last()[q] == x);
                    assert(r.contains(x));
                    let k = choose|k: int| 0 <= k < r.len() && r[k] == x;
                    assert(r.push(s.last())[k] == x);
                } else {
                    assert(r.push(s.last())[r.len() as int] == x);
                }
            }
            if x == e {
                assert(r.contains(x));
                let k = choose|k: int| 0 <= k < r.len() && r[k] == x;
                assert(r.push(s.last())[k] == x);
            }
        }
    } else if s.len() > 0 {
        assert forall|x: (i32, (usize, usize))| #[trigger] s.push(e).contains(x) <==> (s.contains(x) || x == e) by {
            if s.push(e).contains(x) {
                let k = choose|k: int| 0 <= k < s.push(e).len() && s.push(e)[k] == x;
                if k < s.len() {
                    assert(s[k] == x);
                }
            }
            if s.contains(x) {
                let q = choose|q: int| 0 <= q < s.len() && s[q] == x;
                assert(s.push(e)[q] == x);
            }
            if x == e {
                assert(s.push(e)[s.len() as int] == x);
            }
        }
    } else {
        assert forall|x: (i32, (usize, usize))| #[trigger] seq![e].contains(x) <==> (s.contains(x) || x == e) by {
            if x == e {
                assert(seq![e][0] == x);
            }
        }
    }
}

pub proof fn lemma_stable_sort_contents(s: Seq<(i32, (usize, usize))>, p: Player)
    ensures
        stable_sort(s, p).len() == s.len(),
        forall|x: (i32, (usize, usize))| #[trigger] stable_sort(s, p).contains(x) <==> s.contains(x),
    decreases s.len(),
{
    if s.len() > 0 {
        lemma_stable_sort_contents(s.drop_last(), p);
        lemma_insert_in_order_contents(stable_sort(s.drop_last(), p), s.last(), p);
        assert forall|x: (i32, (usize, usize))| #[trigger] stable_sort(s, p).contains(x) <==> s.contains(x) by {
            assert(s =~= s.drop_last().push(s.last()));
            if s.drop_last().contains(x) {
                let q = choose|q: int| 0 <= q < s.drop_last().len() && s.drop_last()[q] == x;
                assert(s[q] == x);
            }
            if s.contains(x) {
                let q = choose|q: int| 0 <= q < s.len() && s[q] == x;
                if q < s.len() - 1 {
                    assert(s.drop_last()[q] == x);
                }
            }
        }
    }
}

/// Every square in the search order is an empty square of the board, and the
/// order lists as many squares as the board has empty.
pub proof fn lemma_ordered_valid(b: Seq<Seq<Cell>>, p: Player)
    requires
        square(b),
    ensures
        ordered(b, p).len() == empty_squares(b).len(),
        forall|k: int| 0 <= k < ordered(b, p).len() ==> open_square(b, #[trigger] ordered(b, p)[k]),
{
    lemma_empty_squares_valid(b);
    let s = scored_moves(b, p);
    lemma_stable_sort_contents(s, p);
    assert forall|k: int| 0 <= k < ordered(b, p).len() implies open_square(b, #[trigger] ordered(b, p)[k]) by {
        let x = stable_sort(s, p)[k];
        assert(stable_sort(s, p).contains(x));
        assert(s.contains(x));
        let q = choose|q: int| 0 <= q < s.len() && s[q] == x;
        assert(s[q].1 == empty_squares(b)[q]);
    }
}

/// The value of the alpha-beta search from `b` with `p` to move, `depth`
/// plies deep, in the window `alpha..beta`: the evaluation at depth 0 or on a
/// full board; otherwise the moves are tried in search order, X keeping the
/// largest value and raising `alpha`, O the smallest and lowering `beta`,
/// until `beta <= alpha` or the moves run out.
pub open spec fn search(b: Seq<Seq<Cell>>, p: Player, depth: int, alpha: int, beta: int) -> int
    decreases depth, 1int, 0int,
    when depth >= 0
{
    if depth == 0 || ordered(b, p).len() == 0 {
        evaluation(b)
    } else {
        search_from(b, p, depth, ordered(b, p), 0, alpha, beta, if p == Player::X { i32::MIN as int } else { i32::MAX as int })
    }
}

/// The rest of the search loop from the `k`-th move of `ms`, with the window
/// `alpha..beta` and the best value `best` found so far.
pub open spec fn search_from(
    b: Seq<Seq<Cell>>,
    p: Player,
    depth: int,
    ms: Seq<(usize, usize)>,
    k: int,
    alpha: int,
    beta: int,
    best: int,
) -> int
    decreases depth, 0int, ms.len() - k,
    when depth >= 1 && 0 <= k <= ms.len()
{
    if k >= ms.len() {
        best
    } else {
        let v = search(place(b, ms[k], mark(p)), other(p), depth - 1, alpha, beta);
        if p == Player::X {
            let best2 = if v > best { v } else { best };
            let alpha2 = if best2 > alpha { best2 } else { alpha };
            if beta <= alpha2 {
                best2
            } else {
                search_from(b, p, depth, ms, k + 1, alpha2, beta, best2)
            }
        } else {
            let best2 = if v < best { v } else { best };
            let beta2 = if best2 < beta { best2 } else { beta };
            if beta2 <= alpha {
                best2
            } else {
                search_from(b, p, depth, ms, k + 1, alpha, beta2, best2)
            }
        }
    }
}

/// Whether every square of `ms` is an empty square of `b`.
pub open spec fn all_open(b: Seq<Seq<Cell>>, ms: Seq<(usize, usize)>) -> bool {
    forall|k: int| 0 <= k < ms.len() ==> open_square(b, #[trigger] ms[k])
}

pub proof fn lemma_search_bound(b: Seq<Seq<Cell>>, p: Player, depth: int, alpha: int, beta: int)
    requires
        square(b),
        depth >= 0,
    ensures
        -eval_bound(b.len() as int) <= search(b, p, depth, alpha, beta) <= eval_bound(b.len() as int),
    decreases depth, 1int, 0int,
{
    lemma_evaluation_bound(b);
    lemma_ordered_valid(b, p);
    if depth != 0 && ordered(b, p).len() != 0 {
        lemma_search_from_bound(b, p, depth, ordered(b, p), 0, alpha, beta,
            if p == Player::X { i32::MIN as int } else { i32::MAX as int });
    }
}

pub proof fn lemma_search_from_bound(
    b: Seq<Seq<Cell>>,
    p: Player,
    depth: int,
    ms: Seq<(usize, usize)>,
    k: int,
    alpha: int,
    beta: int,
    best: int,
)
    requires
        square(b),
        depth >= 1,
        0 <= k <= ms.len(),
        all_open(b, ms),
        p == Player::X ==> best <= eval_bound(b.len() as int),
        p == Player::O ==> best >= -eval_bound(b.len() as int),
        k < ms.len() || (-eval_bound(b.len() as int) <= best <= eval_bound(b.len() as int)),
    ensures
        -eval_bound(b.len() as int) <= search_from(b, p, depth, ms, k, alpha, beta, best) <= eval_bound(b.len() as int),
    decreases depth, 0int, ms.len() - k,
{
    if k < ms.len() {
        let nb = place(b, ms[k], mark(p));
        lemma_place_fills(b, ms[k], mark(p));
        lemma_search_bound(nb, other(p), depth - 1, alpha, beta);
        let v = search(nb, other(p), depth - 1, alpha, beta);
        if p == Player::X {
            let best2 = if v > best { v } else { best };
            let alpha2 = if best2 > alpha { best2 } else { alpha };
            if beta > alpha2 {
                lemma_search_from_bound(b, p, depth, ms, k + 1, alpha2, beta, best2);
            }
        } else {
            let best2 = if v < best { v } else { best };
            let beta2 = if best2 < beta { best2 } else { beta };
            if beta2 > alpha {
                lemma_search_from_bound(b, p, depth, ms, k + 1, alpha, beta2, best2);
            }
        }
    }
}

/// The value that the agent gives to the board `b` reached by a move of `p`
/// from a board of score `base`: five times the search value with the
/// opponent to move, twice the evaluation, 300 times the score gained, and
/// 180 times the best gain the opponent can make in reply. All terms are from
/// X's side, so the opponent's best reply counts against `p`: it lowers the
/// value of X's moves and raises that of O's.
pub open spec fn move_value(b: Seq<Seq<Cell>>, p: Player, base: int, depth: int, alpha: int, beta: int) -> int {
    5 * search(b, other(p), depth, alpha, beta) + 2 * evaluation(b) + 300 * (score(b) - base)
        + 180 * immediate_swing(b, other(p))
}

/// A bound on the absolute value of `move_value` on a board of side `n`, when
/// the base score is a score of such a board.
pub open spec fn move_bound(n: int) -> int {
    35200 * (n * n)
}

/// Whether every move value on a board of side `n` is an `i32`.
pub open spec fn move_scores_fit(n: int) -> bool {
    move_bound(n) <= i32::MAX
}

/// The search depth for a position with `n` moves to choose from.
pub open spec fn depth_for(n: int) -> int {
    if n <= 8 {
        6
    } else if n <= 14 {
        5
    } else {
        4
    }
}

/// The state of the agent's choice after the first `k` moves of the search
/// order: the best value, the best move, and the window `alpha..beta`. A move
/// replaces the best one only when strictly better for `p`, and then narrows
/// the window on `p`'s side.
pub open spec fn choice_after(b: Seq<Seq<Cell>>, p: Player, k: int) -> (int, (usize, usize), int, int)
    decreases k,
{
    let ms = ordered(b, p);
    if k <= 0 {
        (if p == Player::X { i32::MIN as int } else { i32::MAX as int }, ms[0], i32::MIN as int, i32::MAX as int)
    } else {
        let prev = choice_after(b, p, k - 1);
        let m = ms[k - 1];
        let v = move_value(place(b, m, mark(p)), p, score(b), depth_for(ms.len() as int), prev.2, prev.3);
        let better = if p == Player::X { v > prev.0 } else { v < prev.0 };
        if better {
            if p == Player::X {
                (v, m, if v > prev.2 { v } else { prev.2 }, prev.3)
            } else {
                (v, m, prev.2, if v < prev.3 { v } else { prev.3 })
            }
        } else {
            prev
        }
    }
}

/// The agent's answer: the state after all moves of the search order.
pub open spec fn decision(b: Seq<Seq<Cell>>, p: Player) -> (int, (usize, usize)) {
    let c = choice_after(b, p, ordered(b, p).len() as int);
    (c.0, c.1)
}

/// Whether `s` is in the order of `p`.
pub open spec fn in_order(s: Seq<(i32, (usize, usize))>, p: Player) -> bool {
    forall|a: int, c: int| 0 <= a < c < s.len() ==> stays_before(#[trigger] s[a].0, #[trigger] s[c].0, p)
}

pub proof fn lemma_insert_in_order_sorted(s: Seq<(i32, (usize, usize))>, e: (i32, (usize, usize)), p: Player)
    requires
        in_order(s, p),
    ensures
        in_order(insert_in_order(s, e, p), p),
    decreases s.len(),
{
    lemma_insert_in_order_contents(s, e, p);
    if s.len() > 0 {
        if stays_before(s.last().0, e.0, p) {
            let r = s.push(e);
            assert forall|a: int, c: int| 0 <= a < c < r.len() implies stays_before(#[trigger] r[a].0, #[trigger] r[c].0, p) by {
                if c == s.len() {
                    if a < s.len() - 1 {
                        assert(stays_before(s[a].0, s[s.len() - 1].0, p));
                    }
                }
            }
        } else {
            let q = insert_in_order(s.drop_last(), e, p);
            lemma_insert_in_order_sorted(s.drop_last(), e, p);
            lemma_insert_in_order_contents(s.drop_last(), e, p);
            let r = q.push(s.last());
            assert forall|a: int, c: int| 0 <= a < c < r.len() implies stays_before(#[trigger] r[a].0, #[trigger] r[c].0, p) by {
                if c == q.len() {
                    let x = q[a];
                    assert(q.contains(x));
                    if x != e {
                        assert(s.drop_last().contains(x));
                        let k = choose|k: int| 0 <= k < s.drop_last().len() && s.drop_last()[k] == x;
                        assert(s[k] == x);
                        assert(stays_before(s[k].0, s[s.len() - 1].0, p));
                    }
                } else {
                    assert(r[a] == q[a] && r[c] == q[c]);
                }
            }
        }
    }
}

pub proof fn lemma_stable_sort_sorted(s: Seq<(i32, (usize, usize))>, p: Player)
    ensures
        in_order(stable_sort(s, p), p),
    decreases s.len(),
{
    if s.len() > 0 {
        lemma_stable_sort_sorted(s.drop_last(), p);
        lemma_insert_in_order_sorted(stable_sort(s.drop_last(), p), s.last(), p);
    }
}

/// The search order lists every empty square exactly as often as the board
/// order does, best gain first for the player to move: for X no square comes
/// before one of larger gain, for O none before one of smaller gain.
pub proof fn law_ordered_moves_by_gain(b: Seq<Seq<Cell>>, p: Player)
    requires
        square(b),
        gains_fit(b.len() as int),
    ensures
        ordered(b, p).len() == empty_squares(b).len(),
        forall|m: (usize, usize)| #[trigger] ordered(b, p).contains(m) <==> empty_squares(b).contains(m),
        forall|a: int, c: int| 0 <= a < c < ordered(b, p).len() ==> if p == Player::X {
            gain(b, #[trigger] ordered(b, p)[a], p) >= gain(b, #[trigger] ordered(b, p)[c], p)
        } else {
            gain(b, ordered(b, p)[a], p) <= gain(b, ordered(b, p)[c], p)
        },
{
    let s = scored_moves(b, p);
    let t = stable_sort(s, p);
    lemma_empty_squares_valid(b);
    lemma_stable_sort_contents(s, p);
    lemma_stable_sort_sorted(s, p);
    assert forall|k: int| 0 <= k < t.len() implies (#[trigger] t[k]).0 == gain(b, t[k].1, p) as i32
        && -gain_bound(b.len() as int) <= gain(b, t[k].1, p) <= gain_bound(b.len() as int) by {
        assert(t.contains(t[k]));
        let q = choose|q: int| 0 <= q < s.len() && s[q] == t[k];
        lemma_gain_bound(b, empty_squares(b)[q], p);
    }
    assert forall|m: (usize, usize)| #[trigger] ordered(b, p).contains(m) <==> empty_squares(b).contains(m) by {
        if ordered(b, p).contains(m) {
            let k = choose|k: int| 0 <= k < ordered(b, p).len() && ordered(b, p)[k] == m;
            assert(t.contains(t[k]));
            let q = choose|q: int| 0 <= q < s.len() && s[q] == t[k];
            assert(empty_squares(b)[q] == m);
        }
        if empty_squares(b).contains(m) {
            let q = choose|q: int| 0 <= q < empty_squares(b).len() && empty_squares(b)[q] == m;
            assert(s.contains(s[q]));
            assert(t.contains(s[q]));
            let k = choose|k: int| 0 <= k < t.len() && t[k] == s[q];
            assert(ordered(b, p)[k] == m);
        }
    }
    assert forall|a: int, c: int| 0 <= a < c < ordered(b, p).len() implies if p == Player::X {
        gain(b, #[trigger] ordered(b, p)[a], p) >= gain(b, #[trigger] ordered(b, p)[c], p)
    } else {
        gain(b, ordered(b, p)[a], p) <= gain(b, ordered(b, p)[c], p)
    } by {
        assert(stays_before(t[a].0, t[c].0, p));
        assert(t[a].0 == gain(b, t[a].1, p) as i32);
        assert(t[c].0 == gain(b, t[c].1, p) as i32);
    }
}

/// The agent's move is an empty square of the board.
pub proof fn law_agent_move_is_legal(b: Seq<Seq<Cell>>, p: Player)
    requires
        square(b),
        empty_squares(b).len() > 0,
    ensures
        open_square(b, decision(b, p).1),
{
    lemma_ordered_valid(b, p);
    lemma_choice_move_listed(b, p, ordered(b, p).len() as int);
}

pub proof fn lemma_move_value_bound(b: Seq<Seq<Cell>>, p: Player, base: int, depth: int, alpha: int, beta: int)
    requires
        square(b),
        depth >= 0,
        -score_bound(b.len() as int) <= base <= score_bound(b.len() as int),
    ensures
        -move_bound(b.len() as int) <= move_value(b, p, base, depth, alpha, beta) <= move_bound(b.len() as int),
{
    lemma_search_bound(b, other(p), depth, alpha, beta);
    lemma_evaluation_bound(b);
    lemma_score_bound(b);
    lemma_immediate_swing_bound(b, other(p));
}

/// The value of the `k`-th move of the search order for `p`, found with the
/// window that the agent holds when it reaches that move.
pub open spec fn move_value_at(b: Seq<Seq<Cell>>, p: Player, k: int) -> int {
    let ms = ordered(b, p);
    let w = choice_after(b, p, k);
    move_value(place(b, ms[k], mark(p)), p, score(b), depth_for(ms.len() as int), w.2, w.3)
}

pub proof fn lemma_choice_after_best(b: Seq<Seq<Cell>>, p: Player, k: int)
    requires
        square(b),
        move_scores_fit(b.len() as int),
        ordered(b, p).len() > 0,
        1 <= k <= ordered(b, p).len(),
    ensures
        forall|j: int| 0 <= j < k ==> {
            let v = #[trigger] move_value_at(b, p, j);
            &&& p == Player::X ==> v <= choice_after(b, p, k).0
            &&& p == Player::O ==> v >= choice_after(b, p, k).0
        },
        exists|j: int| 0 <= j < k && ordered(b, p)[j] == choice_after(b, p, k).1
            && choice_after(b, p, k).0 == move_value_at(b, p, j),
    decreases k,
{
    let ms = ordered(b, p);
    lemma_ordered_valid(b, p);
    lemma_score_bound(b);
    let m = ms[k - 1];
    lemma_place_fills(b, m, mark(p));
    let w = choice_after(b, p, k - 1);
    lemma_move_value_bound(place(b, m, mark(p)), p, score(b), depth_for(ms.len() as int), w.2, w.3);
    assert(place(b, m, mark(p)).len() == b.len());
    let v = move_value_at(b, p, k - 1);
    if k > 1 {
        lemma_choice_after_best(b, p, k - 1);
        let j0 = choose|j: int| 0 <= j < k - 1 && ordered(b, p)[j] == choice_after(b, p, k - 1).1
            && choice_after(b, p, k - 1).0 == move_value_at(b, p, j);
        if choice_after(b, p, k).1 == choice_after(b, p, k - 1).1 && choice_after(b, p, k).0 == choice_after(b, p, k - 1).0 {
            assert(ordered(b, p)[j0] == choice_after(b, p, k).1);
        } else {
            assert(ordered(b, p)[k - 1] == choice_after(b, p, k).1);
        }
    } else {
        assert(ordered(b, p)[0] == choice_after(b, p, k).1);
    }
}

/// The agent's choice is a best move for its side: the value it reports is at
/// least the value of every move for X and at most it for O, each move being
/// valued with the window the agent held when it reached that move, and it is
/// the value of the move it returns.
pub proof fn law_agent_choice_is_best_for_its_side(b: Seq<Seq<Cell>>, p: Player)
    requires
        square(b),
        move_scores_fit(b.len() as int),
        empty_squares(b).len() > 0,
    ensures
        forall|k: int| 0 <= k < ordered(b, p).len() ==> {
            let v = #[trigger] move_value_at(b, p, k);
            &&& p == Player::X ==> v <= decision(b, p).0
            &&& p == Player::O ==> v >= decision(b, p).0
        },
        exists|k: int| 0 <= k < ordered(b, p).len() && ordered(b, p)[k] == decision(b, p).1
            && decision(b, p).0 == move_value_at(b, p, k),
{
    lemma_ordered_valid(b, p);
    lemma_choice_after_best(b, p, ordered(b, p).len() as int);
}

pub proof fn lemma_choice_move_listed(b: Seq<Seq<Cell>>, p: Player, k: int)
    requires
        square(b),
        ordered(b, p).len() > 0,
        0 <= k <= ordered(b, p).len(),
    ensures
        exists|j: int| 0 <= j < ordered(b, p).len() && ordered(b, p)[j] == choice_after(b, p, k).1,
    decreases k,
{
    if k <= 0 {
        assert(ordered(b, p)[0] == choice_after(b, p, k).1);
    } else {
        lemma_choice_move_listed(b, p, k - 1);
        let prev = choice_after(b, p, k - 1);
        if choice_after(b, p, k).1 != prev.1 {
            assert(ordered(b, p)[k - 1] == choice_after(b, p, k).1);
        }
    }
}

/// The plain minimax value from `b` with `p` to move, `depth` plies deep:
/// the evaluation at depth 0 or on a full board; otherwise the largest (for
/// X) or smallest (for O) value over all moves.
pub open spec fn minimax_value(b: Seq<Seq<Cell>>, p: Player, depth: int) -> int
    decreases depth, 1int, 0int,
    when depth >= 0
{
    if depth == 0 || ordered(b, p).len() == 0 {
        evaluation(b)
    } else {
        minimax_from(b, p, depth, ordered(b, p), 0)
    }
}

/// The best minimax value over the moves of `ms` from the `k`-th on,
/// `i32::MIN` (for X) or `i32::MAX` (for O) when there are none.
pub open spec fn minimax_from(b: Seq<Seq<Cell>>, p: Player, depth: int, ms: Seq<(usize, usize)>, k: int) -> int
    decreases depth, 0int, ms.len() - k,
    when depth >= 1 && 0 <= k <= ms.len()
{
    if k >= ms.len() {
        if p == Player::X { i32::MIN as int } else { i32::MAX as int }
    } else {
        let v = minimax_value(place(b, ms[k], mark(p)), other(p), depth - 1);
        let rest = minimax_from(b, p, depth, ms, k + 1);
        if p == Player::X {
            if v > rest { v } else { rest }
        } else {
            if v < rest { v } else { rest }
        }
    }
}

pub proof fn lemma_minimax_from_sentinel(b: Seq<Seq<Cell>>, p: Player, depth: int, ms: Seq<(usize, usize)>, k: int)
    requires
        depth >= 1,
        0 <= k <= ms.len(),
    ensures
        p == Player::X ==> minimax_from(b, p, depth, ms, k) >= i32::MIN,
        p == Player::O ==> minimax_from(b, p, depth, ms, k) <= i32::MAX,
    decreases ms.len() - k,
{
    if k < ms.len() {
        lemma_minimax_from_sentinel(b, p, depth, ms, k + 1);
    }
}

pub proof fn lemma_search_from_keeps_best(
    b: Seq<Seq<Cell>>,
    p: Player,
    depth: int,
    ms: Seq<(usize, usize)>,
    k: int,
    alpha: int,
    beta: int,
    best: int,
)
    requires
        depth >= 1,
        0 <= k <= ms.len(),
    ensures
        p == Player::X ==> search_from(b, p, depth, ms, k, alpha, beta, best) >= best,
        p == Player::O ==> search_from(b, p, depth, ms, k, alpha, beta, best) <= best,
    decreases ms.len() - k,
{
    if k < ms.len() {
        let v = search(place(b, ms[k], mark(p)), other(p), depth - 1, alpha, beta);
        if p == Player::X {
            let best2 = if v > best { v } else { best };
            let alpha2 = if best2 > alpha { best2 } else { alpha };
            lemma_search_from_keeps_best(b, p, depth, ms, k + 1, alpha2, beta, best2);
        } else {
            let best2 = if v < best { v } else { best };
            let beta2 = if best2 < beta { best2 } else { beta };
            lemma_search_from_keeps_best(b, p, depth, ms, k + 1, alpha, beta2, best2);
        }
    }
}

/// Whether `r`, found with the window `alpha..beta`, tells the true value
/// `m` as alpha-beta search promises: exactly inside the window, as an upper
/// bound at or below `alpha`, as a lower bound at or above `beta`.
pub open spec fn bounds_value(r: int, m: int, alpha: int, beta: int) -> bool {
    &&& (alpha < r < beta ==> r == m)
    &&& (r <= alpha ==> m <= r)
    &&& (r >= beta ==> m >= r)
}

/// Alpha-beta search finds the minimax value: exactly when it lands inside
/// the window, and otherwise a bound on the side where it lands.
pub proof fn law_alpha_beta_bounds_minimax(b: Seq<Seq<Cell>>, p: Player, depth: int, alpha: int, beta: int)
    requires
        square(b),
        depth >= 0,
        i32::MIN <= alpha < beta <= i32::MAX,
    ensures
        bounds_value(search(b, p, depth, alpha, beta), minimax_value(b, p, depth), alpha, beta),
    decreases depth, 1int, 0int,
{
    if depth != 0 && ordered(b, p).len() != 0 {
        let ms = ordered(b, p);
        lemma_ordered_valid(b, p);
        lemma_minimax_from_sentinel(b, p, depth, ms, 0);
        if p == Player::X {
            lemma_alpha_beta_loop(b, p, depth, ms, 0, alpha, beta, i32::MIN as int);
        } else {
            lemma_alpha_beta_loop(b, p, depth, ms, 0, alpha, beta, i32::MAX as int);
        }
    }
}

/// With the full window, alpha-beta search gives exactly the minimax value.
pub proof fn law_alpha_beta_full_window_is_minimax(b: Seq<Seq<Cell>>, p: Player, depth: int)
    requires
        square(b),
        evaluation_fits(b.len() as int),
        depth >= 0,
    ensures
        search(b, p, depth, i32::MIN as int, i32::MAX as int) == minimax_value(b, p, depth),
{
    law_alpha_beta_bounds_minimax(b, p, depth, i32::MIN as int, i32::MAX as int);
    lemma_search_bound(b, p, depth, i32::MIN as int, i32::MAX as int);
}

pub proof fn lemma_alpha_beta_loop(
    b: Seq<Seq<Cell>>,
    p: Player,
    depth: int,
    ms: Seq<(usize, usize)>,
    k: int,
    alpha: int,
    beta: int,
    best: int,
)
    requires
        square(b),
        depth >= 1,
        0 <= k <= ms.len(),
        all_open(b, ms),
        i32::MIN <= alpha < beta <= i32::MAX,
        p == Player::X ==> i32::MIN <= best <= alpha,
        p == Player::O ==> beta <= best <= i32::MAX,
    ensures
        bounds_value(
            search_from(b, p, depth, ms, k, alpha, beta, best),
            if p == Player::X {
                if best > minimax_from(b, p, depth, ms, k) { best } else { minimax_from(b, p, depth, ms, k) }
            } else {
                if best < minimax_from(b, p, depth, ms, k) { best } else { minimax_from(b, p, depth, ms, k) }
            },
            alpha,
            beta,
        ),
    decreases depth, 0int, ms.len() - k,
{
    if k < ms.len() {
        let child = place(b, ms[k], mark(p));
        lemma_place_fills(b, ms[k], mark(p));
        law_alpha_beta_bounds_minimax(child, other(p), depth - 1, alpha, beta);
        let v = search(child, other(p), depth - 1, alpha, beta);
        let m = minimax_value(child, other(p), depth - 1);
        let rest = minimax_from(b, p, depth, ms, k + 1);
        let r = search_from(b, p, depth, ms, k, alpha, beta, best);
        assert(bounds_value(v, m, alpha, beta));
        if p == Player::X {
            let best2 = if v > best { v } else { best };
            let alpha2 = if best2 > alpha { best2 } else { alpha };
            let t = if best > minimax_from(b, p, depth, ms, k) { best } else { minimax_from(b, p, depth, ms, k) };
            assert(minimax_from(b, p, depth, ms, k) == if m > rest { m } else { rest });
            if beta > alpha2 {
                lemma_alpha_beta_loop(b, p, depth, ms, k + 1, alpha2, beta, best2);
                lemma_search_from_keeps_best(b, p, depth, ms, k + 1, alpha2, beta, best2);
                let t2 = if best2 > rest { best2 } else { rest };
                assert(r == search_from(b, p, depth, ms, k + 1, alpha2, beta, best2));
                assert(bounds_value(r, t2, alpha2, beta));
                assert(r >= best2);
                if v <= alpha {
                    assert(m <= v);
                    assert(alpha2 == alpha);
                    assert(t <= t2);
                    if alpha < r < beta {
                        assert(r == t2);
                        assert(t2 == rest);
                    }
                } else {
                    assert(v < beta);
                    assert(m == v);
                    assert(best2 == v && alpha2 == v);
                    assert(t == t2);
                    if r <= alpha2 {
                        assert(t2 <= r);
                    }
                }
            } else {
                assert(r == best2);
                assert(best2 == v);
                assert(m >= v);
            }
        } else {
            let best2 = if v < best { v } else { best };
            let beta2 = if best2 < beta { best2 } else { beta };
            let t = if best < minimax_from(b, p, depth, ms, k) { best } else { minimax_from(b, p, depth, ms, k) };
            assert(minimax_from(b, p, depth, ms, k) == if m < rest { m } else { rest });
            if beta2 > alpha {
                lemma_alpha_beta_loop(b, p, depth, ms, k + 1, alpha, beta2, best2);
                lemma_search_from_keeps_best(b, p, depth, ms, k + 1, alpha, beta2, best2);
                let t2 = if best2 < rest { best2 } else { rest };
                assert(r == search_from(b, p, depth, ms, k + 1, alpha, beta2, best2));
                assert(bounds_value(r, t2, alpha, beta2));
                assert(r <= best2);
                if v >= beta {
                    assert(m >= v);
                    assert(beta2 == beta);
                    assert(t >= t2);
                    if alpha < r < beta {
                        assert(r == t2);
                        assert(t2 == rest);
                    }
                } else {
                    assert(v > alpha);
                    assert(m == v);
                    assert(best2 == v && beta2 == v);
                    assert(t == t2);
                    if r >= beta2 {
                        assert(t2 >= r);
                    }
                }
            } else {
                assert(r == best2);
                assert(best2 == v);
                assert(m <= v);
            }
        }
    }
}

/// The agent.
pub struct SolutionAgent {}

impl SolutionAgent {
    fn opponent(p: Player) -> (q: Player)
        ensures
            q == other(p),
            q != p,
            other(q) == p,
    {
        match p {
            Player::X => Player::O,
            Player::O => Player::X,
        }
    }

    /// Scores a run of three squares holding `x` X and `o` O, from X's side.
    pub fn window_score(x: i32, o: i32) -> (s: i32)
        ensures
            s == window_points(x as int, o as int),
    {
        match (x, o) {
            (3, 0) => 120,
            (0, 3) => -120,
            (2, 0) => 35,
            (0, 2) => -35,
            (1, 0) => 10,
            (0, 1) => -10,
            _ => 0,
        }
    }

    /// The points of the run from `(i, j)` in direction `d`.
    fn window(cells: &Vec<Vec<Cell>>, i: usize, j: usize, d: usize) -> (v: i32)
        requires
            square(grid_view(cells@)),
            i < cells@.len(),
            j < cells@.len(),
            d < 4,
        ensures
            v == window_value(grid_view(cells@), i as int, j as int, d as int),
    {
        let ghost b = grid_view(cells@);
        if !run_fits(cells.len(), i, j, d) {
            return 0;
        }
        let mut x: i32 = 0;
        let mut o: i32 = 0;
        let mut wall = false;
        let mut k: usize = 0;
        while k < 3 && !wall
            invariant
                square(b),
                b == grid_view(cells@),
                d < 4,
                fits(b.len() as int, i as int, j as int, d as int),
                0 <= k <= 3,
                !wall ==> x == prefix_count(b, i as int, j as int, d as int, Cell::X, k as int),
                !wall ==> o == prefix_count(b, i as int, j as int, d as int, Cell::O, k as int),
                !wall ==> prefix_count(b, i as int, j as int, d as int, Cell::Wall, k as int) == 0,
                wall ==> run_count(b, i as int, j as int, d as int, Cell::Wall) > 0,
            decreases 3 - k,
        {
            match run_at(cells, i, j, d, k) {
                Cell::X => x += 1,
                Cell::O => o += 1,
                Cell::Empty => {},
                Cell::Wall => {
                    wall = true;
                },
            }
            k = k + 1;
        }
        if !wall {
            Self::window_score(x, o)
        } else {
            0
        }
    }

    /// The evaluation of the board from X's side.
    pub fn evaluate(board: &Board) -> (e: i32)
        requires
            square(board@),
            evaluation_fits(board@.len() as int),
        ensures
            e == evaluation(board@),
    {
        let b = board.get_cells();
        let n = b.len();
        let ghost g = board@;
        proof {
            lemma_score_bound(g);
        }
        let mut score = board.score() * 1000;
        for i in 0..n
            invariant
                n == g.len(),
                g == grid_view(b@),
                square(g),
                evaluation_fits(n as int),
                score == 1000 * crate::board::score(g) + grid_points(g, i as int),
                -score_bound(n as int) <= crate::board::score(g) <= score_bound(n as int),
        {
            for j in 0..n
                invariant
                    n == g.len(),
                    g == grid_view(b@),
                    square(g),
                    0 <= i < n,
                    evaluation_fits(n as int),
                    score == 1000 * crate::board::score(g) + grid_points(g, i as int) + row_points(g, i as int, j as int),
                    -score_bound(n as int) <= crate::board::score(g) <= score_bound(n as int),
            {
                proof {
                    lemma_grid_points_bound(g, i as int);
                    lemma_row_points_bound(g, i as int, j + 1);
                    lemma_squares_before(n as int, i as int, j + 1);
                }
                let here = Self::window(b, i, j, 0) + Self::window(b, i, j, 1) + Self::window(b, i, j, 2)
                    + Self::window(b, i, j, 3);
                score = score + here;
            }
        }
        score
    }

    /// The best gain that `player` can make in one move, 0 on a full board.
    pub fn best_immediate_swing(board: &mut Board, player: Player) -> (best: i32)
        requires
            square(old(board)@),
            gains_fit(old(board)@.len() as int),
        ensures
            final(board)@ == old(board)@,
            best == immediate_swing(old(board)@, player),
    {
        let ghost b = board@;
        proof {
            lemma_score_bound(b);
            lemma_empty_squares_valid(b);
        }
        let current = board.score();
        let moves = board.moves();
        if moves.is_empty() {
            return 0;
        }
        let n = moves.len();
        let mut best: i32 = if player == Player::X { i32::MIN } else { i32::MAX };
        for idx in 0..n
            invariant
                n == moves@.len(),
                square(b),
                gains_fit(b.len() as int),
                board@ == b,
                current == score(b),
                moves@ == empty_squares(b),
                forall|k: int| 0 <= k < empty_squares(b).len() ==> open_square(b, #[trigger] empty_squares(b)[k]),
                best == best_gain(b, player, idx as int),
        {
            let m = moves[idx];
            proof {
                lemma_place_fills(b, m, mark(player));
                lemma_place_undo(b, m, mark(player));
                lemma_gain_bound(b, m, player);
            }
            board.apply_move(m, player);
            let swing = board.score() - current;
            board.undo_move(m, player);
            if player == Player::X {
                if swing > best {
                    best = swing;
                }
            } else {
                if swing < best {
                    best = swing;
                }
            }
        }
        best
    }

    /// Whether an entry with key `a` stays before a later one with key `c`.
    fn keeps_before(a: i32, c: i32, player: Player) -> (r: bool)
        ensures
            r == stays_before(a, c, player),
    {
        match player {
            Player::X => a >= c,
            Player::O => a <= c,
        }
    }

    /// The empty squares in the order of search for `player`: by the gain of
    /// marking them, best first for `player`, ties in board order.
    pub fn ordered_moves(board: &mut Board, player: Player) -> (ms: Vec<(usize, usize)>)
        requires
            square(old(board)@),
            gains_fit(old(board)@.len() as int),
        ensures
            final(board)@ == old(board)@,
            ms@ == ordered(old(board)@, player),
    {
        let ghost b = board@;
        proof {
            lemma_score_bound(b);
            lemma_empty_squares_valid(b);
        }
        let base_score = board.score();
        let moves = board.moves();
        let n = moves.len();
        let mut scored: Vec<(i32, (usize, usize))> = Vec::new();
        for idx in 0..n
            invariant
                n == moves@.len(),
                square(b),
                gains_fit(b.len() as int),
                board@ == b,
                base_score == score(b),
                moves@ == empty_squares(b),
                forall|k: int| 0 <= k < empty_squares(b).len() ==> open_square(b, #[trigger] empty_squares(b)[k]),
                scored@ == scored_moves(b, player).take(idx as int),
        {
            let m = moves[idx];
            proof {
                lemma_place_fills(b, m, mark(player));
                lemma_place_undo(b, m, mark(player));
                lemma_gain_bound(b, m, player);
            }
            board.apply_move(m, player);
            let delta = board.score() - base_score;
            board.undo_move(m, player);
            scored.push((delta, m));
            assert(scored@ =~= scored_moves(b, player).take(idx + 1));
        }
        assert(scored@ =~= scored_moves(b, player));

        // Stable insertion sort, best first for `player`.
        let mut sorted: Vec<(i32, (usize, usize))> = Vec::new();
        for idx in 0..n
            invariant
                n == scored@.len(),
                sorted@ == stable_sort(scored@.take(idx as int), player),
        {
            let e = scored[idx];
            let mut pos = sorted.len();
            while pos > 0 && !Self::keeps_before(sorted[pos - 1].0, e.0, player)
                invariant
                    0 <= pos <= sorted@.len(),
                    forall|q: int| pos <= q < sorted@.len() ==> !stays_before(#[trigger] sorted@[q].0, e.0, player),
                decreases pos,
            {
                pos = pos - 1;
            }
            proof {
                lemma_insert_in_order(sorted@, e, player, pos as int);
                assert(scored@.take(idx + 1).drop_last() =~= scored@.take(idx as int));
            }
            sorted.insert(pos, e);
        }
        assert(scored@.take(n as int) =~= scored@);
        proof {
            lemma_stable_sort_contents(scored@, player);
        }
        let mut ms: Vec<(usize, usize)> = Vec::new();
        for idx in 0..n
            invariant
                n == sorted@.len(),
                ms@ == sorted@.take(idx as int).map_values(|e: (i32, (usize, usize))| e.1),
        {
            ms.push(sorted[idx].1);
            assert(ms@ =~= sorted@.take(idx + 1).map_values(|e: (i32, (usize, usize))| e.1));
        }
        assert(sorted@.take(n as int) =~= sorted@);
        ms
    }

    /// The alpha-beta search value of the board, `player` to move.
    pub fn minimax(board: &mut Board, player: Player, depth: i32, alpha: i32, beta: i32) -> (v: i32)
        requires
            square(old(board)@),
            evaluation_fits(old(board)@.len() as int),
            depth >= 0,
        ensures
            final(board)@ == old(board)@,
            v == search(old(board)@, player, depth as int, alpha as int, beta as int),
        decreases depth,
    {
        let ghost b = board@;
        proof {
            lemma_evaluation_bound(b);
            lemma_ordered_valid(b, player);
        }
        if depth == 0 {
            return Self::evaluate(board);
        }
        let moves = Self::ordered_moves(board, player);
        if moves.is_empty() {
            return Self::evaluate(board);
        }
        let n = moves.len();
        let mut alpha = alpha;
        let mut beta = beta;
        let ghost total = search(b, player, depth as int, alpha as int, beta as int);
        let mut best: i32 = if player == Player::X { i32::MIN } else { i32::MAX };
        let mut idx: usize = 0;
        while idx < n
            invariant_except_break
                total == search_from(b, player, depth as int, moves@, idx as int, alpha as int, beta as int, best as int),
            invariant
                n == moves@.len(),
                square(b),
                evaluation_fits(b.len() as int),
                board@ == b,
                depth >= 1,
                moves@ == ordered(b, player),
                all_open(b, moves@),
                0 <= idx <= n,
            ensures
                board@ == b,
                total == best,
            decreases n - idx,
        {
            let m = moves[idx];
            proof {
                lemma_place_fills(b, m, mark(player));
                lemma_place_undo(b, m, mark(player));
            }
            board.apply_move(m, player);
            let val = Self::minimax(board, Self::opponent(player), depth - 1, alpha, beta);
            board.undo_move(m, player);
            if player == Player::X {
                if val > best {
                    best = val;
                }
                if best > alpha {
                    alpha = best;
                }
                if beta <= alpha {
                    break;
                }
            } else {
                if val < best {
                    best = val;
                }
                if best < beta {
                    beta = best;
                }
                if beta <= alpha {
                    break;
                }
            }
            idx = idx + 1;
        }
        best
    }

    /// The value of a move of `player` that led to the board, from a board
    /// of score `base_score`.
    pub fn move_score(board: &mut Board, player: Player, base_score: i32, depth: i32, alpha: i32, beta: i32) -> (v: i32)
        requires
            square(old(board)@),
            move_scores_fit(old(board)@.len() as int),
            depth >= 0,
            -score_bound(old(board)@.len() as int) <= base_score <= score_bound(old(board)@.len() as int),
        ensures
            final(board)@ == old(board)@,
            v == move_value(old(board)@, player, base_score as int, depth as int, alpha as int, beta as int),
    {
        let ghost b = board@;
        proof {
            lemma_search_bound(b, other(player), depth as int, alpha as int, beta as int);
            lemma_evaluation_bound(b);
            lemma_score_bound(b);
            lemma_immediate_swing_bound(b, other(player));
        }
        let search = Self::minimax(board, Self::opponent(player), depth, alpha, beta);
        let delta = board.score() - base_score;
        let opp_reply = Self::best_immediate_swing(board, Self::opponent(player));
        let positional = Self::evaluate(board);
        search * 5 + positional * 2 + delta * 300 + opp_reply * 180
    }

    /// The agent's choice for `player`: the best value and move over the
    /// search order, each move valued by `move_score`.
    pub fn solve_internal(board: &mut Board, player: Player) -> (r: (i32, usize, usize))
        requires
            square(old(board)@),
            move_scores_fit(old(board)@.len() as int),
            empty_squares(old(board)@).len() > 0,
        ensures
            final(board)@ == old(board)@,
            r.0 == decision(old(board)@, player).0,
            (r.1, r.2) == decision(old(board)@, player).1,
    {
        let ghost b = board@;
        proof {
            lemma_ordered_valid(b, player);
            lemma_score_bound(b);
        }
        let moves = Self::ordered_moves(board, player);
        let base_score = board.score();
        let n_moves = moves.len();
        let depth: i32 = if n_moves <= 8 {
            6
        } else if n_moves <= 14 {
            5
        } else {
            4
        };
        let mut best_move = moves[0];
        let mut best_val: i32 = if player == Player::X { i32::MIN } else { i32::MAX };
        let mut alpha: i32 = i32::MIN;
        let mut beta: i32 = i32::MAX;
        for idx in 0..n_moves
            invariant
                n_moves == moves@.len(),
                n_moves > 0,
                square(b),
                move_scores_fit(b.len() as int),
                board@ == b,
                moves@ == ordered(b, player),
                all_open(b, moves@),
                base_score == score(b),
                -score_bound(b.len() as int) <= base_score <= score_bound(b.len() as int),
                depth == depth_for(n_moves as int),
                choice_after(b, player, idx as int) == (best_val as int, best_move, alpha as int, beta as int),
        {
            let m = moves[idx];
            proof {
                lemma_place_fills(b, m, mark(player));
                lemma_place_undo(b, m, mark(player));
            }
            board.apply_move(m, player);
            let val = Self::move_score(board, player, base_score, depth, alpha, beta);
            board.undo_move(m, player);
            let better = if player == Player::X { val > best_val } else { val < best_val };
            if better {
                best_val = val;
                best_move = m;
                if player == Player::X {
                    if best_val > alpha {
                        alpha = best_val;
                    }
                } else {
                    if best_val < beta {
                        beta = best_val;
                    }
                }
            }
        }
        (best_val, best_move.0, best_move.1)
    }
}

impl Agent for SolutionAgent {
    open spec fn board_fits(n: int) -> bool {
        move_scores_fit(n)
    }

    fn solve(board: &mut Board, player: Player, time_limit: u64) -> (r: (i32, usize, usize))
        ensures
            final(board)@ == old(board)@,
            r.0 == decision(old(board)@, player).0,
            (r.1, r.2) == decision(old(board)@, player).1,
    {
        Self::solve_internal(board, player)
    }
}

} // verus!
