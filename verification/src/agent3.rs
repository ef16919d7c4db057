//! An agent for 3x3 tic-tac-toe that searches the whole game tree.
use vstd::prelude::*;
use crate::board::{
    Cell,
    Agent, Board, Player, empty_squares, lemma_empty_squares_valid, lemma_place_fills,
    lemma_place_undo, lemma_score_bound, mark, open_square, other, place, score, score_bound,
    score_fits, square,
};

verus! {

/// The value of the game from `b` with `p` to move, the player to move
/// maximizing when `maximizing` holds and minimizing otherwise: the score once
/// the board is full, and otherwise the best value over the empty squares
/// (`i32::MIN` or `i32::MAX` where nothing is better).
pub open spec fn minimax_value(b: Seq<Seq<Cell>>, p: Player, maximizing: bool) -> int
    decreases empty_squares(b).len(), 1int, 0int,
    when square(b)
{
    if empty_squares(b).len() == 0 {
        score(b)
    } else {
        best_over(b, p, maximizing, empty_squares(b).len() as int)
    }
}

/// The best value over the first `k` empty squares of `b`.
pub open spec fn best_over(b: Seq<Seq<Cell>>, p: Player, maximizing: bool, k: int) -> int
    decreases empty_squares(b).len(), 0int, k,
    when square(b) && 0 <= k <= empty_squares(b).len()
{
    if k <= 0 {
        if maximizing {
            i32::MIN as int
        } else {
            i32::MAX as int
        }
    } else {
        let prev = best_over(b, p, maximizing, k - 1);
        let m = empty_squares(b)[k - 1];
        proof {
            lemma_empty_squares_valid(b);
            lemma_place_fills(b, m, mark(p));
        }
        let v = minimax_value(place(b, m, mark(p)), other(p), !maximizing);
        if maximizing {
            if v > prev { v } else { prev }
        } else {
            if v < prev { v } else { prev }
        }
    }
}

/// The choice among the first `k` empty squares: the value and the square
/// of the first move with the best value for `p` (X maximizes, O minimizes),
/// each move being valued by `minimax_value` with the opponent to move and
/// minimizing.
pub open spec fn choice(b: Seq<Seq<Cell>>, p: Player, k: int) -> (int, (usize, usize))
    decreases k,
{
    if k <= 0 {
        (if p == Player::X { i32::MIN as int } else { i32::MAX as int }, empty_squares(b)[0])
    } else {
        let prev = choice(b, p, k - 1);
        let m = empty_squares(b)[k - 1];
        let v = minimax_value(place(b, m, mark(p)), other(p), false);
        if (p == Player::X && v > prev.0) || (p == Player::O && v < prev.0) {
            (v, m)
        } else {
            prev
        }
    }
}

pub proof fn lemma_choice_listed(b: Seq<Seq<Cell>>, p: Player, k: int)
    requires
        empty_squares(b).len() > 0,
        0 <= k <= empty_squares(b).len(),
    ensures
        exists|j: int| 0 <= j < empty_squares(b).len() && empty_squares(b)[j] == choice(b, p, k).1,
    decreases k,
{
    if k <= 0 {
        assert(empty_squares(b)[0] == choice(b, p, k).1);
    } else {
        lemma_choice_listed(b, p, k - 1);
        if choice(b, p, k).1 != choice(b, p, k - 1).1 {
            assert(empty_squares(b)[k - 1] == choice(b, p, k).1);
        }
    }
}

/// The agent's move is an empty square of the board.
pub proof fn law_agent_move_is_legal(b: Seq<Seq<Cell>>, p: Player)
    requires
        square(b),
        empty_squares(b).len() > 0,
    ensures
        open_square(b, choice(b, p, empty_squares(b).len() as int).1),
{
    lemma_empty_squares_valid(b);
    lemma_choice_listed(b, p, empty_squares(b).len() as int);
}

pub proof fn lemma_minimax_value_bound(b: Seq<Seq<Cell>>, p: Player, maximizing: bool)
    requires
        square(b),
    ensures
        -score_bound(b.len() as int) <= minimax_value(b, p, maximizing) <= score_bound(b.len() as int),
    decreases empty_squares(b).len(), 1int, 0int,
{
    if empty_squares(b).len() == 0 {
        lemma_score_bound(b);
    } else {
        lemma_best_over_bound(b, p, maximizing, empty_squares(b).len() as int);
    }
}

pub proof fn lemma_best_over_bound(b: Seq<Seq<Cell>>, p: Player, maximizing: bool, k: int)
    requires
        square(b),
        1 <= k <= empty_squares(b).len(),
    ensures
        -score_bound(b.len() as int) <= best_over(b, p, maximizing, k) <= score_bound(b.len() as int),
    decreases empty_squares(b).len(), 0int, k,
{
    let m = empty_squares(b)[k - 1];
    lemma_empty_squares_valid(b);
    lemma_place_fills(b, m, mark(p));
    lemma_minimax_value_bound(place(b, m, mark(p)), other(p), !maximizing);
    lemma_score_bound(b);
    assert(place(b, m, mark(p)).len() == b.len());
    if k > 1 {
        lemma_best_over_bound(b, p, maximizing, k - 1);
    }
}

/// The value of marking square `m`, as the agent sees it.
pub open spec fn move_worth(b: Seq<Seq<Cell>>, p: Player, m: (usize, usize)) -> int {
    minimax_value(place(b, m, mark(p)), other(p), false)
}

pub proof fn lemma_choice_best(b: Seq<Seq<Cell>>, p: Player, k: int)
    requires
        square(b),
        score_fits(b.len() as int),
        1 <= k <= empty_squares(b).len(),
    ensures
        forall|j: int| 0 <= j < k ==> {
            let v = #[trigger] move_worth(b, p, empty_squares(b)[j]);
            &&& p == Player::X ==> v <= choice(b, p, k).0
            &&& p == Player::O ==> v >= choice(b, p, k).0
        },
        choice(b, p, k).0 == move_worth(b, p, choice(b, p, k).1),
    decreases k,
{
    lemma_empty_squares_valid(b);
    let m = empty_squares(b)[k - 1];
    lemma_place_fills(b, m, mark(p));
    lemma_minimax_value_bound(place(b, m, mark(p)), other(p), false);
    if k > 1 {
        lemma_choice_best(b, p, k - 1);
    }
}

/// The full-search agent takes a move of the best value for its side (the
/// largest for X, the smallest for O), and reports that move's value.
pub proof fn law_agent_choice_is_best(b: Seq<Seq<Cell>>, p: Player)
    requires
        square(b),
        score_fits(b.len() as int),
        empty_squares(b).len() > 0,
    ensures
        forall|j: int| 0 <= j < empty_squares(b).len() ==> {
            let v = #[trigger] move_worth(b, p, empty_squares(b)[j]);
            let c = choice(b, p, empty_squares(b).len() as int);
            &&& p == Player::X ==> v <= c.0
            &&& p == Player::O ==> v >= c.0
        },
        choice(b, p, empty_squares(b).len() as int).0
            == move_worth(b, p, choice(b, p, empty_squares(b).len() as int).1),
{
    lemma_choice_best(b, p, empty_squares(b).len() as int);
}

/// The agent.
pub struct SolutionAgent {}

impl SolutionAgent {
    fn opponent(player: Player) -> (q: Player)
        ensures
            q == other(player),
            q != player,
            other(q) == player,
    {
        match player {
            Player::X => Player::O,
            Player::O => Player::X,
        }
    }

    /// The value of the game from the board, `player` to move.
    pub fn minimax(board: &mut Board, player: Player, maximizing: bool, time_limit: u64) -> (v: i32)
        requires
            square(old(board)@),
            score_fits(old(board)@.len() as int),
        ensures
            final(board)@ == old(board)@,
            v == minimax_value(old(board)@, player, maximizing),
        decreases empty_squares(old(board)@).len(),
    {
        let ghost b = board@;
        if board.game_over() {
            proof {
                crate::board::lemma_score_bound(b);
            }
            return board.score();
        }
        let moves = board.moves();
        proof {
            lemma_empty_squares_valid(b);
        }
        let n = moves.len();
        let mut best: i32 = if maximizing { i32::MIN } else { i32::MAX };
        for idx in 0..n
            invariant
                n == moves@.len(),
                square(b),
                score_fits(b.len() as int),
                board@ == b,
                old(board)@ == b,
                moves@ == empty_squares(b),
                forall|k: int| 0 <= k < empty_squares(b).len() ==> open_square(b, #[trigger] empty_squares(b)[k]),
                best == best_over(b, player, maximizing, idx as int),
        {
            let m = moves[idx];
            proof {
                lemma_place_fills(b, m, mark(player));
                lemma_place_undo(b, m, mark(player));
            }
            board.apply_move(m, player);
            let val = Self::minimax(board, Self::opponent(player), !maximizing, time_limit);
            board.undo_move(m, player);
            if maximizing {
                if val > best {
                    best = val;
                }
            } else {
                if val < best {
                    best = val;
                }
            }
        }
        best
    }
}

impl Agent for SolutionAgent {
    open spec fn board_fits(n: int) -> bool {
        score_fits(n)
    }

    fn solve(board: &mut Board, player: Player, time_limit: u64) -> (r: (i32, usize, usize))
        ensures
            final(board)@ == old(board)@,
            ({
                let c = choice(old(board)@, player, empty_squares(old(board)@).len() as int);
                r.0 == c.0 && r.1 == c.1.0 && r.2 == c.1.1
            }),
    {
        let ghost b = board@;
        let moves = board.moves();
        proof {
            lemma_empty_squares_valid(b);
        }
        let n = moves.len();
        let mut best_move = moves[0];
        let mut best_score: i32 = match player {
            Player::X => i32::MIN,
            Player::O => i32::MAX,
        };
        for idx in 0..n
            invariant
                n == moves@.len(),
                n > 0,
                square(b),
                score_fits(b.len() as int),
                board@ == b,
                moves@ == empty_squares(b),
                forall|k: int| 0 <= k < empty_squares(b).len() ==> open_square(b, #[trigger] empty_squares(b)[k]),
                (best_score as int, best_move) == choice(b, player, idx as int),
        {
            let m = moves[idx];
            proof {
                lemma_place_fills(b, m, mark(player));
                lemma_place_undo(b, m, mark(player));
            }
            board.apply_move(m, player);
            let score = Self::minimax(board, Self::opponent(player), false, time_limit);
            board.undo_move(m, player);
            match player {
                Player::X => {
                    if score > best_score {
                        best_score = score;
                        best_move = m;
                    }
                },
                Player::O => {
                    if score < best_score {
                        best_score = score;
                        best_move = m;
                    }
                },
            }
        }
        (best_score, best_move.0, best_move.1)
    }
}

} // verus!
