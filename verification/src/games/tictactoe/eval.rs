//! Static evaluator for tic-tac-toe: open-line count from a given perspective.

use vstd::prelude::*;
use super::board::{line_at, line_cell, Board, Player};
use super::primitives::on_line;

verus! {

/// The score of a won position for the winner (and its negation for the loser).
pub const WIN_SCORE: i32 = 100;

/// Line `l` holds no mark of `p`.
pub open spec fn line_free_of(b: Board, l: int, p: Player) -> bool {
    &&& b.spec_cell(line_cell(l, 0)) != Some(p)
    &&& b.spec_cell(line_cell(l, 1)) != Some(p)
    &&& b.spec_cell(line_cell(l, 2)) != Some(p)
}

/// Number of the first `n` win lines holding no mark of `p`.
pub open spec fn lines_without_prefix(b: Board, p: Player, n: int) -> int
    decreases n,
{
    if n <= 0 {
        0
    } else {
        lines_without_prefix(b, p, n - 1) + if line_free_of(b, n - 1, p) {
            1int
        } else {
            0
        }
    }
}

/// Number of win lines holding no mark of `p`.
pub open spec fn spec_lines_without(b: Board, p: Player) -> int {
    lines_without_prefix(b, p, 8)
}

/// The open-line score of `b` for `perspective`: `WIN_SCORE` when `perspective` has won, its
/// negation when the other player has, `0` on a full board without winner, and otherwise the
/// lines still winnable by `perspective` minus those still winnable by the other player.
pub open spec fn spec_evaluate(b: Board, perspective: Player) -> int {
    match b.spec_winner() {
        Some(w) => if w == perspective {
            WIN_SCORE as int
        } else {
            -(WIN_SCORE as int)
        },
        None => if b.spec_is_full() {
            0
        } else {
            spec_lines_without(b, perspective.spec_other()) - spec_lines_without(b, perspective)
        },
    }
}

/// Open-line heuristic for tic-tac-toe.
#[derive(Debug, Clone, Copy, Default)]
pub struct TicTacToeEvaluator;

impl TicTacToeEvaluator {
    /// Number of win lines containing no mark of `player`.
    pub fn lines_without(board: &Board, player: Player) -> (n: usize)
        ensures
            n == spec_lines_without(*board, player),
            n <= 8,
    {
        let mut n: usize = 0;
        let mut l: usize = 0;
        while l < 8
            invariant
                l <= 8,
                n == lines_without_prefix(*board, player, l as int),
                n <= l,
            decreases 8 - l,
        {
            let free = board.cell(line_at(l, 0)) != Some(player) && board.cell(line_at(l, 1))
                != Some(player) && board.cell(line_at(l, 2)) != Some(player);
            if free {
                n = n + 1;
            }
            l = l + 1;
        }
        n
    }

    /// The open-line score of `board` for `perspective`: `WIN_SCORE` for a win, `-WIN_SCORE`
    /// for a loss, `0` for a draw, and on a position still in play the lines still winnable by
    /// `perspective` minus the lines still winnable by the opponent, between `-8` and `8`.
    pub fn evaluate(&self, board: &Board, perspective: Player) -> (v: i32)
        ensures
            v == spec_evaluate(*board, perspective),
            board.spec_winner() is None && !board.spec_is_full() ==> -8 <= v <= 8,
    {
        match board.winner() {
            Some(winner) => if winner == perspective {
                WIN_SCORE
            } else {
                -WIN_SCORE
            },
            None => if board.is_full() {
                0
            } else {
                let mine = Self::lines_without(board, perspective.other());
                let theirs = Self::lines_without(board, perspective);
                mine as i32 - theirs as i32
            },
        }
    }
}

/// The two perspectives score every position as opposites.
pub proof fn lemma_evaluate_antisymmetric(b: Board)
    ensures
        spec_evaluate(b, Player::X) == -spec_evaluate(b, Player::O),
{
}

/// No cell of win line `l` holds `p`.
pub open spec fn line_clear(b: Board, l: int, p: Player) -> bool {
    forall|k: int| 0 <= k < 3 ==> b.spec_cell(#[trigger] line_cell(l, k)) != Some(p)
}

/// How many of the first `n` win lines pass through cell `i` and hold no mark of `p`.
pub open spec fn clear_lines_through(b: Board, p: Player, i: int, n: int) -> int
    decreases n,
{
    if n <= 0 {
        0
    } else {
        clear_lines_through(b, p, i, n - 1) + if on_line(n - 1, i) && line_clear(b, n - 1, p) {
            1int
        } else {
            0
        }
    }
}

proof fn lemma_line_cells_in_range(l: int)
    requires
        0 <= l < 8,
    ensures
        forall|k: int| 0 <= k < 3 ==> 0 <= #[trigger] line_cell(l, k) < 9,
{
}

/// On the empty board every win line is free of either player.
pub proof fn lemma_lines_without_empty(p: Player)
    ensures
        spec_lines_without(Board::spec_empty(), p) == 8,
{
    broadcast use Board::lemma_empty, Board::lemma_cells;

    let e = Board::spec_empty();
    assert(e.spec_cells().len() == 9);
    assert forall|l: int| 0 <= l < 8 implies line_free_of(e, l, p) by {
        lemma_line_cells_in_range(l);
        assert(e.spec_cell(line_cell(l, 0)) == e.spec_cells()[line_cell(l, 0)]);
        assert(e.spec_cell(line_cell(l, 1)) == e.spec_cells()[line_cell(l, 1)]);
        assert(e.spec_cell(line_cell(l, 2)) == e.spec_cells()[line_cell(l, 2)]);
    }
    assert(lines_without_prefix(e, p, 8) == 8) by {
        assert(lines_without_prefix(e, p, 0) == 0);
        assert(lines_without_prefix(e, p, 1) == 1);
        assert(lines_without_prefix(e, p, 2) == 2);
        assert(lines_without_prefix(e, p, 3) == 3);
        assert(lines_without_prefix(e, p, 4) == 4);
        assert(lines_without_prefix(e, p, 5) == 5);
        assert(lines_without_prefix(e, p, 6) == 6);
        assert(lines_without_prefix(e, p, 7) == 7);
    }
}

proof fn lemma_free_unchanged(b: Board, i: int, x: Option<Player>, p: Player, n: int)
    requires
        0 <= i < 9,
        0 <= n <= 8,
        b.spec_cell(i) != Some(p),
        x != Some(p),
    ensures
        lines_without_prefix(b.spec_with_cell(i, x), p, n) == lines_without_prefix(b, p, n),
    decreases n,
{
    broadcast use Board::lemma_with_cell;

    if n > 0 {
        lemma_free_unchanged(b, i, x, p, n - 1);
        lemma_line_cells_in_range(n - 1);
        assert(line_free_of(b.spec_with_cell(i, x), n - 1, p) == line_free_of(b, n - 1, p));
    }
}

/// The lines free of `p` do not depend on the other player's marks: changing a cell that does
/// not hold `p` into another value that is not `p` changes none of them.
pub proof fn lemma_lines_without_ignores_others(b: Board, i: int, x: Option<Player>, p: Player)
    requires
        0 <= i < 9,
        b.spec_cell(i) != Some(p),
        x != Some(p),
    ensures
        spec_lines_without(b.spec_with_cell(i, x), p) == spec_lines_without(b, p),
{
    lemma_free_unchanged(b, i, x, p, 8);
}

proof fn lemma_free_taken(b: Board, i: int, p: Player, n: int)
    requires
        0 <= i < 9,
        0 <= n <= 8,
        b.spec_cell(i) != Some(p),
    ensures
        lines_without_prefix(b, p, n) - lines_without_prefix(b.spec_with_cell(i, Some(p)), p, n)
            == clear_lines_through(b, p, i, n),
    decreases n,
{
    broadcast use Board::lemma_with_cell;

    if n > 0 {
        lemma_free_taken(b, i, p, n - 1);
        let l = n - 1;
        let b2 = b.spec_with_cell(i, Some(p));
        lemma_line_cells_in_range(l);
        assert(line_free_of(b, l, p) == line_clear(b, l, p)) by {
            if line_free_of(b, l, p) {
                assert forall|k: int| 0 <= k < 3 implies b.spec_cell(#[trigger] line_cell(l, k)) != Some(p) by {
                    if k == 0 {
                    } else if k == 1 {
                    } else {
                    }
                }
            }
            if line_clear(b, l, p) {
                assert(b.spec_cell(line_cell(l, 0)) != Some(p));
                assert(b.spec_cell(line_cell(l, 1)) != Some(p));
                assert(b.spec_cell(line_cell(l, 2)) != Some(p));
            }
        }
        if on_line(l, i) {
            assert(!line_free_of(b2, l, p));
        } else {
            assert(line_free_of(b2, l, p) == line_free_of(b, l, p));
        }
    }
}

/// Marking a cell for `p` takes away exactly the lines through that cell that were free of
/// `p`; every other line keeps its status.
pub proof fn lemma_lines_without_own_mark(b: Board, i: int, p: Player)
    requires
        0 <= i < 9,
        b.spec_cell(i) != Some(p),
    ensures
        spec_lines_without(b, p) - spec_lines_without(b.spec_with_cell(i, Some(p)), p) == clear_lines_through(
            b,
            p,
            i,
            8,
        ),
{
    lemma_free_taken(b, i, p, 8);
}

/// In play, marking an empty cell for the perspective raises its score by exactly the lines
/// through that cell that held no mark of the perspective: the opponent can no longer win them,
/// and what the perspective can still win is unchanged.
pub proof fn lemma_evaluate_after_mark(b: Board, i: int, p: Player)
    requires
        0 <= i < 9,
        b.spec_cell(i) is None,
        b.spec_winner() is None && !b.spec_is_full(),
        b.spec_with_cell(i, Some(p)).spec_winner() is None && !b.spec_with_cell(i, Some(p)).spec_is_full(),
    ensures
        spec_evaluate(b.spec_with_cell(i, Some(p)), p) == spec_evaluate(b, p) + clear_lines_through(b, p, i, 8),
{
    assert(Some(p) != Some(p.spec_other())) by {
        match p {
            Player::X => {},
            Player::O => {},
        }
    }
    lemma_lines_without_ignores_others(b, i, Some(p), p.spec_other());
    lemma_lines_without_own_mark(b, i, p);
}

} // verus!
