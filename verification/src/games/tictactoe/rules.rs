//! Rules of play for tic-tac-toe: legality, transitions, termination.

use vstd::prelude::*;
use vstd::string::*;
use super::board::{Board, Move, Outcome, Player, TicTacToe};
use super::engine::{fingerprint, lemma_fingerprint_injective, spec_fingerprint};
use crate::framework::text::{decimal, with_decimal};
use crate::framework::traits::{GameRules, RulesError};
use crate::discovery::solver::{breadth_first_at, lemma_reach_keys, reach_keys, reachable_states, child};

verus! {

/// Rules of tic-tac-toe.
#[derive(Debug, Clone, Copy, Default)]
pub struct TicTacToeRules;

/// The outcome of `b`: a win for the winner if any line is held, a draw on a full board,
/// otherwise `None`.
pub open spec fn spec_outcome_of(b: Board) -> Option<Outcome> {
    if b.spec_winner() is Some {
        Some(Outcome::Win(b.spec_winner()->0))
    } else if b.spec_is_full() {
        Some(Outcome::Draw)
    } else {
        None
    }
}

/// Moves onto the empty cells among the first `n`, in ascending cell order.
pub open spec fn empty_moves(b: Board, n: int) -> Seq<Move>
    decreases n,
{
    if n <= 0 {
        seq![]
    } else {
        empty_moves(b, n - 1) + if b.spec_cell(n - 1) is None {
            seq![Move((n - 1) as usize)]
        } else {
            seq![]
        }
    }
}

/// Number of empty cells among the first `n`.
pub open spec fn empty_count(b: Board, n: int) -> nat
    decreases n,
{
    if n <= 0 {
        0
    } else {
        empty_count(b, n - 1) + if b.spec_cell(n - 1) is None {
            1nat
        } else {
            0
        }
    }
}

/// Legal moves: none once the game is over, else every empty cell in ascending order.
pub open spec fn spec_legal_of(b: Board) -> Seq<Move> {
    if spec_outcome_of(b) is Some {
        seq![]
    } else {
        empty_moves(b, 9)
    }
}

/// The board after `m`: refused once the game is over, for a cell index out of range, or for
/// an occupied cell; otherwise the mover claims the cell.
pub open spec fn spec_next_of(b: Board, m: Move) -> Option<Board> {
    if spec_outcome_of(b) is Some {
        None
    } else if m.0 >= 9 {
        None
    } else if b.spec_cell(m.0 as int) is Some {
        None
    } else {
        Some(b.spec_place(m.0 as int, b.spec_to_move()))
    }
}

/// The message an `IllegalAction` carries for a move refused on a game still in progress.
pub open spec fn illegal_message(m: Move) -> Seq<char> {
    if m.0 >= 9 {
        "cell index "@ + decimal(m.0 as nat) + " out of range 0..9"@
    } else {
        "cell "@ + decimal(m.0 as nat) + " is occupied"@
    }
}

/// Facts about `empty_moves`: each names an empty cell below `n`, cells strictly ascend, and
/// the list is empty exactly when no cell below `n` is empty.
pub proof fn lemma_empty_moves(b: Board, n: int)
    requires
        0 <= n <= 9,
    ensures
        empty_moves(b, n).len() == empty_count(b, n),
        forall|k: int|
            0 <= k < empty_moves(b, n).len() ==> {
                &&& (#[trigger] empty_moves(b, n)[k]).0 < n
                &&& b.spec_cell(empty_moves(b, n)[k].0 as int) is None
            },
        forall|k: int, l: int|
            0 <= k < l < empty_moves(b, n).len() ==> #[trigger] empty_moves(b, n)[k].0
                < #[trigger] empty_moves(b, n)[l].0,
        (empty_moves(b, n).len() == 0) <==> (forall|i: int| 0 <= i < n ==> b.spec_cell(i) is Some),
    decreases n,
{
    if n > 0 {
        lemma_empty_moves(b, n - 1);
        if b.spec_cell(n - 1) is None {
            assert(empty_moves(b, n)[empty_moves(b, n).len() - 1].0 == n - 1);
        }
    }
}

/// Claiming an empty cell leaves one empty cell fewer.
pub proof fn lemma_place_empty_count(b: Board, i: int, p: Player, n: int)
    requires
        0 <= i < 9,
        0 <= n <= 9,
        b.spec_cell(i) is None,
    ensures
        empty_count(b.spec_place(i, p), n) + (if i < n {
            1int
        } else {
            0
        }) == empty_count(b, n),
    decreases n,
{
    broadcast use Board::lemma_place_cell;

    if n > 0 {
        lemma_place_empty_count(b, i, p, n - 1);
    }
}

impl GameRules<TicTacToe> for TicTacToeRules {
    open spec fn spec_initial_state(&self) -> Board {
        Board::spec_empty()
    }

    open spec fn spec_player_to_move(&self, state: Board) -> Player {
        state.spec_to_move()
    }

    open spec fn spec_outcome(&self, state: Board) -> Option<Outcome> {
        spec_outcome_of(state)
    }

    open spec fn spec_legal_actions(&self, state: Board) -> Seq<Move> {
        spec_legal_of(state)
    }

    open spec fn spec_next(&self, state: Board, action: Move) -> Option<Board> {
        spec_next_of(state, action)
    }

    open spec fn spec_key(&self, state: Board) -> u64 {
        spec_fingerprint(state) as u64
    }

    open spec fn spec_refusal(&self, state: Board, action: Move) -> Option<Seq<char>> {
        if spec_outcome_of(state) is Some {
            None
        } else {
            Some(illegal_message(action))
        }
    }

    open spec fn spec_plies_left(&self, state: Board) -> nat {
        empty_count(state, 9)
    }

    proof fn lemma_legal_actions(&self, state: Board) {
        broadcast use Board::lemma_place, Board::lemma_cells;

        lemma_empty_moves(state, 9);
        assert forall|i: int| 0 <= i < spec_legal_of(state).len() implies {
            &&& #[trigger] spec_next_of(state, spec_legal_of(state)[i]) is Some
            &&& empty_count(spec_next_of(state, spec_legal_of(state)[i])->0, 9) < empty_count(
                state,
                9,
            )
        } by {
            let m = spec_legal_of(state)[i];
            lemma_place_empty_count(state, m.0 as int, state.spec_to_move(), 9);
        }
    }

    proof fn lemma_key_injective(&self, a: Board, b: Board) {
        super::engine::lemma_fingerprint_prefix_bound(a, 9);
        super::engine::lemma_fingerprint_prefix_bound(b, 9);
        assert(super::engine::pow4(9) == 262144) by {
            reveal_with_fuel(super::engine::pow4, 10);
        }
        lemma_fingerprint_injective(a, b);
    }

    fn initial_state(&self) -> (s: Board) {
        Board::empty()
    }

    fn player_to_move(&self, state: &Board) -> (p: Player) {
        state.to_move()
    }

    fn legal_actions(&self, state: &Board) -> (v: Vec<Move>) {
        if self.outcome(state).is_some() {
            return Vec::new();
        }
        let mut v: Vec<Move> = Vec::new();
        let mut i: usize = 0;
        while i < 9
            invariant
                i <= 9,
                v@ == empty_moves(*state, i as int),
            decreases 9 - i,
        {
            if state.cell(i).is_none() {
                v.push(Move(i));
            }
            i = i + 1;
        }
        v
    }

    fn apply(&self, state: &Board, action: &Move) -> (r: Result<Board, RulesError>)
        ensures
            r matches Err(RulesError::IllegalAction(msg)) ==> msg@ == illegal_message(*action),
    {
        if self.outcome(state).is_some() {
            return Err(RulesError::GameOver);
        }
        if action.0 >= 9 {
            let mut msg = with_decimal("cell index ", action.0);
            msg.append(" out of range 0..9");
            return Err(RulesError::IllegalAction(msg));
        }
        if state.cell(action.0).is_some() {
            let mut msg = with_decimal("cell ", action.0);
            msg.append(" is occupied");
            return Err(RulesError::IllegalAction(msg));
        }
        Ok(state.place(action.0, state.to_move()))
    }

    fn outcome(&self, state: &Board) -> (o: Option<Outcome>) {
        if let Some(p) = state.winner() {
            Some(Outcome::Win(p))
        } else if state.is_full() {
            Some(Outcome::Draw)
        } else {
            None
        }
    }

    fn state_key(&self, state: &Board) -> (k: u64) {
        fingerprint(state)
    }
}


/// An upper bound on the number of distinct positions: every fingerprint is below it.
pub const POSITION_KEY_BOUND: usize = 524288;

impl TicTacToeRules {
    /// Keys of the positions reachable from the initial state.
    pub open spec fn spec_reachable_keys(&self) -> Set<u64> {
        reach_keys::<TicTacToe, TicTacToeRules>(self, Board::spec_empty())
    }

    /// There are at most `POSITION_KEY_BOUND` reachable positions.
    pub proof fn lemma_reachable_bound(&self)
        ensures
            self.spec_reachable_keys().len() <= POSITION_KEY_BOUND,
    {
        let reach = self.spec_reachable_keys();
        lemma_reach_keys::<TicTacToe, TicTacToeRules>(self, Board::spec_empty());
        let all = Set::<u64>::range(0, POSITION_KEY_BOUND as u64);
        assert forall|k: u64| reach.contains(k) implies all.contains(k) by {
            let t = choose|t: Board| self.spec_key(t) == k && self.spec_plies_left(t)
                <= self.spec_plies_left(Board::spec_empty());
            super::engine::lemma_fingerprint_prefix_bound(t, 9);
            assert(super::engine::pow4(9) == 262144) by {
                reveal_with_fuel(super::engine::pow4, 10);
            }
        }
        vstd::set_lib::range_set_properties::<u64>(0, POSITION_KEY_BOUND as u64);
        vstd::set_lib::lemma_len_subset(reach, all);
    }

    /// All positions reachable from the initial state by breadth-first traversal over
    /// `legal_actions` (empty on terminal states, so terminals are included but never expanded),
    /// deduplicated, in first-discovery order.
    pub fn reachable_positions(&self) -> (v: Vec<Board>)
        ensures
            v@.len() == self.spec_reachable_keys().len(),
            v@[0] == Board::spec_empty(),
            forall|k: u64|
                self.spec_reachable_keys().contains(k) <==> exists|j: int|
                    0 <= j < v@.len() && spec_fingerprint(#[trigger] v@[j]) as u64 == k,
            forall|i: int, j: int| 0 <= i < j < v@.len() ==> #[trigger] v@[i] != #[trigger] v@[j],
            forall|j: int|
                1 <= j < v@.len() ==> exists|p: int, a: int|
                    0 <= p < j && #[trigger] v@[j] == child::<TicTacToe, TicTacToeRules>(
                        self,
                        v@[p],
                        a,
                    ) && 0 <= a < spec_legal_of(v@[p]).len(),
            forall|j: int| 1 <= j < v@.len() ==> #[trigger] breadth_first_at::<TicTacToe, TicTacToeRules>(self, v@, j),
    {
        proof {
            self.lemma_reachable_bound();
        }
        match reachable_states::<TicTacToe, TicTacToeRules>(self, POSITION_KEY_BOUND) {
            Ok(v) => v,
            Err(_) => {
                proof {
                    assert(false);
                }
                Vec::new()
            },
        }
    }
}

} // verus!
