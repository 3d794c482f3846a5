//! Search-engine facing facts about tic-tac-toe boards: a unique 19-bit fingerprint per
//! position.

use vstd::prelude::*;
use super::board::{Board, Player};

verus! {

/// Two-bit code of a cell: `0` empty, `1` X, `2` O.
pub open spec fn cell_code(c: Option<Player>) -> int {
    match c {
        None => 0,
        Some(Player::X) => 1,
        Some(Player::O) => 2,
    }
}

/// The cell codes of the first `n` cells, as base-4 digits, cell 0 most significant.
pub open spec fn fingerprint_prefix(b: Board, n: int) -> int
    decreases n,
{
    if n <= 0 {
        0
    } else {
        fingerprint_prefix(b, n - 1) * 4 + cell_code(b.spec_cell(n - 1))
    }
}

/// 2 bits per cell (`None` = 0, `X` = 1, `O` = 2), cell 0 first, then 1 bit for side to move
/// (`O` = 1).
pub open spec fn spec_fingerprint(b: Board) -> int {
    fingerprint_prefix(b, 9) * 2 + if b.spec_to_move() == Player::O {
        1int
    } else {
        0
    }
}

/// `4^n`.
pub open spec fn pow4(n: nat) -> nat
    decreases n,
{
    if n == 0 {
        1
    } else {
        4 * pow4((n - 1) as nat)
    }
}

/// The prefix code of `n` cells lies in `0..4^n`.
pub proof fn lemma_fingerprint_prefix_bound(b: Board, n: nat)
    ensures
        0 <= fingerprint_prefix(b, n as int) < pow4(n),
    decreases n,
{
    if n > 0 {
        lemma_fingerprint_prefix_bound(b, (n - 1) as nat);
    }
}

/// Boards agreeing on their first `n` prefix codes agree on their first `n` cells.
proof fn lemma_prefix_injective(a: Board, b: Board, n: nat)
    requires
        fingerprint_prefix(a, n as int) == fingerprint_prefix(b, n as int),
    ensures
        forall|i: int| 0 <= i < n ==> a.spec_cell(i) == b.spec_cell(i),
    decreases n,
{
    if n > 0 {
        let x = fingerprint_prefix(a, n - 1);
        let y = fingerprint_prefix(b, n - 1);
        lemma_fingerprint_prefix_bound(a, (n - 1) as nat);
        lemma_fingerprint_prefix_bound(b, (n - 1) as nat);
        assert(x == y && cell_code(a.spec_cell(n - 1)) == cell_code(b.spec_cell(n - 1)));
        lemma_prefix_injective(a, b, (n - 1) as nat);
    }
}

/// Every position has its own fingerprint.
pub proof fn lemma_fingerprint_injective(a: Board, b: Board)
    requires
        spec_fingerprint(a) == spec_fingerprint(b),
    ensures
        a == b,
{
    lemma_fingerprint_prefix_bound(a, 9);
    lemma_fingerprint_prefix_bound(b, 9);
    lemma_prefix_injective(a, b, 9);
    Board::lemma_ext(a, b);
}

/// Fingerprint of a position, unique for every position; the empty board's is `0`.
pub fn fingerprint(b: &Board) -> (fp: u64)
    ensures
        fp == spec_fingerprint(*b),
        fp < 524288,
{
    let mut fp: u64 = 0;
    let mut i: usize = 0;
    while i < 9
        invariant
            i <= 9,
            fp == fingerprint_prefix(*b, i as int),
        decreases 9 - i,
    {
        proof {
            lemma_fingerprint_prefix_bound(*b, i as nat);
            assert(pow4(i as nat) <= 65536) by {
                assert(pow4(0) == 1);
                assert(pow4(1) == 4);
                assert(pow4(2) == 16);
                assert(pow4(3) == 64);
                assert(pow4(4) == 256);
                assert(pow4(5) == 1024);
                assert(pow4(6) == 4096);
                assert(pow4(7) == 16384);
                assert(pow4(8) == 65536);
            }
        }
        let code: u64 = match b.cell(i) {
            None => 0,
            Some(Player::X) => 1,
            Some(Player::O) => 2,
        };
        fp = fp * 4 + code;
        i = i + 1;
    }
    proof {
        lemma_fingerprint_prefix_bound(*b, 9);
        assert(pow4(9) == 262144) by {
            reveal_with_fuel(pow4, 10);
        }
    }
    let side: u64 = if b.to_move() == Player::O {
        1
    } else {
        0
    };
    fp * 2 + side
}

} // verus!
