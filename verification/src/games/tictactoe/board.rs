//! Board state, cells, moves and outcomes for tic-tac-toe.

use vstd::prelude::*;
use vstd::array::*;
use vstd::string::*;
use crate::framework::traits::GameDomain;
use crate::framework::text::{decimal, with_decimal};

verus! {

/// A player. `X` moves first.
#[derive(Clone, Copy, PartialEq, Eq, Structural, Hash, Debug)]
pub enum Player {
    /// The first player to move.
    X,
    /// The second player to move.
    O,
}

impl Player {
    /// The opponent, as a specification.
    pub open spec fn spec_other(self) -> Player {
        match self {
            Player::X => Player::O,
            Player::O => Player::X,
        }
    }

    /// The opponent.
    pub fn other(self) -> (r: Player)
        ensures
            r == self.spec_other(),
    {
        match self {
            Player::X => Player::O,
            Player::O => Player::X,
        }
    }
}

/// Result of a finished game.
#[derive(Clone, Copy, PartialEq, Eq, Structural, Hash, Debug)]
pub enum Outcome {
    /// The named player won.
    Win(Player),
    /// The board filled with no winner.
    Draw,
}

/// A move: claim cell `.0` (row-major index 0..9).
#[derive(Clone, Copy, PartialEq, Eq, Structural, Hash, Debug)]
pub struct Move(pub usize);

/// The eight win lines; the index in this array is the line index.
pub const LINES: [[usize; 3]; 8] = [
    [0, 1, 2],
    [3, 4, 5],
    [6, 7, 8],
    [0, 3, 6],
    [1, 4, 7],
    [2, 5, 8],
    [0, 4, 8],
    [2, 4, 6],
];

/// Cell `k` (0..3) of win line `l` (0..8), as a specification.
pub open spec fn line_cell(l: int, k: int) -> int {
    if l == 0 {
        k
    } else if l == 1 {
        3 + k
    } else if l == 2 {
        6 + k
    } else if l == 3 {
        3 * k
    } else if l == 4 {
        1 + 3 * k
    } else if l == 5 {
        2 + 3 * k
    } else if l == 6 {
        4 * k
    } else {
        2 + 2 * k
    }
}

/// Cell `k` of win line `l`.
pub fn line_at(l: usize, k: usize) -> (c: usize)
    requires
        l < 8,
        k < 3,
    ensures
        c == line_cell(l as int, k as int),
        c < 9,
{
    let line = LINES[l];
    proof {
        assert(LINES@[l as int]@[k as int] == line_cell(l as int, k as int));
    }
    line[k]
}

/// 3x3 board plus side to move.
#[derive(Clone, Copy, PartialEq, Eq, Hash, Debug)]
pub struct Board {
    cells: [Option<Player>; 9],
    to_move: Player,
}


/// The cell contents a board character stands for: `X`, `O`, or `.` for empty; `None` for any
/// other character.
pub open spec fn cell_of_char(c: char) -> Option<Option<Player>> {
    if c == 'X' {
        Some(Some(Player::X))
    } else if c == 'O' {
        Some(Some(Player::O))
    } else if c == '.' {
        Some(None)
    } else {
        None
    }
}

/// Index of the first character of `s` at or after `i` that is not a board character, if any.
pub open spec fn first_invalid_from(s: Seq<char>, i: int) -> Option<int>
    decreases s.len() - i,
{
    if i >= s.len() || i < 0 {
        None
    } else if cell_of_char(s[i]) is None {
        Some(i)
    } else {
        first_invalid_from(s, i + 1)
    }
}

/// Number of occurrences of `c` among the first `n` characters of `s`.
pub open spec fn count_char(s: Seq<char>, c: char, n: int) -> int
    decreases n,
{
    if n <= 0 {
        0
    } else {
        count_char(s, c, n - 1) + if s[n - 1] == c {
            1int
        } else {
            0
        }
    }
}

/// The error `Board::parse` reports for `s`, or `None` when `s` is a valid board.
pub open spec fn spec_parse_error(s: Seq<char>) -> Option<Seq<char>> {
    if s.len() != 9 {
        Some("expected 9 characters, got "@ + decimal(s.len()))
    } else if first_invalid_from(s, 0) is Some {
        let i = first_invalid_from(s, 0)->0;
        Some("invalid character '"@ + seq![s[i]] + "' at position "@ + decimal(i as nat))
    } else {
        let x = count_char(s, 'X', 9);
        let o = count_char(s, 'O', 9);
        if x == o || x == o + 1 {
            None
        } else {
            Some("invalid cell counts: X="@ + decimal(x as nat) + ", O="@ + decimal(o as nat))
        }
    }
}

/// Character rendering of one cell.
pub open spec fn cell_char(c: Option<Player>) -> char {
    match c {
        Some(Player::X) => 'X',
        Some(Player::O) => 'O',
        None => '.',
    }
}

impl Board {
    /// Occupant of cell `i`, as a specification.
    pub closed spec fn spec_cell(self, i: int) -> Option<Player> {
        self.cells@[i]
    }

    /// The cells, row-major, as a sequence of length 9.
    pub closed spec fn spec_cells(self) -> Seq<Option<Player>> {
        self.cells@
    }

    /// Side to move, as a specification.
    pub closed spec fn spec_to_move(self) -> Player {
        self.to_move
    }

    /// The board with cell `i` claimed by `p` and the side to move set to `p`'s opponent.
    pub closed spec fn spec_place(self, i: int, p: Player) -> Board {
        Board { cells: spec_array_update(self.cells, i, Some(p)), to_move: p.spec_other() }
    }

    /// The board with cell `i` set to `c` and the same side to move.
    pub closed spec fn spec_with_cell(self, i: int, c: Option<Player>) -> Board {
        Board { cells: spec_array_update(self.cells, i, c), to_move: self.to_move }
    }

    /// Cells and side to move of a board after `spec_with_cell`.
    pub broadcast proof fn lemma_with_cell(b: Board, i: int, c: Option<Player>, j: int)
        requires
            0 <= i < 9,
            0 <= j < 9,
        ensures
            #[trigger] b.spec_with_cell(i, c).spec_cell(j) == if j == i {
                c
            } else {
                b.spec_cell(j)
            },
            b.spec_with_cell(i, c).spec_to_move() == b.spec_to_move(),
    {
        broadcast use vstd::array::group_array_axioms;

    }

    /// The empty board with `X` to move.
    pub closed spec fn spec_empty() -> Board {
        Board { cells: spec_array_fill_for_copy_type(None), to_move: Player::X }
    }

    /// Facts about the accessors: nine cells, `spec_cell` reads `spec_cells`.
    pub broadcast proof fn lemma_cells(b: Board)
        ensures
            #[trigger] b.spec_cells().len() == 9,
            forall|i: int| #[trigger] b.spec_cell(i) == b.spec_cells()[i],
    {
    }

    /// Two boards with the same cells and side to move are equal.
    pub proof fn lemma_ext(a: Board, b: Board)
        requires
            forall|i: int| 0 <= i < 9 ==> a.spec_cell(i) == b.spec_cell(i),
            a.spec_to_move() == b.spec_to_move(),
        ensures
            a == b,
    {
        broadcast use vstd::array::group_array_axioms;

        assert forall|i: int| 0 <= i < 9 implies a.cells[i] == b.cells[i] by {
            assert(a.spec_cell(i) == b.spec_cell(i));
        }
        assert(a.cells =~= b.cells);
    }

    /// What `spec_place` changes and keeps.
    pub broadcast proof fn lemma_place(b: Board, i: int, p: Player)
        requires
            0 <= i < 9,
        ensures
            #[trigger] b.spec_place(i, p).spec_cells() == b.spec_cells().update(i, Some(p)),
            b.spec_place(i, p).spec_to_move() == p.spec_other(),
    {
    }

    /// Cells of a board after `spec_place`.
    pub broadcast proof fn lemma_place_cell(b: Board, i: int, p: Player, j: int)
        requires
            0 <= i < 9,
            0 <= j < 9,
        ensures
            #[trigger] b.spec_place(i, p).spec_cell(j) == if j == i {
                Some(p)
            } else {
                b.spec_cell(j)
            },
            b.spec_place(i, p).spec_to_move() == p.spec_other(),
    {
        broadcast use vstd::array::group_array_axioms;

    }

    /// The empty board's cells and side to move.
    pub broadcast proof fn lemma_empty()
        ensures
            #[trigger] Board::spec_empty().spec_cells() == Seq::new(9, |i: int| None::<Player>),
            Board::spec_empty().spec_to_move() == Player::X,
    {
        assert(Board::spec_empty().spec_cells() =~= Seq::new(9, |i: int| None::<Player>));
    }

    /// Whether `p` holds all three cells of line `l`.
    pub open spec fn spec_holds_line(self, l: int, p: Player) -> bool {
        &&& self.spec_cell(line_cell(l, 0)) == Some(p)
        &&& self.spec_cell(line_cell(l, 1)) == Some(p)
        &&& self.spec_cell(line_cell(l, 2)) == Some(p)
    }

    /// The holder of the first line, from line `l` on in `LINES` order, held entirely by one player.
    pub open spec fn spec_winner_from(self, l: int) -> Option<Player>
        decreases 8 - l,
    {
        if l >= 8 || l < 0 {
            None
        } else if self.spec_cell(line_cell(l, 0)) is Some && self.spec_holds_line(
            l,
            self.spec_cell(line_cell(l, 0))->0,
        ) {
            self.spec_cell(line_cell(l, 0))
        } else {
            self.spec_winner_from(l + 1)
        }
    }

    /// The winner: the holder of the first line in `LINES` order held entirely by one player.
    pub open spec fn spec_winner(self) -> Option<Player> {
        self.spec_winner_from(0)
    }

    /// The first line held from `l` on gives the winner; none held from `l` on gives none.
    pub proof fn lemma_winner_from(self, l: int)
        requires
            0 <= l <= 8,
        ensures
            self.spec_winner_from(l) matches Some(p) ==> exists|m: int|
                l <= m < 8 && #[trigger] self.spec_holds_line(m, p),
            self.spec_winner_from(l) is None ==> forall|m: int, p: Player|
                l <= m < 8 ==> !#[trigger] self.spec_holds_line(m, p),
        decreases 8 - l,
    {
        if l < 8 {
            self.lemma_winner_from(l + 1);
            if self.spec_winner_from(l) is None {
                assert forall|m: int, p: Player| l <= m < 8 implies !#[trigger] self.spec_holds_line(m, p) by {
                    if m == l && self.spec_holds_line(m, p) {
                        assert(self.spec_cell(line_cell(l, 0)) == Some(p));
                    }
                }
            }
        }
    }

    /// Whether `p` holds some win line.
    pub open spec fn spec_has_line(self, p: Player) -> bool {
        exists|l: int| 0 <= l < 8 && #[trigger] self.spec_holds_line(l, p)
    }

    /// When not both players hold a line, the winner is the player holding one, if any.
    pub proof fn lemma_winner_holds(self)
        requires
            !(self.spec_has_line(Player::X) && self.spec_has_line(Player::O)),
        ensures
            (self.spec_winner() == Some(Player::X)) == self.spec_has_line(Player::X),
            (self.spec_winner() == Some(Player::O)) == self.spec_has_line(Player::O),
            (self.spec_winner() is None) == (!self.spec_has_line(Player::X) && !self.spec_has_line(
                Player::O,
            )),
    {
        self.lemma_winner_from(0);
        if self.spec_winner() is None {
            assert(!self.spec_has_line(Player::X));
            assert(!self.spec_has_line(Player::O));
        }
    }

    /// Whether every cell is occupied.
    pub open spec fn spec_is_full(self) -> bool {
        forall|i: int| 0 <= i < 9 ==> #[trigger] self.spec_cell(i) is Some
    }

    /// The board rendered as three rows of `X`, `O` and `.`, separated by newlines.
    pub open spec fn spec_render(self) -> Seq<char> {
        seq![
            cell_char(self.spec_cell(0)),
            cell_char(self.spec_cell(1)),
            cell_char(self.spec_cell(2)),
            '\n',
            cell_char(self.spec_cell(3)),
            cell_char(self.spec_cell(4)),
            cell_char(self.spec_cell(5)),
            '\n',
            cell_char(self.spec_cell(6)),
            cell_char(self.spec_cell(7)),
            cell_char(self.spec_cell(8)),
        ]
    }

    /// An empty board with `X` to move.
    pub fn empty() -> (b: Board)
        ensures
            b == Board::spec_empty(),
            forall|i: int| 0 <= i < 9 ==> b.spec_cell(i) is None,
            b.spec_to_move() == Player::X,
    {
        Board { cells: [None;9], to_move: Player::X }
    }

    /// Construct a board directly from cell contents and side to move.
    pub fn from_cells(cells: [Option<Player>; 9], to_move: Player) -> (b: Board)
        ensures
            b.spec_cells() == cells@,
            forall|i: int| 0 <= i < 9 ==> b.spec_cell(i) == cells@[i],
            b.spec_to_move() == to_move,
    {
        Board { cells, to_move }
    }

    /// Whether `self` and `other` have the same cells and side to move.
    pub fn same(&self, other: &Board) -> (r: bool)
        ensures
            r == (*self == *other),
    {
        if self.to_move != other.to_move {
            return false;
        }
        let mut i: usize = 0;
        while i < 9
            invariant
                i <= 9,
                forall|j: int| 0 <= j < i ==> self.spec_cell(j) == other.spec_cell(j),
            decreases 9 - i,
        {
            if self.cells[i] != other.cells[i] {
                return false;
            }
            i = i + 1;
        }
        proof {
            Board::lemma_ext(*self, *other);
        }
        true
    }

    /// The board's cells, row-major.
    pub fn cells(&self) -> (c: &[Option<Player>; 9])
        ensures
            c@ == self.spec_cells(),
    {
        &self.cells
    }

    /// Occupant of `index`.
    pub fn cell(&self, index: usize) -> (c: Option<Player>)
        requires
            index < 9,
        ensures
            c == self.spec_cell(index as int),
    {
        self.cells[index]
    }

    /// Player whose turn it is.
    pub fn to_move(&self) -> (p: Player)
        ensures
            p == self.spec_to_move(),
    {
        self.to_move
    }

    /// The winner, if any: the first line in `LINES` order held entirely by one player.
    pub fn winner(&self) -> (w: Option<Player>)
        ensures
            w == self.spec_winner(),
    {
        let mut l: usize = 0;
        while l < 8
            invariant
                l <= 8,
                self.spec_winner() == self.spec_winner_from(l as int),
            decreases 8 - l,
        {
            let a = line_at(l, 0);
            let b = line_at(l, 1);
            let c = line_at(l, 2);
            match self.cells[a] {
                Some(p) => {
                    if self.cells[b] == Some(p) && self.cells[c] == Some(p) {
                        return Some(p);
                    }
                },
                None => {},
            }
            l = l + 1;
        }
        None
    }

    /// Whether every cell is occupied.
    pub fn is_full(&self) -> (r: bool)
        ensures
            r == self.spec_is_full(),
    {
        let mut i: usize = 0;
        while i < 9
            invariant
                i <= 9,
                forall|j: int| 0 <= j < i ==> #[trigger] self.spec_cell(j) is Some,
            decreases 9 - i,
        {
            if self.cells[i].is_none() {
                assert(!(self.spec_cell(i as int) is Some));
                return false;
            }
            i = i + 1;
        }
        true
    }

    /// Parse a board from a 9-character string over `{X, O, .}`, cell `i` at char `i`, row-major.
    /// Side to move is derived from counts: `X` to move when counts are equal, `O` to move when
    /// `X` has exactly one more than `O`. Any other length, character, or count is an error.
    pub fn parse(s: &str) -> (r: Result<Board, String>)
        ensures
            match r {
                Ok(b) => {
                    &&& spec_parse_error(s@) is None
                    &&& forall|i: int| 0 <= i < 9 ==> Some(#[trigger] b.spec_cell(i)) == cell_of_char(s@[i])
                    &&& b.spec_to_move() == if count_char(s@, 'X', 9) == count_char(s@, 'O', 9) {
                        Player::X
                    } else {
                        Player::O
                    }
                },
                Err(m) => spec_parse_error(s@) == Some(m@),
            },
    {
        let n = s.unicode_len();
        if n != 9 {
            return Err(with_decimal("expected 9 characters, got ", n));
        }
        let mut cells: [Option<Player>; 9] = [None;9];
        let mut x_count: usize = 0;
        let mut o_count: usize = 0;
        let mut i: usize = 0;
        while i < 9
            invariant
                n == 9,
                s@.len() == 9,
                i <= 9,
                first_invalid_from(s@, 0) == first_invalid_from(s@, i as int),
                forall|j: int| 0 <= j < i ==> Some(#[trigger] cells@[j]) == cell_of_char(s@[j]),
                x_count == count_char(s@, 'X', i as int),
                o_count == count_char(s@, 'O', i as int),
                x_count <= i,
                o_count <= i,
            decreases 9 - i,
        {
            let ch = s.get_char(i);
            if ch == 'X' {
                cells[i] = Some(Player::X);
                x_count = x_count + 1;
            } else if ch == 'O' {
                cells[i] = Some(Player::O);
                o_count = o_count + 1;
            } else if ch == '.' {
                cells[i] = None;
            } else {
                let mut m = String::from_str("invalid character '");
                let c = s.substring_char(i, i + 1);
                proof {
                    assert(c@ =~= seq![ch]);
                }
                m.append(c);
                let tail = with_decimal("' at position ", i);
                m.append(tail.as_str());
                return Err(m);
            }
            i = i + 1;
        }
        let to_move = if x_count == o_count {
            Player::X
        } else if x_count == o_count + 1 {
            Player::O
        } else {
            let mut m = with_decimal("invalid cell counts: X=", x_count);
            let tail = with_decimal(", O=", o_count);
            m.append(tail.as_str());
            return Err(m);
        };
        Ok(Board { cells, to_move })
    }

    /// The board as three rows of `X`, `O` and `.`, separated by newlines.
    pub fn to_string(&self) -> (s: String)
        ensures
            s@ == self.spec_render(),
    {
        let mut s = String::new();
        let mut i: usize = 0;
        while i < 9
            invariant
                i <= 9,
                s@ == self.spec_render().take(i as int + i as int / 3 - if i > 0 && i % 3 == 0 { 1int } else { 0 }),
            decreases 9 - i,
        {
            if i > 0 && i % 3 == 0 {
                proof { reveal_strlit("\n"); }
                s.append("\n");
            }
            let ch = match self.cells[i] {
                Some(Player::X) => {
                    proof { reveal_strlit("X"); }
                    "X"
                },
                Some(Player::O) => {
                    proof { reveal_strlit("O"); }
                    "O"
                },
                None => {
                    proof { reveal_strlit("."); }
                    "."
                },
            };
            s.append(ch);
            i = i + 1;
        }
        s
    }

    /// A copy with `index` claimed by `player` and the side to move flipped. No legality checks.
    pub fn place(&self, index: usize, player: Player) -> (b: Board)
        requires
            index < 9,
        ensures
            b == self.spec_place(index as int, player),
            forall|i: int| 0 <= i < 9 && i != index ==> b.spec_cell(i) == self.spec_cell(i),
            b.spec_cell(index as int) == Some(player),
            b.spec_to_move() == player.spec_other(),
    {
        let mut cells = self.cells;
        cells[index] = Some(player);
        let b = Board { cells, to_move: player.other() };
        proof {
            assert(b.cells =~= spec_array_update(self.cells, index as int, Some(player)));
        }
        b
    }
}


/// Marker type for the tic-tac-toe domain.
#[derive(Debug, Clone, Copy, Default)]
pub struct TicTacToe;

impl Default for Board {
    /// The empty board with `X` to move.
    fn default() -> (b: Board)
        ensures
            b == Board::spec_empty(),
    {
        Board::empty()
    }
}

impl GameDomain for TicTacToe {
    type State = Board;
    type Action = Move;
    type Player = Player;
    type Outcome = Outcome;
    type StrategySpec = super::roster::BenchmarkSpec;

    open spec fn spec_winner(outcome: Outcome) -> Option<Player> {
        match outcome {
            Outcome::Win(p) => Some(p),
            Outcome::Draw => None,
        }
    }

    fn winner(outcome: &Outcome) -> (w: Option<Player>) {
        match outcome {
            Outcome::Win(p) => Some(*p),
            Outcome::Draw => None,
        }
    }

    open spec fn spec_player_label(p: Player) -> Seq<char> {
        match p {
            Player::X => "X"@,
            Player::O => "O"@,
        }
    }

    proof fn lemma_label_injective(p: Player, q: Player) {
        reveal_strlit("X");
        reveal_strlit("O");
        assert("X"@[0] != "O"@[0]);
    }

    fn player_label(p: &Player) -> (s: String) {
        proof {
            reveal_strlit("X");
            reveal_strlit("O");
        }
        match p {
            Player::X => String::from_str("X"),
            Player::O => String::from_str("O"),
        }
    }

    fn same_player(a: &Player, b: &Player) -> (r: bool) {
        *a == *b
    }

    fn same_action(a: &Move, b: &Move) -> (r: bool) {
        a.0 == b.0
    }

    fn same_state(a: &Board, b: &Board) -> (r: bool) {
        a.same(b)
    }

    fn same_outcome(a: &Outcome, b: &Outcome) -> (r: bool) {
        *a == *b
    }
}

} // verus!
