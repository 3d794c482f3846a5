//! Canonicalization of tic-tac-toe boards under the dihedral symmetry group: the image with the
//! lowest base-3 encoding over all group elements is the canonical representative.

use vstd::prelude::*;
use super::board::{line_cell, Board, Move, Player, TicTacToe};
use super::primitives::{
    is_transform, lemma_identity_maps_lines, lemma_maps_lines_compose, lemma_reflect_maps_lines,
    lemma_rot90_maps_lines, lemma_transform_compose, lemma_transform_identity,
    lemma_transform_keeps_full, lemma_transform_keeps_lines, lemma_transform_unique, lemma_transformed,
    maps_lines, reflect_seq, rot90_seq, spec_transformed, TicTacToePrimitives,
};
use super::rules::{spec_next_of, spec_outcome_of, TicTacToeRules};
use crate::io::replay::state_after;
use crate::framework::traits::Canonicalize;
use crate::framework::symmetry::{
    closed_upto, compose_seq, elements_ok, generated, generated_at, identity_seq, is_perm,
    lemma_generated_closed, lemma_inverse_in_group,
    Permutation, SymmetryGroup,
};

verus! {

/// The base-3 digit of a cell: empty 0, X 1, O 2.
pub open spec fn cell_digit(c: Option<Player>) -> int {
    match c {
        None => 0,
        Some(Player::X) => 1,
        Some(Player::O) => 2,
    }
}

/// Cells `0..n` of `b` read as base-3 digits, cell 0 most significant.
pub open spec fn encode_prefix(b: Board, n: int) -> int
    decreases n,
{
    if n <= 0 {
        0
    } else {
        encode_prefix(b, n - 1) * 3 + cell_digit(b.spec_cell(n - 1))
    }
}

/// The base-3 encoding of the whole board; the side to move does not enter it.
pub open spec fn spec_encode(b: Board) -> int {
    encode_prefix(b, 9)
}

/// `3^n`.
pub open spec fn pow3(n: nat) -> nat
    decreases n,
{
    if n == 0 {
        1
    } else {
        3 * pow3((n - 1) as nat)
    }
}

/// An encoding prefix is a non-negative number below `3^n`.
pub proof fn lemma_encode_prefix_bound(b: Board, n: nat)
    ensures
        0 <= encode_prefix(b, n as int) < pow3(n),
    decreases n,
{
    if n > 0 {
        lemma_encode_prefix_bound(b, (n - 1) as nat);
    }
}

/// Boards with equal encodings agree on every cell.
pub proof fn lemma_encode_injective(a: Board, b: Board)
    requires
        spec_encode(a) == spec_encode(b),
    ensures
        forall|i: int| 0 <= i < 9 ==> #[trigger] a.spec_cell(i) == b.spec_cell(i),
{
    lemma_encode_prefix_injective(a, b, 9);
}

proof fn lemma_encode_prefix_injective(a: Board, b: Board, n: nat)
    requires
        encode_prefix(a, n as int) == encode_prefix(b, n as int),
    ensures
        forall|i: int| 0 <= i < n ==> #[trigger] a.spec_cell(i) == b.spec_cell(i),
    decreases n,
{
    if n > 0 {
        let m = (n - 1) as nat;
        lemma_encode_prefix_bound(a, m);
        lemma_encode_prefix_bound(b, m);
        let x = encode_prefix(a, m as int);
        let y = encode_prefix(b, m as int);
        let d = cell_digit(a.spec_cell(m as int));
        let e = cell_digit(b.spec_cell(m as int));
        assert(d == e && x == y) by (nonlinear_arith)
            requires
                x * 3 + d == y * 3 + e,
                0 <= d <= 2,
                0 <= e <= 2,
        ;
        lemma_encode_prefix_injective(a, b, m);
        assert(a.spec_cell(m as int) == b.spec_cell(m as int)) by {
            match a.spec_cell(m as int) {
                None => {},
                Some(Player::X) => {},
                Some(Player::O) => {},
            }
        }
    }
}

/// Encodes a board as a base-3 number over cells `0..9`: empty 0, X 1, O 2, cell 0 most
/// significant. The side to move is invariant under symmetry and does not enter the code.
pub fn encode(board: &Board) -> (code: u32)
    ensures
        code == spec_encode(*board),
        code < 19683,
{
    let mut code: u32 = 0;
    let mut p: usize = 0;
    while p < 9
        invariant
            p <= 9,
            code == encode_prefix(*board, p as int),
            code < pow3(p as nat),
            pow3(p as nat) <= 19683,
        decreases 9 - p,
    {
        let digit: u32 = match board.cell(p) {
            None => 0,
            Some(Player::X) => 1,
            Some(Player::O) => 2,
        };
        proof {
            reveal_with_fuel(pow3, 10);
            assert(pow3(((p + 1) as nat)) == 3 * pow3(p as nat));
            assert(pow3(9) == 19683);
            if p + 1 < 9 {
                lemma_pow3_monotone((p + 1) as nat, 9);
            }
        }
        code = code * 3 + digit;
        p = p + 1;
    }
    code
}

proof fn lemma_pow3_monotone(a: nat, b: nat)
    requires
        a <= b,
    ensures
        pow3(a) <= pow3(b),
    decreases b - a,
{
    if a < b {
        lemma_pow3_monotone(a, (b - 1) as nat);
    }
}

/// `image` is the lowest-coded image of `state` under the permutations `es`, and `k` is the
/// first index at which that code is reached.
pub open spec fn is_first_minimal_image(es: Seq<Permutation>, state: Board, image: Board, k: int) -> bool {
    &&& 0 <= k < es.len()
    &&& is_transform(state, es[k]@, image)
    &&& forall|j: int, other: Board|
        0 <= j < es.len() && #[trigger] is_transform(state, es[j]@, other) ==> spec_encode(image)
            <= spec_encode(other)
    &&& forall|j: int, other: Board|
        0 <= j < k && #[trigger] is_transform(state, es[j]@, other) ==> spec_encode(image) < spec_encode(
            other,
        )
}

/// Canonicalizes tic-tac-toe boards by taking the lowest-coded image over the elements of the
/// board's symmetry group.
#[derive(Debug)]
pub struct TicTacToeCanonicalizer {
    group: SymmetryGroup,
    primitives: TicTacToePrimitives,
}

impl TicTacToeCanonicalizer {
    /// The group acts on the 9 cells.
    #[verifier::type_invariant]
    spec fn inv(self) -> bool {
        self.group.spec_degree() == 9
    }

    /// The elements of the group the canonicalizer minimises over, identity first.
    pub closed spec fn spec_elements(&self) -> Seq<Permutation> {
        self.group.spec_elements()
    }

    /// Builds a canonicalizer, computing the board's symmetry group once.
    pub fn new() -> (c: Self)
        ensures
            board_group(c.spec_elements()),
    {
        let primitives = TicTacToePrimitives;
        TicTacToeCanonicalizer { group: primitives.symmetry_group(), primitives }
    }

    /// The canonical form of `state` and the group element that maps `state` onto it: the
    /// lowest-coded image, and among the elements reaching that code the first one.
    fn minimal_image(&self, state: &Board) -> (r: (Board, Permutation))
        ensures
            elements_ok(self.spec_elements(), 9),
            exists|k: int|
                is_first_minimal_image(self.spec_elements(), *state, r.0, k) && r.1@
                    == #[trigger] self.spec_elements()[k]@,
    {
        proof {
            use_type_invariant(self);
        }
        let elements = self.group.elements();
        let mut best_code = encode(state);
        let mut best_state = *state;
        let mut best_perm = Permutation::identity(9);
        let ghost mut best_k: int = 0;
        proof {
            assert(is_transform(*state, identity_seq(9), *state));
        }
        let mut i: usize = 0;
        while i < elements.len()
            invariant
                elements@ == self.spec_elements(),
                elements@.len() >= 1,
                elements@[0]@ == identity_seq(9),
                elements_ok(elements@, 9),
                i <= elements@.len(),
                0 <= best_k < elements@.len(),
                best_k <= i,
                best_perm@ == elements@[best_k]@,
                is_transform(*state, best_perm@, best_state),
                best_code == spec_encode(best_state),
                forall|j: int, other: Board|
                    0 <= j < i && #[trigger] is_transform(*state, elements@[j]@, other) ==> best_code
                        <= spec_encode(other),
                forall|j: int, other: Board|
                    0 <= j < best_k && #[trigger] is_transform(*state, elements@[j]@, other)
                        ==> best_code < spec_encode(other),
            decreases elements@.len() - i,
        {
            let perm = &elements[i];
            let image = self.primitives.transform(state, perm);
            let code = encode(&image);
            proof {
                assert forall|other: Board| #[trigger]
                    is_transform(*state, elements@[i as int]@, other) implies other == image by {
                    lemma_transform_unique(*state, elements@[i as int]@, other, image);
                }
            }
            if code < best_code {
                best_code = code;
                best_state = image;
                best_perm = perm.clone();
                proof {
                    best_k = i as int;
                }
            }
            i = i + 1;
        }
        proof {
            assert(is_first_minimal_image(self.spec_elements(), *state, best_state, best_k));
        }
        (best_state, best_perm)
    }
}

/// The lowest-coded image of `state` under the elements `es` (the first element reaching it).
pub open spec fn minimal_image_of(es: Seq<Permutation>, state: Board) -> Board {
    choose|img: Board| #[trigger] is_minimal_image(es, state, img)
}

/// `img` is the lowest-coded image of `state` under `es`, reached first at some index.
pub open spec fn is_minimal_image(es: Seq<Permutation>, state: Board, img: Board) -> bool {
    exists|k: int| #[trigger] is_first_minimal_image(es, state, img, k)
}

/// The index of the first element of `es` reaching the lowest-coded image of `state`.
pub open spec fn minimal_index_of(es: Seq<Permutation>, state: Board) -> int {
    choose|k: int| #[trigger] is_first_minimal_image(es, state, minimal_image_of(es, state), k)
}

/// The lowest-coded image and the first index reaching it are unique.
pub proof fn lemma_minimal_image_unique(
    es: Seq<Permutation>,
    state: Board,
    a: Board,
    ka: int,
    b: Board,
    kb: int,
)
    requires
        elements_ok(es, 9),
        is_first_minimal_image(es, state, a, ka),
        is_first_minimal_image(es, state, b, kb),
    ensures
        a == b,
        ka == kb,
{
    if ka < kb {
        assert(is_transform(state, es[ka]@, a));
        assert(spec_encode(b) < spec_encode(a));
        assert(is_transform(state, es[kb]@, b));
        assert(false);
    }
    if kb < ka {
        assert(is_transform(state, es[kb]@, b));
        assert(spec_encode(a) < spec_encode(b));
        assert(is_transform(state, es[ka]@, a));
        assert(false);
    }
    assert(es[ka]@.len() == 9 && is_perm(es[ka]@));
    lemma_transform_unique(state, es[ka]@, a, b);
}

impl Canonicalize<TicTacToe> for TicTacToeCanonicalizer {
    /// The lowest-coded image of `state` over the group's elements.
    open spec fn spec_canonical(&self, state: Board) -> Board {
        minimal_image_of(self.spec_elements(), state)
    }

    /// The first group element reaching the lowest-coded image of `state`.
    open spec fn spec_transform(&self, state: Board) -> Seq<usize> {
        self.spec_elements()[minimal_index_of(self.spec_elements(), state)]@
    }

    fn canonicalize_with_transform(&self, state: &Board) -> (r: (Board, Permutation)) {
        let r = self.minimal_image(state);
        proof {
            let es = self.spec_elements();
            let k = choose|k: int| is_first_minimal_image(es, *state, r.0, k) && r.1@ == #[trigger] es[k]@;
            assert(is_minimal_image(es, *state, r.0));
            let img = minimal_image_of(es, *state);
            assert(is_first_minimal_image(es, *state, img, minimal_index_of(es, *state)));
            lemma_minimal_image_unique(es, *state, r.0, k, img, minimal_index_of(es, *state));
            assert(k == minimal_index_of(es, *state));
            assert(r.1@ == es[k]@);
            assert(self.spec_transform(*state) == es[minimal_index_of(es, *state)]@);
        }
        r
    }
}

/// The facts `TicTacToeCanonicalizer::new` establishes of its elements: distinct permutations
/// of the 9 cells, the identity first, closed under the rotation and the reflection, each
/// reached from an earlier one by one of them.
pub open spec fn board_group(es: Seq<Permutation>) -> bool {
    &&& es.len() >= 1
    &&& es[0]@ == identity_seq(9)
    &&& elements_ok(es, 9)
    &&& closed_upto(es, seq![rot90_seq(), reflect_seq()], es.len() as int)
    &&& generated(es, seq![rot90_seq(), reflect_seq()])
}

/// A canonical form is its own canonical form, reached by the identity (the first element).
pub proof fn lemma_canonical_form_is_fixed(es: Seq<Permutation>, s: Board, img: Board, k: int)
    requires
        board_group(es),
        is_first_minimal_image(es, s, img, k),
    ensures
        is_first_minimal_image(es, img, img, 0),
{
    lemma_generated_closed(es, seq![rot90_seq(), reflect_seq()], 9);
    lemma_transform_identity(img);
    assert forall|j: int, other: Board|
        0 <= j < es.len() && #[trigger] is_transform(img, es[j]@, other) implies spec_encode(img)
            <= spec_encode(other) by {
        let c = compose_seq(es[k]@, es[j]@);
        assert(es[k]@.len() == 9 && crate::framework::symmetry::is_perm(es[k]@));
        lemma_transform_compose(s, es[k]@, img, es[j]@, other);
        assert(crate::framework::symmetry::holds_perm(es, c));
        let m = choose|m: int| 0 <= m < es.len() && (#[trigger] es[m])@ == c;
        assert(is_transform(s, es[m]@, other));
    }
}

/// Every element of the board's group maps win lines onto win lines.
pub proof fn lemma_group_maps_lines(es: Seq<Permutation>, k: int)
    requires
        board_group(es),
        0 <= k < es.len(),
    ensures
        maps_lines(es[k]@),
    decreases k,
{
    let gens = seq![rot90_seq(), reflect_seq()];
    if k == 0 {
        lemma_identity_maps_lines();
    } else {
        assert(generated_at(es, gens, k));
        let (i, j) = choose|i: int, j: int|
            0 <= i < k && 0 <= j < gens.len() && es[k]@ == compose_seq(
                #[trigger] es[i]@,
                #[trigger] gens[j],
            );
        lemma_group_maps_lines(es, i);
        lemma_rot90_maps_lines();
        lemma_reflect_maps_lines();
        assert(maps_lines(gens[j]));
        assert(es[i]@.len() == 9);
        lemma_maps_lines_compose(es[i]@, gens[j]);
    }
}

/// Canonicalizing keeps the side to move and, unless both players hold a win line, the outcome.
pub proof fn lemma_canonical_keeps_outcome(es: Seq<Permutation>, s: Board, img: Board, k: int)
    requires
        board_group(es),
        is_first_minimal_image(es, s, img, k),
        !(s.spec_has_line(Player::X) && s.spec_has_line(Player::O)),
    ensures
        img.spec_to_move() == s.spec_to_move(),
        spec_outcome_of(img) == spec_outcome_of(s),
{
    let perm = es[k]@;
    assert(perm.len() == 9 && is_perm(perm));
    lemma_group_maps_lines(es, k);
    lemma_transform_keeps_lines(s, perm, img, Player::X);
    lemma_transform_keeps_lines(s, perm, img, Player::O);
    lemma_transform_keeps_full(s, perm, img);
    s.lemma_winner_holds();
    img.lemma_winner_holds();
    if s.spec_winner() is None {
        assert(img.spec_winner() is None);
    } else if s.spec_winner() == Some(Player::X) {
        assert(img.spec_winner() == Some(Player::X));
    } else {
        assert(s.spec_winner() == Some(Player::O));
        assert(img.spec_winner() == Some(Player::O));
    }
}

/// Among the first `n` elements of `es`, the first index whose image of `state` has the lowest
/// code.
pub open spec fn first_min_index(es: Seq<Permutation>, state: Board, n: int) -> int
    decreases n,
{
    if n <= 1 {
        0
    } else {
        let b = first_min_index(es, state, n - 1);
        if spec_encode(spec_transformed(state, es[n - 1]@)) < spec_encode(
            spec_transformed(state, es[b]@),
        ) {
            n - 1
        } else {
            b
        }
    }
}

proof fn lemma_first_min_index(es: Seq<Permutation>, state: Board, n: int)
    requires
        elements_ok(es, 9),
        1 <= n <= es.len(),
    ensures
        0 <= first_min_index(es, state, n) < n,
        forall|j: int, other: Board|
            0 <= j < n && #[trigger] is_transform(state, es[j]@, other) ==> spec_encode(
                spec_transformed(state, es[first_min_index(es, state, n)]@),
            ) <= spec_encode(other),
        forall|j: int, other: Board|
            0 <= j < first_min_index(es, state, n) && #[trigger] is_transform(state, es[j]@, other)
                ==> spec_encode(spec_transformed(state, es[first_min_index(es, state, n)]@))
                < spec_encode(other),
    decreases n,
{
    assert forall|j: int, other: Board|
        0 <= j < n && #[trigger] is_transform(state, es[j]@, other) implies other
        == spec_transformed(state, es[j]@) by {
        lemma_transformed(state, es[j]@);
        lemma_transform_unique(state, es[j]@, other, spec_transformed(state, es[j]@));
    }
    if n > 1 {
        lemma_first_min_index(es, state, n - 1);
        lemma_transformed(state, es[n - 1]@);
    }
}

/// Every state has a lowest-coded image under the elements of a group, reached first at
/// `minimal_index_of`.
pub proof fn lemma_minimal_image_exists(es: Seq<Permutation>, state: Board)
    requires
        elements_ok(es, 9),
        es.len() >= 1,
    ensures
        is_first_minimal_image(es, state, minimal_image_of(es, state), minimal_index_of(es, state)),
{
    lemma_first_min_index(es, state, es.len() as int);
    let b = first_min_index(es, state, es.len() as int);
    let img = spec_transformed(state, es[b]@);
    lemma_transformed(state, es[b]@);
    assert(is_first_minimal_image(es, state, img, b));
    assert(is_minimal_image(es, state, img));
    let m = minimal_image_of(es, state);
    assert(is_minimal_image(es, state, m));
    let k = choose|k: int| #[trigger] is_first_minimal_image(es, state, m, k);
    assert(is_first_minimal_image(es, state, m, minimal_index_of(es, state)));
}

/// The canonical form is the image of the state under the returned transform, which is an
/// element of the group, and no image of the state under a group element has a lower code.
pub proof fn lemma_canonical_form(c: TicTacToeCanonicalizer, s: Board)
    requires
        board_group(c.spec_elements()),
    ensures
        is_transform(s, c.spec_transform(s), c.spec_canonical(s)),
        crate::framework::symmetry::holds_perm(c.spec_elements(), c.spec_transform(s)),
        forall|j: int, other: Board|
            0 <= j < c.spec_elements().len() && #[trigger] is_transform(s, c.spec_elements()[j]@, other)
                ==> spec_encode(c.spec_canonical(s)) <= spec_encode(other),
{
    let es = c.spec_elements();
    lemma_minimal_image_exists(es, s);
    let k = minimal_index_of(es, s);
    assert(es[k]@ == c.spec_transform(s));
}

/// Canonicalizing a canonical form gives it back, by the identity.
pub proof fn lemma_canonicalize_idempotent(c: TicTacToeCanonicalizer, s: Board)
    requires
        board_group(c.spec_elements()),
    ensures
        c.spec_canonical(c.spec_canonical(s)) == c.spec_canonical(s),
        c.spec_transform(c.spec_canonical(s)) == identity_seq(9),
{
    let es = c.spec_elements();
    let img = c.spec_canonical(s);
    lemma_minimal_image_exists(es, s);
    lemma_minimal_image_exists(es, img);
    lemma_canonical_form_is_fixed(es, s, img, minimal_index_of(es, s));
    lemma_minimal_image_unique(
        es,
        img,
        minimal_image_of(es, img),
        minimal_index_of(es, img),
        img,
        0,
    );
}

/// Canonicalizing keeps the side to move and, unless both players hold a win line, the outcome.
pub proof fn lemma_canonicalize_keeps_outcome(c: TicTacToeCanonicalizer, s: Board)
    requires
        board_group(c.spec_elements()),
        !(s.spec_has_line(Player::X) && s.spec_has_line(Player::O)),
    ensures
        c.spec_canonical(s).spec_to_move() == s.spec_to_move(),
        spec_outcome_of(c.spec_canonical(s)) == spec_outcome_of(s),
{
    let es = c.spec_elements();
    lemma_minimal_image_exists(es, s);
    lemma_canonical_keeps_outcome(es, s, c.spec_canonical(s), minimal_index_of(es, s));
}

/// No board reached from the empty board by legal moves has both players holding a line: a
/// move is only legal while no line is held, and it gives a line to the mover alone.
pub proof fn lemma_reached_not_both(moves: Seq<Move>, n: int)
    ensures
        state_after::<TicTacToe, TicTacToeRules>(&TicTacToeRules, moves, n) matches Some(s) ==> !(
        s.spec_has_line(Player::X) && s.spec_has_line(Player::O)),
    decreases n,
{
    broadcast use Board::lemma_place_cell;

    if n <= 0 {
        let e = Board::spec_empty();
        broadcast use Board::lemma_empty, Board::lemma_cells;
        assert forall|l: int| 0 <= l < 8 implies !#[trigger] e.spec_holds_line(l, Player::X) by {
            assert(0 <= line_cell(l, 0) < 9);
            assert(e.spec_cells().len() == 9);
            assert(e.spec_cell(line_cell(l, 0)) == None::<Player>);
        }
        assert(!e.spec_has_line(Player::X));
    } else {
        lemma_reached_not_both(moves, n - 1);
        if let Some(b) = state_after::<TicTacToe, TicTacToeRules>(&TicTacToeRules, moves, n - 1) {
            let m = moves[n - 1];
            if let Some(s) = spec_next_of(b, m) {
                b.lemma_winner_from(0);
                let i = m.0 as int;
                let p = b.spec_to_move();
                let q = p.spec_other();
                assert(s == b.spec_place(i, p));
                assert forall|l: int| 0 <= l < 8 implies !#[trigger] s.spec_holds_line(l, q) by {
                    assert(!b.spec_holds_line(l, q));
                    assert(0 <= line_cell(l, 0) < 9 && 0 <= line_cell(l, 1) < 9 && 0 <= line_cell(l, 2) < 9);
                }
                assert(!s.spec_has_line(q));
            }
        }
    }
}

/// Canonicalizing a board reached from the empty board by legal moves keeps its side to move
/// and its outcome.
pub proof fn lemma_reached_canonical_keeps_outcome(c: TicTacToeCanonicalizer, moves: Seq<Move>, n: int)
    requires
        board_group(c.spec_elements()),
    ensures
        state_after::<TicTacToe, TicTacToeRules>(&TicTacToeRules, moves, n) matches Some(s) ==> {
            &&& c.spec_canonical(s).spec_to_move() == s.spec_to_move()
            &&& spec_outcome_of(c.spec_canonical(s)) == spec_outcome_of(s)
        },
{
    lemma_reached_not_both(moves, n);
    if let Some(s) = state_after::<TicTacToe, TicTacToeRules>(&TicTacToeRules, moves, n) {
        lemma_canonicalize_keeps_outcome(c, s);
    }
}

/// Canonicalizing a board reached from the empty board by legal moves gives its lowest-coded
/// image under the symmetry group, reached by the returned transform; it keeps the side to move
/// and the outcome; and canonicalizing that image gives it back with the identity.
pub proof fn lemma_canonicalize_reached(c: TicTacToeCanonicalizer, moves: Seq<Move>, n: int)
    requires
        board_group(c.spec_elements()),
    ensures
        state_after::<TicTacToe, TicTacToeRules>(&TicTacToeRules, moves, n) matches Some(s) ==> {
            &&& is_transform(s, c.spec_transform(s), c.spec_canonical(s))
            &&& forall|j: int, other: Board|
                0 <= j < c.spec_elements().len() && #[trigger] is_transform(s, c.spec_elements()[j]@, other)
                    ==> spec_encode(c.spec_canonical(s)) <= spec_encode(other)
            &&& c.spec_canonical(s).spec_to_move() == s.spec_to_move()
            &&& spec_outcome_of(c.spec_canonical(s)) == spec_outcome_of(s)
            &&& c.spec_canonical(c.spec_canonical(s)) == c.spec_canonical(s)
            &&& c.spec_transform(c.spec_canonical(s)) == identity_seq(9)
        },
{
    lemma_reached_canonical_keeps_outcome(c, moves, n);
    if let Some(s) = state_after::<TicTacToe, TicTacToeRules>(&TicTacToeRules, moves, n) {
        lemma_canonical_form(c, s);
        lemma_canonicalize_idempotent(c, s);
    }
}

/// Boards related by a symmetry of the board have the same canonical form.
pub proof fn lemma_canonical_form_of_orbit(c: TicTacToeCanonicalizer, s: Board, g: int, t: Board)
    requires
        board_group(c.spec_elements()),
        0 <= g < c.spec_elements().len(),
        is_transform(s, c.spec_elements()[g]@, t),
    ensures
        c.spec_canonical(t) == c.spec_canonical(s),
{
    let es = c.spec_elements();
    let gens = seq![rot90_seq(), reflect_seq()];
    lemma_minimal_image_exists(es, s);
    lemma_minimal_image_exists(es, t);
    lemma_generated_closed(es, gens, 9);
    let a = c.spec_canonical(s);
    let ka = minimal_index_of(es, s);
    let b = c.spec_canonical(t);
    let kb = minimal_index_of(es, t);
    assert(es[g]@.len() == 9 && is_perm(es[g]@));
    // The canonical form of `t` is an image of `s`.
    lemma_transform_compose(s, es[g]@, t, es[kb]@, b);
    assert(crate::framework::symmetry::holds_perm(es, compose_seq(es[g]@, es[kb]@)));
    let m = choose|m: int| 0 <= m < es.len() && (#[trigger] es[m])@ == compose_seq(es[g]@, es[kb]@);
    assert(is_transform(s, es[m]@, b));
    assert(spec_encode(a) <= spec_encode(b));
    // The canonical form of `s` is an image of `t`, through the inverse of element `g`.
    lemma_inverse_in_group(es, gens, 9, g);
    let h = choose|h: int|
        0 <= h < es.len() && compose_seq(es[g]@, #[trigger] es[h]@) == identity_seq(9) && compose_seq(
            es[h]@,
            es[g]@,
        ) == identity_seq(9);
    assert(es[h]@.len() == 9 && is_perm(es[h]@));
    assert forall|p: int| 0 <= p < 9 implies s.spec_cell(#[trigger] es[h]@[p] as int) == t.spec_cell(p) by {
        let q = es[h]@[p] as int;
        assert(t.spec_cell(es[g]@[q] as int) == s.spec_cell(q));
        assert(compose_seq(es[h]@, es[g]@)[p] == es[g]@[q]);
    }
    assert(is_transform(t, es[h]@, s));
    lemma_transform_compose(t, es[h]@, s, es[ka]@, a);
    assert(crate::framework::symmetry::holds_perm(es, compose_seq(es[h]@, es[ka]@)));
    let m2 = choose|m: int| 0 <= m < es.len() && (#[trigger] es[m])@ == compose_seq(es[h]@, es[ka]@);
    assert(is_transform(t, es[m2]@, a));
    assert(spec_encode(b) <= spec_encode(a));
    lemma_encode_injective(a, b);
    Board::lemma_ext(a, b);
}

} // verus!
