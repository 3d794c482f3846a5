//! Structural facts about the 3x3 board with no strategic insight: positions, orthogonal
//! adjacency, win lines, the dihedral symmetry group and how it acts on boards.

use vstd::prelude::*;
use super::board::{line_at, line_cell, Board, Move, Player, TicTacToe};
use crate::framework::traits::GamePrimitives;
use crate::framework::symmetry::{
    closed_upto, compose_seq, elements_ok, first_source, generated, generated_at, holds_perm, identity_seq, in_orbit,
    is_perm, orbit_ordinal, orbit_rep, rep_count, Permutation, SymmetryGroup,
};

verus! {

/// The rotation as a sequence of images.
pub open spec fn rot90_seq() -> Seq<usize> {
    seq![2, 5, 8, 1, 4, 7, 0, 3, 6]
}

/// The reflection as a sequence of images.
pub open spec fn reflect_seq() -> Seq<usize> {
    seq![2, 1, 0, 5, 4, 3, 8, 7, 6]
}

/// Builds the permutation with images `images`, known to be a permutation.
fn known_perm(images: Vec<usize>) -> (p: Permutation)
    requires
        is_perm(images@),
    ensures
        p@ == images@,
{
    match Permutation::new(images) {
        Ok(p) => p,
        Err(_) => {
            proof {
                assert(false);
            }
            Permutation::identity(0)
        },
    }
}

/// 90-degree clockwise rotation of the 3x3 grid, as a cell permutation.
pub fn rot90() -> (p: Permutation)
    ensures
        p@ == rot90_seq(),
{
    let v = vec![2, 5, 8, 1, 4, 7, 0, 3, 6];
    assert(v@ =~= rot90_seq());
    known_perm(v)
}

/// Horizontal reflection of the 3x3 grid, as a cell permutation.
pub fn reflect_horizontal() -> (p: Permutation)
    ensures
        p@ == reflect_seq(),
{
    let v = vec![2, 1, 0, 5, 4, 3, 8, 7, 6];
    assert(v@ =~= reflect_seq());
    known_perm(v)
}

/// The orthogonal neighbours of `position`, ascending: above, left, right, below.
pub open spec fn spec_adjacent(position: int) -> Seq<usize> {
    let row = position / 3;
    let col = position % 3;
    (if row > 0 {
        seq![(position - 3) as usize]
    } else {
        seq![]
    }) + (if col > 0 {
        seq![(position - 1) as usize]
    } else {
        seq![]
    }) + (if col < 2 {
        seq![(position + 1) as usize]
    } else {
        seq![]
    }) + (if row < 2 {
        seq![(position + 3) as usize]
    } else {
        seq![]
    })
}

/// `image` is `b` with every cell `p` moved to `perm[p]`, and the same side to move.
pub open spec fn is_transform(b: Board, perm: Seq<usize>, image: Board) -> bool {
    &&& forall|p: int| 0 <= p < 9 ==> image.spec_cell(#[trigger] perm[p] as int) == b.spec_cell(p)
    &&& image.spec_to_move() == b.spec_to_move()
}

/// Structural primitives for tic-tac-toe: 9 positions, orthogonal adjacency, the 8 win lines,
/// and the dihedral group of order 8 generated from a rotation and a reflection.
#[derive(Debug, Clone, Copy, Default)]
pub struct TicTacToePrimitives;

impl TicTacToePrimitives {
    /// Number of board positions.
    pub fn position_count(&self) -> (n: usize)
        ensures
            n == 9,
    {
        9
    }

    /// Orthogonal neighbours of `position`, in ascending order.
    pub fn adjacent(&self, position: usize) -> (v: Vec<usize>)
        requires
            position < 9,
        ensures
            v@ == spec_adjacent(position as int),
    {
        let row = position / 3;
        let col = position % 3;
        let mut v: Vec<usize> = Vec::new();
        if row > 0 {
            v.push(position - 3);
        }
        if col > 0 {
            v.push(position - 1);
        }
        if col < 2 {
            v.push(position + 1);
        }
        if row < 2 {
            v.push(position + 3);
        }
        assert(v@ =~= spec_adjacent(position as int));
        v
    }

    /// The 8 win lines, each as its 3 cells, in `LINES` order.
    pub fn lines(&self) -> (v: Vec<Vec<usize>>)
        ensures
            v@.len() == 8,
            forall|l: int|
                0 <= l < 8 ==> (#[trigger] v@[l])@ == seq![
                    line_cell(l, 0) as usize,
                    line_cell(l, 1) as usize,
                    line_cell(l, 2) as usize,
                ],
    {
        let mut v: Vec<Vec<usize>> = Vec::new();
        let mut l: usize = 0;
        while l < 8
            invariant
                l <= 8,
                v@.len() == l,
                forall|m: int|
                    0 <= m < l ==> (#[trigger] v@[m])@ == seq![
                        line_cell(m, 0) as usize,
                        line_cell(m, 1) as usize,
                        line_cell(m, 2) as usize,
                    ],
            decreases 8 - l,
        {
            let line = vec![line_at(l, 0), line_at(l, 1), line_at(l, 2)];
            assert(line@ =~= seq![
                line_cell(l as int, 0) as usize,
                line_cell(l as int, 1) as usize,
                line_cell(l as int, 2) as usize,
            ]);
            v.push(line);
            l = l + 1;
        }
        v
    }

    /// The symmetry group of the board: the closure of the rotation and the reflection.
    pub fn symmetry_group(&self) -> (g: SymmetryGroup)
        ensures
            g.spec_degree() == 9,
            g.spec_elements().len() >= 1,
            g.spec_elements()[0]@ == crate::framework::symmetry::identity_seq(9),
            crate::framework::symmetry::elements_ok(g.spec_elements(), 9),
            crate::framework::symmetry::closed_upto(
                g.spec_elements(),
                seq![rot90_seq(), reflect_seq()],
                g.spec_elements().len() as int,
            ),
            crate::framework::symmetry::generated(g.spec_elements(), seq![rot90_seq(), reflect_seq()]),
    {
        let gens = vec![rot90(), reflect_horizontal()];
        proof {
            assert(crate::framework::symmetry::perm_views(gens@) =~= seq![rot90_seq(), reflect_seq()]);
        }
        match SymmetryGroup::generate(9, gens.as_slice()) {
            Ok(g) => g,
            Err(_) => {
                proof {
                    assert(gens@[0]@.len() == 9);
                    assert(gens@[1]@.len() == 9);
                    assert(false);
                }
                let none: Vec<Permutation> = Vec::new();
                SymmetryGroup::generate(9, none.as_slice()).unwrap()
            },
        }
    }

    /// Occupant of `position`.
    pub fn occupant(&self, state: &Board, position: usize) -> (c: Option<Player>)
        requires
            position < 9,
        ensures
            c == state.spec_cell(position as int),
    {
        state.cell(position)
    }

    /// The position an action claims.
    pub fn action_position(&self, action: &Move) -> (p: Option<usize>)
        ensures
            p == Some(action.0),
    {
        Some(action.0)
    }

    /// `state` with the occupant of every cell `p` moved to `perm.apply(p)`; side to move kept.
    pub fn transform(&self, state: &Board, perm: &Permutation) -> (image: Board)
        requires
            perm@.len() == 9,
        ensures
            is_transform(*state, perm@, image),
    {
        perm.check_valid();
        let mut cells: [Option<Player>; 9] = [None;9];
        let mut p: usize = 0;
        while p < 9
            invariant
                p <= 9,
                perm@.len() == 9,
                is_perm(perm@),
                forall|q: int| 0 <= q < p ==> cells@[#[trigger] perm@[q] as int] == state.spec_cell(q),
            decreases 9 - p,
        {
            let target = perm.apply(p);
            let ghost before = cells@;
            cells[target] = state.cell(p);
            proof {
                assert forall|q: int| 0 <= q < p + 1 implies cells@[#[trigger] perm@[q] as int] == state.spec_cell(q) by {
                    if q < p {
                        assert(perm@[q] != perm@[p as int]);
                        assert(cells@[perm@[q] as int] == before[perm@[q] as int]);
                    }
                }
            }
            p = p + 1;
        }
        Board::from_cells(cells, state.to_move())
    }
}

/// A transform of `b` by a permutation is unique.
pub proof fn lemma_transform_unique(b: Board, perm: Seq<usize>, x: Board, y: Board)
    requires
        perm.len() == 9,
        is_perm(perm),
        is_transform(b, perm, x),
        is_transform(b, perm, y),
    ensures
        x == y,
{
    crate::framework::symmetry::lemma_perm_surjective(perm);
    assert forall|i: int| 0 <= i < 9 implies x.spec_cell(i) == y.spec_cell(i) by {
        assert(crate::framework::symmetry::has_preimage(perm, i));
        let p = choose|p: int| 0 <= p < perm.len() && perm[p] == i;
        assert(x.spec_cell(perm[p] as int) == b.spec_cell(p));
        assert(y.spec_cell(perm[p] as int) == b.spec_cell(p));
    }
    Board::lemma_ext(x, y);
}

/// Every board is its own image under the identity.
pub proof fn lemma_transform_identity(b: Board)
    ensures
        is_transform(b, identity_seq(9), b),
{
}

/// Transforming by `p` and then by `q` is transforming by `p` composed with `q`.
pub proof fn lemma_transform_compose(b: Board, p: Seq<usize>, x: Board, q: Seq<usize>, y: Board)
    requires
        p.len() == 9,
        is_perm(p),
        is_transform(b, p, x),
        is_transform(x, q, y),
    ensures
        is_transform(b, compose_seq(p, q), y),
{
    assert forall|i: int| 0 <= i < 9 implies y.spec_cell(#[trigger] compose_seq(p, q)[i] as int) == b.spec_cell(i) by {
        let pi = p[i] as int;
        assert(x.spec_cell(p[i] as int) == b.spec_cell(i));
        assert(y.spec_cell(q[pi] as int) == x.spec_cell(pi));
    }
}

/// Cell `c` lies on win line `m`.
pub open spec fn on_line(m: int, c: int) -> bool {
    c == line_cell(m, 0) || c == line_cell(m, 1) || c == line_cell(m, 2)
}

/// Cell `c` is the image under `perm` of a cell of win line `l`.
pub open spec fn hit_by_line(perm: Seq<usize>, l: int, c: int) -> bool {
    perm[line_cell(l, 0)] == c || perm[line_cell(l, 1)] == c || perm[line_cell(l, 2)] == c
}

/// `perm` carries the cells of win line `l` exactly onto the cells of win line `m`.
pub open spec fn line_image(perm: Seq<usize>, l: int, m: int) -> bool {
    &&& on_line(m, perm[line_cell(l, 0)] as int)
    &&& on_line(m, perm[line_cell(l, 1)] as int)
    &&& on_line(m, perm[line_cell(l, 2)] as int)
    &&& hit_by_line(perm, l, line_cell(m, 0))
    &&& hit_by_line(perm, l, line_cell(m, 1))
    &&& hit_by_line(perm, l, line_cell(m, 2))
}

/// `perm` carries win line `l` onto some win line.
pub open spec fn line_has_image(perm: Seq<usize>, l: int) -> bool {
    exists|m: int| 0 <= m < 8 && #[trigger] line_image(perm, l, m)
}

/// Win line `m` is the image under `perm` of some win line.
pub open spec fn line_has_preimage(perm: Seq<usize>, m: int) -> bool {
    exists|l: int| 0 <= l < 8 && #[trigger] line_image(perm, l, m)
}

/// `perm` carries every win line onto a win line, and every win line is the image of one.
pub open spec fn maps_lines(perm: Seq<usize>) -> bool {
    &&& forall|l: int| 0 <= l < 8 ==> #[trigger] line_has_image(perm, l)
    &&& forall|m: int| 0 <= m < 8 ==> #[trigger] line_has_preimage(perm, m)
}

/// The identity maps every win line onto itself.
pub proof fn lemma_identity_maps_lines()
    ensures
        maps_lines(identity_seq(9)),
{
    assert forall|l: int| 0 <= l < 8 implies #[trigger] line_has_image(identity_seq(9), l) by {
        assert(line_image(identity_seq(9), l, l));
    }
    assert forall|m: int| 0 <= m < 8 implies #[trigger] line_has_preimage(identity_seq(9), m) by {
        assert(line_image(identity_seq(9), m, m));
    }
}

/// The rotation maps win lines onto win lines.
pub proof fn lemma_rot90_maps_lines()
    ensures
        maps_lines(rot90_seq()),
{
    let r = rot90_seq();
    assert forall|l: int| 0 <= l < 8 implies #[trigger] line_has_image(r, l) by {
        if l == 0 { assert(line_image(r, 0, 5)); }
        else if l == 1 { assert(line_image(r, 1, 4)); }
        else if l == 2 { assert(line_image(r, 2, 3)); }
        else if l == 3 { assert(line_image(r, 3, 0)); }
        else if l == 4 { assert(line_image(r, 4, 1)); }
        else if l == 5 { assert(line_image(r, 5, 2)); }
        else if l == 6 { assert(line_image(r, 6, 7)); }
        else { assert(line_image(r, 7, 6)); }
    }
    assert forall|m: int| 0 <= m < 8 implies #[trigger] line_has_preimage(r, m) by {
        if m == 5 { assert(line_image(r, 0, 5)); }
        else if m == 4 { assert(line_image(r, 1, 4)); }
        else if m == 3 { assert(line_image(r, 2, 3)); }
        else if m == 0 { assert(line_image(r, 3, 0)); }
        else if m == 1 { assert(line_image(r, 4, 1)); }
        else if m == 2 { assert(line_image(r, 5, 2)); }
        else if m == 7 { assert(line_image(r, 6, 7)); }
        else { assert(line_image(r, 7, 6)); }
    }
}

/// The reflection maps win lines onto win lines.
pub proof fn lemma_reflect_maps_lines()
    ensures
        maps_lines(reflect_seq()),
{
    let r = reflect_seq();
    assert forall|l: int| 0 <= l < 8 implies #[trigger] line_has_image(r, l) by {
        if l == 0 { assert(line_image(r, 0, 0)); }
        else if l == 1 { assert(line_image(r, 1, 1)); }
        else if l == 2 { assert(line_image(r, 2, 2)); }
        else if l == 3 { assert(line_image(r, 3, 5)); }
        else if l == 4 { assert(line_image(r, 4, 4)); }
        else if l == 5 { assert(line_image(r, 5, 3)); }
        else if l == 6 { assert(line_image(r, 6, 7)); }
        else { assert(line_image(r, 7, 6)); }
    }
    assert forall|m: int| 0 <= m < 8 implies #[trigger] line_has_preimage(r, m) by {
        if m == 0 { assert(line_image(r, 0, 0)); }
        else if m == 1 { assert(line_image(r, 1, 1)); }
        else if m == 2 { assert(line_image(r, 2, 2)); }
        else if m == 5 { assert(line_image(r, 3, 5)); }
        else if m == 4 { assert(line_image(r, 4, 4)); }
        else if m == 3 { assert(line_image(r, 5, 3)); }
        else if m == 7 { assert(line_image(r, 6, 7)); }
        else { assert(line_image(r, 7, 6)); }
    }
}

/// Maps of win lines onto win lines compose.
pub proof fn lemma_maps_lines_compose(p: Seq<usize>, q: Seq<usize>)
    requires
        p.len() == 9,
        maps_lines(p),
        maps_lines(q),
    ensures
        maps_lines(compose_seq(p, q)),
{
    let c = compose_seq(p, q);
    assert forall|l: int| 0 <= l < 8 implies #[trigger] line_has_image(c, l) by {
        assert(line_has_image(p, l));
        let m1 = choose|m: int| 0 <= m < 8 && #[trigger] line_image(p, l, m);
        assert(line_has_image(q, m1));
        let m2 = choose|m: int| 0 <= m < 8 && #[trigger] line_image(q, m1, m);
        assert(line_image(c, l, m2));
    }
    assert forall|m: int| 0 <= m < 8 implies #[trigger] line_has_preimage(c, m) by {
        assert(line_has_preimage(q, m));
        let m1 = choose|l: int| 0 <= l < 8 && #[trigger] line_image(q, l, m);
        assert(line_has_preimage(p, m1));
        let l0 = choose|l: int| 0 <= l < 8 && #[trigger] line_image(p, l, m1);
        assert(line_image(c, l0, m));
    }
}

/// A transform by a permutation that maps win lines onto win lines keeps which players hold a
/// line.
pub proof fn lemma_transform_keeps_lines(b: Board, perm: Seq<usize>, image: Board, p: Player)
    requires
        perm.len() == 9,
        is_perm(perm),
        maps_lines(perm),
        is_transform(b, perm, image),
    ensures
        image.spec_has_line(p) == b.spec_has_line(p),
{
    if b.spec_has_line(p) {
        let l = choose|l: int| 0 <= l < 8 && #[trigger] b.spec_holds_line(l, p);
        assert(line_has_image(perm, l));
        let m = choose|m: int| 0 <= m < 8 && #[trigger] line_image(perm, l, m);
        assert(image.spec_cell(perm[line_cell(l, 0)] as int) == b.spec_cell(line_cell(l, 0)));
        assert(image.spec_cell(perm[line_cell(l, 1)] as int) == b.spec_cell(line_cell(l, 1)));
        assert(image.spec_cell(perm[line_cell(l, 2)] as int) == b.spec_cell(line_cell(l, 2)));
        assert(image.spec_holds_line(m, p));
    }
    if image.spec_has_line(p) {
        let m = choose|m: int| 0 <= m < 8 && #[trigger] image.spec_holds_line(m, p);
        assert(line_has_preimage(perm, m));
        let l = choose|l: int| 0 <= l < 8 && #[trigger] line_image(perm, l, m);
        assert(image.spec_cell(perm[line_cell(l, 0)] as int) == b.spec_cell(line_cell(l, 0)));
        assert(image.spec_cell(perm[line_cell(l, 1)] as int) == b.spec_cell(line_cell(l, 1)));
        assert(image.spec_cell(perm[line_cell(l, 2)] as int) == b.spec_cell(line_cell(l, 2)));
        assert(b.spec_holds_line(l, p));
    }
}

/// A transform by a permutation keeps whether the board is full.
pub proof fn lemma_transform_keeps_full(b: Board, perm: Seq<usize>, image: Board)
    requires
        perm.len() == 9,
        is_perm(perm),
        is_transform(b, perm, image),
    ensures
        image.spec_is_full() == b.spec_is_full(),
{
    crate::framework::symmetry::lemma_perm_surjective(perm);
    if b.spec_is_full() {
        assert forall|i: int| 0 <= i < 9 implies #[trigger] image.spec_cell(i) is Some by {
            assert(crate::framework::symmetry::has_preimage(perm, i));
            let q = choose|q: int| 0 <= q < perm.len() && perm[q] == i;
            assert(image.spec_cell(perm[q] as int) == b.spec_cell(q));
        }
    }
    if image.spec_is_full() {
        assert forall|i: int| 0 <= i < 9 implies #[trigger] b.spec_cell(i) is Some by {
            assert(image.spec_cell(perm[i] as int) == b.spec_cell(i));
        }
    }
}

/// `b` with cell `perm[p]` set to `b`'s cell `p`, for `p` in `0..n` in turn.
pub open spec fn transform_prefix(b: Board, perm: Seq<usize>, n: int) -> Board
    decreases n,
{
    if n <= 0 {
        b
    } else {
        transform_prefix(b, perm, n - 1).spec_with_cell(perm[n - 1] as int, b.spec_cell(n - 1))
    }
}

/// The image of `b` under `perm`: every cell `p` moved to `perm[p]`, the side to move kept.
pub open spec fn spec_transformed(b: Board, perm: Seq<usize>) -> Board {
    transform_prefix(b, perm, 9)
}

proof fn lemma_transform_prefix(b: Board, perm: Seq<usize>, n: int)
    requires
        perm.len() == 9,
        is_perm(perm),
        0 <= n <= 9,
    ensures
        forall|p: int| 0 <= p < n ==> #[trigger] transform_prefix(b, perm, n).spec_cell(perm[p] as int) == b.spec_cell(p),
        transform_prefix(b, perm, n).spec_to_move() == b.spec_to_move(),
    decreases n,
{
    if n > 0 {
        lemma_transform_prefix(b, perm, n - 1);
        let prev = transform_prefix(b, perm, n - 1);
        let i = perm[n - 1] as int;
        assert forall|p: int| 0 <= p < n implies #[trigger] transform_prefix(b, perm, n).spec_cell(perm[p] as int) == b.spec_cell(p) by {
            Board::lemma_with_cell(prev, i, b.spec_cell(n - 1), perm[p] as int);
            if p < n - 1 {
                assert(perm[p] != perm[n - 1]);
            }
        }
        Board::lemma_with_cell(prev, i, b.spec_cell(n - 1), 0);
    }
}

/// The image of a board under a permutation of the 9 cells exists.
pub proof fn lemma_transformed(b: Board, perm: Seq<usize>)
    requires
        perm.len() == 9,
        is_perm(perm),
    ensures
        is_transform(b, perm, spec_transformed(b, perm)),
{
    lemma_transform_prefix(b, perm, 9);
}


/// The symmetry class of a cell: corners `0`, edges `1`, the centre `2`.
pub open spec fn cell_class(c: int) -> int {
    if c == 4 {
        2
    } else if c % 2 == 0 {
        0
    } else {
        1
    }
}

/// The symmetry class of each cell, which numbers the board's orbits by their smallest cell.
pub open spec fn board_orbit_index() -> Seq<usize> {
    seq![0, 1, 0, 1, 2, 1, 0, 1, 0]
}

proof fn lemma_generator_keeps_class(g: Seq<usize>, x: int)
    requires
        g == rot90_seq() || g == reflect_seq(),
        0 <= x < 9,
    ensures
        g[x] < 9,
        cell_class(g[x] as int) == cell_class(x),
{
    if x == 0 {
    } else if x == 1 {
    } else if x == 2 {
    } else if x == 3 {
    } else if x == 4 {
    } else if x == 5 {
    } else if x == 6 {
    } else if x == 7 {
    } else {
    }
}

/// Every element generated from the rotation and the reflection keeps each cell's class.
proof fn lemma_elements_keep_class(es: Seq<Permutation>, k: int)
    requires
        elements_ok(es, 9),
        es.len() >= 1,
        es[0]@ == identity_seq(9),
        generated(es, seq![rot90_seq(), reflect_seq()]),
        0 <= k < es.len(),
    ensures
        forall|x: int| 0 <= x < 9 ==> cell_class(#[trigger] es[k]@[x] as int) == cell_class(x),
    decreases k,
{
    let gens = seq![rot90_seq(), reflect_seq()];
    if k > 0 {
        assert(generated_at(es, gens, k));
        let (i, j) = choose|i: int, j: int|
            0 <= i < k && 0 <= j < gens.len() && es[k]@ == compose_seq(#[trigger] es[i]@, #[trigger] gens[j]);
        lemma_elements_keep_class(es, i);
        assert forall|x: int| 0 <= x < 9 implies cell_class(#[trigger] es[k]@[x] as int) == cell_class(x) by {
            let y = es[i]@[x] as int;
            assert(es[i]@.len() == 9 && is_perm(es[i]@));
            assert(0 <= y < 9);
            lemma_generator_keeps_class(gens[j], y);
            assert(es[k]@[x] == gens[j][y]);
        }
    }
}

/// Every element composed with the rotation is an element.
#[verifier::opaque]
pub open spec fn rotation_closed(es: Seq<Permutation>) -> bool {
    forall|k: int| 0 <= k < es.len() ==> holds_perm(es, compose_seq(#[trigger] es[k]@, rot90_seq()))
}

/// Closure under both generators gives closure under the rotation.
proof fn lemma_closed_rotation(es: Seq<Permutation>)
    requires
        closed_upto(es, seq![rot90_seq(), reflect_seq()], es.len() as int),
    ensures
        rotation_closed(es),
{
    reveal(rotation_closed);
    let gens = seq![rot90_seq(), reflect_seq()];
    assert(gens[0] == rot90_seq());
    assert forall|k: int| 0 <= k < es.len() implies holds_perm(es, compose_seq(#[trigger] es[k]@, rot90_seq())) by {
        assert(holds_perm(es, compose_seq(es[k]@, gens[0])));
    }
}

/// An element composed with the rotation is an element.
proof fn lemma_next_rotation(es: Seq<Permutation>, a: int, y: Seq<usize>) -> (b: int)
    requires
        0 <= a < es.len(),
        rotation_closed(es),
        compose_seq(es[a]@, rot90_seq()) == y,
    ensures
        0 <= b < es.len() && es[b]@ == y,
{
    reveal(rotation_closed);
    assert(holds_perm(es, compose_seq(es[a]@, rot90_seq())));
    choose|k: int| 0 <= k < es.len() && (#[trigger] es[k])@ == y
}

proof fn lemma_rotation_powers()
    ensures
        compose_seq(identity_seq(9), rot90_seq()) == rot90_seq(),
        compose_seq(rot90_seq(), rot90_seq()) == seq![8usize, 7, 6, 5, 4, 3, 2, 1, 0],
        compose_seq(seq![8usize, 7, 6, 5, 4, 3, 2, 1, 0], rot90_seq()) == seq![6usize, 3, 0, 7, 4, 1, 8, 5, 2],
{
    assert(compose_seq(identity_seq(9), rot90_seq()) =~= rot90_seq());
    assert(compose_seq(rot90_seq(), rot90_seq()) =~= seq![8usize, 7, 6, 5, 4, 3, 2, 1, 0]);
    assert(compose_seq(seq![8usize, 7, 6, 5, 4, 3, 2, 1, 0], rot90_seq()) =~= seq![6usize, 3, 0, 7, 4, 1, 8, 5, 2]);
}

/// The group holds the three rotations.
proof fn lemma_board_rotations(es: Seq<Permutation>) -> (ks: (int, int, int))
    requires
        es.len() >= 1,
        es[0]@ == identity_seq(9),
        rotation_closed(es),
    ensures
        0 <= ks.0 < es.len() && es[ks.0]@ == rot90_seq(),
        0 <= ks.1 < es.len() && es[ks.1]@ == seq![8usize, 7, 6, 5, 4, 3, 2, 1, 0],
        0 <= ks.2 < es.len() && es[ks.2]@ == seq![6usize, 3, 0, 7, 4, 1, 8, 5, 2],
{
    lemma_rotation_powers();
    let k1 = lemma_next_rotation(es, 0, rot90_seq());
    let k2 = lemma_next_rotation(es, k1, seq![8usize, 7, 6, 5, 4, 3, 2, 1, 0]);
    let k3 = lemma_next_rotation(es, k2, seq![6usize, 3, 0, 7, 4, 1, 8, 5, 2]);
    (k1, k2, k3)
}

/// Cells of one class are reached from each other by a rotation.
#[verifier::rlimit(50)]
proof fn lemma_orbit_witness(es: Seq<Permutation>, k1: int, k2: int, k3: int, p: int, q: int)
    requires
        es.len() >= 1,
        es[0]@ == identity_seq(9),
        0 <= k1 < es.len() && es[k1]@ == rot90_seq(),
        0 <= k2 < es.len() && es[k2]@ == seq![8usize, 7, 6, 5, 4, 3, 2, 1, 0],
        0 <= k3 < es.len() && es[k3]@ == seq![6usize, 3, 0, 7, 4, 1, 8, 5, 2],
        0 <= p < 9,
        0 <= q < 9,
        cell_class(p) == cell_class(q),
    ensures
        in_orbit(es, p, q),
{
        if p == 0 && q == 0 { assert(es[0]@[0] == 0); }
        if p == 0 && q == 2 { assert(es[k1]@[0] == 2); }
        if p == 0 && q == 6 { assert(es[k3]@[0] == 6); }
        if p == 0 && q == 8 { assert(es[k2]@[0] == 8); }
        if p == 1 && q == 1 { assert(es[0]@[1] == 1); }
        if p == 1 && q == 3 { assert(es[k3]@[1] == 3); }
        if p == 1 && q == 5 { assert(es[k1]@[1] == 5); }
        if p == 1 && q == 7 { assert(es[k2]@[1] == 7); }
        if p == 2 && q == 0 { assert(es[k3]@[2] == 0); }
        if p == 2 && q == 2 { assert(es[0]@[2] == 2); }
        if p == 2 && q == 6 { assert(es[k2]@[2] == 6); }
        if p == 2 && q == 8 { assert(es[k1]@[2] == 8); }
        if p == 3 && q == 1 { assert(es[k1]@[3] == 1); }
        if p == 3 && q == 3 { assert(es[0]@[3] == 3); }
        if p == 3 && q == 5 { assert(es[k2]@[3] == 5); }
        if p == 3 && q == 7 { assert(es[k3]@[3] == 7); }
        if p == 4 && q == 4 { assert(es[0]@[4] == 4); }
        if p == 5 && q == 1 { assert(es[k3]@[5] == 1); }
        if p == 5 && q == 3 { assert(es[k2]@[5] == 3); }
        if p == 5 && q == 5 { assert(es[0]@[5] == 5); }
        if p == 5 && q == 7 { assert(es[k1]@[5] == 7); }
        if p == 6 && q == 0 { assert(es[k1]@[6] == 0); }
        if p == 6 && q == 2 { assert(es[k2]@[6] == 2); }
        if p == 6 && q == 6 { assert(es[0]@[6] == 6); }
        if p == 6 && q == 8 { assert(es[k3]@[6] == 8); }
        if p == 7 && q == 1 { assert(es[k2]@[7] == 1); }
        if p == 7 && q == 3 { assert(es[k1]@[7] == 3); }
        if p == 7 && q == 5 { assert(es[k3]@[7] == 5); }
        if p == 7 && q == 7 { assert(es[0]@[7] == 7); }
        if p == 8 && q == 0 { assert(es[k2]@[8] == 0); }
        if p == 8 && q == 2 { assert(es[k3]@[8] == 2); }
        if p == 8 && q == 6 { assert(es[k1]@[8] == 6); }
        if p == 8 && q == 8 { assert(es[0]@[8] == 8); }
}

/// In the board's symmetry group, one cell's orbit reaches another exactly when both are
/// corners, both edges, or both the centre.
proof fn lemma_board_orbits(es: Seq<Permutation>)
    requires
        elements_ok(es, 9),
        es.len() >= 1,
        es[0]@ == identity_seq(9),
        generated(es, seq![rot90_seq(), reflect_seq()]),
        closed_upto(es, seq![rot90_seq(), reflect_seq()], es.len() as int),
    ensures
        forall|p: int, q: int| 0 <= p < 9 && 0 <= q < 9 ==> (in_orbit(es, p, q) <==> cell_class(p) == cell_class(q)),
{
    lemma_closed_rotation(es);
    let (k1, k2, k3) = lemma_board_rotations(es);
    assert forall|p: int, q: int| 0 <= p < 9 && 0 <= q < 9 implies (in_orbit(es, p, q) <==> cell_class(p)
        == cell_class(q)) by {
        if in_orbit(es, p, q) {
            let k = choose|k: int| 0 <= k < es.len() && (#[trigger] es[k])@[p] == q;
            lemma_elements_keep_class(es, k);
        }
        if cell_class(p) == cell_class(q) {
            lemma_orbit_witness(es, k1, k2, k3, p, q);
        }
    }
}


/// The board's orbits, numbered by their smallest cell, are the cell classes: corners `0`,
/// edges `1`, the centre `2`.
#[verifier::rlimit(50)]
proof fn lemma_board_orbit_index(es: Seq<Permutation>)
    requires
        forall|p: int, q: int| 0 <= p < 9 && 0 <= q < 9 ==> (in_orbit(es, p, q) <==> cell_class(p) == cell_class(q)),
    ensures
        forall|q: int| 0 <= q < 9 ==> orbit_ordinal(es, q) == #[trigger] board_orbit_index()[q],
{
    assert(first_source(es, 0, 0) == 0);
    assert(orbit_rep(es, 0) == 0);
    assert(!in_orbit(es, 0, 1));
    assert(first_source(es, 1, 0) == first_source(es, 1, 1));
    assert(first_source(es, 1, 1) == 1);
    assert(orbit_rep(es, 1) == 1);
    assert(in_orbit(es, 0, 2));
    assert(first_source(es, 2, 0) == 0);
    assert(orbit_rep(es, 2) == 0);
    assert(!in_orbit(es, 0, 3));
    assert(first_source(es, 3, 0) == first_source(es, 3, 1));
    assert(in_orbit(es, 1, 3));
    assert(first_source(es, 3, 1) == 1);
    assert(orbit_rep(es, 3) == 1);
    assert(!in_orbit(es, 0, 4));
    assert(first_source(es, 4, 0) == first_source(es, 4, 1));
    assert(!in_orbit(es, 1, 4));
    assert(first_source(es, 4, 1) == first_source(es, 4, 2));
    assert(!in_orbit(es, 2, 4));
    assert(first_source(es, 4, 2) == first_source(es, 4, 3));
    assert(!in_orbit(es, 3, 4));
    assert(first_source(es, 4, 3) == first_source(es, 4, 4));
    assert(first_source(es, 4, 4) == 4);
    assert(orbit_rep(es, 4) == 4);
    assert(!in_orbit(es, 0, 5));
    assert(first_source(es, 5, 0) == first_source(es, 5, 1));
    assert(in_orbit(es, 1, 5));
    assert(first_source(es, 5, 1) == 1);
    assert(orbit_rep(es, 5) == 1);
    assert(in_orbit(es, 0, 6));
    assert(first_source(es, 6, 0) == 0);
    assert(orbit_rep(es, 6) == 0);
    assert(!in_orbit(es, 0, 7));
    assert(first_source(es, 7, 0) == first_source(es, 7, 1));
    assert(in_orbit(es, 1, 7));
    assert(first_source(es, 7, 1) == 1);
    assert(orbit_rep(es, 7) == 1);
    assert(in_orbit(es, 0, 8));
    assert(first_source(es, 8, 0) == 0);
    assert(orbit_rep(es, 8) == 0);
    assert(rep_count(es, 0) == 0);
    assert(rep_count(es, 1) == 1);
    assert(rep_count(es, 2) == 2);
    assert(rep_count(es, 3) == 2);
    assert(rep_count(es, 4) == 2);
    assert(orbit_ordinal(es, 0) == 0);
    assert(orbit_ordinal(es, 1) == 1);
    assert(orbit_ordinal(es, 2) == 0);
    assert(orbit_ordinal(es, 3) == 1);
    assert(orbit_ordinal(es, 4) == 2);
    assert(orbit_ordinal(es, 5) == 1);
    assert(orbit_ordinal(es, 6) == 0);
    assert(orbit_ordinal(es, 7) == 1);
    assert(orbit_ordinal(es, 8) == 0);
}


/// The orbit index of the board's symmetry group is the table of cell classes.
proof fn lemma_group_orbit_index(es: Seq<Permutation>, v: Seq<usize>)
    requires
        elements_ok(es, 9),
        es.len() >= 1,
        es[0]@ == identity_seq(9),
        generated(es, seq![rot90_seq(), reflect_seq()]),
        closed_upto(es, seq![rot90_seq(), reflect_seq()], es.len() as int),
        v.len() == 9,
        forall|q: int| 0 <= q < 9 ==> #[trigger] v[q] == orbit_ordinal(es, q),
    ensures
        v == board_orbit_index(),
{
    lemma_board_orbits(es);
    lemma_table_from_classes(es, v);
}

proof fn lemma_table_from_classes(es: Seq<Permutation>, v: Seq<usize>)
    requires
        forall|p: int, q: int| 0 <= p < 9 && 0 <= q < 9 ==> (in_orbit(es, p, q) <==> cell_class(p) == cell_class(q)),
        v.len() == 9,
        forall|q: int| 0 <= q < 9 ==> #[trigger] v[q] == orbit_ordinal(es, q),
    ensures
        v == board_orbit_index(),
{
    lemma_board_orbit_index(es);
    assert(v =~= board_orbit_index());
}

impl GamePrimitives<TicTacToe> for TicTacToePrimitives {
    open spec fn spec_action_position(&self, action: Move) -> Option<usize> {
        Some(action.0)
    }

    fn action_position(&self, action: &Move) -> (p: Option<usize>) {
        Some(action.0)
    }

    open spec fn spec_orbit_index(&self) -> Seq<usize> {
        board_orbit_index()
    }

    /// The orbits of the board's symmetry group, numbered by their smallest cell: corners `0`,
    /// edges `1`, the centre `2`.
    fn orbit_index(&self) -> (v: Vec<usize>) {
        let g = self.symmetry_group();
        let v = g.orbit_index();
        proof {
            lemma_group_orbit_index(g.spec_elements(), v@);
        }
        v
    }
}

} // verus!
