//! Tic-tac-toe supplied features: per-line X/O counts, threats, winning/blocking/fork cell sets,
//! and a win-available flag.
//!
//! "Mover" is the side to move; "opponent" is the other player. Every mover-relative feature is
//! computed relative to the side to move, terminal states included. Names are prefixed `ttt.`
//! to keep them apart from the primitive feature names.

use vstd::prelude::*;
use vstd::string::*;
use super::board::{line_at, line_cell, Board, Player};
use super::primitives::on_line;
use crate::framework::features::{FeatureDef, FeatureValue, FeatureVector, Tier};
use crate::framework::text::{decimal, decimal_string, with_decimal};

verus! {

/// 1 when `p` holds cell `c`, else 0.
pub open spec fn mark_at(b: Board, c: int, p: Player) -> int {
    if b.spec_cell(c) == Some(p) {
        1
    } else {
        0
    }
}

/// Number of cells of win line `l` held by `p`.
pub open spec fn line_count(b: Board, l: int, p: Player) -> int {
    mark_at(b, line_cell(l, 0), p) + mark_at(b, line_cell(l, 1), p) + mark_at(b, line_cell(l, 2), p)
}

/// Line `l` holds exactly two marks of `p` and none of the other player.
pub open spec fn is_threat(b: Board, l: int, p: Player) -> bool {
    line_count(b, l, p) == 2 && line_count(b, l, p.spec_other()) == 0
}

/// Line `l` holds exactly one mark of `p` and none of the other player.
pub open spec fn opens_line(b: Board, l: int, p: Player) -> bool {
    line_count(b, l, p) == 1 && line_count(b, l, p.spec_other()) == 0
}

/// Number of threats of `p` among the first `n` win lines.
pub open spec fn threat_count(b: Board, p: Player, n: int) -> int
    decreases n,
{
    if n <= 0 {
        0
    } else {
        threat_count(b, p, n - 1) + if is_threat(b, n - 1, p) {
            1int
        } else {
            0
        }
    }
}

/// Empty cell `c` completes a threat of `p`.
pub open spec fn completes_threat(b: Board, p: Player, c: int) -> bool {
    &&& b.spec_cell(c) is None
    &&& exists|l: int| 0 <= l < 8 && on_line(l, c) && #[trigger] is_threat(b, l, p)
}

/// Number of lines among the first `n` through cell `c` that `p` has opened.
pub open spec fn fork_lines(b: Board, p: Player, c: int, n: int) -> int
    decreases n,
{
    if n <= 0 {
        0
    } else {
        fork_lines(b, p, c, n - 1) + if on_line(n - 1, c) && opens_line(b, n - 1, p) {
            1int
        } else {
            0
        }
    }
}

/// Empty cell `c` lies on at least two lines `p` has opened: playing it makes two threats.
pub open spec fn is_fork_cell(b: Board, p: Player, c: int) -> bool {
    b.spec_cell(c) is None && fork_lines(b, p, c, 8) >= 2
}

/// `v` lists, ascending and without repeats, exactly the cells `c < 9` satisfying `pred`.
pub open spec fn is_cell_set(v: Seq<usize>, pred: spec_fn(int) -> bool) -> bool {
    &&& forall|i: int, j: int| 0 <= i < j < v.len() ==> #[trigger] v[i] < #[trigger] v[j]
    &&& forall|i: int| 0 <= i < v.len() ==> #[trigger] v[i] < 9
    &&& forall|c: int| 0 <= c < 9 ==> (v.contains(c as usize) <==> #[trigger] pred(c))
}

/// The name of the per-line count feature of line `l` with suffix `suffix`.
pub open spec fn line_feature_name(l: int, suffix: Seq<char>) -> Seq<char> {
    "ttt.line"@ + decimal(l as nat) + suffix
}

/// The name of the `i`-th supplied feature: the X and O count of each line in turn, then the
/// threat, cell-set and win-available features.
pub open spec fn feature_name(i: int) -> Seq<char> {
    if i < 16 {
        line_feature_name(i / 2, if i % 2 == 0 { ".x"@ } else { ".o"@ })
    } else if i == 16 {
        "ttt.threats.mine"@
    } else if i == 17 {
        "ttt.threats.theirs"@
    } else if i == 18 {
        "ttt.winning_cells"@
    } else if i == 19 {
        "ttt.blocking_cells"@
    } else if i == 20 {
        "ttt.fork_cells"@
    } else {
        "ttt.win_available"@
    }
}

/// `value` is the cell set of the cells satisfying `pred`.
pub open spec fn is_cell_set_value(value: FeatureValue, pred: spec_fn(int) -> bool) -> bool {
    value matches FeatureValue::CellSet(v) && is_cell_set(v@, pred)
}

/// Number of cells of line `l` held by `p`.
fn count_on_line(state: &Board, l: usize, p: Player) -> (n: i64)
    requires
        l < 8,
    ensures
        n == line_count(*state, l as int, p),
{
    let a: i64 = if state.cell(line_at(l, 0)) == Some(p) { 1 } else { 0 };
    let b: i64 = if state.cell(line_at(l, 1)) == Some(p) { 1 } else { 0 };
    let c: i64 = if state.cell(line_at(l, 2)) == Some(p) { 1 } else { 0 };
    a + b + c
}

/// Whether cell `c` lies on line `l`.
fn line_has(l: usize, c: usize) -> (r: bool)
    requires
        l < 8,
    ensures
        r == on_line(l as int, c as int),
{
    line_at(l, 0) == c || line_at(l, 1) == c || line_at(l, 2) == c
}

/// The empty cells that complete a threat of `p`, ascending.
fn threat_cells(state: &Board, p: Player) -> (v: Vec<usize>)
    ensures
        is_cell_set(v@, |c: int| completes_threat(*state, p, c)),
{
    let mut v: Vec<usize> = Vec::new();
    let mut c: usize = 0;
    while c < 9
        invariant
            c <= 9,
            forall|i: int, j: int| 0 <= i < j < v@.len() ==> #[trigger] v@[i] < #[trigger] v@[j],
            forall|i: int| 0 <= i < v@.len() ==> #[trigger] v@[i] < c,
            forall|d: int| 0 <= d < c ==> (v@.contains(d as usize) <==> completes_threat(*state, p, d)),
        decreases 9 - c,
    {
        if state.cell(c).is_none() {
            let mut found = false;
            let mut l: usize = 0;
            while l < 8
                invariant
                    l <= 8,
                    c < 9,
                    found == exists|m: int| 0 <= m < l && on_line(m, c as int) && #[trigger] is_threat(*state, m, p),
                decreases 8 - l,
            {
                let ghost was_found = found;
                if line_has(l, c) {
                    let mine = count_on_line(state, l, p);
                    let theirs = count_on_line(state, l, p.other());
                    if mine == 2 && theirs == 0 {
                        found = true;
                        proof {
                            assert(is_threat(*state, l as int, p));
                        }
                    }
                }
                proof {
                    if was_found {
                        let m = choose|m: int| 0 <= m < l && on_line(m, c as int) && #[trigger] is_threat(*state, m, p);
                        assert(is_threat(*state, m, p));
                    }
                    if !found {
                        assert forall|m: int| 0 <= m < l + 1 && on_line(m, c as int) implies !#[trigger] is_threat(*state, m, p) by {
                            if m == l {
                            }
                        }
                    }
                }
                l = l + 1;
            }
            if found {
                let ghost before = v@;
                v.push(c);
                proof {
                    assert forall|d: int| 0 <= d < c + 1 implies (v@.contains(d as usize) <==> completes_threat(*state, p, d)) by {
                        if d < c {
                            if v@.contains(d as usize) {
                                let k = choose|k: int| 0 <= k < v@.len() && v@[k] == d as usize;
                                if k == before.len() {
                                    assert(false);
                                }
                                assert(before[k] == d as usize);
                            }
                            if before.contains(d as usize) {
                                let k = choose|k: int| 0 <= k < before.len() && before[k] == d as usize;
                                assert(v@[k] == d as usize);
                            }
                        } else {
                            assert(v@[before.len() as int] == c);
                        }
                    }
                }
            } else {
                proof {
                    assert forall|d: int| 0 <= d < c + 1 implies (v@.contains(d as usize) <==> completes_threat(*state, p, d)) by {
                        if d == c {
                            if v@.contains(d as usize) {
                                let k = choose|k: int| 0 <= k < v@.len() && v@[k] == d as usize;
                                assert(v@[k] < c);
                            }
                        }
                    }
                }
            }
        } else {
            proof {
                assert forall|d: int| 0 <= d < c + 1 implies (v@.contains(d as usize) <==> completes_threat(*state, p, d)) by {
                    if d == c {
                        if v@.contains(d as usize) {
                            let k = choose|k: int| 0 <= k < v@.len() && v@[k] == d as usize;
                            assert(v@[k] < c);
                        }
                    }
                }
            }
        }
        c = c + 1;
    }
    v
}

/// The empty cells on at least two lines `p` has opened, ascending.
fn fork_cells(state: &Board, p: Player) -> (v: Vec<usize>)
    ensures
        is_cell_set(v@, |c: int| is_fork_cell(*state, p, c)),
{
    let mut v: Vec<usize> = Vec::new();
    let mut c: usize = 0;
    while c < 9
        invariant
            c <= 9,
            forall|i: int, j: int| 0 <= i < j < v@.len() ==> #[trigger] v@[i] < #[trigger] v@[j],
            forall|i: int| 0 <= i < v@.len() ==> #[trigger] v@[i] < c,
            forall|d: int| 0 <= d < c ==> (v@.contains(d as usize) <==> is_fork_cell(*state, p, d)),
        decreases 9 - c,
    {
        let mut qualifying: usize = 0;
        let mut l: usize = 0;
        while l < 8
            invariant
                l <= 8,
                c < 9,
                qualifying == fork_lines(*state, p, c as int, l as int),
                qualifying <= l,
            decreases 8 - l,
        {
            if line_has(l, c) {
                let mine = count_on_line(state, l, p);
                let theirs = count_on_line(state, l, p.other());
                if mine == 1 && theirs == 0 {
                    qualifying = qualifying + 1;
                }
            }
            l = l + 1;
        }
        let is_fork = state.cell(c).is_none() && qualifying >= 2;
        if is_fork {
            let ghost before = v@;
            v.push(c);
            proof {
                assert forall|d: int| 0 <= d < c + 1 implies (v@.contains(d as usize) <==> is_fork_cell(*state, p, d)) by {
                    if d < c {
                        if v@.contains(d as usize) {
                            let k = choose|k: int| 0 <= k < v@.len() && v@[k] == d as usize;
                            if k == before.len() {
                                assert(false);
                            }
                            assert(before[k] == d as usize);
                        }
                        if before.contains(d as usize) {
                            let k = choose|k: int| 0 <= k < before.len() && before[k] == d as usize;
                            assert(v@[k] == d as usize);
                        }
                    } else {
                        assert(v@[before.len() as int] == c);
                    }
                }
            }
        } else {
            proof {
                assert forall|d: int| 0 <= d < c + 1 implies (v@.contains(d as usize) <==> is_fork_cell(*state, p, d)) by {
                    if d == c {
                        if v@.contains(d as usize) {
                            let k = choose|k: int| 0 <= k < v@.len() && v@[k] == d as usize;
                            assert(v@[k] < c);
                        }
                    }
                }
            }
        }
        c = c + 1;
    }
    v
}

/// Number of threats of `p`.
fn count_threats(state: &Board, p: Player) -> (n: i64)
    ensures
        n == threat_count(*state, p, 8),
{
    let mut n: i64 = 0;
    let mut l: usize = 0;
    while l < 8
        invariant
            l <= 8,
            n == threat_count(*state, p, l as int),
            0 <= n <= l,
        decreases 8 - l,
    {
        let mine = count_on_line(state, l, p);
        let theirs = count_on_line(state, l, p.other());
        if mine == 2 && theirs == 0 {
            n = n + 1;
        }
        l = l + 1;
    }
    n
}

/// The name of the per-line count feature of line `l` with suffix `suffix`.
fn line_name(l: usize, suffix: &str) -> (s: String)
    ensures
        s@ == line_feature_name(l as int, suffix@),
{
    let mut s = with_decimal("ttt.line", l);
    s.append(suffix);
    proof {
        reveal_strlit("ttt.line");
    }
    s
}

/// The description of the per-line count feature of line `l` for the player drawn as `symbol`.
pub open spec fn line_description(l: int, symbol: Seq<char>) -> Seq<char> {
    "number of "@ + symbol + " marks on line "@ + decimal(l as nat) + " {"@ + decimal(
        line_cell(l, 0) as nat,
    ) + ", "@ + decimal(line_cell(l, 1) as nat) + ", "@ + decimal(line_cell(l, 2) as nat) + "}"@
}

/// The description of the per-line count feature of line `l` for the player drawn as `symbol`.
fn line_description_text(l: usize, symbol: &str) -> (s: String)
    requires
        l < 8,
    ensures
        s@ == line_description(l as int, symbol@),
{
    let mut s = String::from_str("number of ");
    s.append(symbol);
    s.append(" marks on line ");
    let ls = decimal_string(l);
    s.append(ls.as_str());
    s.append(" {");
    let a = decimal_string(line_at(l, 0));
    s.append(a.as_str());
    s.append(", ");
    let b = decimal_string(line_at(l, 1));
    s.append(b.as_str());
    s.append(", ");
    let c = decimal_string(line_at(l, 2));
    s.append(c.as_str());
    s.append("}");
    proof {
        reveal_strlit("number of ");
        reveal_strlit(" marks on line ");
        reveal_strlit(" {");
        reveal_strlit(", ");
        reveal_strlit("}");
    }
    s
}

/// A supplied feature definition.
fn supplied(name: String, description: String) -> (d: FeatureDef)
    ensures
        d.name@ == name@,
        d.tier == Tier::Supplied,
        d.description@ == description@,
{
    FeatureDef { name, tier: Tier::Supplied, description }
}

/// A supplied feature definition `def` named `name` described by `description`.
pub open spec fn is_supplied_def(def: FeatureDef, name: Seq<char>, description: Seq<char>) -> bool {
    def.name@ == name && def.tier == Tier::Supplied && def.description@ == description
}

/// Supplied feature extractor for tic-tac-toe.
#[derive(Debug, Clone, Copy, Default)]
pub struct TicTacToeFeatures;

impl TicTacToeFeatures {
    /// The 22 feature definitions, in the order `extract` computes the features: for each line
    /// the X and the O count, then the threats of mover and opponent, the winning, blocking and
    /// fork cells, and whether a win is available.
    pub fn definitions(&self) -> (defs: Vec<FeatureDef>)
        ensures
            defs@.len() == 22,
            forall|l: int|
                #![trigger defs@[2 * l]]
                0 <= l < 8 ==> is_supplied_def(
                    defs@[2 * l],
                    line_feature_name(l, ".x"@),
                    line_description(l, "X"@),
                ),
            forall|l: int|
                #![trigger defs@[2 * l + 1]]
                0 <= l < 8 ==> is_supplied_def(
                    defs@[2 * l + 1],
                    line_feature_name(l, ".o"@),
                    line_description(l, "O"@),
                ),
            is_supplied_def(
                defs@[16],
                "ttt.threats.mine"@,
                "lines with exactly 2 mover marks and 1 empty cell"@,
            ),
            is_supplied_def(
                defs@[17],
                "ttt.threats.theirs"@,
                "lines with exactly 2 opponent marks and 1 empty cell"@,
            ),
            is_supplied_def(
                defs@[18],
                "ttt.winning_cells"@,
                "empty cells that complete a mover threat (mover wins immediately by playing there)"@,
            ),
            is_supplied_def(
                defs@[19],
                "ttt.blocking_cells"@,
                "empty cells that complete an opponent threat (mover must play there to block)"@,
            ),
            is_supplied_def(
                defs@[20],
                "ttt.fork_cells"@,
                "empty cells c such that at least 2 lines through c each contain exactly 1 mover mark and 0 opponent marks (playing c creates >= 2 new threats)"@,
            ),
            is_supplied_def(defs@[21], "ttt.win_available"@, "ttt.winning_cells is non-empty"@),
            forall|i: int| 0 <= i < 22 ==> (#[trigger] defs@[i]).name@ == feature_name(i),
    {
        let mut defs: Vec<FeatureDef> = Vec::new();
        let mut l: usize = 0;
        while l < 8
            invariant
                l <= 8,
                defs@.len() == 2 * l,
                forall|m: int|
                    #![trigger defs@[2 * m]]
                    0 <= m < l ==> is_supplied_def(
                        defs@[2 * m],
                        line_feature_name(m, ".x"@),
                        line_description(m, "X"@),
                    ),
                forall|m: int|
                    #![trigger defs@[2 * m + 1]]
                    0 <= m < l ==> is_supplied_def(
                        defs@[2 * m + 1],
                        line_feature_name(m, ".o"@),
                        line_description(m, "O"@),
                    ),
            decreases 8 - l,
        {
            let ghost before = defs@;
            defs.push(supplied(line_name(l, ".x"), line_description_text(l, "X")));
            defs.push(supplied(line_name(l, ".o"), line_description_text(l, "O")));
            proof {
                assert forall|m: int|
                    #![trigger defs@[2 * m]]
                    0 <= m < l + 1 implies is_supplied_def(
                        defs@[2 * m],
                        line_feature_name(m, ".x"@),
                        line_description(m, "X"@),
                    ) by {
                    if m < l {
                        assert(defs@[2 * m] == before[2 * m]);
                    }
                }
                assert forall|m: int|
                    #![trigger defs@[2 * m + 1]]
                    0 <= m < l + 1 implies is_supplied_def(
                        defs@[2 * m + 1],
                        line_feature_name(m, ".o"@),
                        line_description(m, "O"@),
                    ) by {
                    if m < l {
                        assert(defs@[2 * m + 1] == before[2 * m + 1]);
                    }
                }
            }
            l = l + 1;
        }
        let ghost lines = defs@;
        defs.push(supplied(
            String::from_str("ttt.threats.mine"),
            String::from_str("lines with exactly 2 mover marks and 1 empty cell"),
        ));
        defs.push(supplied(
            String::from_str("ttt.threats.theirs"),
            String::from_str("lines with exactly 2 opponent marks and 1 empty cell"),
        ));
        defs.push(supplied(
            String::from_str("ttt.winning_cells"),
            String::from_str("empty cells that complete a mover threat (mover wins immediately by playing there)"),
        ));
        defs.push(supplied(
            String::from_str("ttt.blocking_cells"),
            String::from_str("empty cells that complete an opponent threat (mover must play there to block)"),
        ));
        defs.push(supplied(
            String::from_str("ttt.fork_cells"),
            String::from_str("empty cells c such that at least 2 lines through c each contain exactly 1 mover mark and 0 opponent marks (playing c creates >= 2 new threats)"),
        ));
        defs.push(supplied(
            String::from_str("ttt.win_available"),
            String::from_str("ttt.winning_cells is non-empty"),
        ));
        proof {
            assert forall|m: int| #![trigger defs@[2 * m]] 0 <= m < 8 implies defs@[2 * m] == lines[2 * m] by {}
            assert forall|m: int| #![trigger defs@[2 * m + 1]] 0 <= m < 8 implies defs@[2 * m + 1] == lines[2 * m + 1] by {}
            assert forall|i: int| 0 <= i < 22 implies (#[trigger] defs@[i]).name@ == feature_name(i) by {
                if i < 16 {
                    let m = i / 2;
                    if i % 2 == 0 {
                        assert(defs@[2 * m] == defs@[i]);
                    } else {
                        assert(defs@[2 * m + 1] == defs@[i]);
                    }
                }
            }
        }
        defs
    }

    /// The features of `state`, relative to its side to move: for each line `l`, the number of
    /// X marks (`ttt.line{l}.x`) and O marks (`ttt.line{l}.o`); the threats of the mover and of
    /// the opponent (lines with two of their marks and none of the other's); the empty cells
    /// completing a mover threat (`ttt.winning_cells`) and an opponent threat
    /// (`ttt.blocking_cells`); the empty cells on two or more lines holding one mover mark and
    /// no opponent mark (`ttt.fork_cells`); and whether a winning cell exists.
    pub fn extract(&self, state: &Board) -> (fv: FeatureVector)
        ensures
            fv.entries@.len() == 22,
            forall|i: int| 0 <= i < 22 ==> (#[trigger] fv.entries@[i]).0@ == feature_name(i),
            forall|l: int|
                #![trigger fv.entries@[2 * l]]
                0 <= l < 8 ==> fv.entries@[2 * l].0@ == line_feature_name(l, ".x"@)
                    && fv.entries@[2 * l].1 == FeatureValue::Int(line_count(*state, l, Player::X) as i64),
            forall|l: int|
                #![trigger fv.entries@[2 * l + 1]]
                0 <= l < 8 ==> fv.entries@[2 * l + 1].0@ == line_feature_name(l, ".o"@)
                    && fv.entries@[2 * l + 1].1 == FeatureValue::Int(line_count(*state, l, Player::O) as i64),
            fv.entries@[16].0@ == "ttt.threats.mine"@,
            fv.entries@[16].1 == FeatureValue::Int(threat_count(*state, state.spec_to_move(), 8) as i64),
            fv.entries@[17].0@ == "ttt.threats.theirs"@,
            fv.entries@[17].1 == FeatureValue::Int(
                threat_count(*state, state.spec_to_move().spec_other(), 8) as i64,
            ),
            fv.entries@[18].0@ == "ttt.winning_cells"@,
            is_cell_set_value(fv.entries@[18].1, |c: int| completes_threat(*state, state.spec_to_move(), c)),
            fv.entries@[19].0@ == "ttt.blocking_cells"@,
            is_cell_set_value(
                fv.entries@[19].1,
                |c: int| completes_threat(*state, state.spec_to_move().spec_other(), c),
            ),
            fv.entries@[20].0@ == "ttt.fork_cells"@,
            is_cell_set_value(fv.entries@[20].1, |c: int| is_fork_cell(*state, state.spec_to_move(), c)),
            fv.entries@[21].0@ == "ttt.win_available"@,
            fv.entries@[21].1 == FeatureValue::Bool(
                exists|c: int| 0 <= c < 9 && #[trigger] completes_threat(*state, state.spec_to_move(), c),
            ),
    {
        let mover = state.to_move();
        let opponent = mover.other();
        let mut entries: Vec<(String, FeatureValue)> = Vec::new();
        let mut l: usize = 0;
        while l < 8
            invariant
                l <= 8,
                entries@.len() == 2 * l,
                forall|m: int|
                    #![trigger entries@[2 * m]]
                    0 <= m < l ==> entries@[2 * m].0@ == line_feature_name(m, ".x"@)
                        && entries@[2 * m].1 == FeatureValue::Int(line_count(*state, m, Player::X) as i64),
                forall|m: int|
                    #![trigger entries@[2 * m + 1]]
                    0 <= m < l ==> entries@[2 * m + 1].0@ == line_feature_name(m, ".o"@)
                        && entries@[2 * m + 1].1 == FeatureValue::Int(line_count(*state, m, Player::O) as i64),
            decreases 8 - l,
        {
            let x = count_on_line(state, l, Player::X);
            let o = count_on_line(state, l, Player::O);
            let ghost before = entries@;
            entries.push((line_name(l, ".x"), FeatureValue::Int(x)));
            entries.push((line_name(l, ".o"), FeatureValue::Int(o)));
            proof {
                assert forall|m: int|
                    #![trigger entries@[2 * m]]
                    0 <= m < l + 1 implies entries@[2 * m].0@ == line_feature_name(m, ".x"@)
                        && entries@[2 * m].1 == FeatureValue::Int(line_count(*state, m, Player::X) as i64) by {
                    if m < l {
                        assert(entries@[2 * m] == before[2 * m]);
                    }
                }
                assert forall|m: int|
                    #![trigger entries@[2 * m + 1]]
                    0 <= m < l + 1 implies entries@[2 * m + 1].0@ == line_feature_name(m, ".o"@)
                        && entries@[2 * m + 1].1 == FeatureValue::Int(line_count(*state, m, Player::O) as i64) by {
                    if m < l {
                        assert(entries@[2 * m + 1] == before[2 * m + 1]);
                    }
                }
            }
            l = l + 1;
        }
        let threats_mine = count_threats(state, mover);
        let threats_theirs = count_threats(state, opponent);
        let winning = threat_cells(state, mover);
        let blocking = threat_cells(state, opponent);
        let forks = fork_cells(state, mover);
        let win_available = winning.len() > 0;
        proof {
            let pred = |c: int| completes_threat(*state, mover, c);
            if win_available {
                let c = winning@[0] as int;
                assert(winning@.contains(c as usize));
                assert(pred(c));
            } else {
                assert forall|c: int| 0 <= c < 9 implies !#[trigger] completes_threat(*state, mover, c) by {
                    assert(pred(c) == winning@.contains(c as usize));
                }
            }
        }
        let ghost lines = entries@;
        entries.push((String::from_str("ttt.threats.mine"), FeatureValue::Int(threats_mine)));
        entries.push((String::from_str("ttt.threats.theirs"), FeatureValue::Int(threats_theirs)));
        entries.push((String::from_str("ttt.winning_cells"), FeatureValue::CellSet(winning)));
        entries.push((String::from_str("ttt.blocking_cells"), FeatureValue::CellSet(blocking)));
        entries.push((String::from_str("ttt.fork_cells"), FeatureValue::CellSet(forks)));
        entries.push((String::from_str("ttt.win_available"), FeatureValue::Bool(win_available)));
        proof {
            reveal_strlit("ttt.threats.mine");
            reveal_strlit("ttt.threats.theirs");
            reveal_strlit("ttt.winning_cells");
            reveal_strlit("ttt.blocking_cells");
            reveal_strlit("ttt.fork_cells");
            reveal_strlit("ttt.win_available");
            assert forall|m: int| #![trigger entries@[2 * m]] 0 <= m < 8 implies entries@[2 * m] == lines[2 * m] by {}
            assert forall|m: int| #![trigger entries@[2 * m + 1]] 0 <= m < 8 implies entries@[2 * m + 1] == lines[2 * m + 1] by {}
            assert forall|i: int| 0 <= i < 22 implies (#[trigger] entries@[i]).0@ == feature_name(i) by {
                if i < 16 {
                    let m = i / 2;
                    if i % 2 == 0 {
                        assert(entries@[2 * m] == entries@[i]);
                    } else {
                        assert(entries@[2 * m + 1] == entries@[i]);
                    }
                }
            }
        }
        FeatureVector { entries }
    }
}

/// One cell of win line `l` holds `p` and its other two cells are empty.
pub open spec fn single_mark(b: Board, l: int, p: Player) -> bool {
    exists|k: int|
        0 <= k < 3 && b.spec_cell(#[trigger] line_cell(l, k)) == Some(p) && forall|j: int|
            0 <= j < 3 && j != k ==> b.spec_cell(line_cell(l, j)) is None
}

/// Two different win lines through cell `c` each hold a single mark of `p` and nothing else.
pub open spec fn two_single_lines(b: Board, p: Player, c: int) -> bool {
    exists|l1: int, l2: int|
        0 <= l1 < 8 && 0 <= l2 < 8 && l1 != l2 && on_line(l1, c) && on_line(l2, c) && #[trigger] single_mark(
            b,
            l1,
            p,
        ) && #[trigger] single_mark(b, l2, p)
}

/// A cell is empty, or holds `p`, or holds the other player.
proof fn lemma_cell_kinds(x: Option<Player>, p: Player)
    ensures
        x is None || x == Some(p) || x == Some(p.spec_other()),
{
    match x {
        Some(y) => match y {
            Player::X => match p {
                Player::X => {},
                Player::O => {},
            },
            Player::O => match p {
                Player::X => {},
                Player::O => {},
            },
        },
        None => {},
    }
}

/// A line holds one mark of `p` and none of the other player exactly when one of its cells holds
/// `p` and the other two are empty.
proof fn lemma_opens_single(b: Board, l: int, p: Player)
    requires
        0 <= l < 8,
    ensures
        opens_line(b, l, p) <==> single_mark(b, l, p),
{
    let q = p.spec_other();
    let c0 = b.spec_cell(line_cell(l, 0));
    let c1 = b.spec_cell(line_cell(l, 1));
    let c2 = b.spec_cell(line_cell(l, 2));
    lemma_cell_kinds(c0, p);
    lemma_cell_kinds(c1, p);
    lemma_cell_kinds(c2, p);
    assert(p != q) by {
        match p {
            Player::X => {},
            Player::O => {},
        }
    }
    if opens_line(b, l, p) {
        if c0 == Some(p) {
            assert(b.spec_cell(line_cell(l, 0)) == Some(p));
        } else if c1 == Some(p) {
            assert(b.spec_cell(line_cell(l, 1)) == Some(p));
        } else {
            assert(b.spec_cell(line_cell(l, 2)) == Some(p));
        }
    }
    if single_mark(b, l, p) {
        let k = choose|k: int|
            0 <= k < 3 && b.spec_cell(#[trigger] line_cell(l, k)) == Some(p) && forall|j: int|
                0 <= j < 3 && j != k ==> b.spec_cell(line_cell(l, j)) is None;
        if k == 0 {
            assert(c1 is None && c2 is None);
        } else if k == 1 {
            assert(c0 is None && c2 is None);
        } else {
            assert(c0 is None && c1 is None);
        }
    }
}

/// Counting the lines through `c` that `p` has opened: at least one, or at least two, exactly
/// when that many different such lines exist among the first `n`.
proof fn lemma_fork_lines_count(b: Board, p: Player, c: int, n: int)
    requires
        0 <= n <= 8,
    ensures
        fork_lines(b, p, c, n) >= 0,
        fork_lines(b, p, c, n) >= 1 <==> exists|l: int|
            0 <= l < n && on_line(l, c) && #[trigger] opens_line(b, l, p),
        fork_lines(b, p, c, n) >= 2 <==> exists|l1: int, l2: int|
            0 <= l1 < l2 < n && on_line(l1, c) && on_line(l2, c) && #[trigger] opens_line(b, l1, p)
                && #[trigger] opens_line(b, l2, p),
    decreases n,
{
    if n > 0 {
        lemma_fork_lines_count(b, p, c, n - 1);
        let m = n - 1;
        if on_line(m, c) && opens_line(b, m, p) {
            if fork_lines(b, p, c, m) >= 1 {
                let l = choose|l: int| 0 <= l < m && on_line(l, c) && #[trigger] opens_line(b, l, p);
                assert(0 <= l < m && on_line(l, c) && on_line(m, c) && opens_line(b, l, p) && opens_line(b, m, p));
            }
            assert(0 <= m < n && on_line(m, c) && opens_line(b, m, p));
            if exists|l1: int, l2: int|
                0 <= l1 < l2 < n && on_line(l1, c) && on_line(l2, c) && #[trigger] opens_line(b, l1, p)
                    && #[trigger] opens_line(b, l2, p) {
                let (l1, l2) = choose|l1: int, l2: int|
                    0 <= l1 < l2 < n && on_line(l1, c) && on_line(l2, c) && #[trigger] opens_line(b, l1, p)
                        && #[trigger] opens_line(b, l2, p);
                assert(0 <= l1 < m && on_line(l1, c) && opens_line(b, l1, p));
            }
        } else {
            if exists|l: int| 0 <= l < n && on_line(l, c) && #[trigger] opens_line(b, l, p) {
                let l = choose|l: int| 0 <= l < n && on_line(l, c) && #[trigger] opens_line(b, l, p);
                assert(l < m);
            }
            if exists|l1: int, l2: int|
                0 <= l1 < l2 < n && on_line(l1, c) && on_line(l2, c) && #[trigger] opens_line(b, l1, p)
                    && #[trigger] opens_line(b, l2, p) {
                let (l1, l2) = choose|l1: int, l2: int|
                    0 <= l1 < l2 < n && on_line(l1, c) && on_line(l2, c) && #[trigger] opens_line(b, l1, p)
                        && #[trigger] opens_line(b, l2, p);
                assert(l2 < m);
                assert(0 <= l1 < l2 < m && on_line(l1, c) && on_line(l2, c) && opens_line(b, l1, p) && opens_line(
                    b,
                    l2,
                    p,
                ));
            }
        }
    }
}

/// A fork cell of `p` is exactly an empty cell through which two different win lines each hold a
/// single mark of `p` and nothing else: a line with two marks of `p`, or with a mark of the other
/// player, never counts toward a fork.
pub proof fn lemma_fork_cell_law(b: Board, p: Player, c: int)
    requires
        0 <= c < 9,
    ensures
        is_fork_cell(b, p, c) <==> (b.spec_cell(c) is None && two_single_lines(b, p, c)),
{
    lemma_fork_lines_count(b, p, c, 8);
    assert forall|l: int| 0 <= l < 8 implies (opens_line(b, l, p) <==> single_mark(b, l, p)) by {
        lemma_opens_single(b, l, p);
    }
    if fork_lines(b, p, c, 8) >= 2 {
        let (l1, l2) = choose|l1: int, l2: int|
            0 <= l1 < l2 < 8 && on_line(l1, c) && on_line(l2, c) && #[trigger] opens_line(b, l1, p)
                && #[trigger] opens_line(b, l2, p);
        assert(single_mark(b, l1, p) && single_mark(b, l2, p));
    }
    if two_single_lines(b, p, c) {
        let (l1, l2) = choose|l1: int, l2: int|
            0 <= l1 < 8 && 0 <= l2 < 8 && l1 != l2 && on_line(l1, c) && on_line(l2, c) && #[trigger] single_mark(
                b,
                l1,
                p,
            ) && #[trigger] single_mark(b, l2, p);
        assert(opens_line(b, l1, p) && opens_line(b, l2, p));
        if l1 < l2 {
            assert(0 <= l1 < l2 < 8 && on_line(l1, c) && on_line(l2, c) && opens_line(b, l1, p) && opens_line(b, l2, p));
        } else {
            assert(0 <= l2 < l1 < 8 && on_line(l2, c) && on_line(l1, c) && opens_line(b, l2, p) && opens_line(b, l1, p));
        }
    }
}

} // verus!
