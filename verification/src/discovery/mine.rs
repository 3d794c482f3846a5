//! Mining decision lists: a CART tree fitted on the training rows becomes an ordered list of
//! rules, one per leaf walked depth-first (left before right), each with the conditions on its
//! path and the class most often qualifying at its rows; leaves where no class qualifies fall
//! back. Also the naming of mined candidates and the integer checks of the `[mine]` parameters.

use vstd::prelude::*;
use vstd::string::*;
use crate::framework::text::{decimal, decimal_string, text_eq};
use crate::discovery::config::{config_error, reports_config, CorpusError};
use crate::io::schema::{OutcomeTally, MINE_ENGINE_CART, MINE_ENGINE_LINFA_TREES};
use crate::discovery::config::copy_vec;
use crate::discovery::dataset::among;
use crate::discovery::tree::{
    all_rows, ascending, columns_below, fit, fit_input, grow, is_sound_tree, lemma_grow_columns, lemma_grow_sound,
    lemma_side_ascending, lemma_side_len, lemma_side_within, n_columns, node_rows, route, route_model, Node, NodeModel, Tree,
};

verus! {

/// The candidate name for `engine` at `depth`/`min_leaf`.
pub open spec fn spec_candidate_name(engine: Seq<char>, depth: nat, min_leaf: nat) -> Seq<char> {
    (if engine == "linfa-trees"@ {
        "mined-linfa-d"@
    } else {
        "mined-d"@
    }) + decimal(depth) + "-l"@ + decimal(min_leaf)
}

/// Candidate name for `engine` at `depth`/`min_leaf`: `mined-linfa-d{depth}-l{min_leaf}` for
/// `linfa-trees`, `mined-d{depth}-l{min_leaf}` for any other engine.
pub fn candidate_name(engine: &str, depth: usize, min_leaf: usize) -> (name: String)
    ensures
        name@ == spec_candidate_name(engine@, depth as nat, min_leaf as nat),
{
    proof {
        reveal_strlit("linfa-trees");
        reveal_strlit("mined-linfa-d");
        reveal_strlit("mined-d");
        reveal_strlit("-l");
    }
    let mut name = if text_eq(engine, MINE_ENGINE_LINFA_TREES) {
        String::from_str("mined-linfa-d")
    } else {
        String::from_str("mined-d")
    };
    let d = decimal_string(depth);
    name.append(d.as_str());
    name.append("-l");
    let l = decimal_string(min_leaf);
    name.append(l.as_str());
    name
}

/// The first problem with the `[mine]` engine, depths and leaf size: an unknown engine, no
/// depths, a depth listed twice (the first repeat), a leaf size of zero.
pub open spec fn mine_params_error(engine: Seq<char>, depths: Seq<usize>, min_leaf: usize) -> Option<Seq<char>> {
    if engine != "cart"@ && engine != "linfa-trees"@ {
        Some("[mine] engine `"@ + engine + "` is not one of: cart, linfa-trees"@)
    } else if depths.len() == 0 {
        Some("[mine] depths must list at least one depth"@)
    } else if exists|i: int| 0 <= i < depths.len() && #[trigger] depths.take(i).contains(depths[i]) {
        let i = choose|i: int|
            0 <= i < depths.len() && #[trigger] depths.take(i).contains(depths[i]) && forall|j: int|
                0 <= j < i ==> !depths.take(j).contains(depths[j]);
        Some("[mine] depths lists "@ + decimal(depths[i] as nat) + " more than once"@)
    } else if min_leaf == 0 {
        Some("[mine] min_leaf must be >= 1, got 0"@)
    } else {
        None
    }
}

/// Checks the `[mine]` engine, depths and leaf size, in that order. The holdout fraction, a
/// float, is checked by the caller.
pub fn check_mine_params(engine: &str, depths: &[usize], min_leaf: usize) -> (r: Result<(), CorpusError>)
    ensures
        r is Err <==> mine_params_error(engine@, depths@, min_leaf) is Some,
        r matches Err(e) ==> reports_config(e, mine_params_error(engine@, depths@, min_leaf)->0),
{
    proof {
        reveal_strlit("cart");
        reveal_strlit("linfa-trees");
        reveal_strlit("[mine] engine `");
        reveal_strlit("` is not one of: cart, linfa-trees");
        reveal_strlit("[mine] depths must list at least one depth");
        reveal_strlit("[mine] depths lists ");
        reveal_strlit(" more than once");
        reveal_strlit("[mine] min_leaf must be >= 1, got 0");
    }
    if !text_eq(engine, MINE_ENGINE_CART) && !text_eq(engine, MINE_ENGINE_LINFA_TREES) {
        let mut m = String::from_str("[mine] engine `");
        m.append(engine);
        m.append("` is not one of: cart, linfa-trees");
        return Err(config_error(m));
    }
    if depths.len() == 0 {
        return Err(config_error(String::from_str("[mine] depths must list at least one depth")));
    }
    let ghost ds = depths@;
    let mut i: usize = 0;
    while i < depths.len()
        invariant
            ds == depths@,
            engine@ == "cart"@ || engine@ == "linfa-trees"@,
            i <= ds.len(),
            forall|j: int| 0 <= j < i ==> !(#[trigger] ds.take(j)).contains(ds[j]),
        decreases ds.len() - i,
    {
        let mut k: usize = 0;
        while k < i && depths[k] != depths[i]
            invariant
                ds == depths@,
                i < ds.len(),
                k <= i,
                forall|j: int| 0 <= j < k ==> ds[j] != ds[i as int],
            decreases i - k,
        {
            k = k + 1;
        }
        if k < i {
            proof {
                assert(ds.take(i as int)[k as int] == ds[i as int]);
                assert(0 <= i < ds.len() && ds.take(i as int).contains(ds[i as int]) && forall|j: int|
                    0 <= j < i ==> !ds.take(j).contains(ds[j]));
                let f = choose|f: int|
                    0 <= f < ds.len() && #[trigger] ds.take(f).contains(ds[f]) && forall|j: int|
                        0 <= j < f ==> !ds.take(j).contains(ds[j]);
                assert(ds.take(i as int).contains(ds[i as int]));
                if f > i {
                    assert(!ds.take(i as int).contains(ds[i as int]));
                }
                if f < i {
                    assert(!ds.take(f).contains(ds[f]));
                }
                assert(f == i);
            }
            let mut m = String::from_str("[mine] depths lists ");
            let d = decimal_string(depths[i]);
            m.append(d.as_str());
            m.append(" more than once");
            return Err(config_error(m));
        }
        proof {
            assert forall|x: int| 0 <= x < i implies ds.take(i as int)[x] != ds[i as int] by {}
            assert(!ds.take(i as int).contains(ds[i as int]));
        }
        i = i + 1;
    }
    if min_leaf == 0 {
        return Err(config_error(String::from_str("[mine] min_leaf must be >= 1, got 0")));
    }
    Ok(())
}


/// One test on a rule's path: `x[column] <= threshold` when `at_most`, else `x[column] > threshold`.
#[derive(Clone, Copy, Debug, PartialEq, Eq)]
pub struct Condition {
    /// The column tested.
    pub column: usize,
    /// The threshold.
    pub threshold: i64,
    /// Whether the path takes the `<=` side.
    pub at_most: bool,
}

/// One rule of a decision list, with its evidence over the training rows.
#[derive(Clone, Debug, PartialEq)]
pub struct MinedRule {
    /// The conditions on the leaf's path, root first.
    pub conditions: Vec<Condition>,
    /// The class the rule selects.
    pub class: usize,
    /// Training rows reaching the leaf.
    pub support: usize,
    /// Of those, rows where the class qualifies.
    pub sound: usize,
    /// Of those, rows labelled with the class.
    pub label_matches: usize,
    /// Positions collapsed into the rows reaching the leaf.
    pub occurrences: usize,
    /// Win/draw/loss counts of the rows reaching the leaf, for the side to move.
    pub outcomes: OutcomeTally,
}

/// A mined decision list with its tree and its evidence.
#[derive(Clone, Debug)]
pub struct MinedList {
    /// The tree fitted on the training rows.
    pub tree: Tree,
    /// One rule per leaf that has a class, in leaf order.
    pub rules: Vec<MinedRule>,
    /// Training rows reaching leaves where no class qualifies.
    pub fallback_rows: usize,
    /// Training rows.
    pub train_rows: usize,
    /// Training rows labelled with the class of the leaf they reach.
    pub train_correct: usize,
    /// Holdout rows.
    pub holdout_rows: usize,
    /// Holdout rows labelled with the class of the leaf they route to.
    pub holdout_correct: usize,
    /// Holdout rows where the class of the leaf they route to qualifies.
    pub holdout_sound: usize,
    /// Leaves of the tree: the rules plus the leaves that fall back.
    pub leaves: usize,
}

/// The positions `i < m` whose `holdout[i]` is `flag`, ascending.
pub open spec fn positions_where(holdout: Seq<bool>, flag: bool, m: int) -> Seq<usize>
    decreases m,
{
    if m <= 0 {
        seq![]
    } else if holdout[m - 1] == flag {
        positions_where(holdout, flag, m - 1).push((m - 1) as usize)
    } else {
        positions_where(holdout, flag, m - 1)
    }
}

/// The leaves of `node`, depth-first with left before right, each with the conditions on its
/// path (after `path`) and its rows.
pub open spec fn node_leaves(node: Node, path: Seq<Condition>) -> Seq<(Seq<Condition>, Seq<usize>)>
    decreases node,
{
    match node {
        Node::Leaf { rows, .. } => seq![(path, rows@)],
        Node::Split { column, threshold, left, right, .. } => node_leaves(
            *left,
            path.push(Condition { column, threshold, at_most: true }),
        ) + node_leaves(*right, path.push(Condition { column, threshold, at_most: false })),
    }
}

/// The dataset row of leaf row `r`: the `r`-th training row, or none past them.
pub open spec fn row_of_leaf(train: Seq<usize>, r: usize) -> Option<usize> {
    if r < train.len() {
        Some(train[r as int])
    } else {
        None
    }
}

/// How many of the first `m` leaf rows have `class` among their qualifying classes.
pub open spec fn qualify_count(q: Seq<Seq<usize>>, train: Seq<usize>, rows: Seq<usize>, class: int, m: int) -> nat
    decreases m,
{
    if m <= 0 {
        0
    } else {
        qualify_count(q, train, rows, class, m - 1) + match row_of_leaf(train, rows[m - 1]) {
            Some(d) => if 0 <= class && q[d as int].contains(class as usize) {
                1nat
            } else {
                0
            },
            None => 0,
        }
    }
}

/// How many of the first `m` leaf rows are labelled `class`.
pub open spec fn label_count(labels: Seq<usize>, train: Seq<usize>, rows: Seq<usize>, class: int, m: int) -> nat
    decreases m,
{
    if m <= 0 {
        0
    } else {
        label_count(labels, train, rows, class, m - 1) + match row_of_leaf(train, rows[m - 1]) {
            Some(d) => if labels[d as int] == class {
                1nat
            } else {
                0
            },
            None => 0,
        }
    }
}

/// Among classes `0 .. c`, the first that qualifies most often at `rows` (counting only classes
/// that qualify at least once), with its count; `(none, 0)` when none qualifies.
pub open spec fn best_class(q: Seq<Seq<usize>>, train: Seq<usize>, rows: Seq<usize>, none: int, c: int) -> (int, nat)
    decreases c,
{
    if c <= 0 {
        (none, 0)
    } else {
        let prev = best_class(q, train, rows, none, c - 1);
        let n = qualify_count(q, train, rows, c - 1, rows.len() as int);
        if n > prev.1 {
            (c - 1, n)
        } else {
            prev
        }
    }
}

/// The class of a leaf with `rows`: the class qualifying most often there, ties to the lowest;
/// `n_classes` (no class) when none qualifies.
pub open spec fn leaf_class(q: Seq<Seq<usize>>, train: Seq<usize>, rows: Seq<usize>, n_classes: int) -> int {
    best_class(q, train, rows, n_classes, n_classes).0
}

/// A rule as values: conditions, class, support, sound and label matches.
pub open spec fn rule_view(r: MinedRule) -> (Seq<Condition>, int, nat, nat, nat) {
    (r.conditions@, r.class as int, r.support as nat, r.sound as nat, r.label_matches as nat)
}

/// The rules emitted for the first `m` leaves: one per leaf with a class.
pub open spec fn emitted(
    leaves: Seq<(Seq<Condition>, Seq<usize>)>,
    q: Seq<Seq<usize>>,
    labels: Seq<usize>,
    train: Seq<usize>,
    n_classes: int,
    m: int,
) -> Seq<(Seq<Condition>, int, nat, nat, nat)>
    decreases m,
{
    if m <= 0 {
        seq![]
    } else {
        let prev = emitted(leaves, q, labels, train, n_classes, m - 1);
        let (path, rows) = leaves[m - 1];
        let c = leaf_class(q, train, rows, n_classes);
        if c == n_classes {
            prev
        } else {
            prev.push(
                (
                    path,
                    c,
                    rows.len(),
                    qualify_count(q, train, rows, c, rows.len() as int),
                    label_count(labels, train, rows, c, rows.len() as int),
                ),
            )
        }
    }
}

/// `w[idx[0]] + ... + w[idx[m - 1]]`.
pub open spec fn sum_at(w: Seq<usize>, idx: Seq<usize>, m: int) -> nat
    decreases m,
{
    if m <= 0 {
        0
    } else {
        sum_at(w, idx, m - 1) + w[idx[m - 1] as int] as nat
    }
}

/// `w[0] + ... + w[n - 1]`.
pub open spec fn sum_upto(w: Seq<usize>, n: int) -> nat
    decreases n,
{
    if n <= 0 {
        0
    } else {
        sum_upto(w, n - 1) + w[n - 1] as nat
    }
}

/// The per-row weights `w` read through the training rows: entry `k` is `w[train[k]]`.
pub open spec fn through(w: Seq<usize>, train: Seq<usize>) -> Seq<usize> {
    Seq::new(train.len(), |k: int| w[train[k] as int])
}

/// How many of the first `m` leaf rows have value `v`.
pub open spec fn value_count(values: Seq<i8>, train: Seq<usize>, rows: Seq<usize>, v: int, m: int) -> nat
    decreases m,
{
    if m <= 0 {
        0
    } else {
        value_count(values, train, rows, v, m - 1) + if values[train[rows[m - 1] as int] as int] == v {
            1nat
        } else {
            0
        }
    }
}

/// A rule's collapsed positions and win/draw/loss counts.
pub open spec fn evidence_view(r: MinedRule) -> (nat, nat, nat, nat) {
    (r.occurrences as nat, r.outcomes.win as nat, r.outcomes.draw as nat, r.outcomes.loss as nat)
}

/// The collapsed positions and win/draw/loss counts of the rules emitted for the first `m`
/// leaves, in rule order.
pub open spec fn emitted_evidence(
    leaves: Seq<(Seq<Condition>, Seq<usize>)>,
    q: Seq<Seq<usize>>,
    train: Seq<usize>,
    occurrences: Seq<usize>,
    values: Seq<i8>,
    n_classes: int,
    m: int,
) -> Seq<(nat, nat, nat, nat)>
    decreases m,
{
    if m <= 0 {
        seq![]
    } else {
        let prev = emitted_evidence(leaves, q, train, occurrences, values, n_classes, m - 1);
        let rows = leaves[m - 1].1;
        if leaf_class(q, train, rows, n_classes) == n_classes {
            prev
        } else {
            prev.push(
                (
                    sum_at(through(occurrences, train), rows, rows.len() as int),
                    value_count(values, train, rows, 1, rows.len() as int),
                    value_count(values, train, rows, 0, rows.len() as int),
                    value_count(values, train, rows, -1, rows.len() as int),
                ),
            )
        }
    }
}

proof fn lemma_sum_upto_mono(w: Seq<usize>, a: int, b: int)
    requires
        0 <= a <= b,
    ensures
        sum_upto(w, a) <= sum_upto(w, b),
    decreases b - a,
{
    if a < b {
        lemma_sum_upto_mono(w, a, b - 1);
    }
}

/// Weights summed at the first `m` of ascending indices below `n` are at most the sum of the
/// first `n` weights.
proof fn lemma_sum_at_bound(w: Seq<usize>, idx: Seq<usize>, m: int, n: int)
    requires
        0 <= m <= idx.len(),
        ascending(idx),
        m > 0 ==> idx[m - 1] < n,
        0 <= n,
    ensures
        sum_at(w, idx, m) <= sum_upto(w, n),
    decreases m,
{
    if m > 0 {
        let x = idx[m - 1] as int;
        lemma_sum_at_bound(w, idx, m - 1, x);
        lemma_sum_upto_mono(w, x + 1, n);
    }
}

/// Summing through the training rows is summing the weights at them.
proof fn lemma_sum_through(w: Seq<usize>, train: Seq<usize>, n: int)
    requires
        0 <= n <= train.len(),
    ensures
        sum_upto(through(w, train), n) == sum_at(w, train, n),
    decreases n,
{
    if n > 0 {
        lemma_sum_through(w, train, n - 1);
    }
}

/// The positions where a flag has a given value ascend.
proof fn lemma_positions_ascending(holdout: Seq<bool>, flag: bool, m: int)
    requires
        0 <= m <= holdout.len(),
        holdout.len() <= usize::MAX,
    ensures
        ascending(positions_where(holdout, flag, m)),
    decreases m,
{
    if m > 0 {
        lemma_positions_ascending(holdout, flag, m - 1);
        lemma_positions_where::<bool>(holdout, flag, m - 1);
        let prev = positions_where(holdout, flag, m - 1);
        let cur = positions_where(holdout, flag, m);
        if holdout[m - 1] == flag {
            assert(cur == prev.push((m - 1) as usize));
            assert forall|i: int, j: int| 0 <= i < j < cur.len() implies cur[i] < cur[j] by {
                assert(cur[i] == prev[i]);
                assert(prev[i] < m - 1);
                if j < prev.len() {
                    assert(cur[j] == prev[j]);
                    assert(prev[i] < prev[j]);
                } else {
                    assert(cur[j] == (m - 1) as usize);
                }
            }
        }
    }
}

/// Leaves of a sound tree over ascending rows hold ascending rows.
proof fn lemma_leaves_ascending(node: Node, path: Seq<Condition>, m: Seq<Vec<i64>>, labels: Seq<usize>, n_classes: int, min_leaf: int, bound: int)
    requires
        is_sound_tree(node.model(), m, labels, n_classes, min_leaf),
        ascending(node_rows(node.model())),
        forall|i: int| 0 <= i < node_rows(node.model()).len() ==> (#[trigger] node_rows(node.model())[i]) < bound,
    ensures
        forall|j: int| 0 <= j < node_leaves(node, path).len() ==> ascending(#[trigger] node_leaves(node, path)[j].1),
        forall|j: int, i: int|
            0 <= j < node_leaves(node, path).len() && 0 <= i < node_leaves(node, path)[j].1.len()
                ==> #[trigger] node_leaves(node, path)[j].1[i] < bound,
    decreases node,
{
    match node {
        Node::Leaf { rows, .. } => {},
        Node::Split { column, threshold, left, right, rows } => {
            let lp = path.push(Condition { column, threshold, at_most: true });
            let rp = path.push(Condition { column, threshold, at_most: false });
            lemma_side_ascending(m, rows@, column as int, threshold as int, true, rows@.len() as int);
            lemma_side_ascending(m, rows@, column as int, threshold as int, false, rows@.len() as int);
            lemma_side_within(m, rows@, column as int, threshold as int, true, rows@.len() as int, bound);
            lemma_side_within(m, rows@, column as int, threshold as int, false, rows@.len() as int, bound);
            lemma_leaves_ascending(*left, lp, m, labels, n_classes, min_leaf, bound);
            lemma_leaves_ascending(*right, rp, m, labels, n_classes, min_leaf, bound);
            let a = node_leaves(*left, lp);
            let b = node_leaves(*right, rp);
            assert(node_leaves(node, path) == a + b);
            assert forall|j: int| 0 <= j < (a + b).len() implies ascending(#[trigger] (a + b)[j].1) by {
                if j < a.len() {
                    assert((a + b)[j] == a[j]);
                } else {
                    assert((a + b)[j] == b[j - a.len()]);
                }
            }
            assert forall|j: int, i: int| 0 <= j < (a + b).len() && 0 <= i < (a + b)[j].1.len() implies #[trigger] (a
                + b)[j].1[i] < bound by {
                if j < a.len() {
                    assert((a + b)[j] == a[j]);
                } else {
                    assert((a + b)[j] == b[j - a.len()]);
                }
            }
        },
    }
}

/// Rows of the first `m` leaves that have no class.
pub open spec fn fallback_of(
    leaves: Seq<(Seq<Condition>, Seq<usize>)>,
    q: Seq<Seq<usize>>,
    train: Seq<usize>,
    n_classes: int,
    m: int,
) -> nat
    decreases m,
{
    if m <= 0 {
        0
    } else {
        fallback_of(leaves, q, train, n_classes, m - 1) + if leaf_class(q, train, leaves[m - 1].1, n_classes)
            == n_classes {
            leaves[m - 1].1.len()
        } else {
            0
        }
    }
}

/// Rows of the first `m` leaves labelled with their leaf's class.
pub open spec fn correct_of(
    leaves: Seq<(Seq<Condition>, Seq<usize>)>,
    q: Seq<Seq<usize>>,
    labels: Seq<usize>,
    train: Seq<usize>,
    n_classes: int,
    m: int,
) -> nat
    decreases m,
{
    if m <= 0 {
        0
    } else {
        let rows = leaves[m - 1].1;
        correct_of(leaves, q, labels, train, n_classes, m - 1) + label_count(
            labels,
            train,
            rows,
            leaf_class(q, train, rows, n_classes),
            rows.len() as int,
        )
    }
}

/// Rows in the first `m` leaves.
pub open spec fn leaf_rows(leaves: Seq<(Seq<Condition>, Seq<usize>)>, m: int) -> nat
    decreases m,
{
    if m <= 0 {
        0
    } else {
        leaf_rows(leaves, m - 1) + leaves[m - 1].1.len()
    }
}

/// Supports summed over the first `m` rules.
pub open spec fn support_sum(rules: Seq<(Seq<Condition>, int, nat, nat, nat)>, m: int) -> nat
    decreases m,
{
    if m <= 0 {
        0
    } else {
        support_sum(rules, m - 1) + rules[m - 1].2
    }
}

/// The rows of the leaf that `values` routes to.
pub open spec fn routed_rows(node: NodeModel, values: Seq<i64>) -> Seq<usize> {
    match route_model(node, values) {
        NodeModel::Leaf { rows, .. } => rows,
        NodeModel::Split { rows, .. } => rows,
    }
}

/// The holdout class of dataset row `h`: the class of the leaf its values route to.
pub open spec fn holdout_class(
    root: NodeModel,
    matrix: Seq<Vec<i64>>,
    q: Seq<Seq<usize>>,
    train: Seq<usize>,
    n_classes: int,
    h: usize,
) -> int {
    leaf_class(q, train, routed_rows(root, matrix[h as int]@), n_classes)
}

/// Holdout rows among the first `m` labelled with their holdout class.
pub open spec fn holdout_correct(
    root: NodeModel,
    matrix: Seq<Vec<i64>>,
    labels: Seq<usize>,
    q: Seq<Seq<usize>>,
    train: Seq<usize>,
    hold: Seq<usize>,
    n_classes: int,
    m: int,
) -> nat
    decreases m,
{
    if m <= 0 {
        0
    } else {
        holdout_correct(root, matrix, labels, q, train, hold, n_classes, m - 1) + if labels[hold[m - 1] as int]
            == holdout_class(root, matrix, q, train, n_classes, hold[m - 1]) {
            1nat
        } else {
            0
        }
    }
}

/// Holdout rows among the first `m` where their holdout class qualifies.
pub open spec fn holdout_sound(
    root: NodeModel,
    matrix: Seq<Vec<i64>>,
    q: Seq<Seq<usize>>,
    train: Seq<usize>,
    hold: Seq<usize>,
    n_classes: int,
    m: int,
) -> nat
    decreases m,
{
    if m <= 0 {
        0
    } else {
        let c = holdout_class(root, matrix, q, train, n_classes, hold[m - 1]);
        holdout_sound(root, matrix, q, train, hold, n_classes, m - 1) + if c != n_classes && 0 <= c && q[hold[m
            - 1] as int].contains(c as usize) {
            1nat
        } else {
            0
        }
    }
}

/// `tm` holds the rows of `matrix` at `train`, in order.
pub open spec fn rows_at(tm: Seq<Vec<i64>>, matrix: Seq<Vec<i64>>, train: Seq<usize>) -> bool {
    &&& tm.len() == train.len()
    &&& forall|k: int| 0 <= k < tm.len() ==> (#[trigger] tm[k])@ == matrix[train[k] as int]@
}

/// The tree was grown, with one more class for "none", from the training rows.
pub open spec fn grown_from(
    tree: Tree,
    matrix: Seq<Vec<i64>>,
    labels: Seq<usize>,
    train: Seq<usize>,
    n_classes: int,
    max_depth: int,
    min_leaf: int,
) -> bool {
    exists|tm: Seq<Vec<i64>>|
        #[trigger] rows_at(tm, matrix, train) && tree.root.model() == grow(
            tm,
            train.map_values(|i: usize| labels[i as int]),
            n_classes + 1,
            max_depth,
            min_leaf,
            all_rows(train.len() as int),
            0,
        )
}

proof fn lemma_positions_where<T>(holdout: Seq<bool>, flag: bool, m: int)
    requires
        0 <= m <= holdout.len(),
    ensures
        positions_where(holdout, flag, m).len() <= m,
        forall|k: int| 0 <= k < positions_where(holdout, flag, m).len() ==> #[trigger] positions_where(holdout, flag, m)[k] < m,
    decreases m,
{
    if m > 0 {
        lemma_positions_where::<T>(holdout, flag, m - 1);
    }
}

proof fn lemma_leaf_rows_agree(a: Seq<(Seq<Condition>, Seq<usize>)>, b: Seq<(Seq<Condition>, Seq<usize>)>, m: int)
    requires
        0 <= m <= a.len(),
        m <= b.len(),
        forall|x: int| 0 <= x < m ==> a[x] == b[x],
    ensures
        leaf_rows(a, m) == leaf_rows(b, m),
    decreases m,
{
    if m > 0 {
        lemma_leaf_rows_agree(a, b, m - 1);
    }
}

proof fn lemma_leaf_rows_concat(a: Seq<(Seq<Condition>, Seq<usize>)>, b: Seq<(Seq<Condition>, Seq<usize>)>)
    ensures
        leaf_rows(a + b, (a + b).len() as int) == leaf_rows(a, a.len() as int) + leaf_rows(b, b.len() as int),
    decreases b.len(),
{
    if b.len() == 0 {
        assert(a + b =~= a);
    } else {
        let b2 = b.drop_last();
        lemma_leaf_rows_concat(a, b2);
        lemma_leaf_rows_agree(a + b, a + b2, (a + b2).len() as int);
        assert((a + b)[(a + b).len() - 1] == b[b.len() - 1]);
        lemma_leaf_rows_agree(b, b2, b2.len() as int);
    }
}

proof fn lemma_leaf_rows_monotone(a: Seq<(Seq<Condition>, Seq<usize>)>, j: int, k: int)
    requires
        0 <= j <= k,
    ensures
        leaf_rows(a, j) <= leaf_rows(a, k),
    decreases k,
{
    if j < k {
        lemma_leaf_rows_monotone(a, j, k - 1);
    }
}

/// The leaves of a sound tree hold each of its rows once: their rows add up to the root's.
proof fn lemma_leaves_partition(node: Node, path: Seq<Condition>, m: Seq<Vec<i64>>, labels: Seq<usize>, n_classes: int, min_leaf: int)
    requires
        is_sound_tree(node.model(), m, labels, n_classes, min_leaf),
    ensures
        leaf_rows(node_leaves(node, path), node_leaves(node, path).len() as int) == node_rows(node.model()).len(),
    decreases node,
{
    match node {
        Node::Leaf { rows, .. } => {
            let l = node_leaves(node, path);
            assert(l.len() == 1);
            assert(leaf_rows(l, 0) == 0);
            assert(leaf_rows(l, 1) == leaf_rows(l, 0) + l[0].1.len());
        },
        Node::Split { column, threshold, left, right, rows } => {
            let lp = path.push(Condition { column, threshold, at_most: true });
            let rp = path.push(Condition { column, threshold, at_most: false });
            lemma_leaves_partition(*left, lp, m, labels, n_classes, min_leaf);
            lemma_leaves_partition(*right, rp, m, labels, n_classes, min_leaf);
            lemma_leaf_rows_concat(node_leaves(*left, lp), node_leaves(*right, rp));
            lemma_side_len(m, rows@, column as int, threshold as int, rows@.len() as int);
        },
    }
}

/// The leaves of `node` after `path`, appended to `out`.
fn collect_leaves(node: &Node, path: Vec<Condition>, out: &mut Vec<(Vec<Condition>, Vec<usize>)>)
    ensures
        final(out)@.map_values(|l: (Vec<Condition>, Vec<usize>)| (l.0@, l.1@)) == old(out)@.map_values(
            |l: (Vec<Condition>, Vec<usize>)| (l.0@, l.1@),
        ) + node_leaves(*node, path@),
    decreases node,
{
    match node {
        Node::Leaf { rows, .. } => {
            let ghost before = out@;
            out.push((path, copy_vec(rows)));
            proof {
                assert(out@.map_values(|l: (Vec<Condition>, Vec<usize>)| (l.0@, l.1@)) =~= before.map_values(
                    |l: (Vec<Condition>, Vec<usize>)| (l.0@, l.1@),
                ) + node_leaves(*node, path@));
            }
        },
        Node::Split { column, threshold, left, right, .. } => {
            let mut lp = copy_vec(&path);
            lp.push(Condition { column: *column, threshold: *threshold, at_most: true });
            let mut rp = path;
            rp.push(Condition { column: *column, threshold: *threshold, at_most: false });
            let ghost v0 = out@.map_values(|l: (Vec<Condition>, Vec<usize>)| (l.0@, l.1@));
            collect_leaves(left, lp, out);
            collect_leaves(right, rp, out);
            proof {
                assert(v0 + node_leaves(**left, lp@) + node_leaves(**right, rp@) =~= v0 + node_leaves(*node, path@));
            }
        },
    }
}

/// How many leaf rows have `class` among their qualifying classes.
fn count_qualifying(q: &[Vec<usize>], train: &[usize], rows: &[usize], class: usize) -> (n: usize)
    requires
        forall|k: int| 0 <= k < train@.len() ==> (#[trigger] train@[k]) < q@.len(),
    ensures
        n == qualify_count(q@.map_values(|v: Vec<usize>| v@), train@, rows@, class as int, rows@.len() as int),
{
    let ghost qv = q@.map_values(|v: Vec<usize>| v@);
    let mut n: usize = 0;
    let mut k: usize = 0;
    while k < rows.len()
        invariant
            qv == q@.map_values(|v: Vec<usize>| v@),
            forall|x: int| 0 <= x < train@.len() ==> (#[trigger] train@[x]) < q@.len(),
            k <= rows@.len(),
            n == qualify_count(qv, train@, rows@, class as int, k as int),
            n <= k,
        decreases rows@.len() - k,
    {
        let r = rows[k];
        if r < train.len() {
            let d = train[r];
            let v = &q[d];
            let has = among(v.as_slice(), v.len(), class);
            proof {
                assert(v@.take(v@.len() as int) =~= v@);
                assert(qv[d as int] == v@);
            }
            if has {
                n = n + 1;
            }
        }
        k = k + 1;
    }
    n
}

/// How many leaf rows are labelled `class`.
fn count_labels(labels: &[usize], train: &[usize], rows: &[usize], class: usize) -> (n: usize)
    requires
        forall|k: int| 0 <= k < train@.len() ==> (#[trigger] train@[k]) < labels@.len(),
    ensures
        n == label_count(labels@, train@, rows@, class as int, rows@.len() as int),
        n <= rows@.len(),
{
    let mut n: usize = 0;
    let mut k: usize = 0;
    while k < rows.len()
        invariant
            forall|x: int| 0 <= x < train@.len() ==> (#[trigger] train@[x]) < labels@.len(),
            k <= rows@.len(),
            n == label_count(labels@, train@, rows@, class as int, k as int),
            n <= k,
        decreases rows@.len() - k,
    {
        let r = rows[k];
        if r < train.len() {
            if labels[train[r]] == class {
                n = n + 1;
            }
        }
        k = k + 1;
    }
    n
}

/// The class of a leaf with `rows` and how often it qualifies there.
fn classify_leaf(q: &[Vec<usize>], train: &[usize], rows: &[usize], n_classes: usize) -> (r: (usize, usize))
    requires
        forall|k: int| 0 <= k < train@.len() ==> (#[trigger] train@[k]) < q@.len(),
    ensures
        r.0 == leaf_class(q@.map_values(|v: Vec<usize>| v@), train@, rows@, n_classes as int),
        r.0 < n_classes ==> r.1 == qualify_count(q@.map_values(|v: Vec<usize>| v@), train@, rows@, r.0 as int, rows@.len() as int),
        r.0 <= n_classes,
{
    let ghost qv = q@.map_values(|v: Vec<usize>| v@);
    let mut best: usize = n_classes;
    let mut best_count: usize = 0;
    let mut c: usize = 0;
    while c < n_classes
        invariant
            qv == q@.map_values(|v: Vec<usize>| v@),
            forall|x: int| 0 <= x < train@.len() ==> (#[trigger] train@[x]) < q@.len(),
            c <= n_classes,
            best_class(qv, train@, rows@, n_classes as int, c as int) == (best as int, best_count as nat),
            best <= n_classes,
            best < n_classes ==> best_count == qualify_count(qv, train@, rows@, best as int, rows@.len() as int),
        decreases n_classes - c,
    {
        let n = count_qualifying(q, train, rows, c);
        if n > best_count {
            best = c;
            best_count = n;
        }
        c = c + 1;
    }
    (best, best_count)
}

/// Collapsed positions and win/draw/loss counts of a leaf's rows (indices into `train`).
fn leaf_evidence(occurrences: &[usize], values: &[i8], train: &[usize], rows: &[usize]) -> (r: (usize, OutcomeTally))
    requires
        values@.len() == occurrences@.len(),
        forall|k: int| 0 <= k < train@.len() ==> (#[trigger] train@[k]) < occurrences@.len(),
        forall|k: int| 0 <= k < rows@.len() ==> (#[trigger] rows@[k]) < train@.len(),
        sum_at(through(occurrences@, train@), rows@, rows@.len() as int) <= usize::MAX,
    ensures
        r.0 == sum_at(through(occurrences@, train@), rows@, rows@.len() as int),
        r.1.win == value_count(values@, train@, rows@, 1, rows@.len() as int),
        r.1.draw == value_count(values@, train@, rows@, 0, rows@.len() as int),
        r.1.loss == value_count(values@, train@, rows@, -1, rows@.len() as int),
{
    let ghost w = through(occurrences@, train@);
    let mut occ: usize = 0;
    let mut win: usize = 0;
    let mut draw: usize = 0;
    let mut loss: usize = 0;
    let mut k: usize = 0;
    while k < rows.len()
        invariant
            w == through(occurrences@, train@),
            values@.len() == occurrences@.len(),
            forall|x: int| 0 <= x < train@.len() ==> (#[trigger] train@[x]) < occurrences@.len(),
            forall|x: int| 0 <= x < rows@.len() ==> (#[trigger] rows@[x]) < train@.len(),
            sum_at(w, rows@, rows@.len() as int) <= usize::MAX,
            k <= rows@.len(),
            occ == sum_at(w, rows@, k as int),
            win == value_count(values@, train@, rows@, 1, k as int),
            draw == value_count(values@, train@, rows@, 0, k as int),
            loss == value_count(values@, train@, rows@, -1, k as int),
            win <= k && draw <= k && loss <= k,
        decreases rows@.len() - k,
    {
        proof {
            lemma_sum_at_mono(w, rows@, k + 1, rows@.len() as int);
        }
        let d = train[rows[k]];
        occ = occ + occurrences[d];
        let v = values[d];
        if v == 1 {
            win = win + 1;
        } else if v == 0 {
            draw = draw + 1;
        } else if v == -1 {
            loss = loss + 1;
        }
        k = k + 1;
    }
    (occ, OutcomeTally { win, draw, loss })
}

proof fn lemma_sum_at_mono(w: Seq<usize>, idx: Seq<usize>, a: int, b: int)
    requires
        0 <= a <= b,
    ensures
        sum_at(w, idx, a) <= sum_at(w, idx, b),
    decreases b - a,
{
    if a < b {
        lemma_sum_at_mono(w, idx, a, b - 1);
    }
}

/// `r` is the decision list mined from `matrix`: the tree grown on the rows not marked
/// `holdout`, its rules and their evidence, the fallback rows, and the training and holdout
/// counts.
pub open spec fn mined_list(
    r: MinedList,
    matrix: Seq<Vec<i64>>,
    labels: Seq<usize>,
    q: Seq<Seq<usize>>,
    occurrences: Seq<usize>,
    values: Seq<i8>,
    holdout: Seq<bool>,
    n_classes: usize,
    max_depth: usize,
    min_leaf: usize,
) -> bool {

            let train = positions_where(holdout, false, holdout.len() as int);
            let hold = positions_where(holdout, true, holdout.len() as int);
            let leaves = node_leaves(r.tree.root, seq![]);
            &&& grown_from(r.tree, matrix, labels, train, n_classes as int, max_depth as int, min_leaf as int)
            &&& r.rules@.map_values(|x: MinedRule| rule_view(x)) == emitted(leaves, q, labels, train, n_classes as int, leaves.len() as int)
            &&& r.rules@.map_values(|x: MinedRule| evidence_view(x)) == emitted_evidence(
                leaves,
                q,
                train,
                occurrences,
                values,
                n_classes as int,
                leaves.len() as int,
            )
            &&& r.fallback_rows == fallback_of(leaves, q, train, n_classes as int, leaves.len() as int)
            &&& r.train_rows == train.len()
            &&& r.train_correct == correct_of(leaves, q, labels, train, n_classes as int, leaves.len() as int)
            &&& r.leaves == leaves.len()
            &&& r.holdout_rows == hold.len()
            &&& r.holdout_correct == holdout_correct(r.tree.root.model(), matrix, labels, q, train, hold, n_classes as int, hold.len() as int)
            &&& r.holdout_sound == holdout_sound(r.tree.root.model(), matrix, q, train, hold, n_classes as int, hold.len() as int)
        
}

/// Mines a decision list: fits a tree, with one more class for "none", on the rows not marked
/// `holdout`, turns its leaves (depth-first, left before right) into rules that select the class
/// most often qualifying at the leaf's rows, and counts the evidence on the training and
/// holdout rows. `labels[i]` is row `i`'s label, `n_classes` meaning none; `qualifying[i]` holds
/// the classes that qualify at row `i`.
#[verifier::rlimit(100)]
pub fn mine_decision_list(
    matrix: &[Vec<i64>],
    labels: &[usize],
    qualifying: &[Vec<usize>],
    occurrences: &[usize],
    values: &[i8],
    holdout: &[bool],
    n_classes: usize,
    max_depth: usize,
    min_leaf: usize,
) -> (r: MinedList)
    requires
        labels@.len() == matrix@.len(),
        qualifying@.len() == matrix@.len(),
        occurrences@.len() == matrix@.len(),
        values@.len() == matrix@.len(),
        sum_upto(occurrences@, occurrences@.len() as int) <= usize::MAX,
        holdout@.len() == matrix@.len(),
        n_classes < usize::MAX,
        fit_input(matrix@, labels@, n_classes + 1),
    ensures
        mined_list(
            r,
            matrix@,
            labels@,
            qualifying@.map_values(|v: Vec<usize>| v@),
            occurrences@,
            values@,
            holdout@,
            n_classes,
            max_depth,
            min_leaf,
        ),
{
    let ghost train_s = positions_where(holdout@, false, holdout@.len() as int);
    let ghost hold_s = positions_where(holdout@, true, holdout@.len() as int);
    let ghost q = qualifying@.map_values(|v: Vec<usize>| v@);
    let mut train: Vec<usize> = Vec::new();
    let mut hold: Vec<usize> = Vec::new();
    let mut i: usize = 0;
    while i < holdout.len()
        invariant
            i <= holdout@.len(),
            train@ == positions_where(holdout@, false, i as int),
            hold@ == positions_where(holdout@, true, i as int),
        decreases holdout@.len() - i,
    {
        if holdout[i] {
            hold.push(i);
        } else {
            train.push(i);
        }
        i = i + 1;
    }
    proof {
        lemma_positions_where::<bool>(holdout@, false, holdout@.len() as int);
        lemma_positions_where::<bool>(holdout@, true, holdout@.len() as int);
    }
    let mut tm: Vec<Vec<i64>> = Vec::new();
    let mut tl: Vec<usize> = Vec::new();
    let mut k: usize = 0;
    while k < train.len()
        invariant
            train@ == train_s,
            forall|x: int| 0 <= x < train@.len() ==> (#[trigger] train@[x]) < matrix@.len(),
            labels@.len() == matrix@.len(),
            k <= train@.len(),
            rows_at(tm@, matrix@, train@.take(k as int)),
            tl@ == train@.take(k as int).map_values(|i: usize| labels@[i as int]),
        decreases train@.len() - k,
    {
        let row = copy_vec(&matrix[train[k]]);
        tm.push(row);
        tl.push(labels[train[k]]);
        proof {
            assert(train@.take(k + 1) =~= train@.take(k as int).push(train@[k as int]));
            assert(tl@ =~= train@.take(k + 1).map_values(|i: usize| labels@[i as int]));
        }
        k = k + 1;
    }
    proof {
        assert(train@.take(k as int) =~= train@);
        // The training rows satisfy the fitting conditions.
        if tm@.len() > 0 {
            assert(tm@[0]@ == matrix@[train@[0] as int]@);
        }
        assert forall|r: int| 0 <= r < tm@.len() implies (#[trigger] tm@[r])@.len() == n_columns(tm@) by {
            assert(tm@[r]@ == matrix@[train@[r] as int]@);
            assert(tm@[0]@ == matrix@[train@[0] as int]@);
        }
        assert forall|x: int| 0 <= x < tl@.len() implies (#[trigger] tl@[x]) < n_classes + 1 by {
            assert(tl@[x] == labels@[train@[x] as int]);
        }
    }
    let tree = fit(tm.as_slice(), tl.as_slice(), n_classes + 1, max_depth, min_leaf);
    proof {
        assert(rows_at(tm@, matrix@, train_s));
        assert(grown_from(tree, matrix@, labels@, train_s, n_classes as int, max_depth as int, min_leaf as int));
    }
    let mut leaves: Vec<(Vec<Condition>, Vec<usize>)> = Vec::new();
    collect_leaves(&tree.root, Vec::new(), &mut leaves);
    let ghost lv = leaves@.map_values(|l: (Vec<Condition>, Vec<usize>)| (l.0@, l.1@));
    proof {
        assert(lv =~= node_leaves(tree.root, seq![]));
        lemma_grow_sound(tm@, tl@, n_classes + 1, max_depth as int, min_leaf as int, all_rows(tm@.len() as int), 0);
        lemma_leaves_partition(tree.root, seq![], tm@, tl@, n_classes + 1, min_leaf as int);
        assert(leaf_rows(lv, lv.len() as int) == train@.len());
        assert(ascending(all_rows(tm@.len() as int)));
        lemma_leaves_ascending(tree.root, seq![], tm@, tl@, n_classes + 1, min_leaf as int, train@.len() as int);
        lemma_positions_ascending(holdout@, false, holdout@.len() as int);
        lemma_sum_through(occurrences@, train@, train@.len() as int);
        if train@.len() > 0 {
            lemma_sum_at_bound(occurrences@, train@, train@.len() as int, matrix@.len() as int);
        }
    }
    let mut rules: Vec<MinedRule> = Vec::new();
    let mut fallback_rows: usize = 0;
    let mut train_correct: usize = 0;
    let mut j: usize = 0;
    while j < leaves.len()
        invariant
            lv == leaves@.map_values(|l: (Vec<Condition>, Vec<usize>)| (l.0@, l.1@)),
            q == qualifying@.map_values(|v: Vec<usize>| v@),
            forall|x: int| 0 <= x < train@.len() ==> (#[trigger] train@[x]) < matrix@.len(),
            labels@.len() == matrix@.len(),
            qualifying@.len() == matrix@.len(),
            j <= leaves@.len(),
            rules@.map_values(|x: MinedRule| rule_view(x)) == emitted(lv, q, labels@, train@, n_classes as int, j as int),
            rules@.map_values(|x: MinedRule| evidence_view(x)) == emitted_evidence(
                lv,
                q,
                train@,
                occurrences@,
                values@,
                n_classes as int,
                j as int,
            ),
            occurrences@.len() == matrix@.len(),
            values@.len() == matrix@.len(),
            forall|x: int| 0 <= x < lv.len() ==> ascending(#[trigger] lv[x].1),
            forall|x: int, y: int| 0 <= x < lv.len() && 0 <= y < lv[x].1.len() ==> #[trigger] lv[x].1[y] < train@.len(),
            sum_upto(through(occurrences@, train@), train@.len() as int) <= usize::MAX,
            fallback_rows == fallback_of(lv, q, train@, n_classes as int, j as int),
            train_correct == correct_of(lv, q, labels@, train@, n_classes as int, j as int),
            fallback_rows <= leaf_rows(lv, j as int),
            train_correct <= leaf_rows(lv, j as int),
            leaf_rows(lv, lv.len() as int) <= usize::MAX,
        decreases leaves@.len() - j,
    {
        let (path, rows) = (&leaves[j].0, &leaves[j].1);
        let (class, sound) = classify_leaf(qualifying, train.as_slice(), rows.as_slice(), n_classes);
        let matches = count_labels(labels, train.as_slice(), rows.as_slice(), class);
        proof {
            assert(lv[j as int] == (path@, rows@));
            lemma_leaf_rows_monotone(lv, j + 1, lv.len() as int);
        }
        let ghost before = rules@;
        if class == n_classes {
            fallback_rows = fallback_rows + rows.len();
        } else {
            proof {
                assert(ascending(rows@));
                if rows@.len() > 0 {
                    assert(rows@[rows@.len() - 1] < train@.len());
                    lemma_sum_at_bound(through(occurrences@, train@), rows@, rows@.len() as int, train@.len() as int);
                }
            }
            let (occ, outcomes) = leaf_evidence(occurrences, values, train.as_slice(), rows.as_slice());
            rules.push(MinedRule {
                conditions: copy_vec(path),
                class,
                support: rows.len(),
                sound,
                label_matches: matches,
                occurrences: occ,
                outcomes,
            });
            proof {
                assert(rules@.map_values(|x: MinedRule| rule_view(x)) =~= before.map_values(|x: MinedRule| rule_view(x)).push(
                    rule_view(rules@[before.len() as int]),
                ));
                assert(rules@.map_values(|x: MinedRule| evidence_view(x)) =~= before.map_values(|x: MinedRule| evidence_view(x)).push(
                    evidence_view(rules@[before.len() as int]),
                ));
            }
        }
        train_correct = train_correct + matches;
        j = j + 1;
    }
    let mut holdout_correct_n: usize = 0;
    let mut holdout_sound_n: usize = 0;
    let mut h: usize = 0;
    proof {
        lemma_grow_columns(tm@, tl@, n_classes + 1, max_depth as int, min_leaf as int, all_rows(tm@.len() as int), 0);
    }
    while h < hold.len()
        invariant
            hold@ == hold_s,
            q == qualifying@.map_values(|v: Vec<usize>| v@),
            forall|x: int| 0 <= x < hold@.len() ==> (#[trigger] hold@[x]) < matrix@.len(),
            forall|x: int| 0 <= x < train@.len() ==> (#[trigger] train@[x]) < matrix@.len(),
            labels@.len() == matrix@.len(),
            qualifying@.len() == matrix@.len(),
            fit_input(matrix@, labels@, n_classes + 1),
            columns_below(tree.root.model(), n_columns(tm@)),
            rows_at(tm@, matrix@, train@),
            h <= hold@.len(),
            holdout_correct_n == holdout_correct(tree.root.model(), matrix@, labels@, q, train@, hold@, n_classes as int, h as int),
            holdout_sound_n == holdout_sound(tree.root.model(), matrix@, q, train@, hold@, n_classes as int, h as int),
            holdout_correct_n <= h,
            holdout_sound_n <= h,
        decreases hold@.len() - h,
    {
        let d = hold[h];
        let values = &matrix[d];
        proof {
            if tm@.len() > 0 {
                assert(tm@[0]@ == matrix@[train@[0] as int]@);
                assert(values@.len() == n_columns(matrix@));
            }
            lemma_columns_widen(tree.root.model(), n_columns(tm@), values@.len() as int);
        }
        let leaf = route(&tree.root, values.as_slice());
        let rows = match leaf {
            Node::Leaf { rows, .. } => rows,
            Node::Split { rows, .. } => rows,
        };
        proof {
            assert(rows@ == routed_rows(tree.root.model(), matrix@[d as int]@));
        }
        let (class, _) = classify_leaf(qualifying, train.as_slice(), rows.as_slice(), n_classes);
        if labels[d] == class {
            holdout_correct_n = holdout_correct_n + 1;
        }
        if class != n_classes {
            let v = &qualifying[d];
            let has = among(v.as_slice(), v.len(), class);
            proof {
                assert(v@.take(v@.len() as int) =~= v@);
                assert(q[d as int] == v@);
            }
            if has {
                holdout_sound_n = holdout_sound_n + 1;
            }
        }
        h = h + 1;
    }
    let n_leaves = leaves.len();
    MinedList {
        tree,
        rules,
        fallback_rows,
        train_rows: train.len(),
        train_correct,
        holdout_rows: hold.len(),
        holdout_correct: holdout_correct_n,
        holdout_sound: holdout_sound_n,
        leaves: n_leaves,
    }
}

proof fn lemma_emitted_len(
    leaves: Seq<(Seq<Condition>, Seq<usize>)>,
    q: Seq<Seq<usize>>,
    labels: Seq<usize>,
    train: Seq<usize>,
    n_classes: int,
    m: int,
)
    requires
        0 <= m,
    ensures
        emitted(leaves, q, labels, train, n_classes, m).len() <= m,
    decreases m,
{
    if m > 0 {
        lemma_emitted_len(leaves, q, labels, train, n_classes, m - 1);
    }
}

/// A decision list has at most one rule per leaf of its tree.
pub proof fn lemma_rules_within_leaves(
    r: MinedList,
    matrix: Seq<Vec<i64>>,
    labels: Seq<usize>,
    q: Seq<Seq<usize>>,
    occurrences: Seq<usize>,
    values: Seq<i8>,
    holdout: Seq<bool>,
    n_classes: usize,
    max_depth: usize,
    min_leaf: usize,
)
    requires
        mined_list(r, matrix, labels, q, occurrences, values, holdout, n_classes, max_depth, min_leaf),
    ensures
        r.rules@.len() <= r.leaves,
{
    let train = positions_where(holdout, false, holdout.len() as int);
    let leaves = node_leaves(r.tree.root, seq![]);
    lemma_emitted_len(leaves, q, labels, train, n_classes as int, leaves.len() as int);
    assert(r.rules@.map_values(|x: MinedRule| rule_view(x)).len() == r.rules@.len());
}

/// Why a miner produced no candidate.
#[derive(Clone, Debug, PartialEq, Eq)]
pub enum GeneratorError {
    /// Mining failed, described.
    Failed(String),
}

/// One mined candidate: its name, the engine and limits it was mined with, and its decision
/// list with the evidence.
#[derive(Clone, Debug)]
pub struct MinedHeuristic {
    /// Candidate name (`mined-d{depth}-l{min_leaf}`).
    pub name: String,
    /// Engine that induced the tree.
    pub engine: String,
    /// Depth limit requested (`0` = unlimited).
    pub max_depth: usize,
    /// Minimum rows per leaf requested.
    pub min_leaf: usize,
    /// The decision list and its evidence.
    pub list: MinedList,
}

/// The error for a mine engine that cannot run here, if it cannot: `linfa-trees` fits trees on
/// floating-point features; any other name but `cart` is unknown.
pub open spec fn mine_engine_error(engine: Seq<char>) -> Option<Seq<char>> {
    if engine == "cart"@ {
        None
    } else if engine == "linfa-trees"@ {
        Some("mine engine `linfa-trees` is unavailable: it fits trees on floating-point features"@)
    } else {
        Some("unknown mine engine `"@ + engine + "`"@)
    }
}

/// Mines one candidate with `engine` at `depth`/`min_leaf`: the decision list of
/// [`mine_decision_list`], named by [`candidate_name`]. Fails, naming the engine, for any engine
/// but `cart`.
pub fn mine_one(
    matrix: &[Vec<i64>],
    labels: &[usize],
    qualifying: &[Vec<usize>],
    occurrences: &[usize],
    values: &[i8],
    holdout: &[bool],
    engine: &str,
    n_classes: usize,
    depth: usize,
    min_leaf: usize,
) -> (r: Result<MinedHeuristic, GeneratorError>)
    requires
        labels@.len() == matrix@.len(),
        qualifying@.len() == matrix@.len(),
        occurrences@.len() == matrix@.len(),
        values@.len() == matrix@.len(),
        sum_upto(occurrences@, occurrences@.len() as int) <= usize::MAX,
        holdout@.len() == matrix@.len(),
        n_classes < usize::MAX,
        fit_input(matrix@, labels@, n_classes + 1),
    ensures
        r is Err <==> mine_engine_error(engine@) is Some,
        r matches Err(GeneratorError::Failed(m)) ==> m@ == mine_engine_error(engine@)->0,
        r matches Ok(h) ==> {
            &&& h.name@ == spec_candidate_name(engine@, depth as nat, min_leaf as nat)
            &&& h.engine@ == engine@
            &&& h.max_depth == depth
            &&& h.min_leaf == min_leaf
            &&& mined_list(
                h.list,
                matrix@,
                labels@,
                qualifying@.map_values(|v: Vec<usize>| v@),
                occurrences@,
                values@,
                holdout@,
                n_classes,
                depth,
                min_leaf,
            )
        },
{
    proof {
        reveal_strlit("cart");
        reveal_strlit("linfa-trees");
        reveal_strlit("mine engine `linfa-trees` is unavailable: it fits trees on floating-point features");
        reveal_strlit("unknown mine engine `");
        reveal_strlit("`");
    }
    if text_eq(engine, MINE_ENGINE_CART) {
        let list = mine_decision_list(matrix, labels, qualifying, occurrences, values, holdout, n_classes, depth, min_leaf);
        Ok(MinedHeuristic {
            name: candidate_name(engine, depth, min_leaf),
            engine: String::from_str(engine),
            max_depth: depth,
            min_leaf,
            list,
        })
    } else if text_eq(engine, MINE_ENGINE_LINFA_TREES) {
        Err(GeneratorError::Failed(
            String::from_str("mine engine `linfa-trees` is unavailable: it fits trees on floating-point features"),
        ))
    } else {
        let mut m = String::from_str("unknown mine engine `");
        m.append(engine);
        m.append("`");
        Err(GeneratorError::Failed(m))
    }
}

proof fn lemma_emitted_rows(
    leaves: Seq<(Seq<Condition>, Seq<usize>)>,
    q: Seq<Seq<usize>>,
    labels: Seq<usize>,
    train: Seq<usize>,
    n_classes: int,
    m: int,
)
    requires
        0 <= m <= leaves.len(),
    ensures
        support_sum(emitted(leaves, q, labels, train, n_classes, m), emitted(leaves, q, labels, train, n_classes, m).len() as int)
            + fallback_of(leaves, q, train, n_classes, m) == leaf_rows(leaves, m),
        forall|k: int|
            0 <= k < emitted(leaves, q, labels, train, n_classes, m).len() ==> (#[trigger] emitted(
                leaves,
                q,
                labels,
                train,
                n_classes,
                m,
            )[k]).3 <= emitted(leaves, q, labels, train, n_classes, m)[k].2,
    decreases m,
{
    if m > 0 {
        lemma_emitted_rows(leaves, q, labels, train, n_classes, m - 1);
        let prev = emitted(leaves, q, labels, train, n_classes, m - 1);
        let rows = leaves[m - 1].1;
        let c = leaf_class(q, train, rows, n_classes);
        if c != n_classes {
            let cur = emitted(leaves, q, labels, train, n_classes, m);
            assert(cur.drop_last() =~= prev);
            lemma_support_push(prev, cur.last(), prev.len() as int);
            assert(prev.push(cur.last()) =~= cur);
            lemma_qualify_bound(q, train, rows, c, rows.len() as int);
            assert forall|k: int| 0 <= k < cur.len() implies (#[trigger] cur[k]).3 <= cur[k].2 by {
                if k < prev.len() {
                    assert(cur[k] == prev[k]);
                }
            }
        }
    }
}

proof fn lemma_support_push(rules: Seq<(Seq<Condition>, int, nat, nat, nat)>, x: (Seq<Condition>, int, nat, nat, nat), k: int)
    requires
        0 <= k <= rules.len(),
    ensures
        support_sum(rules.push(x), k) == support_sum(rules, k),
    decreases k,
{
    if k > 0 {
        lemma_support_push(rules, x, k - 1);
        assert(rules.push(x)[k - 1] == rules[k - 1]);
    }
}

proof fn lemma_qualify_bound(q: Seq<Seq<usize>>, train: Seq<usize>, rows: Seq<usize>, class: int, m: int)
    requires
        0 <= m,
    ensures
        qualify_count(q, train, rows, class, m) <= m,
    decreases m,
{
    if m > 0 {
        lemma_qualify_bound(q, train, rows, class, m - 1);
    }
}

/// A decision list accounts for every training row once: the supports of its rules plus the
/// fallback rows add up to the training rows, and no rule is sound on more rows than it covers.
pub proof fn lemma_decision_list_accounts(
    tree: Tree,
    matrix: Seq<Vec<i64>>,
    labels: Seq<usize>,
    q: Seq<Seq<usize>>,
    train: Seq<usize>,
    n_classes: int,
    max_depth: int,
    min_leaf: int,
)
    requires
        grown_from(tree, matrix, labels, train, n_classes, max_depth, min_leaf),
    ensures
        ({
            let leaves = node_leaves(tree.root, seq![]);
            let rules = emitted(leaves, q, labels, train, n_classes, leaves.len() as int);
            &&& support_sum(rules, rules.len() as int) + fallback_of(leaves, q, train, n_classes, leaves.len() as int)
                == train.len()
            &&& forall|k: int| 0 <= k < rules.len() ==> (#[trigger] rules[k]).3 <= rules[k].2
        }),
{
    let tm = choose|tm: Seq<Vec<i64>>|
        #[trigger] rows_at(tm, matrix, train) && tree.root.model() == grow(
            tm,
            train.map_values(|i: usize| labels[i as int]),
            n_classes + 1,
            max_depth,
            min_leaf,
            all_rows(train.len() as int),
            0,
        );
    let tl = train.map_values(|i: usize| labels[i as int]);
    lemma_grow_sound(tm, tl, n_classes + 1, max_depth, min_leaf, all_rows(train.len() as int), 0);
    lemma_leaves_partition(tree.root, seq![], tm, tl, n_classes + 1, min_leaf);
    let leaves = node_leaves(tree.root, seq![]);
    lemma_emitted_rows(leaves, q, labels, train, n_classes, leaves.len() as int);
}

/// Tree columns below a width stay below any larger width.
proof fn lemma_columns_widen(node: NodeModel, w1: int, w2: int)
    requires
        columns_below(node, w1),
        w1 <= w2,
    ensures
        columns_below(node, w2),
    decreases node,
{
    match node {
        NodeModel::Leaf { .. } => {},
        NodeModel::Split { left, right, .. } => {
            lemma_columns_widen(*left, w1, w2);
            lemma_columns_widen(*right, w1, w2);
        },
    }
}

} // verus!
