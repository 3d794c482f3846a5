//! The action classes of a mining row. A class is a set-valued feature: a set of positions. At a
//! row, the class's legal part is the legal positions it holds; the class qualifies as an
//! explanation of the optimal actions when its legal part is non-empty and holds only optimal
//! positions. The row's label is the qualifying class of highest tier, then smallest legal
//! part, then earliest in vocabulary order. A dataset holds one row per distinct non-terminal
//! canonical state, in order of first appearance, with its features encoded as integers.

use vstd::prelude::*;
use vstd::string::*;
use crate::discovery::config::CorpusError;
use crate::discovery::summary::{
    distinct_in_order, lemma_distinct_contains, lemma_distinct_push, lemma_occurrences_absent,
    lemma_occurrences_bound, lemma_occurrences_push, lemma_sum_occurrences_total, occurrences, sum_occurrences,
};
use crate::framework::features::{tier_name, tier_text, FeatureDef, FeatureValue, Tier};
use crate::framework::traits::GameDomain;

verus! {

/// Rank of a tier in label preference: invented above supplied above primitive.
pub open spec fn tier_rank(t: Tier) -> int {
    match t {
        Tier::Invented => 2,
        Tier::Supplied => 1,
        Tier::Primitive => 0,
    }
}

/// The legal positions a class holds.
pub open spec fn class_part(legal: Seq<usize>, set: Seq<usize>) -> Set<usize> {
    legal.to_set().intersect(set.to_set())
}

/// The class holds some legal position, and every legal position it holds is optimal.
pub open spec fn qualifies(legal: Seq<usize>, optimal: Seq<usize>, set: Seq<usize>) -> bool {
    class_part(legal, set).len() > 0 && class_part(legal, set).subset_of(optimal.to_set())
}

/// Class `i` labels a row before class `j`: a higher tier, then a smaller legal part, then an
/// earlier place in the vocabulary.
pub open spec fn preferred(legal: Seq<usize>, classes: Seq<(Tier, Seq<usize>)>, i: int, j: int) -> bool {
    let (ri, rj) = (tier_rank(classes[i].0), tier_rank(classes[j].0));
    let (ni, nj) = (class_part(legal, classes[i].1).len(), class_part(legal, classes[j].1).len());
    ||| ri > rj
    ||| ri == rj && ni < nj
    ||| ri == rj && ni == nj && i < j
}

/// The qualifying classes among the first `m`, in vocabulary order.
pub open spec fn qualifying_upto(
    legal: Seq<usize>,
    optimal: Seq<usize>,
    classes: Seq<(Tier, Seq<usize>)>,
    m: int,
) -> Seq<usize>
    decreases m,
{
    if m <= 0 {
        seq![]
    } else if qualifies(legal, optimal, classes[m - 1].1) {
        qualifying_upto(legal, optimal, classes, m - 1).push((m - 1) as usize)
    } else {
        qualifying_upto(legal, optimal, classes, m - 1)
    }
}

/// `label` is the preferred qualifying class among the first `m`, or `None` when none of them
/// qualifies.
pub open spec fn labels(
    legal: Seq<usize>,
    optimal: Seq<usize>,
    classes: Seq<(Tier, Seq<usize>)>,
    m: int,
    label: Option<usize>,
) -> bool {
    match label {
        None => forall|j: int| 0 <= j < m ==> !qualifies(legal, optimal, #[trigger] classes[j].1),
        Some(c) => {
            &&& 0 <= c < m
            &&& qualifies(legal, optimal, classes[c as int].1)
            &&& forall|j: int|
                0 <= j < m && j != c && qualifies(legal, optimal, #[trigger] classes[j].1) ==> preferred(
                    legal,
                    classes,
                    c as int,
                    j,
                )
        },
    }
}

/// The tier and position set of each class.
pub open spec fn class_views(classes: Seq<(Tier, Vec<usize>)>) -> Seq<(Tier, Seq<usize>)> {
    classes.map_values(|c: (Tier, Vec<usize>)| (c.0, c.1@))
}

/// The qualifying classes of a row and its label.
#[derive(Clone, Debug, PartialEq, Eq)]
pub struct RowClasses {
    /// Vocabulary indices of the qualifying classes, ascending.
    pub qualifying: Vec<usize>,
    /// Vocabulary index of the label, or `None` (`"none"`) when no class qualifies.
    pub label: Option<usize>,
}

/// Whether `x` is among the first `n` of `v`.
pub(crate) fn among(v: &[usize], n: usize, x: usize) -> (r: bool)
    requires
        n <= v@.len(),
    ensures
        r == v@.take(n as int).contains(x),
{
    let mut i: usize = 0;
    while i < n
        invariant
            n <= v@.len(),
            i <= n,
            forall|k: int| 0 <= k < i ==> v@[k] != x,
        decreases n - i,
    {
        if v[i] == x {
            proof {
                assert(v@.take(n as int)[i as int] == x);
            }
            return true;
        }
        i = i + 1;
    }
    proof {
        if v@.take(n as int).contains(x) {
            let k = choose|k: int| 0 <= k < n && v@.take(n as int)[k] == x;
            assert(v@[k] == x);
        }
    }
    false
}

/// The size of a class's legal part, and whether every position of it is optimal.
fn class_fit(legal: &[usize], optimal: &[usize], set: &[usize]) -> (r: (usize, bool))
    ensures
        r.0 == class_part(legal@, set@).len(),
        r.1 == class_part(legal@, set@).subset_of(optimal@.to_set()),
{
    broadcast use vstd::seq_lib::group_seq_properties;
    broadcast use vstd::set::group_set_axioms;
    broadcast use vstd::set_lib::group_set_lib_default;

    let mut count: usize = 0;
    let mut all_optimal = true;
    let mut i: usize = 0;
    proof {
        assert(legal@.take(0).to_set().intersect(set@.to_set()) =~= Set::<usize>::empty());
    }
    while i < legal.len()
        invariant
            i <= legal@.len(),
            count == legal@.take(i as int).to_set().intersect(set@.to_set()).len(),
            count <= i,
            all_optimal == legal@.take(i as int).to_set().intersect(set@.to_set()).subset_of(optimal@.to_set()),
        decreases legal@.len() - i,
    {
        let x = legal[i];
        let ghost part = legal@.take(i as int).to_set().intersect(set@.to_set());
        proof {
            assert(legal@.take(i + 1) =~= legal@.take(i as int) + seq![x]);
            Seq::lemma_to_set_insert_commutes(legal@.take(i as int), x);
            assert(legal@.take(i + 1).to_set() =~= legal@.take(i as int).to_set().insert(x));
        }
        let in_set = among(set, set.len(), x);
        proof {
            assert(set@.take(set@.len() as int) =~= set@);
        }
        if in_set {
            let seen = among(legal, i, x);
            proof {
                assert(legal@.take(i + 1).to_set().intersect(set@.to_set()) =~= part.insert(x));
                assert(part.contains(x) == seen);
                assert(part.insert(x).subset_of(optimal@.to_set()) == (part.subset_of(optimal@.to_set())
                    && optimal@.to_set().contains(x)));
            }
            if !seen {
                count = count + 1;
            }
            let opt = among(optimal, optimal.len(), x);
            proof {
                assert(optimal@.take(optimal@.len() as int) =~= optimal@);
            }
            if !opt {
                all_optimal = false;
            }
        } else {
            proof {
                assert(legal@.take(i + 1).to_set().intersect(set@.to_set()) =~= part);
            }
        }
        i = i + 1;
    }
    proof {
        assert(legal@.take(i as int) =~= legal@);
    }
    (count, all_optimal)
}

/// The classes that qualify at a row with the given legal and optimal positions, and its label:
/// the qualifying class of highest tier rank, then smallest legal part, then lowest index.
pub fn qualify_classes(legal: &[usize], optimal: &[usize], classes: &[(Tier, Vec<usize>)]) -> (r: RowClasses)
    ensures
        r.qualifying@ == qualifying_upto(legal@, optimal@, class_views(classes@), classes@.len() as int),
        labels(legal@, optimal@, class_views(classes@), classes@.len() as int, r.label),
{
    let ghost cv = class_views(classes@);
    let mut qualifying: Vec<usize> = Vec::new();
    let mut best: Option<usize> = None;
    let mut best_rank: u8 = 0;
    let mut best_size: usize = 0;
    let mut c: usize = 0;
    while c < classes.len()
        invariant
            c <= classes@.len(),
            cv == class_views(classes@),
            cv.len() == classes@.len(),
            qualifying@ == qualifying_upto(legal@, optimal@, cv, c as int),
            labels(legal@, optimal@, cv, c as int, best),
            best matches Some(b) ==> best_rank == tier_rank(cv[b as int].0) && best_size == class_part(
                legal@,
                cv[b as int].1,
            ).len(),
        decreases classes@.len() - c,
    {
        let (tier, set) = (&classes[c].0, &classes[c].1);
        let (size, all_optimal) = class_fit(legal, optimal, set.as_slice());
        let rank: u8 = match tier {
            Tier::Invented => 2,
            Tier::Supplied => 1,
            Tier::Primitive => 0,
        };
        if size > 0 && all_optimal {
            qualifying.push(c);
            let better = match best {
                None => true,
                Some(_) => rank > best_rank || (rank == best_rank && size < best_size),
            };
            if better {
                best = Some(c);
                best_rank = rank;
                best_size = size;
            }
        }
        proof {
            assert(cv[c as int].0 == *tier);
            assert(cv[c as int].1 == set@);
        }
        c = c + 1;
    }
    RowClasses { qualifying, label: best }
}


/// One annotated position, ready for the dataset: its canonical state, whether it is terminal,
/// its value for the side to move, its legal and optimal action positions in the canonical
/// frame, and its feature values in vocabulary order.
#[derive(Clone, Debug, PartialEq)]
pub struct DatasetInput<S> {
    /// Canonical representative of the position's state.
    pub canonical_state: S,
    /// Whether the position is terminal.
    pub terminal: bool,
    /// Value from the side to move's perspective: `1` win, `0` draw, `-1` loss.
    pub value: i8,
    /// Legal action positions in the canonical frame.
    pub legal: Vec<usize>,
    /// Optimal action positions in the canonical frame.
    pub optimal: Vec<usize>,
    /// Feature values, in vocabulary order.
    pub features: Vec<FeatureValue>,
}

/// One dataset row: a distinct non-terminal canonical state.
#[derive(Clone, Debug, PartialEq)]
pub struct DatasetRow<S> {
    /// The canonical state.
    pub canonical_state: S,
    /// Value from the side to move's perspective.
    pub value: i8,
    /// Positions collapsed into this row.
    pub occurrences: usize,
    /// Legal action positions in the canonical frame.
    pub legal: Vec<usize>,
    /// Optimal action positions in the canonical frame.
    pub optimal: Vec<usize>,
    /// Encoded feature values, in vocabulary order.
    pub values: Vec<i64>,
    /// The qualifying classes and the label.
    pub classes: RowClasses,
}

/// A feature value as an integer: a truth value as `0` or `1`, a count as itself, a set as its
/// size (saturating at `i64::MAX`).
pub open spec fn encoded(f: FeatureValue) -> i64 {
    match f {
        FeatureValue::Bool(b) => if b {
            1
        } else {
            0
        },
        FeatureValue::Int(i) => i,
        FeatureValue::CellSet(v) => if v@.len() <= i64::MAX {
            v@.len() as i64
        } else {
            i64::MAX
        },
    }
}

/// The classes among the first `m` features: each set-valued feature with its tier, in order.
pub open spec fn feature_classes(features: Seq<FeatureValue>, tiers: Seq<Tier>, m: int) -> Seq<(Tier, Seq<usize>)>
    decreases m,
{
    if m <= 0 {
        seq![]
    } else {
        let prev = feature_classes(features, tiers, m - 1);
        match features[m - 1] {
            FeatureValue::CellSet(v) => prev.push((tiers[m - 1], v@)),
            _ => prev,
        }
    }
}

/// The non-terminal inputs among the first `m`, in order.
pub open spec fn nonterminal_inputs<S>(inputs: Seq<DatasetInput<S>>, m: int) -> Seq<DatasetInput<S>>
    decreases m,
{
    if m <= 0 {
        seq![]
    } else if inputs[m - 1].terminal {
        nonterminal_inputs(inputs, m - 1)
    } else {
        nonterminal_inputs(inputs, m - 1).push(inputs[m - 1])
    }
}

/// The canonical state of each input.
pub open spec fn canonical_states<S>(inputs: Seq<DatasetInput<S>>) -> Seq<S> {
    inputs.map_values(|x: DatasetInput<S>| x.canonical_state)
}

/// Where `t` first occurs among the first `m` of `s`, or `-1`.
pub open spec fn first_pos<T>(s: Seq<T>, t: T, m: int) -> int
    decreases m,
{
    if m <= 0 {
        -1
    } else {
        let p = first_pos(s, t, m - 1);
        if p >= 0 {
            p
        } else if s[m - 1] == t {
            m - 1
        } else {
            -1
        }
    }
}

/// `row` is built from `input`: its state, value, positions, encoded features and classes.
pub open spec fn row_of<S>(row: DatasetRow<S>, input: DatasetInput<S>, tiers: Seq<Tier>) -> bool {
    let cl = feature_classes(input.features@, tiers, input.features@.len() as int);
    &&& row.canonical_state == input.canonical_state
    &&& row.value == input.value
    &&& row.legal@ == input.legal@
    &&& row.optimal@ == input.optimal@
    &&& row.values@ == input.features@.map_values(|f: FeatureValue| encoded(f))
    &&& row.classes.qualifying@ == qualifying_upto(input.legal@, input.optimal@, cl, cl.len() as int)
    &&& labels(input.legal@, input.optimal@, cl, cl.len() as int, row.classes.label)
}

/// `rows` is the dataset of `inputs`: one row per distinct non-terminal canonical state, in
/// order of first appearance, built from the first input with that state and counting every
/// input with it.
pub open spec fn dataset_of<S>(rows: Seq<DatasetRow<S>>, inputs: Seq<DatasetInput<S>>, tiers: Seq<Tier>) -> bool {
    let nt = nonterminal_inputs(inputs, inputs.len() as int);
    let st = canonical_states(nt);
    let d = distinct_in_order(st, st.len() as int);
    &&& rows.len() == d.len()
    &&& forall|j: int|
        0 <= j < rows.len() ==> (#[trigger] rows[j]).canonical_state == d[j] && rows[j].occurrences == occurrences(
            st,
            d[j],
            st.len() as int,
        ) && row_of(rows[j], nt[first_pos(st, d[j], st.len() as int)], tiers)
}

proof fn lemma_first_pos<T>(s: Seq<T>, t: T, m: int)
    requires
        0 <= m <= s.len(),
    ensures
        first_pos(s, t, m) >= 0 <==> s.take(m).contains(t),
        first_pos(s, t, m) >= 0 ==> first_pos(s, t, m) < m && s[first_pos(s, t, m)] == t,
    decreases m,
{
    if m > 0 {
        lemma_first_pos(s, t, m - 1);
        let a = s.take(m - 1);
        let b = s.take(m);
        assert(b =~= a.push(s[m - 1]));
        if a.contains(t) {
            let q = choose|q: int| 0 <= q < a.len() && a[q] == t;
            assert(b[q] == t);
        }
        if s[m - 1] == t {
            assert(b[m - 1] == t);
        }
        if b.contains(t) {
            let q = choose|q: int| 0 <= q < b.len() && b[q] == t;
            if q < m - 1 {
                assert(a[q] == t);
            }
        }
    } else {
        assert(s.take(m) =~= Seq::<T>::empty());
    }
}

proof fn lemma_first_pos_push<T>(s: Seq<T>, y: T, t: T, m: int)
    requires
        0 <= m <= s.len(),
    ensures
        first_pos(s.push(y), t, m) == first_pos(s, t, m),
    decreases m,
{
    if m > 0 {
        lemma_first_pos_push(s, y, t, m - 1);
        assert(s.push(y)[m - 1] == s[m - 1]);
    }
}

/// The encoded features and the classes of one input.
fn encode_features(features: &Vec<FeatureValue>, tiers: &[Tier]) -> (r: (Vec<i64>, Vec<(Tier, Vec<usize>)>))
    requires
        features@.len() <= tiers@.len(),
    ensures
        r.0@ == features@.map_values(|f: FeatureValue| encoded(f)),
        class_views(r.1@) == feature_classes(features@, tiers@, features@.len() as int),
{
    let mut values: Vec<i64> = Vec::new();
    let mut classes: Vec<(Tier, Vec<usize>)> = Vec::new();
    let mut j: usize = 0;
    while j < features.len()
        invariant
            features@.len() <= tiers@.len(),
            j <= features@.len(),
            values@ =~= features@.take(j as int).map_values(|f: FeatureValue| encoded(f)),
            class_views(classes@) =~= feature_classes(features@, tiers@, j as int),
        decreases features@.len() - j,
    {
        let v: i64 = match &features[j] {
            FeatureValue::Bool(b) => if *b {
                1
            } else {
                0
            },
            FeatureValue::Int(i) => *i,
            FeatureValue::CellSet(cells) => {
                let n = cells.len() as u64;
                if n <= 0x7fff_ffff_ffff_ffff {
                    n as i64
                } else {
                    0x7fff_ffff_ffff_ffff
                }
            },
        };
        match &features[j] {
            FeatureValue::CellSet(cells) => {
                let mut copy: Vec<usize> = Vec::new();
                let mut k: usize = 0;
                while k < cells.len()
                    invariant
                        k <= cells@.len(),
                        copy@ =~= cells@.take(k as int),
                    decreases cells@.len() - k,
                {
                    copy.push(cells[k]);
                    k = k + 1;
                }
                proof {
                    assert(cells@.take(k as int) =~= cells@);
                }
                let ghost before = classes@;
                classes.push((tiers[j], copy));
                proof {
                    assert(class_views(classes@) =~= class_views(before).push((tiers@[j as int], cells@)));
                }
            },
            _ => {},
        }
        values.push(v);
        proof {
            assert(features@.take(j + 1) =~= features@.take(j as int).push(features@[j as int]));
        }
        j = j + 1;
    }
    proof {
        assert(features@.take(j as int) =~= features@);
    }
    (values, classes)
}

/// Builds the dataset of `inputs`: one row per distinct non-terminal canonical state, in order
/// of first appearance, counting the inputs collapsed into it, with its features encoded and
/// its classes qualified from the first input with that state. `tiers` gives each feature's
/// tier, in vocabulary order. Fails when no input is non-terminal.
pub fn build_dataset<G: GameDomain>(inputs: &[DatasetInput<G::State>], tiers: &[Tier]) -> (r: Result<
    Dataset<G::State>,
    CorpusError,
>)
    requires
        forall|i: int| 0 <= i < inputs@.len() ==> (#[trigger] inputs@[i]).features@.len() == tiers@.len(),
    ensures
        r is Err <==> nonterminal_inputs(inputs@, inputs@.len() as int).len() == 0,
        r matches Err(e) ==> (e matches CorpusError::Precondition(m) && m@
            == "dataset requires at least one non-terminal annotation record"@),
        r matches Ok(d) ==> {
            &&& dataset_of(d.rows@, inputs@, tiers@)
            &&& counts_of(d.counts, inputs@, d.rows@)
            &&& forall|j: int| 0 <= j < d.rows@.len() ==> (#[trigger] d.rows@[j]).values@.len() == tiers@.len()
        },
{
    let mut rows: Vec<DatasetRow<G::State>> = Vec::new();
    let mut i: usize = 0;
    while i < inputs.len()
        invariant
            i <= inputs@.len(),
            forall|x: int| 0 <= x < inputs@.len() ==> (#[trigger] inputs@[x]).features@.len() <= tiers@.len(),
            dataset_of(rows@, inputs@.take(i as int), tiers@),
            nonterminal_inputs(inputs@, i as int) == nonterminal_inputs(inputs@.take(i as int), i as int),
            nonterminal_inputs(inputs@, i as int).len() <= i,
        decreases inputs@.len() - i,
    {
        let input = &inputs[i];
        let ghost pre = inputs@.take(i as int);
        let ghost post = inputs@.take(i + 1);
        let ghost nt = nonterminal_inputs(pre, i as int);
        let ghost st = canonical_states(nt);
        let ghost m = st.len() as int;
        let ghost d = distinct_in_order(st, m);
        proof {
            assert(post =~= pre.push(*input));
            assert(inputs@[i as int] == *input);
            assert forall|x: int| 0 <= x < i implies pre[x] == post[x] by {}
            lemma_nonterminal_prefix_agree(pre, post, i as int);
            lemma_nonterminal_prefix_agree(inputs@, post, i + 1);
        }
        if !input.terminal {
            let ghost nt2 = nt.push(*input);
            let ghost st2 = st.push(input.canonical_state);
            let s = input.canonical_state;
            proof {
                assert(nonterminal_inputs(post, i + 1) == nt2);
                assert(canonical_states(nt2) =~= st2);
                lemma_distinct_push(st, s, m);
                lemma_distinct_contains(st, s, m);
                assert(st2[m] == s);
                assert(st.take(m) =~= st);
                assert forall|t: G::State| #[trigger] occurrences(st2, t, m + 1) == occurrences(st, t, m) + if t == s {
                    1nat
                } else {
                    0
                } by {
                    lemma_occurrences_push(st, s, t, m);
                }
                assert forall|t: G::State| st.contains(t) implies #[trigger] first_pos(st2, t, m + 1) == first_pos(st, t, m) by {
                    lemma_first_pos_push(st, s, t, m);
                    lemma_first_pos(st, t, m);
                }
            }
            let mut j: usize = 0;
            while j < rows.len() && !G::same_state(&rows[j].canonical_state, &s)
                invariant
                    j <= rows@.len(),
                    rows@.len() == d.len(),
                    forall|k: int| 0 <= k < j ==> d[k] != s,
                    forall|k: int| 0 <= k < rows@.len() ==> (#[trigger] rows@[k]).canonical_state == d[k],
                decreases rows@.len() - j,
            {
                j = j + 1;
            }
            if j < rows.len() {
                let ghost before = rows@;
                proof {
                    assert(d[j as int] == s);
                    lemma_occurrences_bound(st, s, m);
                    lemma_distinct_contains(st, d[j as int], m);
                    assert(d.contains(s));
                }
                let mut row = rows.remove(j);
                row.occurrences = row.occurrences + 1;
                rows.insert(j, row);
                proof {
                    let d2 = distinct_in_order(st2, m + 1);
                    assert(d2 == d);
                    assert forall|k: int| 0 <= k < rows@.len() implies (#[trigger] rows@[k]).canonical_state == d2[k]
                        && rows@[k].occurrences == occurrences(st2, d2[k], m + 1) && row_of(
                        rows@[k],
                        nt2[first_pos(st2, d2[k], m + 1)],
                        tiers@,
                    ) by {
                        lemma_distinct_contains(st, d[k], m);
                        assert(st.contains(d[k])) by {
                            let q = choose|q: int| 0 <= q < d.len() && d[q] == d[k];
                            assert(d.contains(d[k]));
                            assert(st.take(m) =~= st);
                        }
                        lemma_first_pos(st, d[k], m);
                        if k != j {
                            assert(rows@[k] == before[k]);
                            assert(d[k] != d[j as int]);
                        }
                    }
                }
            } else {
                proof {
                    assert forall|k: int| 0 <= k < d.len() implies d[k] != s by {}
                    assert(!d.contains(s));
                    lemma_occurrences_absent(st, s, m);
                    lemma_first_pos(st, s, m);
                }
                let (values, classes) = encode_features(&input.features, tiers);
                let qualified = qualify_classes(input.legal.as_slice(), input.optimal.as_slice(), classes.as_slice());
                let ghost before = rows@;
                let row = DatasetRow {
                    canonical_state: s,
                    value: input.value,
                    occurrences: 1,
                    legal: input.legal.clone(),
                    optimal: input.optimal.clone(),
                    values,
                    classes: qualified,
                };
                rows.push(row);
                proof {
                    let d2 = distinct_in_order(st2, m + 1);
                    assert(d2 == d.push(s));
                    assert(first_pos(st2, s, m + 1) == m) by {
                        lemma_first_pos_push(st, s, s, m);
                    }
                    assert(nt2[m] == *input);
                    assert forall|k: int| 0 <= k < rows@.len() implies (#[trigger] rows@[k]).canonical_state == d2[k]
                        && rows@[k].occurrences == occurrences(st2, d2[k], m + 1) && row_of(
                        rows@[k],
                        nt2[first_pos(st2, d2[k], m + 1)],
                        tiers@,
                    ) by {
                        if k < before.len() {
                            assert(rows@[k] == before[k]);
                            lemma_distinct_contains(st, d[k], m);
                            assert(st.take(m) =~= st);
                            assert(d.contains(d[k]));
                            lemma_first_pos(st, d[k], m);
                        }
                    }
                }
            }
        } else {
            proof {
                assert(nonterminal_inputs(post, i + 1) == nt);
            }
        }
        i = i + 1;
    }
    proof {
        assert(inputs@.take(i as int) =~= inputs@);
    }
    if rows.len() == 0 {
        proof {
            reveal_strlit("dataset requires at least one non-terminal annotation record");
            let st = canonical_states(nonterminal_inputs(inputs@, inputs@.len() as int));
            if st.len() > 0 {
                lemma_distinct_contains(st, st[0], st.len() as int);
                assert(st.take(st.len() as int)[0] == st[0]);
            }
        }
        return Err(CorpusError::Precondition(String::from_str("dataset requires at least one non-terminal annotation record")));
    }
    proof {
        let st = canonical_states(nonterminal_inputs(inputs@, inputs@.len() as int));
        lemma_distinct_contains(st, st[0], st.len() as int);
        lemma_rows_within(rows@, inputs@, tiers@);
        let nt = nonterminal_inputs(inputs@, inputs@.len() as int);
        let d = distinct_in_order(st, st.len() as int);
        assert forall|j: int| 0 <= j < rows@.len() implies (#[trigger] rows@[j]).values@.len() == tiers@.len() by {
            let k = first_pos(st, d[j], st.len() as int);
            lemma_distinct_contains(st, d[j], st.len() as int);
            assert(d.contains(d[j]));
            assert(st.take(st.len() as int) =~= st);
            lemma_first_pos(st, d[j], st.len() as int);
            assert(0 <= k < nt.len());
            lemma_nonterminal_from(inputs@, inputs@.len() as int);
            assert(nt.contains(nt[k]));
            assert(inputs@.contains(nt[k]));
            let i = choose|i: int| 0 <= i < inputs@.len() && inputs@[i] == nt[k];
            assert(inputs@[i].features@.len() == tiers@.len());
            assert(row_of(rows@[j], nt[k], tiers@));
        }
    }
    let counts = dataset_counts(inputs, rows.as_slice());
    Ok(Dataset { rows, counts })
}

/// The counts a dataset's manifest records.
#[derive(Clone, Copy, Debug, PartialEq, Eq)]
pub struct DatasetCounts {
    /// Positions read.
    pub annotated: usize,
    /// Non-terminal positions.
    pub nonterminal: usize,
    /// Rows written.
    pub rows: usize,
    /// Non-terminal positions collapsed into an earlier row.
    pub collapsed: usize,
    /// Rows labelled `none`.
    pub unlabeled: usize,
}

/// A built dataset: its rows and the counts of its manifest.
#[derive(Clone, Debug)]
pub struct Dataset<S> {
    /// One row per distinct non-terminal canonical state.
    pub rows: Vec<DatasetRow<S>>,
    /// The manifest counts.
    pub counts: DatasetCounts,
}

/// How many of the first `m` rows have no label.
pub open spec fn unlabeled_count<S>(rows: Seq<DatasetRow<S>>, m: int) -> nat
    decreases m,
{
    if m <= 0 {
        0
    } else {
        unlabeled_count(rows, m - 1) + if rows[m - 1].classes.label is None {
            1nat
        } else {
            0
        }
    }
}

/// `c` holds the counts of a dataset with `rows` built from `inputs`.
pub open spec fn counts_of<S>(c: DatasetCounts, inputs: Seq<DatasetInput<S>>, rows: Seq<DatasetRow<S>>) -> bool {
    let nt = nonterminal_inputs(inputs, inputs.len() as int).len();
    &&& c.annotated == inputs.len()
    &&& c.nonterminal == nt
    &&& c.rows == rows.len()
    &&& c.collapsed == nt - rows.len()
    &&& c.unlabeled == unlabeled_count(rows, rows.len() as int)
}

proof fn lemma_nonterminal_len<S>(inputs: Seq<DatasetInput<S>>, m: int)
    requires
        0 <= m,
    ensures
        nonterminal_inputs(inputs, m).len() <= m,
    decreases m,
{
    if m > 0 {
        lemma_nonterminal_len(inputs, m - 1);
    }
}

/// The non-terminal inputs are inputs.
proof fn lemma_nonterminal_from<S>(inputs: Seq<DatasetInput<S>>, m: int)
    requires
        0 <= m <= inputs.len(),
    ensures
        forall|x: DatasetInput<S>| nonterminal_inputs(inputs, m).contains(x) ==> inputs.contains(x),
    decreases m,
{
    if m > 0 {
        lemma_nonterminal_from(inputs, m - 1);
        let prev = nonterminal_inputs(inputs, m - 1);
        assert forall|x: DatasetInput<S>| nonterminal_inputs(inputs, m).contains(x) implies inputs.contains(x) by {
            let cur = nonterminal_inputs(inputs, m);
            let k = choose|k: int| 0 <= k < cur.len() && cur[k] == x;
            if k < prev.len() {
                assert(cur[k] == prev[k]);
                assert(prev.contains(x));
            } else {
                assert(inputs[m - 1] == x);
            }
        }
    }
}

/// A dataset has no more rows than non-terminal inputs.
proof fn lemma_rows_within<S>(rows: Seq<DatasetRow<S>>, inputs: Seq<DatasetInput<S>>, tiers: Seq<Tier>)
    requires
        dataset_of(rows, inputs, tiers),
    ensures
        rows.len() <= nonterminal_inputs(inputs, inputs.len() as int).len(),
{
    let st = canonical_states(nonterminal_inputs(inputs, inputs.len() as int));
    if st.len() > 0 {
        lemma_distinct_contains(st, st[0], st.len() as int);
    }
}

/// The counts of a dataset with `rows` built from `inputs`.
fn dataset_counts<S>(inputs: &[DatasetInput<S>], rows: &[DatasetRow<S>]) -> (c: DatasetCounts)
    requires
        rows@.len() <= nonterminal_inputs(inputs@, inputs@.len() as int).len(),
    ensures
        counts_of(c, inputs@, rows@),
{
    let mut nonterminal: usize = 0;
    let mut i: usize = 0;
    while i < inputs.len()
        invariant
            i <= inputs@.len(),
            nonterminal == nonterminal_inputs(inputs@, i as int).len(),
            nonterminal <= i,
        decreases inputs@.len() - i,
    {
        if !inputs[i].terminal {
            nonterminal = nonterminal + 1;
        }
        i = i + 1;
    }
    let mut unlabeled: usize = 0;
    let mut j: usize = 0;
    while j < rows.len()
        invariant
            j <= rows@.len(),
            unlabeled == unlabeled_count(rows@, j as int),
            unlabeled <= j,
        decreases rows@.len() - j,
    {
        if rows[j].classes.label.is_none() {
            unlabeled = unlabeled + 1;
        }
        j = j + 1;
    }
    DatasetCounts {
        annotated: inputs.len(),
        nonterminal,
        rows: rows.len(),
        collapsed: nonterminal - rows.len(),
        unlabeled,
    }
}

/// Total occurrences over the first `m` rows.
pub open spec fn occurrence_total<S>(rows: Seq<DatasetRow<S>>, m: int) -> int
    decreases m,
{
    if m <= 0 {
        0
    } else {
        occurrence_total(rows, m - 1) + rows[m - 1].occurrences
    }
}

/// A dataset accounts for every non-terminal position once: the rows' occurrences add up to the
/// non-terminal positions, and the rows plus the positions collapsed into them are all of them.
pub proof fn lemma_dataset_accounts<S>(rows: Seq<DatasetRow<S>>, inputs: Seq<DatasetInput<S>>, tiers: Seq<Tier>)
    requires
        dataset_of(rows, inputs, tiers),
    ensures
        occurrence_total(rows, rows.len() as int) == nonterminal_inputs(inputs, inputs.len() as int).len(),
        rows.len() <= nonterminal_inputs(inputs, inputs.len() as int).len(),
{
    let nt = nonterminal_inputs(inputs, inputs.len() as int);
    let st = canonical_states(nt);
    let d = distinct_in_order(st, st.len() as int);
    lemma_rows_within(rows, inputs, tiers);
    assert forall|k: int| 0 <= k <= rows.len() implies occurrence_total(rows, k) == sum_occurrences(
        st,
        d,
        st.len() as int,
        k,
    ) by {
        lemma_occurrence_total_steps(rows, st, d, k);
    }
    lemma_sum_occurrences_total(st, st.len() as int);
}

proof fn lemma_occurrence_total_steps<S>(rows: Seq<DatasetRow<S>>, st: Seq<S>, d: Seq<S>, k: int)
    requires
        0 <= k <= rows.len(),
        forall|j: int| 0 <= j < rows.len() ==> (#[trigger] rows[j]).occurrences == occurrences(st, d[j], st.len() as int),
    ensures
        occurrence_total(rows, k) == sum_occurrences(st, d, st.len() as int, k),
    decreases k,
{
    if k > 0 {
        lemma_occurrence_total_steps(rows, st, d, k - 1);
        assert(rows[k - 1].occurrences == occurrences(st, d[k - 1], st.len() as int));
    }
}

/// The non-terminal inputs of a prefix read only the prefix.
proof fn lemma_nonterminal_prefix_agree<S>(a: Seq<DatasetInput<S>>, b: Seq<DatasetInput<S>>, m: int)
    requires
        0 <= m <= a.len(),
        m <= b.len(),
        forall|x: int| 0 <= x < m ==> a[x] == b[x],
    ensures
        nonterminal_inputs(a, m) == nonterminal_inputs(b, m),
        nonterminal_inputs(a, m).len() <= m,
    decreases m,
{
    if m > 0 {
        lemma_nonterminal_prefix_agree(a, b, m - 1);
    }
}

/// One feature column of a dataset.
#[derive(Clone, Debug, PartialEq, Eq)]
pub struct DatasetColumn {
    /// Feature name.
    pub name: String,
    /// Vocabulary tier of the feature.
    pub tier: Tier,
    /// Value kind encoded in the column: `bool`, `int` or `set`.
    pub kind: String,
    /// Feature description from its definition.
    pub description: String,
}

/// The kind name of a feature value: `bool`, `int` or `set`.
pub open spec fn kind_text(v: FeatureValue) -> Seq<char> {
    match v {
        FeatureValue::Bool(_) => "bool"@,
        FeatureValue::Int(_) => "int"@,
        FeatureValue::CellSet(_) => "set"@,
    }
}

/// The kind name of a feature value: `bool`, `int` or `set`.
pub fn kind_name(v: &FeatureValue) -> (s: &'static str)
    ensures
        s@ == kind_text(*v),
{
    proof {
        reveal_strlit("bool");
        reveal_strlit("int");
        reveal_strlit("set");
    }
    match v {
        FeatureValue::Bool(_) => "bool",
        FeatureValue::Int(_) => "int",
        FeatureValue::CellSet(_) => "set",
    }
}

/// Whether `c` is the column of feature `d` whose values have the kind of `v`.
pub open spec fn is_column(c: DatasetColumn, d: FeatureDef, v: FeatureValue) -> bool {
    &&& c.name@ == d.name@
    &&& c.tier == d.tier
    &&& c.kind@ == kind_text(v)
    &&& c.description@ == d.description@
}

/// The dataset's columns: one per feature definition, in vocabulary order, its kind read from
/// the feature's value at the first row.
pub fn dataset_columns(defs: &[FeatureDef], first: &[FeatureValue]) -> (r: Vec<DatasetColumn>)
    requires
        defs@.len() == first@.len(),
    ensures
        r@.len() == defs@.len(),
        forall|i: int| 0 <= i < r@.len() ==> is_column(#[trigger] r@[i], defs@[i], first@[i]),
{
    let mut r: Vec<DatasetColumn> = Vec::new();
    let mut i: usize = 0;
    while i < defs.len()
        invariant
            defs@.len() == first@.len(),
            i <= defs@.len(),
            r@.len() == i,
            forall|j: int| 0 <= j < i ==> is_column(#[trigger] r@[j], defs@[j], first@[j]),
        decreases defs@.len() - i,
    {
        let d = &defs[i];
        r.push(DatasetColumn {
            name: d.name.clone(),
            tier: d.tier,
            kind: String::from_str(kind_name(&first[i])),
            description: d.description.clone(),
        });
        i = i + 1;
    }
    r
}

/// The tier names of `tiers`, each once, in order of first appearance.
pub open spec fn tier_names_in_order(tiers: Seq<Tier>) -> Seq<Seq<char>> {
    distinct_in_order(tiers.map_values(|t: Tier| tier_text(t)), tiers.len() as int)
}

/// The tiers present among the columns, by name, each once, in order of first appearance.
pub fn column_tiers(columns: &[DatasetColumn]) -> (r: Vec<String>)
    ensures
        r@.map_values(|s: String| s@) == tier_names_in_order(columns@.map_values(|c: DatasetColumn| c.tier)),
{
    let ghost ts = columns@.map_values(|c: DatasetColumn| c.tier);
    let ghost names = ts.map_values(|t: Tier| tier_text(t));
    let mut r: Vec<String> = Vec::new();
    let mut i: usize = 0;
    while i < columns.len()
        invariant
            i <= columns@.len(),
            ts == columns@.map_values(|c: DatasetColumn| c.tier),
            names == ts.map_values(|t: Tier| tier_text(t)),
            r@.map_values(|s: String| s@) == distinct_in_order(names, i as int),
        decreases columns@.len() - i,
    {
        let t = tier_name(columns[i].tier);
        assert(t@ == names[i as int]);
        let mut seen = false;
        let mut k: usize = 0;
        while k < r.len()
            invariant
                k <= r@.len(),
                t@ == names[i as int],
                !seen ==> forall|j: int| 0 <= j < k ==> r@[j]@ != t@,
                seen ==> exists|j: int| 0 <= j < r@.len() && r@[j]@ == t@,
            decreases r@.len() - k,
        {
            if crate::framework::text::text_eq(r[k].as_str(), t) {
                seen = true;
            }
            k = k + 1;
        }
        let ghost before = r@.map_values(|s: String| s@);
        if !seen {
            r.push(String::from_str(t));
            proof {
                assert(!before.contains(t@)) by {
                    if before.contains(t@) {
                        let j = choose|j: int| 0 <= j < before.len() && before[j] == t@;
                        assert(r@[j]@ == t@);
                    }
                }
                assert(r@.map_values(|s: String| s@) =~= before.push(t@));
            }
        } else {
            proof {
                let j = choose|j: int| 0 <= j < r@.len() && r@[j]@ == t@;
                assert(before[j] == t@);
            }
        }
        i = i + 1;
    }
    proof {
        assert(tier_names_in_order(ts) == distinct_in_order(names, columns@.len() as int));
    }
    r
}

} // verus!
