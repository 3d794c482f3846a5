//! Engine agreement of played actions: how often the action played at a position was one of the
//! optimal actions annotated for the same raw state, overall, by the strategy that chose it and
//! by ply.

use vstd::prelude::*;
use vstd::string::*;
use std::collections::HashMap;
use crate::discovery::config::CorpusError;
use crate::discovery::match_engine::holds_action;
use crate::framework::traits::{GameDomain, GameRules};
use crate::io::schema::{AnnotationRecord, PositionRecord};
use crate::discovery::summary::{
    distinct_in_order, lemma_distinct_contains, lemma_distinct_push, lemma_occurrences_absent,
    lemma_occurrences_bound, lemma_occurrences_push, lemma_sum_occurrences_total, occurrences, sum_occurrences,
    TableKey,
};

verus! {

/// Agreement over a set of positions.
#[derive(Clone, Copy, Debug, PartialEq, Eq)]
pub struct AgreementCounts {
    /// Positions tallied.
    pub positions: usize,
    /// Of `positions`, how many played an action in the annotation's optimal set.
    pub agreeing: usize,
}

/// How many of the first `m` items have key `x` and agree.
pub open spec fn agreeing_with<V>(keys: Seq<V>, flags: Seq<bool>, x: V, m: int) -> nat
    decreases m,
{
    if m <= 0 {
        0
    } else {
        agreeing_with(keys, flags, x, m - 1) + if keys[m - 1] == x && flags[m - 1] {
            1nat
        } else {
            0
        }
    }
}

/// How many of the first `m` items agree.
pub open spec fn agreeing_count(flags: Seq<bool>, m: int) -> nat
    decreases m,
{
    if m <= 0 {
        0
    } else {
        agreeing_count(flags, m - 1) + if flags[m - 1] {
            1nat
        } else {
            0
        }
    }
}

/// `table` holds one entry per distinct key, in order of first appearance, with the number of
/// items under that key and how many of them agree.
pub open spec fn agreement_by_key<K: View>(
    table: Seq<(K, AgreementCounts)>,
    keys: Seq<K::V>,
    flags: Seq<bool>,
) -> bool {
    let m = keys.len() as int;
    let d = distinct_in_order(keys, m);
    &&& table.len() == d.len()
    &&& forall|j: int|
        0 <= j < table.len() ==> (#[trigger] table[j]).0@ == d[j] && table[j].1.positions == occurrences(
            keys,
            d[j],
            m,
        ) && table[j].1.agreeing == agreeing_with(keys, flags, d[j], m)
}

proof fn lemma_agreeing_push<V>(keys: Seq<V>, flags: Seq<bool>, k: V, f: bool, x: V, m: int)
    requires
        0 <= m <= keys.len(),
        m <= flags.len(),
    ensures
        agreeing_with(keys.push(k), flags.push(f), x, m) == agreeing_with(keys, flags, x, m),
    decreases m,
{
    if m > 0 {
        lemma_agreeing_push(keys, flags, k, f, x, m - 1);
        assert(keys.push(k)[m - 1] == keys[m - 1]);
        assert(flags.push(f)[m - 1] == flags[m - 1]);
    }
}

proof fn lemma_agreeing_bound<V>(keys: Seq<V>, flags: Seq<bool>, x: V, m: int)
    requires
        0 <= m,
    ensures
        agreeing_with(keys, flags, x, m) <= occurrences(keys, x, m),
    decreases m,
{
    if m > 0 {
        lemma_agreeing_bound(keys, flags, x, m - 1);
    }
}

proof fn lemma_agreeing_absent<V>(keys: Seq<V>, flags: Seq<bool>, x: V, m: int)
    requires
        0 <= m <= keys.len(),
        !keys.take(m).contains(x),
    ensures
        agreeing_with(keys, flags, x, m) == 0,
    decreases m,
{
    if m > 0 {
        assert(keys.take(m)[m - 1] == keys[m - 1]);
        assert forall|i: int| 0 <= i < m - 1 implies #[trigger] keys.take(m - 1)[i] != x by {
            assert(keys.take(m)[i] == keys.take(m - 1)[i]);
        }
        lemma_agreeing_absent(keys, flags, x, m - 1);
    }
}

/// Positions summed over the first `k` entries of `table`.
pub open spec fn table_positions<K>(table: Seq<(K, AgreementCounts)>, k: int) -> int
    decreases k,
{
    if k <= 0 {
        0
    } else {
        table_positions(table, k - 1) + table[k - 1].1.positions
    }
}

/// Agreeing positions summed over the first `k` entries of `table`.
pub open spec fn table_agreeing<K>(table: Seq<(K, AgreementCounts)>, k: int) -> int
    decreases k,
{
    if k <= 0 {
        0
    } else {
        table_agreeing(table, k - 1) + table[k - 1].1.agreeing
    }
}

/// `Σ_{j < k} agreeing_with(keys, flags, d[j], m)`.
pub open spec fn sum_agreeing<T>(keys: Seq<T>, flags: Seq<bool>, d: Seq<T>, m: int, k: int) -> int
    decreases k,
{
    if k <= 0 {
        0
    } else {
        sum_agreeing(keys, flags, d, m, k - 1) + agreeing_with(keys, flags, d[k - 1], m)
    }
}

proof fn lemma_sum_agreeing_agree<T>(keys: Seq<T>, flags: Seq<bool>, d: Seq<T>, e: Seq<T>, m: int, k: int)
    requires
        0 <= k <= d.len(),
        k <= e.len(),
        forall|j: int| 0 <= j < k ==> d[j] == e[j],
    ensures
        sum_agreeing(keys, flags, d, m, k) == sum_agreeing(keys, flags, e, m, k),
    decreases k,
{
    if k > 0 {
        lemma_sum_agreeing_agree(keys, flags, d, e, m, k - 1);
    }
}

proof fn lemma_sum_agreeing_step<T>(keys: Seq<T>, flags: Seq<bool>, d: Seq<T>, m: int, k: int)
    requires
        0 <= m < keys.len(),
        0 <= k <= d.len(),
        d.no_duplicates(),
    ensures
        sum_agreeing(keys, flags, d, m + 1, k) == sum_agreeing(keys, flags, d, m, k) + if d.take(k).contains(
            keys[m],
        ) && flags[m] {
            1int
        } else {
            0
        },
    decreases k,
{
    if k > 0 {
        lemma_sum_agreeing_step(keys, flags, d, m, k - 1);
        assert(d.take(k) =~= d.take(k - 1).push(d[k - 1]));
        if d.take(k - 1).contains(keys[m]) {
            let i = choose|i: int| 0 <= i < k - 1 && #[trigger] d.take(k - 1)[i] == keys[m];
            assert(d.take(k)[i] == keys[m]);
            assert(d[i] != d[k - 1]);
        }
        if d.take(k).contains(keys[m]) && !d.take(k - 1).contains(keys[m]) {
            let i = choose|i: int| 0 <= i < k && #[trigger] d.take(k)[i] == keys[m];
            if i < k - 1 {
                assert(d.take(k - 1)[i] == keys[m]);
            }
        }
        if d[k - 1] == keys[m] {
            assert(d.take(k)[k - 1] == keys[m]);
        }
    }
}

/// Each agreeing item is counted once, under its key.
proof fn lemma_sum_agreeing_total<T>(keys: Seq<T>, flags: Seq<bool>, m: int)
    requires
        0 <= m <= keys.len(),
    ensures
        sum_agreeing(keys, flags, distinct_in_order(keys, m), m, distinct_in_order(keys, m).len() as int)
            == agreeing_count(flags, m),
    decreases m,
{
    if m > 0 {
        let x = keys[m - 1];
        let d = distinct_in_order(keys, m - 1);
        lemma_sum_agreeing_total(keys, flags, m - 1);
        lemma_distinct_contains(keys, x, m - 1);
        assert(d.take(d.len() as int) =~= d);
        lemma_sum_agreeing_step(keys, flags, d, m - 1, d.len() as int);
        if !d.contains(x) {
            let d2 = d.push(x);
            lemma_distinct_contains(keys, x, m);
            lemma_sum_agreeing_agree(keys, flags, d2, d, m, d.len() as int);
            lemma_agreeing_absent(keys, flags, x, m - 1);
        }
    }
}

proof fn lemma_table_sums<K: View>(table: Seq<(K, AgreementCounts)>, keys: Seq<K::V>, flags: Seq<bool>, k: int)
    requires
        agreement_by_key(table, keys, flags),
        0 <= k <= table.len(),
    ensures
        table_positions(table, k) == sum_occurrences(keys, distinct_in_order(keys, keys.len() as int), keys.len() as int, k),
        table_agreeing(table, k) == sum_agreeing(keys, flags, distinct_in_order(keys, keys.len() as int), keys.len() as int, k),
    decreases k,
{
    if k > 0 {
        lemma_table_sums(table, keys, flags, k - 1);
        assert(table[k - 1].0@ == distinct_in_order(keys, keys.len() as int)[k - 1]);
    }
}

/// Agreement grouped by key accounts for every position once: the entries' positions add up to
/// the number of positions, and their agreeing counts to the number of agreeing positions.
pub proof fn lemma_agreement_by_key_accounts<K: View>(
    table: Seq<(K, AgreementCounts)>,
    keys: Seq<K::V>,
    flags: Seq<bool>,
)
    requires
        agreement_by_key(table, keys, flags),
    ensures
        table_positions(table, table.len() as int) == keys.len(),
        table_agreeing(table, table.len() as int) == agreeing_count(flags, keys.len() as int),
{
    lemma_table_sums(table, keys, flags, table.len() as int);
    lemma_sum_occurrences_total(keys, keys.len() as int);
    lemma_sum_agreeing_total(keys, flags, keys.len() as int);
}

/// Counts one more item, agreeing or not, under its key.
pub(crate) fn count_agreement<K: TableKey>(
    table: &mut Vec<(K, AgreementCounts)>,
    key: K,
    agrees: bool,
    Ghost(keys): Ghost<Seq<K::V>>,
    Ghost(flags): Ghost<Seq<bool>>,
)
    requires
        agreement_by_key(old(table)@, keys, flags),
        keys.len() == flags.len(),
        keys.len() < usize::MAX,
    ensures
        agreement_by_key(final(table)@, keys.push(key@), flags.push(agrees)),
{
    let ghost m = keys.len() as int;
    let ghost d = distinct_in_order(keys, m);
    let ghost keys2 = keys.push(key@);
    let ghost flags2 = flags.push(agrees);
    proof {
        lemma_distinct_push(keys, key@, m);
        lemma_distinct_contains(keys, key@, m);
        assert(keys2[m] == key@);
        assert(flags2[m] == agrees);
        assert(keys.take(m) =~= keys);
        assert forall|x: K::V| #[trigger] occurrences(keys2, x, m + 1) == occurrences(keys, x, m) + if x == key@ {
            1nat
        } else {
            0
        } by {
            lemma_occurrences_push(keys, key@, x, m);
        }
        assert forall|x: K::V| #[trigger] agreeing_with(keys2, flags2, x, m + 1) == agreeing_with(keys, flags, x, m)
            + if x == key@ && agrees {
            1nat
        } else {
            0
        } by {
            lemma_agreeing_push(keys, flags, key@, agrees, x, m);
        }
    }
    let mut j: usize = 0;
    while j < table.len() && !table[j].0.same_key(&key)
        invariant
            j <= table@.len(),
            table@.len() == d.len(),
            forall|k: int| 0 <= k < j ==> d[k] != key@,
            forall|k: int| 0 <= k < table@.len() ==> (#[trigger] table@[k]).0@ == d[k],
        decreases table@.len() - j,
    {
        j = j + 1;
    }
    if j < table.len() {
        let ghost before = table@;
        assert(d[j as int] == key@);
        proof {
            lemma_occurrences_bound(keys, key@, m);
            lemma_agreeing_bound(keys, flags, key@, m);
        }
        let (k, counts) = table.remove(j);
        let counts = AgreementCounts {
            positions: counts.positions + 1,
            agreeing: if agrees {
                counts.agreeing + 1
            } else {
                counts.agreeing
            },
        };
        table.insert(j, (k, counts));
        proof {
            let d2 = distinct_in_order(keys2, m + 1);
            assert(d2 == d);
            assert forall|i: int| 0 <= i < table@.len() implies (#[trigger] table@[i]).0@ == d2[i] && table@[i].1.positions
                == occurrences(keys2, d2[i], m + 1) && table@[i].1.agreeing == agreeing_with(
                keys2,
                flags2,
                d2[i],
                m + 1,
            ) by {
                if i != j {
                    assert(table@[i] == before[i]);
                    assert(d[i] != d[j as int]);
                }
            }
        }
    } else {
        proof {
            assert forall|k: int| 0 <= k < d.len() implies d[k] != key@ by {}
            assert(!d.contains(key@));
            lemma_occurrences_absent(keys, key@, m);
            lemma_agreeing_absent(keys, flags, key@, m);
        }
        let ghost before = table@;
        let counts = AgreementCounts {
            positions: 1,
            agreeing: if agrees {
                1
            } else {
                0
            },
        };
        table.push((key, counts));
        proof {
            let d2 = distinct_in_order(keys2, m + 1);
            assert(d2 == d.push(key@));
            assert forall|i: int| 0 <= i < table@.len() implies (#[trigger] table@[i]).0@ == d2[i] && table@[i].1.positions
                == occurrences(keys2, d2[i], m + 1) && table@[i].1.agreeing == agreeing_with(
                keys2,
                flags2,
                d2[i],
                m + 1,
            ) by {
                if i < before.len() {
                    assert(table@[i] == before[i]);
                }
            }
        }
    }
}

/// The last of the first `n` annotations whose raw state is `s`.
pub open spec fn last_annotation<S, A, P>(anns: Seq<AnnotationRecord<S, A, P>>, s: S, n: int) -> Option<int>
    decreases n,
{
    if n <= 0 {
        None
    } else if anns[n - 1].state == s {
        Some(n - 1)
    } else {
        last_annotation(anns, s, n - 1)
    }
}

/// Whether the action played at `pos` is one of the optimal actions annotated for its state.
pub open spec fn position_agrees<S, A, P, O>(
    anns: Seq<AnnotationRecord<S, A, P>>,
    pos: PositionRecord<S, A, P, O>,
) -> bool {
    match last_annotation(anns, pos.state, anns.len() as int) {
        Some(i) => anns[i].optimal_actions@.contains(pos.chosen_action),
        None => false,
    }
}

/// Every position's state is annotated.
pub open spec fn covers<S, A, P, O>(
    anns: Seq<AnnotationRecord<S, A, P>>,
    positions: Seq<PositionRecord<S, A, P, O>>,
) -> bool {
    forall|k: int|
        0 <= k < positions.len() ==> last_annotation(anns, (#[trigger] positions[k]).state, anns.len() as int)
            is Some
}

/// Whether each position agrees.
pub open spec fn agreement_flags<S, A, P, O>(
    anns: Seq<AnnotationRecord<S, A, P>>,
    positions: Seq<PositionRecord<S, A, P, O>>,
) -> Seq<bool> {
    positions.map_values(|pos: PositionRecord<S, A, P, O>| position_agrees(anns, pos))
}

/// The strategy that chose each position.
pub open spec fn strategy_keys<S, A, P, O>(positions: Seq<PositionRecord<S, A, P, O>>) -> Seq<Seq<char>> {
    positions.map_values(|pos: PositionRecord<S, A, P, O>| pos.chosen_by@)
}

/// The ply of each position.
pub open spec fn ply_keys<S, A, P, O>(positions: Seq<PositionRecord<S, A, P, O>>) -> Seq<usize> {
    positions.map_values(|pos: PositionRecord<S, A, P, O>| pos.ply)
}

/// `annotations.jsonl does not cover every position of {dir}; re-run `annotate --corpus {dir}``.
pub open spec fn uncovered_message(dir: Seq<char>) -> Seq<char> {
    "annotations.jsonl does not cover every position of "@ + dir + "; re-run `annotate --corpus "@ + dir
        + "`"@
}

/// Agreement of a corpus's played positions: by the strategy that chose them and by ply, each
/// in order of first appearance, and overall.
#[derive(Clone, Debug, PartialEq)]
pub struct AgreementTallies {
    /// Counts keyed by the `chosen_by` of the position.
    pub by_strategy: Vec<(String, AgreementCounts)>,
    /// Counts keyed by ply.
    pub by_ply: Vec<(usize, AgreementCounts)>,
    /// Counts over every position.
    pub overall: AgreementCounts,
}

/// The last annotation with a given state is the one after which no annotation has it.
proof fn lemma_last_annotation<S, A, P>(anns: Seq<AnnotationRecord<S, A, P>>, s: S, n: int, j: Option<int>)
    requires
        0 <= n <= anns.len(),
        match j {
            Some(i) => 0 <= i < n && anns[i].state == s && forall|x: int| i < x < n ==> #[trigger] anns[x].state != s,
            None => forall|x: int| 0 <= x < n ==> #[trigger] anns[x].state != s,
        },
    ensures
        last_annotation(anns, s, n) == j,
    decreases n,
{
    if n > 0 {
        if j != Some(n - 1) {
            assert(anns[n - 1].state != s);
            lemma_last_annotation(anns, s, n - 1, j);
        }
    }
}

/// Joins every position to the last annotation of its raw state and counts how often the
/// played action was optimal, by strategy, by ply and overall. A position whose state has no
/// annotation is an error naming `corpus_dir`.
pub fn agreement_tallies<G: GameDomain, R: GameRules<G>>(
    rules: &R,
    positions: &[PositionRecord<G::State, G::Action, G::Player, G::Outcome>],
    annotations: &[AnnotationRecord<G::State, G::Action, G::Player>],
    corpus_dir: &str,
) -> (r: Result<AgreementTallies, CorpusError>)
    ensures
        r is Err <==> !covers(annotations@, positions@),
        r matches Err(e) ==> (e matches CorpusError::Precondition(m) && m@ == uncovered_message(corpus_dir@)),
        r matches Ok(t) ==> {
            let flags = agreement_flags(annotations@, positions@);
            &&& agreement_by_key(t.by_strategy@, strategy_keys(positions@), flags)
            &&& agreement_by_key(t.by_ply@, ply_keys(positions@), flags)
            &&& t.overall.positions == positions@.len()
            &&& t.overall.agreeing == agreeing_count(flags, positions@.len() as int)
        },
{
    broadcast use vstd::std_specs::hash::group_hash_axioms;

    let ghost anns = annotations@;
    let ghost n = anns.len() as int;
    let mut index: HashMap<u64, usize> = HashMap::new();
    let mut i: usize = 0;
    while i < annotations.len()
        invariant
            anns == annotations@,
            n == anns.len(),
            i <= n,
            forall|key: u64|
                #[trigger] index@.contains_key(key) ==> {
                    let j = index@[key] as int;
                    &&& 0 <= j < i
                    &&& rules.spec_key(anns[j].state) == key
                    &&& forall|x: int| j < x < i ==> rules.spec_key(#[trigger] anns[x].state) != key
                },
            forall|x: int| 0 <= x < i ==> #[trigger] index@.contains_key(rules.spec_key(anns[x].state)),
        decreases n - i,
    {
        let key = rules.state_key(&annotations[i].state);
        index.insert(key, i);
        i = i + 1;
    }
    let mut by_strategy: Vec<(String, AgreementCounts)> = Vec::new();
    let mut by_ply: Vec<(usize, AgreementCounts)> = Vec::new();
    let mut overall = AgreementCounts { positions: 0, agreeing: 0 };
    let ghost flags = agreement_flags(anns, positions@);
    let ghost skeys = strategy_keys(positions@);
    let ghost pkeys = ply_keys(positions@);
    let mut k: usize = 0;
    while k < positions.len()
        invariant
            anns == annotations@,
            n == anns.len(),
            flags == agreement_flags(anns, positions@),
            skeys == strategy_keys(positions@),
            pkeys == ply_keys(positions@),
            k <= positions@.len(),
            forall|key: u64|
                #[trigger] index@.contains_key(key) ==> {
                    let j = index@[key] as int;
                    &&& 0 <= j < n
                    &&& rules.spec_key(anns[j].state) == key
                    &&& forall|x: int| j < x < n ==> rules.spec_key(#[trigger] anns[x].state) != key
                },
            forall|x: int| 0 <= x < n ==> #[trigger] index@.contains_key(rules.spec_key(anns[x].state)),
            forall|x: int| 0 <= x < k ==> last_annotation(anns, (#[trigger] positions@[x]).state, n) is Some,
            agreement_by_key(by_strategy@, skeys.take(k as int), flags.take(k as int)),
            agreement_by_key(by_ply@, pkeys.take(k as int), flags.take(k as int)),
            overall.positions == k,
            overall.agreeing == agreeing_count(flags, k as int),
            overall.agreeing <= k,
        decreases positions@.len() - k,
    {
        let pos = &positions[k];
        let key = rules.state_key(&pos.state);
        let found = match index.get(&key) {
            Some(j) => Some(*j),
            None => None,
        };
        match found {
            None => {
                proof {
                    assert forall|x: int| 0 <= x < n implies #[trigger] anns[x].state != pos.state by {
                        if anns[x].state == pos.state {
                            assert(index@.contains_key(rules.spec_key(anns[x].state)));
                        }
                    }
                    lemma_last_annotation(anns, pos.state, n, None);
                    assert(!covers(anns, positions@)) by {
                        assert(positions@[k as int] == *pos);
                    }
                    reveal_strlit("annotations.jsonl does not cover every position of ");
                    reveal_strlit("; re-run `annotate --corpus ");
                    reveal_strlit("`");
                }
                let mut m = String::from_str("annotations.jsonl does not cover every position of ");
                m.append(corpus_dir);
                m.append("; re-run `annotate --corpus ");
                m.append(corpus_dir);
                m.append("`");
                return Err(CorpusError::Precondition(m));
            },
            Some(j) => {
                let ghost ji = j as int;
                proof {
                    rules.lemma_key_injective(anns[ji].state, pos.state);
                    assert forall|x: int| ji < x < n implies #[trigger] anns[x].state != pos.state by {
                        if anns[x].state == pos.state {
                            assert(rules.spec_key(anns[x].state) == key);
                        }
                    }
                    lemma_last_annotation(anns, pos.state, n, Some(ji));
                }
                let agrees = holds_action::<G>(annotations[j].optimal_actions.as_slice(), &pos.chosen_action);
                proof {
                    assert(positions@[k as int] == *pos);
                    assert(flags[k as int] == agrees);
                    assert(skeys[k as int] == pos.chosen_by@);
                    assert(pkeys[k as int] == pos.ply);
                    assert(skeys.take(k + 1) =~= skeys.take(k as int).push(pos.chosen_by@));
                    assert(pkeys.take(k + 1) =~= pkeys.take(k as int).push(pos.ply));
                    assert(flags.take(k + 1) =~= flags.take(k as int).push(agrees));
                }
                count_agreement(
                    &mut by_strategy,
                    pos.chosen_by.clone(),
                    agrees,
                    Ghost(skeys.take(k as int)),
                    Ghost(flags.take(k as int)),
                );
                count_agreement(
                    &mut by_ply,
                    pos.ply,
                    agrees,
                    Ghost(pkeys.take(k as int)),
                    Ghost(flags.take(k as int)),
                );
                overall = AgreementCounts {
                    positions: overall.positions + 1,
                    agreeing: if agrees {
                        overall.agreeing + 1
                    } else {
                        overall.agreeing
                    },
                };
            },
        }
        k = k + 1;
    }
    proof {
        assert(skeys.take(k as int) =~= skeys);
        assert(pkeys.take(k as int) =~= pkeys);
        assert(flags.take(k as int) =~= flags);
    }
    Ok(AgreementTallies { by_strategy, by_ply, overall })
}

} // verus!
