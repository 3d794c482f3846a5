//! Annotation pass: labels positions with exhaustive-solver ground truth, cross-checked against
//! a search engine's choice. Exhaustive modes are a small-game accelerant: they walk and memoize
//! the entire reachable state space.

use vstd::prelude::*;
use std::collections::HashSet;
use crate::discovery::bundle::GameBundle;
use crate::discovery::solver::{
    lemma_reach_keys, reach_keys, spec_optimal, spec_value, ExhaustiveSolver, SolverError,
};
use crate::framework::traits::{Canonicalize, GameDomain, GameRules};
use crate::io::schema::{AnnotationRecord, PositionRecord, SCHEMA_VERSION};

verus! {

/// Which set of positions an annotation pass covers.
#[derive(Debug, Clone, Copy, PartialEq, Eq)]
pub enum AnnotateMode {
    /// Every distinct position of an already-generated corpus.
    Corpus,
    /// Every reachable position of the game (small games only).
    Exhaustive,
}

/// The solver's default memoization limit, usable without naming a game type.
pub const DEFAULT_SOLVER_LIMIT: usize = 1_000_000;

/// Knobs for an annotation pass.
#[derive(Debug, Clone, Copy, PartialEq, Eq)]
pub struct AnnotateOptions {
    /// Engine search depth for the cross-check; `None` means the bundle's `full_search_depth`.
    pub engine_depth: Option<u32>,
    /// Maximum states the exhaustive solver may memoize.
    pub solver_limit: usize,
}

impl Default for AnnotateOptions {
    /// No engine depth given, and the default solver limit.
    fn default() -> (o: AnnotateOptions)
        ensures
            o.engine_depth is None,
            o.solver_limit == DEFAULT_SOLVER_LIMIT,
    {
        AnnotateOptions { engine_depth: None, solver_limit: DEFAULT_SOLVER_LIMIT }
    }
}

impl AnnotateOptions {
    /// The engine depth to use: the one given, else the bundle's exhaustive depth.
    pub fn engine_depth_or(&self, full_search_depth: u32) -> (d: u32)
        ensures
            d == match self.engine_depth {
                Some(d) => d,
                None => full_search_depth,
            },
    {
        match self.engine_depth {
            Some(d) => d,
            None => full_search_depth,
        }
    }
}

/// Manifest of one annotation pass.
#[derive(Clone, Debug, PartialEq, Eq)]
pub struct AnnotateMetadata {
    /// Schema version this manifest was written under.
    pub schema_version: u32,
    /// Which set of positions this pass covered.
    pub mode: AnnotateMode,
    /// Game name this pass annotated.
    pub game: String,
    /// Run id of the corpus this pass read; `None` in exhaustive mode.
    pub run_id: Option<String>,
    /// Engine search depth used for the cross-check.
    pub engine_depth: u32,
    /// Evaluator name used to build the engine cross-check.
    pub evaluator: String,
    /// Total positions annotated.
    pub annotated: usize,
    /// Of `annotated`, how many were terminal states.
    pub terminal: usize,
    /// Of `annotated`, how many had `engine_agrees == Some(false)`.
    pub disagreements: usize,
    /// Number of states the exhaustive solver memoized.
    pub solver_states: usize,
}

/// The representative of `s` by the bundle's canonicalizer, or `s` itself without one.
pub open spec fn bundle_canonical<G: GameDomain, R: GameRules<G>, C: Canonicalize<G>, P>(
    bundle: &GameBundle<G, R, C, P>,
    s: G::State,
) -> G::State {
    match bundle.canonicalizer {
        Some(c) => c.spec_canonical(s),
        None => s,
    }
}

/// Keys of every state reachable from the first `n` of `states`.
pub open spec fn reach_union<G: GameDomain, R: GameRules<G>>(
    rules: &R,
    states: Seq<G::State>,
    n: int,
) -> Set<u64>
    decreases n,
{
    if n <= 0 {
        Set::empty()
    } else {
        reach_union::<G, R>(rules, states, n - 1).union(reach_keys::<G, R>(rules, states[n - 1]))
    }
}

proof fn lemma_reach_union<G: GameDomain, R: GameRules<G>>(
    rules: &R,
    states: Seq<G::State>,
    m: int,
    n: int,
)
    requires
        0 <= m <= n,
    ensures
        reach_union::<G, R>(rules, states, n).finite(),
        reach_union::<G, R>(rules, states, m).subset_of(reach_union::<G, R>(rules, states, n)),
    decreases n,
{
    if n > 0 {
        lemma_reach_keys::<G, R>(rules, states[n - 1]);
        if m < n {
            lemma_reach_union::<G, R>(rules, states, m, n - 1);
        } else {
            lemma_reach_union::<G, R>(rules, states, n - 1, n - 1);
        }
    }
}

/// `rec` annotates `s` by the bundle and the solver's ground truth, with the engine's choice
/// `engine`.
pub open spec fn is_annotation_of<G: GameDomain, R: GameRules<G>, C: Canonicalize<G>, P>(
    rec: AnnotationRecord<G::State, G::Action, G::Player>,
    bundle: &GameBundle<G, R, C, P>,
    s: G::State,
    engine: Option<G::Action>,
) -> bool {
    &&& rec.schema_version == SCHEMA_VERSION
    &&& rec.state == s
    &&& rec.canonical_state == bundle_canonical(bundle, s)
    &&& rec.side_to_move == bundle.rules.spec_player_to_move(s)
    &&& rec.terminal == bundle.rules.spec_outcome(s) is Some
    &&& rec.value == spec_value::<G, R>(&bundle.rules, s)
    &&& rec.optimal_actions@ == spec_optimal::<G, R>(&bundle.rules, s)
    &&& rec.engine_action == engine
    &&& rec.engine_agrees == match engine {
        Some(a) => Some(spec_optimal::<G, R>(&bundle.rules, s).contains(a)),
        None => None,
    }
}

/// Whether `actions` holds `a`.
fn contains_action<G: GameDomain>(actions: &Vec<G::Action>, a: &G::Action) -> (r: bool)
    ensures
        r == actions@.contains(*a),
{
    let mut i: usize = 0;
    while i < actions.len()
        invariant
            i <= actions@.len(),
            forall|j: int| 0 <= j < i ==> actions@[j] != *a,
        decreases actions@.len() - i,
    {
        if G::same_action(&actions[i], a) {
            return true;
        }
        i = i + 1;
    }
    false
}

/// Annotates `states`, in order, with the exhaustive `solver`'s value and optimal actions and
/// the bundle's canonical form, cross-checked against `engine_actions`, the search engine's
/// choice at each state (`None` at terminal states). Fails with the solver's error exactly when
/// the states memoized before plus those reachable from `states` number more than its limit.
pub fn annotate_states<G: GameDomain, R: GameRules<G>, C: Canonicalize<G>, P>(
    bundle: &GameBundle<G, R, C, P>,
    states: &[G::State],
    engine_actions: &[Option<G::Action>],
    solver: &mut ExhaustiveSolver<G, R>,
) -> (r: Result<Vec<AnnotationRecord<G::State, G::Action, G::Player>>, SolverError>)
    requires
        old(solver).wf(),
        old(solver).spec_rules() == bundle.rules,
        engine_actions@.len() == states@.len(),
    ensures
        final(solver).wf(),
        final(solver).spec_rules() == bundle.rules,
        final(solver).spec_limit() == old(solver).spec_limit(),
        r is Err <==> old(solver).memo_keys().union(
            reach_union::<G, R>(&bundle.rules, states@, states@.len() as int),
        ).len() > old(solver).spec_limit(),
        r matches Err(e) ==> e == (SolverError::TooLarge { limit: old(solver).spec_limit() }),
        r matches Ok(records) ==> {
            &&& records@.len() == states@.len()
            &&& forall|i: int|
                0 <= i < states@.len() ==> #[trigger] is_annotation_of(
                    records@[i],
                    bundle,
                    states@[i],
                    engine_actions@[i],
                )
            &&& final(solver).memo_keys() == old(solver).memo_keys().union(
                reach_union::<G, R>(&bundle.rules, states@, states@.len() as int),
            )
        },
{
    let ghost old_keys = solver.memo_keys();
    let ghost limit = solver.spec_limit();
    let ghost rules = bundle.rules;
    proof {
        solver.lemma_memo_bound();
    }
    let mut records: Vec<AnnotationRecord<G::State, G::Action, G::Player>> = Vec::new();
    let mut i: usize = 0;
    while i < states.len()
        invariant
            solver.wf(),
            solver.spec_rules() == rules,
            rules == bundle.rules,
            solver.spec_limit() == limit,
            limit == old(solver).spec_limit(),
            old_keys == old(solver).memo_keys(),
            old_keys.finite(),
            rules == old(solver).spec_rules(),
            engine_actions@.len() == states@.len(),
            i <= states@.len(),
            solver.memo_keys() == old_keys.union(reach_union::<G, R>(&rules, states@, i as int)),
            records@.len() == i,
            forall|j: int|
                0 <= j < i ==> #[trigger] is_annotation_of(
                    records@[j],
                    bundle,
                    states@[j],
                    engine_actions@[j],
                ),
        decreases states@.len() - i,
    {
        let ghost before = solver.memo_keys();
        let solved = match solver.solve(&states[i]) {
            Ok(solved) => solved,
            Err(e) => {
                proof {
                    lemma_reach_union::<G, R>(&rules, states@, i + 1, states@.len() as int);
                    lemma_reach_union::<G, R>(&rules, states@, i as int, i + 1);
                    let small = old_keys.union(reach_union::<G, R>(&rules, states@, i + 1));
                    let all = old_keys.union(
                        reach_union::<G, R>(&rules, states@, states@.len() as int),
                    );
                    assert(before.union(reach_keys::<G, R>(&rules, states@[i as int])) =~= small);
                    solver.lemma_memo_bound();
                    vstd::set_lib::lemma_len_subset(small, all);
                }
                return Err(e);
            },
        };
        let state = &states[i];
        let terminal = bundle.rules.is_terminal(state);
        let engine_action = engine_actions[i];
        let engine_agrees = match &engine_action {
            Some(a) => Some(contains_action::<G>(&solved.optimal, a)),
            None => None,
        };
        let (canonical_state, _transform) = bundle.canonicalize(state);
        let side_to_move = bundle.rules.player_to_move(state);
        records.push(
            AnnotationRecord {
                schema_version: SCHEMA_VERSION,
                state: *state,
                canonical_state,
                side_to_move,
                terminal,
                value: solved.value,
                optimal_actions: solved.optimal,
                engine_action,
                engine_agrees,
            },
        );
        proof {
            assert(before.union(reach_keys::<G, R>(&rules, states@[i as int])) =~= old_keys.union(
                reach_union::<G, R>(&rules, states@, i + 1),
            ));
        }
        i = i + 1;
    }
    proof {
        solver.lemma_memo_bound();
    }
    Ok(records)
}

/// Number of records among the first `n` that are terminal.
pub open spec fn terminal_count<S, A, P>(records: Seq<AnnotationRecord<S, A, P>>, n: int) -> int
    decreases n,
{
    if n <= 0 {
        0
    } else {
        terminal_count(records, n - 1) + if records[n - 1].terminal {
            1int
        } else {
            0
        }
    }
}

/// Number of records among the first `n` on which the engine disagrees with the solver.
pub open spec fn disagreement_count<S, A, P>(records: Seq<AnnotationRecord<S, A, P>>, n: int) -> int
    decreases n,
{
    if n <= 0 {
        0
    } else {
        disagreement_count(records, n - 1) + if records[n - 1].engine_agrees == Some(false) {
            1int
        } else {
            0
        }
    }
}

/// Counts the records with `terminal` set and those with `engine_agrees == Some(false)`.
pub fn counts<S, A, P>(records: &[AnnotationRecord<S, A, P>]) -> (c: (usize, usize))
    ensures
        c.0 == terminal_count(records@, records@.len() as int),
        c.1 == disagreement_count(records@, records@.len() as int),
{
    let mut terminal: usize = 0;
    let mut disagreements: usize = 0;
    let mut i: usize = 0;
    while i < records.len()
        invariant
            i <= records@.len(),
            terminal == terminal_count(records@, i as int),
            disagreements == disagreement_count(records@, i as int),
            terminal <= i,
            disagreements <= i,
        decreases records@.len() - i,
    {
        if records[i].terminal {
            terminal = terminal + 1;
        }
        match records[i].engine_agrees {
            Some(false) => {
                disagreements = disagreements + 1;
            },
            _ => {},
        }
        i = i + 1;
    }
    (terminal, disagreements)
}

/// The distinct states among the first `n` positions, in order of first appearance.
pub open spec fn first_appearances<S, A, Q, O>(positions: Seq<PositionRecord<S, A, Q, O>>, n: int) -> Seq<S>
    decreases n,
{
    if n <= 0 {
        seq![]
    } else {
        let prev = first_appearances(positions, n - 1);
        if prev.contains(positions[n - 1].state) {
            prev
        } else {
            prev.push(positions[n - 1].state)
        }
    }
}

/// The distinct states of `positions`, in order of first appearance: the states an annotation
/// pass over a corpus labels.
pub fn corpus_states<G: GameDomain, R: GameRules<G>>(
    rules: &R,
    positions: &[PositionRecord<G::State, G::Action, G::Player, G::Outcome>],
) -> (states: Vec<G::State>)
    ensures
        states@ == first_appearances(positions@, positions@.len() as int),
{
    broadcast use vstd::std_specs::hash::group_hash_axioms;

    let mut seen: HashSet<u64> = HashSet::new();
    let mut states: Vec<G::State> = Vec::new();
    let mut k: usize = 0;
    while k < positions.len()
        invariant
            k <= positions@.len(),
            states@ == first_appearances(positions@, k as int),
            forall|s: G::State| #[trigger] seen@.contains(rules.spec_key(s)) <==> states@.contains(s),
        decreases positions@.len() - k,
    {
        let state = positions[k].state;
        let key = rules.state_key(&state);
        if !seen.contains(&key) {
            proof {
                assert(!states@.contains(state));
            }
            seen.insert(key);
            let ghost before = states@;
            states.push(state);
            proof {
                assert forall|s: G::State| #[trigger] seen@.contains(rules.spec_key(s)) <==> states@.contains(s) by {
                    if rules.spec_key(s) == key {
                        rules.lemma_key_injective(s, state);
                        assert(states@[before.len() as int] == state);
                    } else {
                        if states@.contains(s) {
                            let i = choose|i: int| 0 <= i < states@.len() && states@[i] == s;
                            if i < before.len() {
                                assert(before[i] == s);
                            }
                        }
                        if before.contains(s) {
                            let i = choose|i: int| 0 <= i < before.len() && before[i] == s;
                            assert(states@[i] == s);
                        }
                    }
                }
            }
        } else {
            proof {
                assert(seen@.contains(rules.spec_key(state)));
                assert(states@.contains(state));
            }
        }
        k = k + 1;
    }
    states
}

/// The manifest of an annotation pass over `records`.
pub fn annotation_metadata<G: GameDomain, R: GameRules<G>, C: Canonicalize<G>, P>(
    bundle: &GameBundle<G, R, C, P>,
    mode: AnnotateMode,
    run_id: Option<String>,
    engine_depth: u32,
    records: &[AnnotationRecord<G::State, G::Action, G::Player>],
    solver_states: usize,
) -> (m: AnnotateMetadata)
    ensures
        m.schema_version == SCHEMA_VERSION,
        m.mode == mode,
        m.game@ == bundle.name@,
        m.run_id == run_id,
        m.engine_depth == engine_depth,
        m.evaluator@ == bundle.default_evaluator@,
        m.annotated == records@.len(),
        m.terminal == terminal_count(records@, records@.len() as int),
        m.disagreements == disagreement_count(records@, records@.len() as int),
        m.solver_states == solver_states,
{
    let (terminal, disagreements) = counts(records);
    AnnotateMetadata {
        schema_version: SCHEMA_VERSION,
        mode,
        game: bundle.name.clone(),
        run_id,
        engine_depth,
        evaluator: bundle.default_evaluator.clone(),
        annotated: records.len(),
        terminal,
        disagreements,
        solver_states,
    }
}

} // verus!
