//! Game-agnostic exhaustive solver: memoized negamax over [`GameRules`], value from the
//! side-to-move perspective. Exhaustive enumeration is a small-game accelerant: it walks the
//! entire reachable state space and holds it in memory.

use vstd::prelude::*;
use std::collections::{HashMap, HashSet};
use vstd::set_lib::lemma_len_subset;
use crate::framework::text::{decimal, with_decimal};
use crate::framework::traits::{GameDomain, GameRules};

verus! {

/// Value of a finished game from the perspective of the player to move in it: `1` if that
/// player won, `-1` if another player won, `0` for no winner.
pub open spec fn terminal_value<G: GameDomain, R: GameRules<G>>(rules: &R, s: G::State) -> int {
    match G::spec_winner(rules.spec_outcome(s)->0) {
        Some(w) => if w == rules.spec_player_to_move(s) {
            1
        } else {
            -1
        },
        None => 0,
    }
}

/// The state after legal action `i` of `s`.
pub open spec fn child<G: GameDomain, R: GameRules<G>>(rules: &R, s: G::State, i: int) -> G::State {
    rules.spec_next(s, rules.spec_legal_actions(s)[i])->0
}

/// Negamax value of `s` from the side-to-move perspective under optimal play by both sides:
/// `1` win, `0` draw, `-1` loss.
pub open spec fn spec_value<G: GameDomain, R: GameRules<G>>(rules: &R, s: G::State) -> int
    decreases rules.spec_plies_left(s), rules.spec_legal_actions(s).len() + 1,
{
    if rules.spec_outcome(s) is Some {
        terminal_value::<G, R>(rules, s)
    } else {
        best_value::<G, R>(rules, s, rules.spec_legal_actions(s).len() as int)
    }
}

/// The best negated child value over the first `n` legal actions of `s`.
pub open spec fn best_value<G: GameDomain, R: GameRules<G>>(rules: &R, s: G::State, n: int) -> int
    decreases rules.spec_plies_left(s), n,
{
    if n <= 0 || n > rules.spec_legal_actions(s).len() {
        -2
    } else {
        proof {
            rules.lemma_legal_actions(s);
            assert(rules.spec_next(s, rules.spec_legal_actions(s)[n - 1]) is Some);
        }
        let v = -spec_value::<G, R>(rules, child::<G, R>(rules, s, n - 1));
        if n == 1 {
            v
        } else {
            let b = best_value::<G, R>(rules, s, n - 1);
            if b >= v {
                b
            } else {
                v
            }
        }
    }
}


/// Some legal action of `s` has a child whose negated value is `s`'s.
pub open spec fn value_achieved<G: GameDomain, R: GameRules<G>>(rules: &R, s: G::State) -> bool {
    exists|i: int|
        0 <= i < rules.spec_legal_actions(s).len() && -spec_value::<G, R>(rules, #[trigger] child::<G, R>(rules, s, i))
            == spec_value::<G, R>(rules, s)
}

proof fn lemma_best_value<G: GameDomain, R: GameRules<G>>(rules: &R, s: G::State, n: int)
    requires
        1 <= n <= rules.spec_legal_actions(s).len(),
    ensures
        forall|i: int| 0 <= i < n ==> -spec_value::<G, R>(rules, #[trigger] child::<G, R>(rules, s, i)) <= best_value::<G, R>(rules, s, n),
        exists|i: int| 0 <= i < n && -spec_value::<G, R>(rules, #[trigger] child::<G, R>(rules, s, i)) == best_value::<G, R>(rules, s, n),
    decreases n,
{
    if n > 1 {
        lemma_best_value::<G, R>(rules, s, n - 1);
        let v = -spec_value::<G, R>(rules, child::<G, R>(rules, s, n - 1));
        let b = best_value::<G, R>(rules, s, n - 1);
        if b < v {
            assert(-spec_value::<G, R>(rules, child::<G, R>(rules, s, n - 1)) == best_value::<G, R>(rules, s, n));
        } else {
            let i = choose|i: int| 0 <= i < n - 1 && -spec_value::<G, R>(rules, #[trigger] child::<G, R>(rules, s, i)) == b;
            assert(-spec_value::<G, R>(rules, child::<G, R>(rules, s, i)) == best_value::<G, R>(rules, s, n));
        }
    } else {
        assert(-spec_value::<G, R>(rules, child::<G, R>(rules, s, 0)) == best_value::<G, R>(rules, s, 1));
    }
}

/// Negamax: a game still going on is worth the best of its legal actions' negated child values,
/// and some legal action achieves it.
pub proof fn lemma_negamax<G: GameDomain, R: GameRules<G>>(rules: &R, s: G::State)
    requires
        rules.spec_outcome(s) is None,
    ensures
        rules.spec_legal_actions(s).len() > 0,
        forall|i: int|
            0 <= i < rules.spec_legal_actions(s).len() ==> -spec_value::<G, R>(rules, #[trigger] child::<G, R>(rules, s, i))
                <= spec_value::<G, R>(rules, s),
        value_achieved::<G, R>(rules, s),
{
    rules.lemma_legal_actions(s);
    lemma_best_value::<G, R>(rules, s, rules.spec_legal_actions(s).len() as int);
}

/// Every legal action of `s`, among the first `n`, whose child has the negated value of `s`,
/// in legal-action order.
pub open spec fn optimal_prefix<G: GameDomain, R: GameRules<G>>(
    rules: &R,
    s: G::State,
    n: int,
) -> Seq<G::Action>
    decreases n,
{
    if n <= 0 {
        seq![]
    } else {
        optimal_prefix::<G, R>(rules, s, n - 1) + if -spec_value::<G, R>(
            rules,
            child::<G, R>(rules, s, n - 1),
        ) == spec_value::<G, R>(rules, s) {
            seq![rules.spec_legal_actions(s)[n - 1]]
        } else {
            seq![]
        }
    }
}

/// Every legal action of `s` achieving its value, in legal-action order; empty for terminal
/// states.
pub open spec fn spec_optimal<G: GameDomain, R: GameRules<G>>(rules: &R, s: G::State) -> Seq<
    G::Action,
> {
    optimal_prefix::<G, R>(rules, s, rules.spec_legal_actions(s).len() as int)
}

/// Keys of every state reachable from `s` by legal actions, `s` included.
pub open spec fn reach_keys<G: GameDomain, R: GameRules<G>>(rules: &R, s: G::State) -> Set<u64>
    decreases rules.spec_plies_left(s), rules.spec_legal_actions(s).len() + 1,
{
    set![rules.spec_key(s)].union(
        children_keys::<G, R>(rules, s, rules.spec_legal_actions(s).len() as int),
    )
}

/// Keys of every state reachable from the children of `s` through its first `n` legal actions.
pub open spec fn children_keys<G: GameDomain, R: GameRules<G>>(
    rules: &R,
    s: G::State,
    n: int,
) -> Set<u64>
    decreases rules.spec_plies_left(s), n,
{
    if n <= 0 || n > rules.spec_legal_actions(s).len() {
        Set::empty()
    } else {
        proof {
            rules.lemma_legal_actions(s);
            assert(rules.spec_next(s, rules.spec_legal_actions(s)[n - 1]) is Some);
        }
        children_keys::<G, R>(rules, s, n - 1).union(
            reach_keys::<G, R>(rules, child::<G, R>(rules, s, n - 1)),
        )
    }
}

/// Every key reachable from `s` is the key of a state with no more plies left than `s`, and
/// there are finitely many.
pub proof fn lemma_reach_keys<G: GameDomain, R: GameRules<G>>(rules: &R, s: G::State)
    ensures
        reach_keys::<G, R>(rules, s).finite(),
        forall|k: u64|
            #[trigger] reach_keys::<G, R>(rules, s).contains(k) ==> exists|t: G::State|
                rules.spec_key(t) == k && rules.spec_plies_left(t) <= rules.spec_plies_left(s),
    decreases rules.spec_plies_left(s), rules.spec_legal_actions(s).len() + 1,
{
    lemma_children_keys::<G, R>(rules, s, rules.spec_legal_actions(s).len() as int);
}

/// Every key reachable from the children of `s` through its first `n` legal actions is the key
/// of a state with fewer plies left than `s`, and there are finitely many.
pub proof fn lemma_children_keys<G: GameDomain, R: GameRules<G>>(rules: &R, s: G::State, n: int)
    ensures
        children_keys::<G, R>(rules, s, n).finite(),
        forall|k: u64|
            #[trigger] children_keys::<G, R>(rules, s, n).contains(k) ==> exists|t: G::State|
                rules.spec_key(t) == k && rules.spec_plies_left(t) < rules.spec_plies_left(s),
    decreases rules.spec_plies_left(s), n,
{
    if n <= 0 || n > rules.spec_legal_actions(s).len() {
    } else {
        rules.lemma_legal_actions(s);
        assert(rules.spec_next(s, rules.spec_legal_actions(s)[n - 1]) is Some);
        let c = child::<G, R>(rules, s, n - 1);
        lemma_children_keys::<G, R>(rules, s, n - 1);
        lemma_reach_keys::<G, R>(rules, c);
        assert forall|k: u64| #[trigger]
            children_keys::<G, R>(rules, s, n).contains(k) implies exists|t: G::State|
            rules.spec_key(t) == k && rules.spec_plies_left(t) < rules.spec_plies_left(s) by {
            if children_keys::<G, R>(rules, s, n - 1).contains(k) {
            } else {
                assert(reach_keys::<G, R>(rules, c).contains(k));
            }
        }
    }
}

/// Keys reachable through a prefix of the legal actions are reachable through any longer one.
pub proof fn lemma_children_keys_mono<G: GameDomain, R: GameRules<G>>(
    rules: &R,
    s: G::State,
    m: int,
    n: int,
)
    requires
        0 <= m <= n <= rules.spec_legal_actions(s).len(),
    ensures
        children_keys::<G, R>(rules, s, m).subset_of(children_keys::<G, R>(rules, s, n)),
    decreases n - m,
{
    if m < n {
        lemma_children_keys_mono::<G, R>(rules, s, m, n - 1);
    }
}

/// Values lie in `-1..=1`.
pub proof fn lemma_value_range<G: GameDomain, R: GameRules<G>>(rules: &R, s: G::State)
    ensures
        -1 <= spec_value::<G, R>(rules, s) <= 1,
    decreases rules.spec_plies_left(s), rules.spec_legal_actions(s).len() + 1,
{
    rules.lemma_legal_actions(s);
    if rules.spec_outcome(s) is None {
        lemma_best_range::<G, R>(rules, s, rules.spec_legal_actions(s).len() as int);
    }
}

/// Best values over a nonempty prefix of legal actions lie in `-1..=1`.
pub proof fn lemma_best_range<G: GameDomain, R: GameRules<G>>(rules: &R, s: G::State, n: int)
    requires
        1 <= n <= rules.spec_legal_actions(s).len(),
    ensures
        -1 <= best_value::<G, R>(rules, s, n) <= 1,
    decreases rules.spec_plies_left(s), n,
{
    rules.lemma_legal_actions(s);
    assert(rules.spec_next(s, rules.spec_legal_actions(s)[n - 1]) is Some);
    lemma_value_range::<G, R>(rules, child::<G, R>(rules, s, n - 1));
    if n > 1 {
        lemma_best_range::<G, R>(rules, s, n - 1);
    }
}


/// Result of solving one state: its value and every action that achieves it.
#[derive(Clone, Debug, PartialEq, Eq)]
pub struct Solved<A> {
    /// Value from the perspective of the player to move in the solved state: `1` win, `0`
    /// draw, `-1` loss, assuming optimal play by both sides.
    pub value: i8,
    /// Every legal action achieving `value`, in `legal_actions` order. Empty for terminal
    /// states.
    pub optimal: Vec<A>,
}

/// A copy of `s`.
fn copy_solved<A: Copy>(s: &Solved<A>) -> (r: Solved<A>)
    ensures
        r.value == s.value,
        r.optimal@ == s.optimal@,
{
    let mut optimal: Vec<A> = Vec::new();
    let mut i: usize = 0;
    while i < s.optimal.len()
        invariant
            i <= s.optimal@.len(),
            optimal@ == s.optimal@.take(i as int),
        decreases s.optimal@.len() - i,
    {
        optimal.push(s.optimal[i]);
        i = i + 1;
        assert(optimal@ =~= s.optimal@.take(i as int));
    }
    assert(optimal@ =~= s.optimal@);
    Solved { value: s.value, optimal }
}

/// Errors produced by the exhaustive solver.
#[derive(Debug, Clone, Copy, PartialEq, Eq)]
pub enum SolverError {
    /// The reachable state space exceeds the solver's configured limit. Exhaustive modes are
    /// a small-game accelerant: larger games must fall back to sampling instead.
    TooLarge {
        /// The configured limit that was exceeded.
        limit: usize,
    },
}

impl SolverError {
    /// The error's message.
    pub open spec fn spec_message(self) -> Seq<char> {
        match self {
            SolverError::TooLarge { limit } => "state space exceeds the exhaustive-solver limit of "@
                + decimal(limit as nat)
                + " states; exhaustive modes are a small-game accelerant \u{2014} larger games must sample"@,
        }
    }

    /// The error's message.
    pub fn to_string(&self) -> (m: String)
        ensures
            m@ == self.spec_message(),
    {
        match self {
            SolverError::TooLarge { limit } => {
                let mut m = with_decimal(
                    "state space exceeds the exhaustive-solver limit of ",
                    *limit,
                );
                m.append(
                    " states; exhaustive modes are a small-game accelerant \u{2014} larger games must sample",
                );
                m
            },
        }
    }
}

/// Memoized negamax solver over a game's rules. Exhaustive: it stores every state it visits,
/// so it is intended for small state spaces (see [`SolverError::TooLarge`]).
pub struct ExhaustiveSolver<G: GameDomain, R: GameRules<G>> {
    /// Rules of the game being solved.
    rules: R,
    /// States solved so far, keyed by state key. Lookup-only: never iterated to produce output.
    memo: HashMap<u64, Solved<G::Action>>,
    /// Maximum number of states this solver will memoize before failing with
    /// [`SolverError::TooLarge`].
    limit: usize,
}

impl<G: GameDomain, R: GameRules<G>> ExhaustiveSolver<G, R> {
    /// Default memoization limit used when callers don't need a tighter bound.
    pub const DEFAULT_LIMIT: usize = 1_000_000;

    /// The rules this solver solves.
    pub closed spec fn spec_rules(&self) -> R {
        self.rules
    }

    /// The configured memoization limit.
    pub closed spec fn spec_limit(&self) -> usize {
        self.limit
    }

    /// Keys of the states memoized so far.
    pub closed spec fn memo_keys(&self) -> Set<u64> {
        self.memo@.dom()
    }

    /// Every memoized state holds its exact value and optimal actions, the memo is closed under
    /// legal actions, and it holds at most `limit` states.
    pub closed spec fn wf(&self) -> bool {
        &&& self.memo@.dom().finite()
        &&& self.memo@.len() <= self.limit
        &&& forall|s: G::State|
            #[trigger] self.memo@.contains_key(self.rules.spec_key(s)) ==> {
                &&& self.memo@[self.rules.spec_key(s)].value == spec_value::<G, R>(&self.rules, s)
                &&& self.memo@[self.rules.spec_key(s)].optimal@ == spec_optimal::<G, R>(
                    &self.rules,
                    s,
                )
                &&& reach_keys::<G, R>(&self.rules, s).subset_of(self.memo@.dom())
            }
    }

    /// The memoized keys are finitely many, and at most `limit`.
    pub proof fn lemma_memo_bound(&self)
        requires
            self.wf(),
        ensures
            self.memo_keys().finite(),
            self.memo_keys().len() <= self.spec_limit(),
    {
    }

    /// Builds a solver over `rules` that will memoize at most `limit` states.
    pub fn new(rules: R, limit: usize) -> (r: Self)
        ensures
            r.wf(),
            r.spec_rules() == rules,
            r.spec_limit() == limit,
            r.memo_keys() == Set::<u64>::empty(),
    {
        let r = ExhaustiveSolver { rules, memo: HashMap::new(), limit };
        assert(r.memo@.dom() =~= Set::<u64>::empty());
        r
    }

    /// Solves `state`: its value from the side-to-move perspective and every optimal action.
    /// Memoized; recurses into every reachable successor. Fails with
    /// [`SolverError::TooLarge`] exactly when the states memoized before plus those reachable
    /// from `state` number more than `limit`.
    pub fn solve(&mut self, state: &G::State) -> (r: Result<Solved<G::Action>, SolverError>)
        requires
            old(self).wf(),
        ensures
            final(self).wf(),
            final(self).spec_rules() == old(self).spec_rules(),
            final(self).spec_limit() == old(self).spec_limit(),
            r is Err <==> old(self).memo_keys().union(
                reach_keys::<G, R>(&old(self).spec_rules(), *state),
            ).len() > old(self).spec_limit(),
            r matches Ok(solved) ==> {
                &&& solved.value == spec_value::<G, R>(&old(self).spec_rules(), *state)
                &&& solved.optimal@ == spec_optimal::<G, R>(&old(self).spec_rules(), *state)
                &&& final(self).memo_keys() == old(self).memo_keys().union(
                    reach_keys::<G, R>(&old(self).spec_rules(), *state),
                )
            },
            r matches Err(e) ==> e == (SolverError::TooLarge { limit: old(self).spec_limit() }),
        decreases old(self).spec_rules().spec_plies_left(*state),
    {
        broadcast use vstd::std_specs::hash::group_hash_axioms;

        let ghost rules = self.rules;
        let ghost old_dom = self.memo@.dom();
        proof {
            lemma_reach_keys::<G, R>(&rules, *state);
            rules.lemma_legal_actions(*state);
        }
        let key = self.rules.state_key(state);
        match self.memo.get(&key) {
            Some(solved) => {
                proof {
                    assert(old_dom.union(reach_keys::<G, R>(&rules, *state)) =~= old_dom);
                }
                return Ok(copy_solved(solved));
            },
            None => {},
        }
        let ghost len = rules.spec_legal_actions(*state).len();
        let solved = match self.rules.outcome(state) {
            Some(outcome) => {
                let to_move = self.rules.player_to_move(state);
                let value: i8 = match G::winner(&outcome) {
                    Some(w) => if G::same_player(&w, &to_move) {
                        1
                    } else {
                        -1
                    },
                    None => 0,
                };
                proof {
                    assert(children_keys::<G, R>(&rules, *state, 0) =~= Set::<u64>::empty());
                    assert(optimal_prefix::<G, R>(&rules, *state, 0) =~= Seq::<G::Action>::empty());
                }
                Solved { value, optimal: Vec::new() }
            },
            None => {
                let actions = self.rules.legal_actions(state);
                let mut values: Vec<i8> = Vec::new();
                let mut i: usize = 0;
                proof {
                    assert(old_dom.union(children_keys::<G, R>(&rules, *state, 0)) =~= old_dom);
                }
                while i < actions.len()
                    invariant
                        self.wf(),
                        self.rules == rules,
                        old(self).rules == rules,
                        old(self).memo@.dom() == old_dom,
                        self.limit == old(self).limit,
                        actions@ == rules.spec_legal_actions(*state),
                        len == actions@.len(),
                        len > 0,
                        i <= len,
                        old_dom.finite(),
                        !old_dom.contains(key),
                        key == rules.spec_key(*state),
                        rules.spec_outcome(*state) is None,
                        self.memo@.dom() == old_dom.union(
                            children_keys::<G, R>(&rules, *state, i as int),
                        ),
                        values@.len() == i,
                        forall|j: int|
                            0 <= j < i ==> #[trigger] values@[j] == -spec_value::<G, R>(
                                &rules,
                                child::<G, R>(&rules, *state, j),
                            ),
                        forall|j: int|
                            0 <= j < len ==> {
                                &&& #[trigger] rules.spec_next(*state, actions@[j]) is Some
                                &&& rules.spec_plies_left(rules.spec_next(*state, actions@[j])->0)
                                    < rules.spec_plies_left(*state)
                            },
                    decreases len - i,
                {
                    let next = self.rules.apply(state, &actions[i]);
                    assert(next is Ok);
                    let next = next.unwrap();
                    assert(next == child::<G, R>(&rules, *state, i as int));
                    assert(rules.spec_next(*state, actions@[i as int]) is Some);
                    assert(rules.spec_plies_left(next) < rules.spec_plies_left(*state));
                    proof {
                        lemma_reach_keys::<G, R>(&rules, next);
                        lemma_children_keys::<G, R>(&rules, *state, i as int + 1);
                        lemma_value_range::<G, R>(&rules, next);
                        assert(old_dom.union(children_keys::<G, R>(&rules, *state, i as int + 1))
                            =~= self.memo@.dom().union(reach_keys::<G, R>(&rules, next)));
                    }
                    let sub = match self.solve(&next) {
                        Ok(sub) => sub,
                        Err(e) => {
                            proof {
                                let whole = old_dom.union(reach_keys::<G, R>(&rules, *state));
                                let part = old_dom.union(
                                    children_keys::<G, R>(&rules, *state, i as int + 1),
                                );
                                lemma_children_keys::<G, R>(&rules, *state, len as int);
                                lemma_children_keys_mono::<G, R>(
                                    &rules,
                                    *state,
                                    i as int + 1,
                                    len as int,
                                );
                                assert(part.subset_of(whole));
                                lemma_len_subset(part, whole);
                            }
                            return Err(e);
                        },
                    };
                    values.push(-sub.value);
                    i = i + 1;
                }
                let mut best: i8 = values[0];
                let mut j: usize = 1;
                while j < values.len()
                    invariant
                        1 <= j <= len,
                        values@.len() == len,
                        len == rules.spec_legal_actions(*state).len(),
                        best == best_value::<G, R>(&rules, *state, j as int),
                        forall|k: int|
                            0 <= k < len ==> #[trigger] values@[k] == -spec_value::<G, R>(
                                &rules,
                                child::<G, R>(&rules, *state, k),
                            ),
                    decreases len - j,
                {
                    if values[j] > best {
                        best = values[j];
                    }
                    j = j + 1;
                }
                let mut optimal: Vec<G::Action> = Vec::new();
                let mut k: usize = 0;
                while k < values.len()
                    invariant
                        k <= len,
                        values@.len() == len,
                        actions@ == rules.spec_legal_actions(*state),
                        len == actions@.len(),
                        rules.spec_outcome(*state) is None,
                        best == spec_value::<G, R>(&rules, *state),
                        optimal@ == optimal_prefix::<G, R>(&rules, *state, k as int),
                        forall|m: int|
                            0 <= m < len ==> #[trigger] values@[m] == -spec_value::<G, R>(
                                &rules,
                                child::<G, R>(&rules, *state, m),
                            ),
                    decreases len - k,
                {
                    if values[k] == best {
                        optimal.push(actions[k]);
                    }
                    k = k + 1;
                }
                Solved { value: best, optimal }
            },
        };
        proof {
            lemma_children_keys::<G, R>(&rules, *state, len as int);
            let d = old_dom.union(children_keys::<G, R>(&rules, *state, len as int));
            assert(self.memo@.dom() == d);
            if children_keys::<G, R>(&rules, *state, len as int).contains(key) {
                let t = choose|t: G::State|
                    rules.spec_key(t) == key && rules.spec_plies_left(t) < rules.spec_plies_left(
                        *state,
                    );
                rules.lemma_key_injective(t, *state);
            }
            assert(old_dom.union(reach_keys::<G, R>(&rules, *state)) =~= d.insert(key));
        }
        if self.memo.len() >= self.limit {
            return Err(SolverError::TooLarge { limit: self.limit });
        }
        let stored = copy_solved(&solved);
        self.memo.insert(key, stored);
        proof {
            assert forall|s: G::State| #[trigger]
                self.memo@.contains_key(self.rules.spec_key(s)) implies {
                &&& self.memo@[self.rules.spec_key(s)].value == spec_value::<G, R>(&self.rules, s)
                &&& self.memo@[self.rules.spec_key(s)].optimal@ == spec_optimal::<G, R>(
                    &self.rules,
                    s,
                )
                &&& reach_keys::<G, R>(&self.rules, s).subset_of(self.memo@.dom())
            } by {
                if self.rules.spec_key(s) == key {
                    rules.lemma_key_injective(s, *state);
                } else {
                    assert(old(self).memo@.contains_key(self.rules.spec_key(s)) || self.memo@.dom()
                        == old_dom.union(reach_keys::<G, R>(&rules, *state)));
                }
            }
        }
        Ok(solved)
    }

    /// Number of states memoized so far.
    pub fn solved_states(&self) -> (n: usize)
        requires
            self.wf(),
        ensures
            n == self.memo_keys().len(),
    {
        broadcast use vstd::std_specs::hash::group_hash_axioms;

        self.memo.len()
    }

    /// The configured memoization limit.
    pub fn limit(&self) -> (l: usize)
        ensures
            l == self.spec_limit(),
    {
        self.limit
    }
}


/// A set of keys closed under legal actions that holds the key of `s` holds every key reachable
/// from `s`.
pub proof fn lemma_closed_contains<G: GameDomain, R: GameRules<G>>(
    rules: &R,
    keys: Set<u64>,
    s: G::State,
)
    requires
        keys.contains(rules.spec_key(s)),
        forall|t: G::State, i: int|
            #![trigger keys.contains(rules.spec_key(t)), child::<G, R>(rules, t, i)]
            keys.contains(rules.spec_key(t)) && 0 <= i < rules.spec_legal_actions(t).len()
                ==> keys.contains(rules.spec_key(child::<G, R>(rules, t, i))),
    ensures
        reach_keys::<G, R>(rules, s).subset_of(keys),
    decreases rules.spec_plies_left(s), rules.spec_legal_actions(s).len() + 1,
{
    lemma_closed_contains_children::<G, R>(
        rules,
        keys,
        s,
        rules.spec_legal_actions(s).len() as int,
    );
}

/// A set of keys closed under legal actions that holds the key of `s` holds every key reachable
/// through the first `n` legal actions of `s`.
pub proof fn lemma_closed_contains_children<G: GameDomain, R: GameRules<G>>(
    rules: &R,
    keys: Set<u64>,
    s: G::State,
    n: int,
)
    requires
        keys.contains(rules.spec_key(s)),
        forall|t: G::State, i: int|
            #![trigger keys.contains(rules.spec_key(t)), child::<G, R>(rules, t, i)]
            keys.contains(rules.spec_key(t)) && 0 <= i < rules.spec_legal_actions(t).len()
                ==> keys.contains(rules.spec_key(child::<G, R>(rules, t, i))),
    ensures
        children_keys::<G, R>(rules, s, n).subset_of(keys),
    decreases rules.spec_plies_left(s), n,
{
    if n <= 0 || n > rules.spec_legal_actions(s).len() {
    } else {
        rules.lemma_legal_actions(s);
        assert(rules.spec_next(s, rules.spec_legal_actions(s)[n - 1]) is Some);
        let c = child::<G, R>(rules, s, n - 1);
        assert(keys.contains(rules.spec_key(c)));
        lemma_closed_contains_children::<G, R>(rules, keys, s, n - 1);
        lemma_closed_contains::<G, R>(rules, keys, c);
    }
}

/// Keys reachable from a child of `s` are reachable from `s`.
pub proof fn lemma_child_reach<G: GameDomain, R: GameRules<G>>(rules: &R, s: G::State, i: int)
    requires
        0 <= i < rules.spec_legal_actions(s).len(),
    ensures
        reach_keys::<G, R>(rules, child::<G, R>(rules, s, i)).subset_of(reach_keys::<G, R>(rules, s)),
{
    let len = rules.spec_legal_actions(s).len() as int;
    lemma_children_keys_mono::<G, R>(rules, s, i + 1, len);
    rules.lemma_legal_actions(s);
    assert(rules.spec_next(s, rules.spec_legal_actions(s)[i]) is Some);
}

/// Whether some state among the first `j` of `v` has key `k`.
pub open spec fn seen_before<G: GameDomain, R: GameRules<G>>(
    rules: &R,
    v: Seq<G::State>,
    j: int,
    k: u64,
) -> bool {
    exists|q: int| 0 <= q < j && rules.spec_key(#[trigger] v[q]) == k
}

/// Whether `(p, a)` comes before `(p2, a2)` in the order a breadth-first scan visits them:
/// by the expanded state's position, then by the action's position among its legal actions.
pub open spec fn scanned_before(p2: int, a2: int, p: int, a: int) -> bool {
    p2 < p || (p2 == p && a2 < a)
}

/// Whether `v[j]` is the child of `v[p]` through its `a`-th legal action, is new among the
/// first `j` states, and every child scanned before that one was already among them.
pub open spec fn discovered_at<G: GameDomain, R: GameRules<G>>(
    rules: &R,
    v: Seq<G::State>,
    j: int,
    p: int,
    a: int,
) -> bool {
    &&& 0 <= p < j
    &&& 0 <= a < rules.spec_legal_actions(v[p]).len()
    &&& v[j] == child::<G, R>(rules, v[p], a)
    &&& !seen_before::<G, R>(rules, v, j, rules.spec_key(v[j]))
    &&& forall|p2: int, a2: int|
        #![trigger child::<G, R>(rules, v[p2], a2)]
        0 <= p2 && scanned_before(p2, a2, p, a) && 0 <= a2 < rules.spec_legal_actions(v[p2]).len()
            ==> seen_before::<G, R>(rules, v, j, rules.spec_key(child::<G, R>(rules, v[p2], a2)))
}

/// Whether `v[j]` is the state a breadth-first scan of `v` in order, each state's legal actions
/// in order, discovers next after the first `j`.
pub open spec fn breadth_first_at<G: GameDomain, R: GameRules<G>>(
    rules: &R,
    v: Seq<G::State>,
    j: int,
) -> bool {
    exists|p: int, a: int| discovered_at::<G, R>(rules, v, j, p, a)
}

/// A state's discovery in a sequence is kept when another state is pushed behind it.
proof fn lemma_breadth_first_push<G: GameDomain, R: GameRules<G>>(
    rules: &R,
    v: Seq<G::State>,
    x: G::State,
    j: int,
)
    requires
        0 <= j < v.len(),
        breadth_first_at::<G, R>(rules, v, j),
    ensures
        breadth_first_at::<G, R>(rules, v.push(x), j),
{
    let w = v.push(x);
    let (p, a) = choose|p: int, a: int| discovered_at::<G, R>(rules, v, j, p, a);
    assert forall|k: u64| seen_before::<G, R>(rules, v, j, k) <==> seen_before::<G, R>(rules, w, j, k) by {
        if seen_before::<G, R>(rules, v, j, k) {
            let q = choose|q: int| 0 <= q < j && rules.spec_key(#[trigger] v[q]) == k;
            assert(w[q] == v[q]);
        }
        if seen_before::<G, R>(rules, w, j, k) {
            let q = choose|q: int| 0 <= q < j && rules.spec_key(#[trigger] w[q]) == k;
            assert(w[q] == v[q]);
        }
    }
    assert forall|p2: int, a2: int|
        #![trigger child::<G, R>(rules, w[p2], a2)]
        0 <= p2 && scanned_before(p2, a2, p, a) && 0 <= a2 < rules.spec_legal_actions(w[p2]).len()
            implies seen_before::<G, R>(rules, w, j, rules.spec_key(child::<G, R>(rules, w[p2], a2))) by {
        assert(w[p2] == v[p2]);
        assert(seen_before::<G, R>(rules, v, j, rules.spec_key(child::<G, R>(rules, v[p2], a2))));
    }
    assert(discovered_at::<G, R>(rules, w, j, p, a));
}

/// Breadth-first discovery determines the sequence: two sequences from the same first state
/// that are breadth-first at every later position, and equally long, are equal.
pub proof fn lemma_breadth_first_unique<G: GameDomain, R: GameRules<G>>(rules: &R, v: Seq<G::State>, w: Seq<G::State>)
    requires
        v.len() == w.len(),
        v.len() >= 1,
        v[0] == w[0],
        forall|j: int| 1 <= j < v.len() ==> #[trigger] breadth_first_at::<G, R>(rules, v, j),
        forall|j: int| 1 <= j < w.len() ==> #[trigger] breadth_first_at::<G, R>(rules, w, j),
    ensures
        v == w,
{
    lemma_breadth_first_prefix::<G, R>(rules, v, w, v.len() - 1);
    assert(v =~= w);
}

proof fn lemma_breadth_first_prefix<G: GameDomain, R: GameRules<G>>(rules: &R, v: Seq<G::State>, w: Seq<G::State>, n: int)
    requires
        v.len() == w.len(),
        0 <= n < v.len(),
        v[0] == w[0],
        forall|j: int| 1 <= j < v.len() ==> #[trigger] breadth_first_at::<G, R>(rules, v, j),
        forall|j: int| 1 <= j < w.len() ==> #[trigger] breadth_first_at::<G, R>(rules, w, j),
    ensures
        forall|i: int| 0 <= i <= n ==> v[i] == w[i],
    decreases n,
{
    if n > 0 {
        lemma_breadth_first_prefix::<G, R>(rules, v, w, n - 1);
        assert(breadth_first_at::<G, R>(rules, v, n));
        assert(breadth_first_at::<G, R>(rules, w, n));
        let (p, a) = choose|p: int, a: int| discovered_at::<G, R>(rules, v, n, p, a);
        let (p2, a2) = choose|p: int, a: int| discovered_at::<G, R>(rules, w, n, p, a);
        assert forall|k: u64| seen_before::<G, R>(rules, v, n, k) <==> seen_before::<G, R>(rules, w, n, k) by {
            if seen_before::<G, R>(rules, v, n, k) {
                let q = choose|q: int| 0 <= q < n && rules.spec_key(#[trigger] v[q]) == k;
                assert(v[q] == w[q]);
            }
            if seen_before::<G, R>(rules, w, n, k) {
                let q = choose|q: int| 0 <= q < n && rules.spec_key(#[trigger] w[q]) == k;
                assert(v[q] == w[q]);
            }
        }
        assert(v[p] == w[p]);
        assert(v[p2] == w[p2]);
        if scanned_before(p, a, p2, a2) {
            assert(seen_before::<G, R>(rules, w, n, rules.spec_key(child::<G, R>(rules, w[p], a))));
        } else if scanned_before(p2, a2, p, a) {
            assert(seen_before::<G, R>(rules, v, n, rules.spec_key(child::<G, R>(rules, v[p2], a2))));
        }
    }
}

/// Every state reachable from `rules.initial_state()` by breadth-first traversal over
/// `legal_actions`, deduplicated, in first-discovery order (terminals included, never
/// expanded). Fails with [`SolverError::TooLarge`] exactly when more than `limit` states are
/// reachable.
pub fn reachable_states<G: GameDomain, R: GameRules<G>>(rules: &R, limit: usize) -> (r: Result<
    Vec<G::State>,
    SolverError,
>)
    ensures
        r is Err <==> reach_keys::<G, R>(rules, rules.spec_initial_state()).len() > limit,
        r matches Err(e) ==> e == (SolverError::TooLarge { limit }),
        r matches Ok(v) ==> {
            &&& v@.len() == reach_keys::<G, R>(rules, rules.spec_initial_state()).len()
            &&& v@[0] == rules.spec_initial_state()
            &&& forall|k: u64|
                reach_keys::<G, R>(rules, rules.spec_initial_state()).contains(k) <==> exists|j: int|
                    0 <= j < v@.len() && rules.spec_key(#[trigger] v@[j]) == k
            &&& forall|i: int, j: int|
                0 <= i < j < v@.len() ==> #[trigger] v@[i] != #[trigger] v@[j]
            &&& forall|j: int|
                1 <= j < v@.len() ==> exists|p: int, a: int|
                    0 <= p < j && #[trigger] v@[j] == child::<G, R>(rules, v@[p], a)
                        && 0 <= a < rules.spec_legal_actions(v@[p]).len()

            &&& forall|j: int| 1 <= j < v@.len() ==> #[trigger] breadth_first_at::<G, R>(rules, v@, j)
        },
{
    broadcast use vstd::std_specs::hash::group_hash_axioms;

    let ghost init = rules.spec_initial_state();
    let ghost reach = reach_keys::<G, R>(rules, init);
    proof {
        lemma_reach_keys::<G, R>(rules, init);
    }
    let start = rules.initial_state();
    let mut seen: HashSet<u64> = HashSet::new();
    let mut order: Vec<G::State> = Vec::new();
    if order.len() >= limit {
        proof {
            assert(reach.contains(rules.spec_key(init)));
            vstd::set_lib::lemma_set_empty_equivalency_len(reach);
        }
        return Err(SolverError::TooLarge { limit });
    }
    seen.insert(rules.state_key(&start));
    order.push(start);
    let mut head: usize = 0;
    proof {
        assert(reach.contains(rules.spec_key(init)));
        vstd::set_lib::lemma_set_empty_equivalency_len(reach);
        assert(seen@ =~= set![rules.spec_key(init)]);
        assert(rules.spec_key(order@[0]) == rules.spec_key(init));
        assert(reach_keys::<G, R>(rules, init).subset_of(reach));
    }
    while head < order.len()
        invariant
            reach == reach_keys::<G, R>(rules, init),
            init == rules.spec_initial_state(),
            reach.finite(),
            order@.len() <= limit,
            order@.len() <= reach.len(),
            order@.len() >= 1,
            order@[0] == init,
            head <= order@.len(),
            seen@.finite(),
            seen@.len() == order@.len(),
            forall|j: int| 0 <= j < order@.len() ==> seen@.contains(rules.spec_key(#[trigger] order@[j])),
            forall|k: u64| seen@.contains(k) ==> exists|j: int|
                0 <= j < order@.len() && rules.spec_key(#[trigger] order@[j]) == k,
            forall|j: int|
                0 <= j < order@.len() ==> reach_keys::<G, R>(rules, #[trigger] order@[j]).subset_of(
                    reach,
                ),
            forall|j: int, i: int|
                #![trigger order@[j], child::<G, R>(rules, order@[j], i)]
                0 <= j < head && 0 <= i < rules.spec_legal_actions(order@[j]).len()
                    ==> seen@.contains(rules.spec_key(child::<G, R>(rules, order@[j], i))),
            forall|i: int, j: int|
                0 <= i < j < order@.len() ==> #[trigger] order@[i] != #[trigger] order@[j],
            forall|j: int|
                1 <= j < order@.len() ==> exists|p: int, a: int|
                    0 <= p < j && #[trigger] order@[j] == child::<G, R>(rules, order@[p], a)
                        && 0 <= a < rules.spec_legal_actions(order@[p]).len(),
            forall|j: int| 1 <= j < order@.len() ==> #[trigger] breadth_first_at::<G, R>(rules, order@, j),
        decreases reach.len() - head,
    {
        let state = order[head];
        let actions = rules.legal_actions(&state);
        proof {
            rules.lemma_legal_actions(state);
        }
        let mut i: usize = 0;
        while i < actions.len()
            invariant
                reach == reach_keys::<G, R>(rules, init),
                init == rules.spec_initial_state(),
                reach.finite(),
                order@.len() <= limit,
                order@.len() <= reach.len(),
                order@.len() >= 1,
                order@[0] == init,
                head < order@.len(),
                state == order@[head as int],
                actions@ == rules.spec_legal_actions(state),
                i <= actions@.len(),
                seen@.finite(),
                seen@.len() == order@.len(),
                forall|j: int| 0 <= j < order@.len() ==> seen@.contains(rules.spec_key(#[trigger] order@[j])),
                forall|k: u64| seen@.contains(k) ==> exists|j: int|
                    0 <= j < order@.len() && rules.spec_key(#[trigger] order@[j]) == k,
                forall|j: int|
                    0 <= j < order@.len() ==> reach_keys::<G, R>(rules, #[trigger] order@[j]).subset_of(
                        reach,
                    ),
                forall|j: int, a: int|
                    #![trigger order@[j], child::<G, R>(rules, order@[j], a)]
                    0 <= j < head && 0 <= a < rules.spec_legal_actions(order@[j]).len()
                        ==> seen@.contains(rules.spec_key(child::<G, R>(rules, order@[j], a))),
                forall|a: int|
                    0 <= a < i ==> seen@.contains(rules.spec_key(#[trigger] child::<G, R>(rules, state, a))),
                forall|a: int|
                    0 <= a < actions@.len() ==> #[trigger] rules.spec_next(state, actions@[a]) is Some,
                forall|i: int, j: int|
                    0 <= i < j < order@.len() ==> #[trigger] order@[i] != #[trigger] order@[j],
                forall|j: int|
                    1 <= j < order@.len() ==> exists|p: int, a: int|
                        0 <= p < j && #[trigger] order@[j] == child::<G, R>(rules, order@[p], a)
                            && 0 <= a < rules.spec_legal_actions(order@[p]).len(),
                forall|j: int| 1 <= j < order@.len() ==> #[trigger] breadth_first_at::<G, R>(rules, order@, j),
            decreases actions@.len() - i,
        {
            let next = rules.apply(&state, &actions[i]);
            assert(rules.spec_next(state, actions@[i as int]) is Some);
            let next = next.unwrap();
            assert(next == child::<G, R>(rules, state, i as int));
            proof {
                lemma_child_reach::<G, R>(rules, state, i as int);
                lemma_reach_keys::<G, R>(rules, next);
            }
            let k = rules.state_key(&next);
            let ghost old_seen = seen@;
            let fresh = seen.insert(k);
            if fresh {
                proof {
                    assert(reach_keys::<G, R>(rules, next).contains(k));
                    assert(seen@.subset_of(reach)) by {
                        assert forall|x: u64| seen@.contains(x) implies reach.contains(x) by {
                            if x != k {
                                let j = choose|j: int|
                                    0 <= j < order@.len() && rules.spec_key(#[trigger] order@[j]) == x;
                                assert(reach_keys::<G, R>(rules, order@[j]).contains(x));
                            }
                        }
                    }
                    vstd::set_lib::lemma_len_subset(seen@, reach);
                    assert(seen@.len() == order@.len() + 1);
                    assert forall|j: int| 0 <= j < order@.len() implies order@[j] != next by {
                        assert(seen@.contains(rules.spec_key(order@[j])));
                    }
                }
                if order.len() >= limit {
                    return Err(SolverError::TooLarge { limit });
                }
                let ghost old_order = order@;
                order.push(next);
                proof {
                    let jn = old_order.len() as int;
                    assert forall|j: int| 1 <= j < order@.len() implies #[trigger] breadth_first_at::<G, R>(
                        rules,
                        order@,
                        j,
                    ) by {
                        if j < jn {
                            lemma_breadth_first_push::<G, R>(rules, old_order, next, j);
                            assert(order@ == old_order.push(next));
                        } else {
                            assert(order@[head as int] == state);
                            assert(!seen_before::<G, R>(rules, order@, jn, k)) by {
                                if seen_before::<G, R>(rules, order@, jn, k) {
                                    let q = choose|q: int| 0 <= q < jn && rules.spec_key(#[trigger] order@[q]) == k;
                                    assert(order@[q] == old_order[q]);
                                    assert(old_seen.contains(rules.spec_key(old_order[q])));
                                }
                            }
                            assert forall|p2: int, a2: int|
                                #![trigger child::<G, R>(rules, order@[p2], a2)]
                                0 <= p2 && scanned_before(p2, a2, head as int, i as int) && 0 <= a2
                                    < rules.spec_legal_actions(order@[p2]).len()
                                    implies seen_before::<G, R>(
                                    rules,
                                    order@,
                                    jn,
                                    rules.spec_key(child::<G, R>(rules, order@[p2], a2)),
                                ) by {
                                assert(order@[p2] == old_order[p2]);
                                let x = rules.spec_key(child::<G, R>(rules, old_order[p2], a2));
                                if p2 < head {
                                    assert(old_seen.contains(x));
                                } else {
                                    assert(child::<G, R>(rules, state, a2) == child::<G, R>(rules, old_order[p2], a2));
                                    assert(old_seen.contains(x));
                                }
                                let q = choose|q: int| 0 <= q < old_order.len() && rules.spec_key(#[trigger] old_order[q]) == x;
                                assert(order@[q] == old_order[q]);
                            }
                            assert(discovered_at::<G, R>(rules, order@, jn, head as int, i as int));
                        }
                    }
                    assert(order@[old_order.len() as int] == child::<G, R>(rules, order@[head as int], i as int));
                    assert forall|j: int|
                        1 <= j < order@.len() implies exists|p: int, a: int|
                        0 <= p < j && #[trigger] order@[j] == child::<G, R>(rules, order@[p], a)
                            && 0 <= a < rules.spec_legal_actions(order@[p]).len() by {
                        if j < old_order.len() {
                            assert(order@[j] == old_order[j]);
                            let (p, a) = choose|p: int, a: int|
                                0 <= p < j && #[trigger] old_order[j] == child::<G, R>(rules, old_order[p], a)
                                    && 0 <= a < rules.spec_legal_actions(old_order[p]).len();
                            assert(order@[p] == old_order[p]);
                        } else {
                            assert(order@[head as int] == state);
                        }
                    }
                    assert forall|x: u64| seen@.contains(x) implies exists|j: int|
                        0 <= j < order@.len() && rules.spec_key(#[trigger] order@[j]) == x by {
                        if x == k {
                            assert(rules.spec_key(order@[old_order.len() as int]) == x);
                        } else {
                            let j = choose|j: int|
                                0 <= j < old_order.len() && rules.spec_key(#[trigger] old_order[j]) == x;
                            assert(order@[j] == old_order[j]);
                        }
                    }
                }
            }
            i = i + 1;
        }
        proof {
            assert forall|j: int, a: int|
                #![trigger order@[j], child::<G, R>(rules, order@[j], a)]
                0 <= j < head + 1 && 0 <= a < rules.spec_legal_actions(order@[j]).len()
                    implies seen@.contains(rules.spec_key(child::<G, R>(rules, order@[j], a))) by {
                if j == head {
                    assert(child::<G, R>(rules, state, a) == child::<G, R>(rules, order@[j], a));
                }
            }
        }
        head = head + 1;
    }
    proof {
        assert forall|t: G::State, a: int|
            #![trigger seen@.contains(rules.spec_key(t)), child::<G, R>(rules, t, a)]
            seen@.contains(rules.spec_key(t)) && 0 <= a < rules.spec_legal_actions(t).len()
                implies seen@.contains(rules.spec_key(child::<G, R>(rules, t, a))) by {
            let j = choose|j: int| 0 <= j < order@.len() && rules.spec_key(#[trigger] order@[j]) == rules.spec_key(t);
            rules.lemma_key_injective(order@[j], t);
        }
        lemma_closed_contains::<G, R>(rules, seen@, init);
        assert forall|x: u64| seen@.contains(x) implies reach.contains(x) by {
            let j = choose|j: int| 0 <= j < order@.len() && rules.spec_key(#[trigger] order@[j]) == x;
            lemma_reach_keys::<G, R>(rules, order@[j]);
            assert(reach_keys::<G, R>(rules, order@[j]).contains(x));
        }
        assert(seen@ =~= reach);
        assert forall|k: u64| reach.contains(k) <==> exists|j: int|
            0 <= j < order@.len() && rules.spec_key(#[trigger] order@[j]) == k by {
            if reach.contains(k) {
                assert(seen@.contains(k));
            }
        }
    }
    Ok(order)
}

} // verus!
