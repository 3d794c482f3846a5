//! Replays an action list through a game's rules to reconstruct the sequence of positions it
//! passed through.

use vstd::prelude::*;
use crate::framework::traits::{GameDomain, GameRules, RulesError};

verus! {

/// The state after the first `n` of `actions` from the initial state, or `None` once the rules
/// refuse one of them.
pub open spec fn state_after<G: GameDomain, R: GameRules<G>>(
    rules: &R,
    actions: Seq<G::Action>,
    n: int,
) -> Option<G::State>
    decreases n,
{
    if n <= 0 {
        Some(rules.spec_initial_state())
    } else {
        match state_after::<G, R>(rules, actions, n - 1) {
            Some(s) => rules.spec_next(s, actions[n - 1]),
            None => None,
        }
    }
}

/// The rules refuse action `k` of `actions`, which is the first one refused, with error `e`.
pub open spec fn refused_at<G: GameDomain, R: GameRules<G>>(
    rules: &R,
    actions: Seq<G::Action>,
    k: int,
    e: RulesError,
) -> bool {
    &&& 0 <= k < actions.len()
    &&& state_after::<G, R>(rules, actions, k) is Some
    &&& rules.spec_next(state_after::<G, R>(rules, actions, k)->0, actions[k]) is None
    &&& (e is GameOver <==> rules.spec_outcome(state_after::<G, R>(rules, actions, k)->0) is Some)
}

/// Why the first `n` of `actions` cannot all be applied: the refusal of the first action the
/// rules refuse among them, or `None` when they all apply.
pub open spec fn replay_refusal<G: GameDomain, R: GameRules<G>>(
    rules: &R,
    actions: Seq<G::Action>,
    n: int,
) -> Option<Option<Seq<char>>>
    decreases n,
{
    if n <= 0 {
        None
    } else {
        match state_after::<G, R>(rules, actions, n - 1) {
            None => replay_refusal::<G, R>(rules, actions, n - 1),
            Some(s) => match rules.spec_next(s, actions[n - 1]) {
                Some(_) => None,
                None => Some(rules.spec_refusal(s, actions[n - 1])),
            },
        }
    }
}

proof fn lemma_replay_refusal_persists<G: GameDomain, R: GameRules<G>>(
    rules: &R,
    actions: Seq<G::Action>,
    k: int,
    n: int,
)
    requires
        0 <= k < n,
        state_after::<G, R>(rules, actions, k) is Some,
        state_after::<G, R>(rules, actions, k + 1) is None,
    ensures
        replay_refusal::<G, R>(rules, actions, n) == replay_refusal::<G, R>(rules, actions, k + 1),
    decreases n - k,
{
    if n > k + 1 {
        lemma_refusal_persists::<G, R>(rules, actions, k + 1);
        lemma_replay_refusal_persists::<G, R>(rules, actions, k, n - 1);
    }
}

/// Rebuilds `(state_before, action)` pairs by applying `actions` from `rules.initial_state()`;
/// the single source of truth for turning an action list into positions.
pub fn replay<G: GameDomain, R: GameRules<G>>(rules: &R, actions: &[G::Action]) -> (r: Result<
    Vec<(G::State, G::Action)>,
    RulesError,
>)
    ensures
        r is Ok <==> state_after::<G, R>(rules, actions@, actions@.len() as int) is Some,
        r matches Ok(pairs) ==> {
            &&& pairs@.len() == actions@.len()
            &&& forall|i: int|
                0 <= i < pairs@.len() ==> (#[trigger] pairs@[i]).0 == state_after::<G, R>(
                    rules,
                    actions@,
                    i,
                )->0 && pairs@[i].1 == actions@[i]
        },
        r matches Err(e) ==> exists|k: int| refused_at::<G, R>(rules, actions@, k, e),
        r matches Err(e) ==> replay_refusal::<G, R>(rules, actions@, actions@.len() as int) == Some(
            e.detail(),
        ),
{
    let mut state = rules.initial_state();
    let mut pairs: Vec<(G::State, G::Action)> = Vec::new();
    let mut i: usize = 0;
    while i < actions.len()
        invariant
            i <= actions@.len(),
            state_after::<G, R>(rules, actions@, i as int) == Some(state),
            pairs@.len() == i,
            forall|j: int|
                0 <= j < i ==> (#[trigger] pairs@[j]).0 == state_after::<G, R>(rules, actions@, j)->0
                    && pairs@[j].1 == actions@[j],
        decreases actions@.len() - i,
    {
        let next = match rules.apply(&state, &actions[i]) {
            Ok(n) => n,
            Err(e) => {
                assert(refused_at::<G, R>(rules, actions@, i as int, e));
                proof {
                    lemma_refusal_persists::<G, R>(rules, actions@, i as int + 1);
                    lemma_replay_refusal_persists::<G, R>(rules, actions@, i as int, actions@.len() as int);
                }
                return Err(e);
            },
        };
        pairs.push((state, actions[i]));
        state = next;
        i = i + 1;
    }
    Ok(pairs)
}

/// Once an action is refused, no longer prefix has a state.
pub proof fn lemma_refusal_persists<G: GameDomain, R: GameRules<G>>(
    rules: &R,
    actions: Seq<G::Action>,
    k: int,
)
    requires
        k >= 1,
        state_after::<G, R>(rules, actions, k) is None,
    ensures
        forall|n: int| k <= n ==> #[trigger] state_after::<G, R>(rules, actions, n) is None,
{
    assert forall|n: int| k <= n implies #[trigger] state_after::<G, R>(rules, actions, n) is None by {
        lemma_refusal_persists_to::<G, R>(rules, actions, k, n);
    }
}

proof fn lemma_refusal_persists_to<G: GameDomain, R: GameRules<G>>(
    rules: &R,
    actions: Seq<G::Action>,
    k: int,
    n: int,
)
    requires
        k >= 1,
        k <= n,
        state_after::<G, R>(rules, actions, k) is None,
    ensures
        state_after::<G, R>(rules, actions, n) is None,
    decreases n - k,
{
    if n > k {
        lemma_refusal_persists_to::<G, R>(rules, actions, k, n - 1);
    }
}

/// State after applying every action in `actions` from the initial state.
pub fn final_state<G: GameDomain, R: GameRules<G>>(rules: &R, actions: &[G::Action]) -> (r: Result<
    G::State,
    RulesError,
>)
    ensures
        r is Ok <==> state_after::<G, R>(rules, actions@, actions@.len() as int) is Some,
        r matches Ok(s) ==> state_after::<G, R>(rules, actions@, actions@.len() as int) == Some(s),
        r matches Err(e) ==> exists|k: int| refused_at::<G, R>(rules, actions@, k, e),
        r matches Err(e) ==> replay_refusal::<G, R>(rules, actions@, actions@.len() as int) == Some(
            e.detail(),
        ),
{
    let mut state = rules.initial_state();
    let mut i: usize = 0;
    while i < actions.len()
        invariant
            i <= actions@.len(),
            state_after::<G, R>(rules, actions@, i as int) == Some(state),
        decreases actions@.len() - i,
    {
        state = match rules.apply(&state, &actions[i]) {
            Ok(n) => n,
            Err(e) => {
                assert(refused_at::<G, R>(rules, actions@, i as int, e));
                proof {
                    lemma_refusal_persists::<G, R>(rules, actions@, i as int + 1);
                    lemma_replay_refusal_persists::<G, R>(rules, actions@, i as int, actions@.len() as int);
                }
                return Err(e);
            },
        };
        i = i + 1;
    }
    Ok(state)
}

/// The state after the first `n` actions depends on those actions alone.
pub proof fn lemma_state_after_agree<G: GameDomain, R: GameRules<G>>(
    rules: &R,
    a: Seq<G::Action>,
    b: Seq<G::Action>,
    n: int,
)
    requires
        0 <= n <= a.len(),
        n <= b.len(),
        forall|i: int| 0 <= i < n ==> a[i] == b[i],
    ensures
        state_after::<G, R>(rules, a, n) == state_after::<G, R>(rules, b, n),
    decreases n,
{
    if n > 0 {
        lemma_state_after_agree::<G, R>(rules, a, b, n - 1);
    }
}

/// Playing one more action: the state after it is the successor of the state before.
pub proof fn lemma_state_after_push<G: GameDomain, R: GameRules<G>>(rules: &R, s: Seq<G::Action>, a: G::Action)
    ensures
        state_after::<G, R>(rules, s.push(a), s.len() + 1int) == match state_after::<G, R>(rules, s, s.len() as int) {
            Some(x) => rules.spec_next(x, a),
            None => None,
        },
{
    lemma_state_after_agree::<G, R>(rules, s.push(a), s, s.len() as int);
    assert(s.push(a)[s.len() as int] == a);
}

/// The final state is where replaying leads: the initial state for no actions, and otherwise
/// the last replayed state with the last action applied; both fail together, on the same first
/// refusal.
pub proof fn lemma_final_state_follows_replay<G: GameDomain, R: GameRules<G>>(rules: &R, actions: Seq<G::Action>)
    ensures
        actions.len() == 0 ==> state_after::<G, R>(rules, actions, 0) == Some(rules.spec_initial_state()),
        actions.len() > 0 && state_after::<G, R>(rules, actions, actions.len() as int) is Some ==> {
            &&& state_after::<G, R>(rules, actions, actions.len() - 1) is Some
            &&& state_after::<G, R>(rules, actions, actions.len() as int) == rules.spec_next(
                state_after::<G, R>(rules, actions, actions.len() - 1)->0,
                actions[actions.len() - 1],
            )
        },
{
}

} // verus!
