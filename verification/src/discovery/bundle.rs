//! Game bundle: what the corpus, annotation and summary stages need from a game.

use vstd::prelude::*;
use vstd::string::*;
use crate::discovery::config::{texts, CorpusError, RosterEntry};
use crate::discovery::tournament::Roster;
use crate::framework::text::{join_with, joined, text_eq};
use crate::framework::traits::{Canonicalize, GameDomain, GameRules};

verus! {

/// What the corpus, annotation and summary stages need from a game: its name, rules, turn
/// order, the evaluator used by default, its symmetry canonicalizer and structural primitives
/// when it has them, its default benchmark strategies and roster, the engine depth that is exhaustive for it, and how many canonical
/// positions it has when that is known.
pub struct GameBundle<G: GameDomain, R: GameRules<G>, C: Canonicalize<G>, P> {
    /// The game's name.
    pub name: String,
    /// Rules of play.
    pub rules: R,
    /// Turn order; `players[0]` moves first.
    pub players: Vec<G::Player>,
    /// Names of the evaluators available for this game, ascending.
    pub evaluators: Vec<String>,
    /// Name of the evaluator used when none is named explicitly.
    pub default_evaluator: String,
    /// Optional symmetry canonicalizer.
    pub canonicalizer: Option<C>,
    /// Optional structural primitives.
    pub primitives: Option<P>,
    /// Default benchmark strategies for this game.
    pub default_strategies: Vec<RosterEntry<G::StrategySpec>>,
    /// Versioned benchmark population results are measured against; its id is recorded with
    /// each result.
    pub roster: Roster<G::StrategySpec>,
    /// Engine depth that is exhaustive for this game.
    pub full_search_depth: u32,
    /// Coverage denominator: number of known canonical positions, if known.
    pub known_canonical_positions: Option<usize>,
}

/// The error for an evaluator name not among `known`, if it is not:
/// ``unknown evaluator `{name}`; known evaluators: {known, comma-separated}``.
pub open spec fn evaluator_error(known: Seq<Seq<char>>, name: Seq<char>) -> Option<Seq<char>> {
    if known.contains(name) {
        None
    } else {
        Some("unknown evaluator `"@ + name + "`; known evaluators: "@ + joined(known, ", "@))
    }
}

impl<G: GameDomain, R: GameRules<G>, C: Canonicalize<G>, P> GameBundle<G, R, C, P> {
    /// Checks that `name` is one of the bundle's evaluators.
    pub fn check_evaluator(&self, name: &str) -> (r: Result<(), CorpusError>)
        ensures
            match evaluator_error(texts(self.evaluators@), name@) {
                None => r is Ok,
                Some(m) => r matches Err(CorpusError::Config(msg)) && msg@ == m,
            },
    {
        let mut k: usize = 0;
        while k < self.evaluators.len()
            invariant
                k <= self.evaluators@.len(),
                forall|j: int| 0 <= j < k ==> self.evaluators@[j]@ != name@,
            decreases self.evaluators@.len() - k,
        {
            if text_eq(self.evaluators[k].as_str(), name) {
                proof {
                    assert(texts(self.evaluators@)[k as int] == name@);
                }
                return Ok(());
            }
            k = k + 1;
        }
        proof {
            assert forall|j: int| 0 <= j < texts(self.evaluators@).len() implies texts(
                self.evaluators@,
            )[j] != name@ by {}
        }
        let mut m = String::from_str("unknown evaluator `");
        m.append(name);
        m.append("`; known evaluators: ");
        let known = join_with(self.evaluators.as_slice(), ", ");
        m.append(known.as_str());
        proof {
            reveal_strlit("unknown evaluator `");
            reveal_strlit("`; known evaluators: ");
            reveal_strlit(", ");
        }
        Err(CorpusError::Config(m))
    }

    /// `(canonical_state, transform)` by the canonicalizer, or `(state, [])` without one.
    pub fn canonicalize(&self, state: &G::State) -> (r: (G::State, Vec<usize>))
        ensures
            match self.canonicalizer {
                Some(c) => r.0 == c.spec_canonical(*state) && r.1@ == c.spec_transform(*state),
                None => r.0 == *state && r.1@.len() == 0,
            },
    {
        match &self.canonicalizer {
            Some(canonicalizer) => {
                let (canonical, transform) = canonicalizer.canonicalize_with_transform(state);
                let images = transform.as_slice();
                let mut v: Vec<usize> = Vec::new();
                let mut i: usize = 0;
                while i < images.len()
                    invariant
                        i <= images@.len(),
                        v@ == images@.take(i as int),
                    decreases images@.len() - i,
                {
                    v.push(images[i]);
                    i = i + 1;
                    assert(v@ =~= images@.take(i as int));
                }
                assert(images@.take(images@.len() as int) =~= images@);
                (canonical, v)
            },
            None => (*state, Vec::new()),
        }
    }

    /// Index of `player` in the turn order, if it takes part.
    pub fn player_slot(&self, player: G::Player) -> (slot: Option<usize>)
        ensures
            match slot {
                Some(i) => i < self.players@.len() && self.players@[i as int] == player && forall|j: int|
                    0 <= j < i ==> self.players@[j] != player,
                None => forall|j: int| 0 <= j < self.players@.len() ==> self.players@[j] != player,
            },
    {
        let mut i: usize = 0;
        while i < self.players.len()
            invariant
                i <= self.players@.len(),
                forall|j: int| 0 <= j < i ==> self.players@[j] != player,
            decreases self.players@.len() - i,
        {
            if G::same_player(&self.players[i], &player) {
                return Some(i);
            }
            i = i + 1;
        }
        None
    }
}

} // verus!
