//! Game-agnostic contracts: the types a game is made of, and its rules of play with the
//! specification every implementation is held to.

use vstd::prelude::*;
use vstd::string::*;
use crate::framework::symmetry::Permutation;

verus! {

/// Why the rules refused an action.
#[derive(Clone, Debug, PartialEq, Eq)]
pub enum RulesError {
    /// The action is not legal in the state; the message says why.
    IllegalAction(String),
    /// The game is already over.
    GameOver,
}

impl RulesError {
    /// The message of an illegal action, or `None` once the game is over.
    pub open spec fn detail(self) -> Option<Seq<char>> {
        match self {
            RulesError::IllegalAction(m) => Some(m@),
            RulesError::GameOver => None,
        }
    }

    /// The error's text: `illegal action: {message}`, or `the game is already over`.
    pub open spec fn spec_message(self) -> Seq<char> {
        match self {
            RulesError::IllegalAction(m) => "illegal action: "@ + m@,
            RulesError::GameOver => "the game is already over"@,
        }
    }

    /// The error's text: `illegal action: {message}`, or `the game is already over`.
    pub fn to_string(&self) -> (s: String)
        ensures
            s@ == self.spec_message(),
    {
        proof {
            reveal_strlit("illegal action: ");
            reveal_strlit("the game is already over");
        }
        match self {
            RulesError::IllegalAction(m) => {
                let mut s = String::from_str("illegal action: ");
                s.append(m.as_str());
                s
            },
            RulesError::GameOver => String::from_str("the game is already over"),
        }
    }
}

/// The types a game is made of.
pub trait GameDomain {
    /// A position, including whose turn it is.
    type State: Copy;
    /// A move.
    type Action: Copy + core::fmt::Debug;
    /// A participant.
    type Player: Copy + core::fmt::Debug;
    /// The result of a finished game.
    type Outcome: Copy;
    /// How a benchmark strategy of this game is described.
    type StrategySpec: Clone;

    /// The winner an outcome names, if any.
    spec fn spec_winner(outcome: Self::Outcome) -> Option<Self::Player>;

    /// The winner an outcome names, if any.
    fn winner(outcome: &Self::Outcome) -> (w: Option<Self::Player>)
        ensures
            w == Self::spec_winner(*outcome),
    ;

    /// The name a player is shown by in results and messages.
    spec fn spec_player_label(p: Self::Player) -> Seq<char>;

    /// The name a player is shown by in results and messages.
    fn player_label(p: &Self::Player) -> (s: String)
        ensures
            s@ == Self::spec_player_label(*p),
    ;

    /// Distinct players are shown by distinct names.
    proof fn lemma_label_injective(p: Self::Player, q: Self::Player)
        ensures
            Self::spec_player_label(p) == Self::spec_player_label(q) ==> p == q,
    ;

    /// Whether two players are the same participant.
    fn same_player(a: &Self::Player, b: &Self::Player) -> (r: bool)
        ensures
            r == (*a == *b),
    ;

    /// Whether two actions are the same move.
    fn same_action(a: &Self::Action, b: &Self::Action) -> (r: bool)
        ensures
            r == (*a == *b),
    ;

    /// Whether two states are the same position.
    fn same_state(a: &Self::State, b: &Self::State) -> (r: bool)
        ensures
            r == (*a == *b),
    ;

    /// Whether two outcomes are the same result.
    fn same_outcome(a: &Self::Outcome, b: &Self::Outcome) -> (r: bool)
        ensures
            r == (*a == *b),
    ;
}

/// Rules of play: initial position, legal actions, transitions and termination.
pub trait GameRules<G: GameDomain> {
    /// The position every game starts from.
    spec fn spec_initial_state(&self) -> G::State;

    /// The player to move in `state`.
    spec fn spec_player_to_move(&self, state: G::State) -> G::Player;

    /// The outcome of `state`, or `None` while the game goes on.
    spec fn spec_outcome(&self, state: G::State) -> Option<G::Outcome>;

    /// The legal actions in `state`, in the game's canonical order; empty when the game is over.
    spec fn spec_legal_actions(&self, state: G::State) -> Seq<G::Action>;

    /// The state after `action`, or `None` when the rules refuse it.
    spec fn spec_next(&self, state: G::State, action: G::Action) -> Option<G::State>;

    /// A key that identifies a state among all states.
    spec fn spec_key(&self, state: G::State) -> u64;

    /// An upper bound on the plies still playable from `state`.
    spec fn spec_plies_left(&self, state: G::State) -> nat;

    /// Why `action` is refused in `state`: the message of the illegal action, or `None` when
    /// the game is already over.
    spec fn spec_refusal(&self, state: G::State, action: G::Action) -> Option<Seq<char>>;

    /// Terminal states have no legal action, other states have at least one; every legal action
    /// applies and leaves fewer plies to play.
    proof fn lemma_legal_actions(&self, state: G::State)
        ensures
            self.spec_outcome(state) is Some <==> self.spec_legal_actions(state).len() == 0,
            forall|i: int|
                0 <= i < self.spec_legal_actions(state).len() ==> {
                    &&& #[trigger] self.spec_next(state, self.spec_legal_actions(state)[i]) is Some
                    &&& self.spec_plies_left(
                        self.spec_next(state, self.spec_legal_actions(state)[i])->0,
                    ) < self.spec_plies_left(state)
                },
    ;

    /// Distinct states have distinct keys.
    proof fn lemma_key_injective(&self, a: G::State, b: G::State)
        requires
            self.spec_key(a) == self.spec_key(b),
        ensures
            a == b,
    ;

    /// The position every game starts from.
    fn initial_state(&self) -> (s: G::State)
        ensures
            s == self.spec_initial_state(),
    ;

    /// The player to move in `state`.
    fn player_to_move(&self, state: &G::State) -> (p: G::Player)
        ensures
            p == self.spec_player_to_move(*state),
    ;

    /// The legal actions in `state`.
    fn legal_actions(&self, state: &G::State) -> (v: Vec<G::Action>)
        ensures
            v@ == self.spec_legal_actions(*state),
    ;

    /// Applies `action` to `state`. Refused actions give `GameOver` exactly when the game is
    /// already over, and `IllegalAction` otherwise.
    fn apply(&self, state: &G::State, action: &G::Action) -> (r: Result<G::State, RulesError>)
        ensures
            r is Ok <==> self.spec_next(*state, *action) is Some,
            r matches Ok(next) ==> self.spec_next(*state, *action) == Some(next),
            r matches Err(e) ==> (e is GameOver <==> self.spec_outcome(*state) is Some),
            r matches Err(e) ==> e.detail() == self.spec_refusal(*state, *action),
    ;

    /// The outcome of `state`, or `None` while the game goes on.
    fn outcome(&self, state: &G::State) -> (o: Option<G::Outcome>)
        ensures
            o == self.spec_outcome(*state),
    ;

    /// Whether the game is over in `state`.
    fn is_terminal(&self, state: &G::State) -> (t: bool)
        ensures
            t == self.spec_outcome(*state) is Some,
    {
        self.outcome(state).is_some()
    }

    /// The key of `state`.
    fn state_key(&self, state: &G::State) -> (k: u64)
        ensures
            k == self.spec_key(*state),
    ;
}

/// Maps every state onto the representative of its class under the game's symmetries.
pub trait Canonicalize<G: GameDomain> {
    /// The representative of `state`'s class.
    spec fn spec_canonical(&self, state: G::State) -> G::State;

    /// The images of the permutation of positions that carries `state` onto its representative.
    spec fn spec_transform(&self, state: G::State) -> Seq<usize>;

    /// The representative of `state`'s class and the permutation that carries `state` onto it.
    fn canonicalize_with_transform(&self, state: &G::State) -> (r: (G::State, Permutation))
        ensures
            r.0 == self.spec_canonical(*state),
            r.1@ == self.spec_transform(*state),
    ;

    /// The representative of `state`'s class.
    fn canonicalize(&self, state: &G::State) -> (c: G::State)
        ensures
            c == self.spec_canonical(*state),
    {
        let (c, _transform) = self.canonicalize_with_transform(state);
        c
    }
}

/// The record of one played game: its index within its cell, its seed, the actions played and
/// the outcome (`None` when a ply cap stopped the game first).
#[derive(Clone, Debug, PartialEq)]
pub struct MatchRecord<A, O> {
    /// Index of the game within its cell.
    pub game_index: usize,
    /// The game's seed.
    pub seed: u64,
    /// Every action played, in order.
    pub actions: Vec<A>,
    /// The terminal outcome, or `None` when the game stopped at a ply cap.
    pub outcome: Option<O>,
}

/// Why a strategy could not choose an action.
#[derive(Clone, Debug, PartialEq, Eq)]
pub enum StrategyError {
    /// Any failure, described.
    Other(String),
}

/// Why a game could not be played to its end.
#[derive(Clone, Debug, PartialEq, Eq)]
pub enum MatchError {
    /// The rules refused an action of the forced opening.
    Rules(RulesError),
    /// No strategy plays for the player to move (its `Debug` text).
    MissingProvider(String),
    /// A strategy failed, or chose an action that is not legal.
    Strategy(StrategyError),
}

/// One player's decision procedure for one game, a deterministic machine: what it picks in a
/// state, and what it becomes after picking, are functions of its own state and the game's.
/// An implementation states both as `spec_choice` and `spec_after` (outside Verus, ordinary
/// methods that compute the same as `pick` on a copy, leaving `self` as it is).
pub trait Strategy<G: GameDomain>: Sized {
    /// What this strategy picks in `state`: an action, or why it cannot pick.
    spec fn spec_choice(&self, state: G::State) -> Result<G::Action, StrategyError>;

    /// This strategy after picking in `state`.
    spec fn spec_after(&self, state: G::State) -> Self;

    /// Chooses an action among `legal`, the legal actions in `state`.
    fn pick(&mut self, state: &G::State, legal: &[G::Action]) -> (r: Result<G::Action, StrategyError>)
        ensures
            r == old(self).spec_choice(*state),
            *final(self) == old(self).spec_after(*state),
    ;
}

/// Builds a fresh strategy for each game.
pub trait StrategyProvider<G: GameDomain> {
    /// The strategy it builds.
    type Built: Strategy<G>;

    /// The kind of strategy built, as named in error messages.
    fn kind(&self) -> &str;

    /// The strategy built from `seed`.
    spec fn spec_create(&self, seed: u64) -> Self::Built;

    /// A strategy for one game, seeded with `seed`.
    fn create(&self, seed: u64) -> (s: Self::Built)
        ensures
            s == self.spec_create(seed),
    ;
}

/// Structural facts about a game's board that the corpus summary reads: the position an action
/// is played at, and the symmetry orbit of each position.
pub trait GamePrimitives<G: GameDomain> {
    /// The position `action` is played at, if it is played at one.
    spec fn spec_action_position(&self, action: G::Action) -> Option<usize>;

    /// The position `action` is played at, if it is played at one.
    fn action_position(&self, action: &G::Action) -> (p: Option<usize>)
        ensures
            p == self.spec_action_position(*action),
    ;

    /// For each position, the index of its symmetry orbit.
    spec fn spec_orbit_index(&self) -> Seq<usize>;

    /// For each position, the index of its symmetry orbit.
    fn orbit_index(&self) -> (v: Vec<usize>)
        ensures
            v@ == self.spec_orbit_index(),
    ;
}

} // verus!
