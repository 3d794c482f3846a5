//! Playing games: seed derivation for batches of games (per-game, per-player and per-opening
//! seeds, all derived from a master seed with the SplitMix64 mixing function), forced openings,
//! and the game loop that plays an opening and then the players' strategies to the end or to a
//! ply cap. A game is a function of its seeds: `game_end` says how it ends, from the strategies'
//! specifications and the seeded draws of the random opening.

use vstd::prelude::*;
use vstd::wrapping::u64_specs::{wrapping_add, wrapping_mul};

use crate::framework::traits::{GameDomain, GameRules, MatchError, MatchRecord, Strategy, StrategyError, StrategyProvider};
use crate::io::replay::{lemma_refusal_persists, lemma_state_after_push, refused_at, state_after};

verus! {

/// The SplitMix64 increment.
pub const SPLITMIX64_GAMMA: u64 = 0x9E3779B97F4A7C15;

/// Salt mixed into a game's seed to derive its opening seed.
pub const OPENING_SEED_SALT: u64 = 0xA0761D6478BD642F;

/// Multiplier applied to `slot + 1` when deriving per-player seeds.
pub const PLAYER_SEED_MUL: u64 = 0xD1B54A32D192ED03;

/// SplitMix64: add the increment, then two xor-shift-multiply rounds and a final xor-shift, all
/// modulo `2^64`.
pub open spec fn spec_splitmix64(x: u64) -> u64 {
    let z0 = wrapping_add(x, SPLITMIX64_GAMMA);
    let z1 = wrapping_mul(z0 ^ (z0 >> 30u64), 0xBF58476D1CE4E5B9u64);
    let z2 = wrapping_mul(z1 ^ (z1 >> 27u64), 0x94D049BB133111EBu64);
    z2 ^ (z2 >> 31u64)
}

/// SplitMix64 mixing function: a deterministic, well-distributed 64-bit hash used to derive
/// per-game and per-player seeds from a master seed.
pub fn splitmix64(x: u64) -> (z: u64)
    ensures
        z == spec_splitmix64(x),
{
    let mut z = x.wrapping_add(SPLITMIX64_GAMMA);
    z = (z ^ (z >> 30u64)).wrapping_mul(0xBF58476D1CE4E5B9u64);
    z = (z ^ (z >> 27u64)).wrapping_mul(0x94D049BB133111EBu64);
    z ^ (z >> 31u64)
}

/// `splitmix64(master ^ game_index * SPLITMIX64_GAMMA)`, the product taken modulo `2^64`.
pub open spec fn spec_game_seed(master: u64, game_index: u64) -> u64 {
    spec_splitmix64(master ^ wrapping_mul(game_index, SPLITMIX64_GAMMA))
}

/// Per-game seed derived from a batch's master seed and the game's index within the batch.
pub fn game_seed(master: u64, game_index: usize) -> (s: u64)
    ensures
        s == spec_game_seed(master, game_index as u64),
{
    splitmix64(master ^ (game_index as u64).wrapping_mul(SPLITMIX64_GAMMA))
}

/// `splitmix64(game_seed ^ (slot + 1) * PLAYER_SEED_MUL)`, the product taken modulo `2^64`.
pub open spec fn spec_player_seed(game_seed: u64, slot: u64) -> u64 {
    spec_splitmix64(game_seed ^ wrapping_mul(wrapping_add(slot, 1), PLAYER_SEED_MUL))
}

/// Per-player seed derived from a game's seed and the player's slot in turn order.
pub fn player_seed(game_seed: u64, slot: usize) -> (s: u64)
    requires
        slot < u64::MAX,
    ensures
        s == spec_player_seed(game_seed, slot as u64),
{
    let next: u64 = slot as u64 + 1;
    splitmix64(game_seed ^ next.wrapping_mul(PLAYER_SEED_MUL))
}

/// Seed of a game's random-opening draws: `splitmix64(game_seed ^ OPENING_SEED_SALT)`.
pub fn opening_seed(game_seed: u64) -> (s: u64)
    ensures
        s == spec_splitmix64(game_seed ^ OPENING_SEED_SALT),
{
    splitmix64(game_seed ^ OPENING_SEED_SALT)
}

/// Forced start of a game: a fixed action prefix followed by `random_plies` uniformly random
/// legal plies, before the strategies take over.
#[derive(Clone, Debug, PartialEq, Eq)]
pub struct Opening<A> {
    /// Actions applied verbatim from the initial state.
    pub actions: Vec<A>,
    /// Number of uniformly random legal plies played after `actions`.
    pub random_plies: u32,
}

impl<A> Default for Opening<A> {
    /// The no-op opening: no fixed actions and no random plies.
    fn default() -> (o: Opening<A>)
        ensures
            o.actions@.len() == 0,
            o.random_plies == 0,
    {
        Opening { actions: Vec::new(), random_plies: 0 }
    }
}

/// Plies of `record` that were played by `opening` (fixed prefix plus random plies), capped by
/// the game's length.
pub fn opening_plies_played<A, O>(record: &MatchRecord<A, O>, opening: &Opening<A>) -> (n: usize)
    ensures
        n == opening_count(record.actions@.len(), opening),
{
    let game_length = record.actions.len();
    let fixed = opening.actions.len();
    let random = opening.random_plies as usize;
    if game_length <= fixed || game_length - fixed < random {
        game_length
    } else {
        fixed + random
    }
}

/// `min(game_length, fixed opening plies + random opening plies)`.
pub open spec fn opening_count<A>(game_length: nat, opening: &Opening<A>) -> int {
    if game_length < opening.actions@.len() + opening.random_plies {
        game_length as int
    } else {
        opening.actions@.len() + opening.random_plies
    }
}

/// What `IndexedRandom::choose` draws from `indices` with a `ChaCha8Rng` seeded by
/// `seed_from_u64(seed)` and standing at word `word_pos` of its stream, and the generator's word
/// position after the draw.
pub uninterp spec fn chacha_choose(seed: u64, word_pos: u128, indices: Seq<usize>) -> (Option<usize>, u128);

/// `IndexedRandom::choose` over `indices`, with a `ChaCha8Rng` seeded by `seed_from_u64(seed)`
/// and set to word `word_pos` of its stream; returns the element drawn and the word position
/// after the draw. ChaCha8 output from a word position is a function of the seed and the
/// position, so the result is named by `chacha_choose`; it is `None` only for no indices, and
/// otherwise one of them.
#[verifier::external_body]
fn draw(seed: u64, word_pos: u128, indices: &[usize]) -> (r: (Option<usize>, u128))
    ensures
        r == chacha_choose(seed, word_pos, indices@),
        r.0 is None <==> indices@.len() == 0,
        r.0 matches Some(i) ==> indices@.contains(i),
{
    let mut rng = <rand_chacha::ChaCha8Rng as rand::SeedableRng>::seed_from_u64(seed);
    rng.set_word_pos(word_pos);
    let choice = rand::seq::IndexedRandom::choose(indices, &mut rng).copied();
    (choice, rng.get_word_pos())
}

/// The positions `0..n`, in order.
pub open spec fn index_seq(n: nat) -> Seq<usize> {
    Seq::new(n, |i: int| i as usize)
}

/// The positions `0..n`, in order.
fn index_list(n: usize) -> (v: Vec<usize>)
    ensures
        v@ == index_seq(n as nat),
{
    let mut v: Vec<usize> = Vec::new();
    let mut i: usize = 0;
    while i < n
        invariant
            i <= n,
            v@ == index_seq(i as nat),
        decreases n - i,
    {
        v.push(i);
        i = i + 1;
        proof {
            assert(v@ =~= index_seq(i as nat));
        }
    }
    v
}

/// `format!("{:?}", value)`. Nothing is stated of the text.
#[verifier::external_body]
pub(crate) fn debug_text<T: core::fmt::Debug>(value: &T) -> String {
    format!("{:?}", value)
}

/// Whether a game of `played` plies has reached the ply cap `max_plies`.
pub open spec fn cap_reached(max_plies: Option<usize>, played: int) -> bool {
    max_plies matches Some(m) && played >= m
}

/// Whether a game of `played` plies has reached the ply cap `max_plies`.
fn at_cap(max_plies: Option<usize>, played: usize) -> (r: bool)
    ensures
        r == cap_reached(max_plies, played as int),
{
    match max_plies {
        Some(m) => played >= m,
        None => false,
    }
}

/// How many of `fixed` forced actions a game capped at `max_plies` plays.
pub open spec fn opening_prefix_len(fixed: nat, max_plies: Option<usize>) -> int {
    match max_plies {
        Some(m) => if m < fixed {
            m as int
        } else {
            fixed as int
        },
        None => fixed as int,
    }
}

/// `record` is a game played under `rules` from the forced actions `fixed` within the cap
/// `max_plies`: every action legal in turn, the forced prefix first, and an outcome that is the
/// final state's when the game ended, absent only when the cap stopped a game still going on.
pub open spec fn is_played<G: GameDomain, R: GameRules<G>>(
    rules: &R,
    record: MatchRecord<G::Action, G::Outcome>,
    game_index: usize,
    game_seed: u64,
    max_plies: Option<usize>,
    fixed: Seq<G::Action>,
) -> bool {
    let n = record.actions@.len() as int;
    let k = opening_prefix_len(fixed.len(), max_plies);
    let last = state_after::<G, R>(rules, record.actions@, n);
    &&& record.game_index == game_index
    &&& record.seed == game_seed
    &&& last is Some
    &&& (max_plies matches Some(m) ==> n <= m)
    &&& k <= n
    &&& record.actions@.take(k) == fixed.take(k)
    &&& match record.outcome {
        Some(o) => rules.spec_outcome(last->0) == Some(o),
        None => cap_reached(max_plies, n) && rules.spec_outcome(last->0) is None,
    }
}

/// Whether `legal` holds `action`.
pub(crate) fn holds_action<G: GameDomain>(legal: &[G::Action], action: &G::Action) -> (r: bool)
    ensures
        r == legal@.contains(*action),
{
    let mut i: usize = 0;
    while i < legal.len()
        invariant
            i <= legal@.len(),
            forall|k: int| 0 <= k < i ==> legal@[k] != *action,
        decreases legal@.len() - i,
    {
        if G::same_action(&legal[i], action) {
            return true;
        }
        i = i + 1;
    }
    false
}

/// The players that `players` has entries for, in entry order.
pub open spec fn seats_of<G: GameDomain, S>(players: Seq<(G::Player, &S)>) -> Seq<G::Player> {
    players.map_values(|e: (G::Player, &S)| e.0)
}

/// Every player to move in a game still going on is one of `seats`.
pub open spec fn all_seated<G: GameDomain, R: GameRules<G>>(rules: &R, seats: Seq<G::Player>) -> bool {
    forall|s: G::State| rules.spec_outcome(s) is None ==> seats.contains(#[trigger] rules.spec_player_to_move(s))
}

/// The forced actions `fixed`, capped by `max_plies`, are legal and leave no ply for anybody to
/// play: the game is over, or the cap is reached, when they end.
pub open spec fn opening_settles<G: GameDomain, R: GameRules<G>>(
    rules: &R,
    fixed: Seq<G::Action>,
    max_plies: Option<usize>,
) -> bool {
    let k = opening_prefix_len(fixed.len(), max_plies);
    &&& state_after::<G, R>(rules, fixed, k) is Some
    &&& (rules.spec_outcome(state_after::<G, R>(rules, fixed, k)->0) is Some || cap_reached(max_plies, k))
}

/// After `acts`, which begin with the capped forced actions `fixed`, a strategy ply is due and
/// the player to move, shown as `label`, is none of `seats`.
pub open spec fn stranded<G: GameDomain, R: GameRules<G>>(
    rules: &R,
    seats: Seq<G::Player>,
    fixed: Seq<G::Action>,
    max_plies: Option<usize>,
    acts: Seq<G::Action>,
    label: Seq<char>,
) -> bool {
    let k = opening_prefix_len(fixed.len(), max_plies);
    let s = state_after::<G, R>(rules, acts, acts.len() as int);
    &&& k <= acts.len()
    &&& acts.take(k) == fixed.take(k)
    &&& s is Some
    &&& rules.spec_outcome(s->0) is None
    &&& !cap_reached(max_plies, acts.len() as int)
    &&& !seats.contains(rules.spec_player_to_move(s->0))
    &&& label == G::spec_player_label(rules.spec_player_to_move(s->0))
}

/// Some game from the capped forced actions `fixed` reaches a strategy ply whose player to move,
/// shown as `label`, is none of `seats`.
pub open spec fn strands<G: GameDomain, R: GameRules<G>>(
    rules: &R,
    seats: Seq<G::Player>,
    fixed: Seq<G::Action>,
    max_plies: Option<usize>,
    label: Seq<char>,
) -> bool {
    exists|acts: Seq<G::Action>| #[trigger] stranded::<G, R>(rules, seats, fixed, max_plies, acts, label)
}

/// The capped forced actions `fixed` are legal and leave a ply to play, and the player to move
/// then is none of `seats`: with no random plies after them, the first strategy ply finds no
/// strategy.
pub open spec fn opening_strands<G: GameDomain, R: GameRules<G>>(
    rules: &R,
    seats: Seq<G::Player>,
    fixed: Seq<G::Action>,
    max_plies: Option<usize>,
) -> bool {
    let k = opening_prefix_len(fixed.len(), max_plies);
    let s = state_after::<G, R>(rules, fixed, k);
    &&& s is Some
    &&& rules.spec_outcome(s->0) is None
    &&& !cap_reached(max_plies, k)
    &&& !seats.contains(rules.spec_player_to_move(s->0))
}

/// The label of the player to move after the capped forced actions `fixed`.
pub open spec fn opening_mover_label<G: GameDomain, R: GameRules<G>>(
    rules: &R,
    fixed: Seq<G::Action>,
    max_plies: Option<usize>,
) -> Seq<char> {
    let k = opening_prefix_len(fixed.len(), max_plies);
    G::spec_player_label(rules.spec_player_to_move(state_after::<G, R>(rules, fixed, k)->0))
}

/// When the capped forced actions settle the game, a game that played exactly them is in the
/// settled state.
proof fn lemma_settled<G: GameDomain, R: GameRules<G>>(
    rules: &R,
    fixed: Seq<G::Action>,
    max_plies: Option<usize>,
    acts: Seq<G::Action>,
    state: G::State,
)
    requires
        opening_settles::<G, R>(rules, fixed, max_plies),
        acts == fixed.take(opening_prefix_len(fixed.len(), max_plies)),
        state_after::<G, R>(rules, acts, acts.len() as int) == Some(state),
    ensures
        rules.spec_outcome(state) is Some || cap_reached(max_plies, acts.len() as int),
{
    let k = opening_prefix_len(fixed.len(), max_plies);
    crate::io::replay::lemma_state_after_agree::<G, R>(rules, fixed, acts, k);
}

/// How a game ends: played to an end or a cap with its actions and outcome, stopped at a player
/// to move with no strategy (shown by its label), by a strategy's failure, by a strategy's choice
/// of an action that is not legal, or by a forced action the rules refuse.
pub enum PlayEnd<A, O> {
    Done { actions: Seq<A>, outcome: Option<O> },
    Stranded { label: Seq<char> },
    Failed { error: StrategyError },
    Illegal { action: A },
    Refused,
}

/// The first of `seats`, from `i` on, that is `p`'s; `seats.len()` when none is.
pub open spec fn seat_of<P>(seats: Seq<P>, p: P, i: int) -> int
    decreases seats.len() - i,
{
    if i < 0 || i >= seats.len() {
        seats.len() as int
    } else if seats[i] == p {
        i
    } else {
        seat_of(seats, p, i + 1)
    }
}

/// The random opening plies: from `state` after `actions`, up to `left` plies, each the legal
/// action at the index drawn by `chacha_choose` from the generator seeded with `seed`, starting
/// at word `word_pos`; drawing stops early at a finished game or at the cap.
pub open spec fn random_plies<G: GameDomain, R: GameRules<G>>(
    rules: &R,
    seed: u64,
    word_pos: u128,
    state: G::State,
    actions: Seq<G::Action>,
    left: nat,
    max_plies: Option<usize>,
) -> (G::State, Seq<G::Action>)
    decreases left,
{
    let legal = rules.spec_legal_actions(state);
    if left == 0 || legal.len() == 0 || cap_reached(max_plies, actions.len() as int) {
        (state, actions)
    } else {
        let (c, next_pos) = chacha_choose(seed, word_pos, index_seq(legal.len()));
        match c {
            Some(i) => if i < legal.len() {
                random_plies::<G, R>(
                    rules,
                    seed,
                    next_pos,
                    rules.spec_next(state, legal[i as int])->0,
                    actions.push(legal[i as int]),
                    (left - 1) as nat,
                    max_plies,
                )
            } else {
                (state, actions)
            },
            None => (state, actions),
        }
    }
}

/// The strategies' play from `state` after `actions`: at each turn the strategy of the first seat
/// held by the player to move picks, until the game ends or reaches the cap. `fuel` bounds the
/// plies considered.
pub open spec fn strategies_play<G: GameDomain, R: GameRules<G>, B: Strategy<G>>(
    rules: &R,
    seats: Seq<G::Player>,
    strategies: Seq<B>,
    state: G::State,
    actions: Seq<G::Action>,
    max_plies: Option<usize>,
    fuel: nat,
) -> PlayEnd<G::Action, G::Outcome>
    decreases fuel,
{
    let legal = rules.spec_legal_actions(state);
    if legal.len() == 0 {
        PlayEnd::Done { actions, outcome: rules.spec_outcome(state) }
    } else if cap_reached(max_plies, actions.len() as int) || fuel == 0 {
        PlayEnd::Done { actions, outcome: None }
    } else {
        let mover = rules.spec_player_to_move(state);
        let p = seat_of(seats, mover, 0);
        if p >= seats.len() {
            PlayEnd::Stranded { label: G::spec_player_label(mover) }
        } else {
            match strategies[p].spec_choice(state) {
                Err(e) => PlayEnd::Failed { error: e },
                Ok(a) => if !legal.contains(a) {
                    PlayEnd::Illegal { action: a }
                } else {
                    strategies_play::<G, R, B>(
                        rules,
                        seats,
                        strategies.update(p, strategies[p].spec_after(state)),
                        rules.spec_next(state, a)->0,
                        actions.push(a),
                        max_plies,
                        (fuel - 1) as nat,
                    )
                },
            }
        }
    }
}

/// The strategies of a game: the one of each entry of `players`, created with the entry's
/// per-player seed.
pub open spec fn created_strategies<G: GameDomain, S: StrategyProvider<G>>(
    players: Seq<(G::Player, &S)>,
    game_seed: u64,
) -> Seq<S::Built> {
    Seq::new(players.len(), |s: int| players[s].1.spec_create(spec_player_seed(game_seed, s as u64)))
}

/// How the game of `players` seeded with `game_seed` ends, from an opening of the forced
/// actions `fixed` (refused, or capped) and `random` random plies drawn from
/// `opening_seed(game_seed)`, then the strategies created with their per-player seeds.
pub open spec fn game_end<G: GameDomain, R: GameRules<G>, S: StrategyProvider<G>>(
    rules: &R,
    players: Seq<(G::Player, &S)>,
    game_seed: u64,
    max_plies: Option<usize>,
    fixed: Seq<G::Action>,
    random: nat,
) -> PlayEnd<G::Action, G::Outcome> {
    let k = opening_prefix_len(fixed.len(), max_plies);
    match state_after::<G, R>(rules, fixed, k) {
        None => PlayEnd::Refused,
        Some(s0) => {
            let (s1, a1) = random_plies::<G, R>(
                rules,
                spec_splitmix64(game_seed ^ OPENING_SEED_SALT),
                0,
                s0,
                fixed.take(k),
                random,
                max_plies,
            );
            strategies_play::<G, R, S::Built>(
                rules,
                seats_of::<G, S>(players),
                created_strategies::<G, S>(players, game_seed),
                s1,
                a1,
                max_plies,
                rules.spec_plies_left(s1) + 1,
            )
        },
    }
}

/// `r` is what a game that ends as `e` returns: its record for a game played out, else the error.
pub open spec fn ends_as<A, O>(r: Result<MatchRecord<A, O>, MatchError>, e: PlayEnd<A, O>) -> bool {
    match e {
        PlayEnd::Done { actions, outcome } => r matches Ok(rec) && rec.actions@ == actions && rec.outcome == outcome,
        PlayEnd::Stranded { label } => r matches Err(MatchError::MissingProvider(m)) && m@ == label,
        PlayEnd::Failed { error } => r matches Err(MatchError::Strategy(x)) && x == error,
        PlayEnd::Illegal { .. } => r matches Err(MatchError::Strategy(StrategyError::Other(_))),
        PlayEnd::Refused => r matches Err(MatchError::Rules(_)),
    }
}

/// The first seat held by `p` is the first position past seats that are not `p`'s.
proof fn lemma_seat_of<P>(seats: Seq<P>, p: P, k: int)
    requires
        0 <= k <= seats.len(),
        forall|q: int| 0 <= q < k ==> seats[q] != p,
        k < seats.len() ==> seats[k] == p,
    ensures
        seat_of(seats, p, 0) == k,
{
    lemma_seat_of_from(seats, p, 0, k);
}

proof fn lemma_seat_of_from<P>(seats: Seq<P>, p: P, i: int, k: int)
    requires
        0 <= i <= k <= seats.len(),
        forall|q: int| 0 <= q < k ==> seats[q] != p,
        k < seats.len() ==> seats[k] == p,
    ensures
        seat_of(seats, p, i) == k,
    decreases k - i,
{
    if i < k {
        lemma_seat_of_from(seats, p, i + 1, k);
    }
}

/// Plays one game to completion (or to `max_plies`) from a forced `opening`, and returns its
/// record.
///
/// One strategy is created per entry of `players`, seeded with `player_seed(game_seed, slot)`,
/// before any ply is played. `opening.actions` are applied verbatim from the initial state, then
/// `opening.random_plies` uniformly random legal plies drawn from a generator seeded with
/// `opening_seed(game_seed)`, then the strategies play: at each turn the first entry of `players`
/// for the player to move chooses. An illegal or post-terminal opening action is a rules error;
/// a player to move with no entry, a strategy failure and an illegal choice are errors too.
/// How the game ends, and so the record or the error, is exactly `game_end`: the strategies'
/// picks as their specifications give them, and the random plies as `chacha_choose` names them.
pub fn play_game_with_opening<G: GameDomain, R: GameRules<G>, S: StrategyProvider<G>>(
    rules: &R,
    players: &[(G::Player, &S)],
    game_index: usize,
    game_seed: u64,
    max_plies: Option<usize>,
    opening: &Opening<G::Action>,
) -> (r: Result<MatchRecord<G::Action, G::Outcome>, MatchError>)
    requires
        players@.len() < u64::MAX,
    ensures
        (r matches Err(MatchError::Rules(_))) <==> state_after::<G, R>(
            rules,
            opening.actions@,
            opening_prefix_len(opening.actions@.len(), max_plies),
        ) is None,
        r matches Err(MatchError::Rules(e)) ==> exists|j: int|
            0 <= j < opening_prefix_len(opening.actions@.len(), max_plies) && #[trigger] refused_at::<G, R>(
                rules,
                opening.actions@,
                j,
                e,
            ),
        r matches Ok(record) ==> is_played::<G, R>(rules, record, game_index, game_seed, max_plies, opening.actions@),
        opening_settles::<G, R>(rules, opening.actions@, max_plies) ==> (r matches Ok(record) && record.actions@
            == opening.actions@.take(opening_prefix_len(opening.actions@.len(), max_plies))),
        r matches Err(MatchError::MissingProvider(m)) ==> strands::<G, R>(rules, seats_of::<G, S>(players@), opening.actions@, max_plies, m@),
        all_seated::<G, R>(rules, seats_of::<G, S>(players@)) ==> !(r is Err && r->Err_0 is MissingProvider),
        opening.random_plies == 0 && opening_strands::<G, R>(rules, seats_of::<G, S>(players@), opening.actions@, max_plies)
            ==> (r matches Err(MatchError::MissingProvider(m)) && m@ == opening_mover_label::<G, R>(
            rules,
            opening.actions@,
            max_plies,
        )),
        ends_as(r, game_end::<G, R, S>(rules, players@, game_seed, max_plies, opening.actions@, opening.random_plies as nat)),
{
    let ghost end = game_end::<G, R, S>(rules, players@, game_seed, max_plies, opening.actions@, opening.random_plies as nat);
    let ghost seats = seats_of::<G, S>(players@);
    let ghost settles = opening_settles::<G, R>(rules, opening.actions@, max_plies);
    let ghost stuck = opening.random_plies == 0 && opening_strands::<G, R>(
        rules,
        seats_of::<G, S>(players@),
        opening.actions@,
        max_plies,
    );
    let mut strategies: Vec<S::Built> = Vec::new();
    let mut slot: usize = 0;
    while slot < players.len()
        invariant
            slot <= players@.len(),
            players@.len() < u64::MAX,
            strategies@.len() == slot,
            strategies@ == created_strategies::<G, S>(players@, game_seed).take(slot as int),
        decreases players@.len() - slot,
    {
        let seed = player_seed(game_seed, slot);
        strategies.push(players[slot].1.create(seed));
        slot = slot + 1;
        proof {
            assert(strategies@ =~= created_strategies::<G, S>(players@, game_seed).take(slot as int));
        }
    }
    proof {
        assert(strategies@ =~= created_strategies::<G, S>(players@, game_seed));
    }

    let ghost k = opening_prefix_len(opening.actions@.len(), max_plies);
    let mut state = rules.initial_state();
    let mut actions: Vec<G::Action> = Vec::new();
    let mut j: usize = 0;
    while j < opening.actions.len() && !at_cap(max_plies, actions.len())
        invariant
            k == opening_prefix_len(opening.actions@.len(), max_plies),
            j <= opening.actions@.len(),
            actions@ == opening.actions@.take(j as int),
            !cap_reached(max_plies, j as int - 1) || j == 0,
            state_after::<G, R>(rules, opening.actions@, j as int) == Some(state),
            state_after::<G, R>(rules, actions@, j as int) == Some(state),
        decreases opening.actions@.len() - j,
    {
        let action = opening.actions[j];
        match rules.apply(&state, &action) {
            Ok(next) => {
                proof {
                    lemma_state_after_push::<G, R>(rules, actions@, action);
                    assert(opening.actions@.take(j + 1) =~= actions@.push(action));
                    crate::io::replay::lemma_state_after_agree::<G, R>(
                        rules,
                        opening.actions@,
                        opening.actions@.take(j + 1),
                        j + 1,
                    );
                }
                state = next;
                actions.push(action);
            },
            Err(e) => {
                proof {
                    assert(refused_at::<G, R>(rules, opening.actions@, j as int, e));
                    assert(state_after::<G, R>(rules, opening.actions@, j + 1) is None);
                    lemma_refusal_persists::<G, R>(rules, opening.actions@, j + 1);
                    assert(j < k);
                }
                return Err(MatchError::Rules(e));
            },
        }
        j = j + 1;
    }
    proof {
        assert(j == k);
        assert(actions@.take(k) =~= opening.actions@.take(k));
        assert(actions@ =~= opening.actions@.take(k));
    }

    let ghost s0 = state;
    let ghost oseed = spec_splitmix64(game_seed ^ OPENING_SEED_SALT);
    let ghost pre = random_plies::<G, R>(rules, oseed, 0, s0, actions@, opening.random_plies as nat, max_plies);
    proof {
        assert(state_after::<G, R>(rules, opening.actions@, k) == Some(s0));
    }
    if opening.random_plies > 0 {
        let seed = opening_seed(game_seed);
        let mut word_pos: u128 = 0;
        let mut drawn: u32 = 0;
        while drawn < opening.random_plies
            invariant
                seed == oseed,
                drawn <= opening.random_plies,
                random_plies::<G, R>(
                    rules,
                    oseed,
                    word_pos,
                    state,
                    actions@,
                    (opening.random_plies - drawn) as nat,
                    max_plies,
                ) == pre,
                strategies@ == created_strategies::<G, S>(players@, game_seed),
                k == opening_prefix_len(opening.actions@.len(), max_plies),
                state_after::<G, R>(rules, opening.actions@, k) is Some,
                k <= actions@.len(),
                actions@.take(k) == opening.actions@.take(k),
                state_after::<G, R>(rules, actions@, actions@.len() as int) == Some(state),
                max_plies matches Some(m) ==> actions@.len() <= m,
                settles == opening_settles::<G, R>(rules, opening.actions@, max_plies),
                settles ==> actions@ == opening.actions@.take(k),
            ensures
                pre == (state, actions@),
            decreases opening.random_plies - drawn,
        {
            proof {
                rules.lemma_legal_actions(state);
            }
            let legal = rules.legal_actions(&state);
            if legal.len() == 0 || at_cap(max_plies, actions.len()) {
                break;
            }
            proof {
                if settles {
                    lemma_settled::<G, R>(rules, opening.actions@, max_plies, actions@, state);
                }
            }
            let indices = index_list(legal.len());
            let (choice, next_pos) = draw(seed, word_pos, indices.as_slice());
            let c = match choice {
                Some(c) => c,
                None => {
                    break;
                },
            };
            proof {
                let x = choose|x: int| 0 <= x < indices@.len() && indices@[x] == c;
                assert(indices@[x] == x);
            }
            let action = legal[c];
            word_pos = next_pos;
            let ghost before = actions@;
            proof {
                rules.lemma_legal_actions(state);
                let i = choose|i: int| 0 <= i < legal@.len() && legal@[i] == action;
                assert(rules.spec_next(state, rules.spec_legal_actions(state)[i]) is Some);
                lemma_state_after_push::<G, R>(rules, before, action);
            }
            state = match rules.apply(&state, &action) {
                Ok(next) => next,
                Err(e) => {
                    return Err(MatchError::Rules(e));
                },
            };
            actions.push(action);
            proof {
                assert(actions@.take(k) =~= before.take(k));
            }
            drawn = drawn + 1;
        }
    }
    proof {
        if opening.random_plies == 0 {
            assert(pre == (state, actions@));
        }
        assert(end == strategies_play::<G, R, S::Built>(
            rules,
            seats,
            strategies@,
            state,
            actions@,
            max_plies,
            rules.spec_plies_left(state) + 1,
        ));
    }
    let ghost mut fuel: nat = rules.spec_plies_left(state) + 1;

    let mut outcome: Option<G::Outcome> = None;
    let mut done: bool = false;
    while !done
        invariant
            k == opening_prefix_len(opening.actions@.len(), max_plies),
            state_after::<G, R>(rules, opening.actions@, k) is Some,
            k <= actions@.len(),
            actions@.take(k) == opening.actions@.take(k),
            state_after::<G, R>(rules, actions@, actions@.len() as int) == Some(state),
            max_plies matches Some(m) ==> actions@.len() <= m,
            strategies@.len() == players@.len(),
            end == game_end::<G, R, S>(rules, players@, game_seed, max_plies, opening.actions@, opening.random_plies as nat),
            seats == seats_of::<G, S>(players@),
            fuel >= rules.spec_plies_left(state) + 1,
            !done ==> strategies_play::<G, R, S::Built>(rules, seats, strategies@, state, actions@, max_plies, fuel) == end,
            done ==> end == (PlayEnd::Done { actions: actions@, outcome }),
            settles == opening_settles::<G, R>(rules, opening.actions@, max_plies),
            settles ==> actions@ == opening.actions@.take(k),
            stuck == (opening.random_plies == 0 && opening_strands::<G, R>(
                rules,
                seats_of::<G, S>(players@),
                opening.actions@,
                max_plies,
            )),
            stuck ==> !done && actions@ == opening.actions@.take(k),
            done ==> match outcome {
                Some(o) => rules.spec_outcome(state) == Some(o),
                None => cap_reached(max_plies, actions@.len() as int) && rules.spec_outcome(state) is None,
            },
        decreases (if done {
            0
        } else {
            rules.spec_plies_left(state) + 1
        }),
    {
        proof {
            rules.lemma_legal_actions(state);
            if stuck {
                assert(actions@.len() == k);
                crate::io::replay::lemma_state_after_agree::<G, R>(rules, opening.actions@, actions@, k);
                assert(state_after::<G, R>(rules, opening.actions@, k) == Some(state));
            }
        }
        let legal = rules.legal_actions(&state);
        if legal.len() == 0 {
            outcome = rules.outcome(&state);
            done = true;
        } else if at_cap(max_plies, actions.len()) {
            outcome = None;
            done = true;
        } else {
            proof {
                if settles {
                    lemma_settled::<G, R>(rules, opening.actions@, max_plies, actions@, state);
                }
            }
            let to_move = rules.player_to_move(&state);
            let mut p: usize = 0;
            while p < players.len() && !G::same_player(&players[p].0, &to_move)
                invariant
                    p <= players@.len(),
                    forall|q: int| 0 <= q < p ==> players@[q].0 != to_move,
                decreases players@.len() - p,
            {
                p = p + 1;
            }
            proof {
                if stuck {
                    if p < players.len() {
                        assert(seats_of::<G, S>(players@)[p as int] == to_move);
                    }
                }
            }
            proof {
                lemma_seat_of(seats, to_move, p as int);
            }
            if p == players.len() {
                let label = G::player_label(&to_move);
                proof {
                    let seats = seats_of::<G, S>(players@);
                    assert forall|q: int| 0 <= q < seats.len() implies seats[q] != to_move by {
                        assert(seats[q] == players@[q].0);
                    }
                    assert(!seats.contains(to_move));
                    assert(stranded::<G, R>(rules, seats, opening.actions@, max_plies, actions@, label@));
                    assert(strands::<G, R>(rules, seats, opening.actions@, max_plies, label@));
                    assert(end == PlayEnd::<G::Action, G::Outcome>::Stranded { label: label@ });
                    assert(ends_as(Err::<MatchRecord<G::Action, G::Outcome>, MatchError>(MatchError::MissingProvider(label)), end));
                }
                return Err(MatchError::MissingProvider(label));
            }
            let ghost old_strategies = strategies@;
            let mut strategy = strategies.remove(p);
            let choice = strategy.pick(&state, legal.as_slice());
            strategies.insert(p, strategy);
            proof {
                assert(strategies@ =~= old_strategies.update(p as int, old_strategies[p as int].spec_after(state)));
            }
            let action = match choice {
                Ok(a) => a,
                Err(e) => {
                    proof {
                        assert(old_strategies[p as int].spec_choice(state) == choice);
                        assert(end == PlayEnd::<G::Action, G::Outcome>::Failed { error: e });
                    }
                    return Err(MatchError::Strategy(e));
                },
            };
            if !holds_action::<G>(legal.as_slice(), &action) {
                let mut m = String::from_str("strategy `");
                m.append(players[p].1.kind());
                m.append("` returned illegal action ");
                let shown = debug_text(&action);
                m.append(shown.as_str());
                proof {
                    assert(end == PlayEnd::<G::Action, G::Outcome>::Illegal { action });
                }
                return Err(MatchError::Strategy(StrategyError::Other(m)));
            }
            let ghost before = actions@;
            let ghost prior = state;
            proof {
                let i = choose|i: int| 0 <= i < legal@.len() && legal@[i] == action;
                assert(rules.spec_next(state, rules.spec_legal_actions(state)[i]) is Some);
                lemma_state_after_push::<G, R>(rules, before, action);
            }
            state = match rules.apply(&state, &action) {
                Ok(next) => next,
                Err(e) => {
                    return Err(MatchError::Rules(e));
                },
            };
            actions.push(action);
            proof {
                fuel = (fuel - 1) as nat;
                assert(actions@.take(k) =~= before.take(k));
                let i = choose|i: int| 0 <= i < legal@.len() && legal@[i] == action;
                assert(rules.spec_plies_left(state) < rules.spec_plies_left(prior));
            }
        }
    }
    Ok(MatchRecord { game_index, seed: game_seed, actions, outcome })
}

/// Plays one game to completion (or to `max_plies`) with no forced opening.
pub fn play_game<G: GameDomain, R: GameRules<G>, S: StrategyProvider<G>>(
    rules: &R,
    players: &[(G::Player, &S)],
    game_index: usize,
    game_seed: u64,
    max_plies: Option<usize>,
) -> (r: Result<MatchRecord<G::Action, G::Outcome>, MatchError>)
    requires
        players@.len() < u64::MAX,
    ensures
        !(r matches Err(MatchError::Rules(_))),
        r matches Ok(record) ==> is_played::<G, R>(
            rules,
            record,
            game_index,
            game_seed,
            max_plies,
            Seq::empty(),
        ),
        opening_settles::<G, R>(rules, Seq::empty(), max_plies) ==> (r matches Ok(record) && record.actions@.len()
            == 0),
        r matches Err(MatchError::MissingProvider(m)) ==> strands::<G, R>(rules, seats_of::<G, S>(players@), Seq::empty(), max_plies, m@),
        all_seated::<G, R>(rules, seats_of::<G, S>(players@)) ==> !(r is Err && r->Err_0 is MissingProvider),
        opening_strands::<G, R>(rules, seats_of::<G, S>(players@), Seq::empty(), max_plies) ==> (r matches Err(
            MatchError::MissingProvider(m),
        ) && m@ == opening_mover_label::<G, R>(rules, Seq::empty(), max_plies)),
        ends_as(r, game_end::<G, R, S>(rules, players@, game_seed, max_plies, Seq::empty(), 0)),
{
    let opening: Opening<G::Action> = Opening::default();
    let r = play_game_with_opening(rules, players, game_index, game_seed, max_plies, &opening);
    proof {
        assert(opening.actions@ =~= Seq::<G::Action>::empty());
    }
    r
}

/// How game `g` of a batch ends: played with the batch's players from the opening `fixed` and
/// `random`, seeded with `game_seed(config.seed, g)`.
pub open spec fn batch_end<G: GameDomain, R: GameRules<G>, S: StrategyProvider<G>>(
    rules: &R,
    players: Seq<(G::Player, &S)>,
    config: MatchConfig,
    fixed: Seq<G::Action>,
    random: nat,
    g: int,
) -> PlayEnd<G::Action, G::Outcome> {
    game_end::<G, R, S>(rules, players, spec_game_seed(config.seed, g as u64), config.max_plies, fixed, random)
}

/// Game `g` is the first of the batch that does not play out, and `r` is what it returns.
pub open spec fn batch_stops_at<G: GameDomain, R: GameRules<G>, S: StrategyProvider<G>, T>(
    rules: &R,
    players: Seq<(G::Player, &S)>,
    config: MatchConfig,
    fixed: Seq<G::Action>,
    random: nat,
    g: int,
    r: Result<T, MatchError>,
) -> bool {
    &&& 0 <= g < config.games
    &&& forall|h: int| 0 <= h < g ==> #[trigger] batch_end::<G, R, S>(rules, players, config, fixed, random, h) is Done
    &&& r matches Err(e) && ends_as(
        Err::<MatchRecord<G::Action, G::Outcome>, MatchError>(e),
        batch_end::<G, R, S>(rules, players, config, fixed, random, g),
    )
}

/// Some game of the batch is the first that does not play out, and `r` is what it returns.
pub open spec fn batch_stops<G: GameDomain, R: GameRules<G>, S: StrategyProvider<G>, T>(
    rules: &R,
    players: Seq<(G::Player, &S)>,
    config: MatchConfig,
    fixed: Seq<G::Action>,
    random: nat,
    r: Result<T, MatchError>,
) -> bool {
    exists|g: int| #[trigger] batch_stops_at::<G, R, S, T>(rules, players, config, fixed, random, g, r)
}

/// A batch of games: how many, the master seed their seeds derive from, and a ply cap.
#[derive(Clone, Copy, Debug, PartialEq, Eq)]
pub struct MatchConfig {
    /// Number of games to play.
    pub games: usize,
    /// Master seed of the batch.
    pub seed: u64,
    /// Cap on plies per game.
    pub max_plies: Option<usize>,
}

/// Plays `config.games` games in order, game `i` seeded with `game_seed(config.seed, i)` and
/// played from `opening`; the first error stops the batch.
pub fn play_games<G: GameDomain, R: GameRules<G>, S: StrategyProvider<G>>(
    rules: &R,
    config: &MatchConfig,
    players: &[(G::Player, &S)],
    opening: &Opening<G::Action>,
) -> (r: Result<Vec<MatchRecord<G::Action, G::Outcome>>, MatchError>)
    requires
        players@.len() < u64::MAX,
    ensures
        (r matches Err(MatchError::Rules(_))) <==> config.games > 0 && state_after::<G, R>(
            rules,
            opening.actions@,
            opening_prefix_len(opening.actions@.len(), config.max_plies),
        ) is None,
        r matches Ok(records) ==> records@.len() == config.games && forall|i: int|
            0 <= i < records@.len() ==> is_played::<G, R>(
                rules,
                #[trigger] records@[i],
                i as usize,
                spec_game_seed(config.seed, i as u64),
                config.max_plies,
                opening.actions@,
            ),
        config.games == 0 || opening_settles::<G, R>(rules, opening.actions@, config.max_plies) ==> r is Ok,
        opening_settles::<G, R>(rules, opening.actions@, config.max_plies) ==> (r matches Ok(records) ==> forall|i: int|
            0 <= i < records@.len() ==> (#[trigger] records@[i]).actions@ == opening.actions@.take(
                opening_prefix_len(opening.actions@.len(), config.max_plies),
            )),
        r matches Err(MatchError::MissingProvider(m)) ==> strands::<G, R>(rules, seats_of::<G, S>(players@),
            opening.actions@,
            config.max_plies,
            m@,
        ),
        all_seated::<G, R>(rules, seats_of::<G, S>(players@)) ==> !(r is Err && r->Err_0 is MissingProvider),
        config.games > 0 && opening.random_plies == 0 && opening_strands::<G, R>(
            rules,
            seats_of::<G, S>(players@),
            opening.actions@,
            config.max_plies,
        ) ==> (r matches Err(MatchError::MissingProvider(m)) && m@ == opening_mover_label::<G, R>(
            rules,
            opening.actions@,
            config.max_plies,
        )),
        r matches Ok(records) ==> forall|i: int|
            0 <= i < records@.len() ==> #[trigger] batch_end::<G, R, S>(
                rules,
                players@,
                *config,
                opening.actions@,
                opening.random_plies as nat,
                i,
            ) == (PlayEnd::Done { actions: records@[i].actions@, outcome: records@[i].outcome }),
        r is Err ==> batch_stops::<G, R, S, Vec<MatchRecord<G::Action, G::Outcome>>>(
            rules,
            players@,
            *config,
            opening.actions@,
            opening.random_plies as nat,
            r,
        ),
{
    let ghost stuck = opening.random_plies == 0 && opening_strands::<G, R>(
        rules,
        seats_of::<G, S>(players@),
        opening.actions@,
        config.max_plies,
    );
    let mut records: Vec<MatchRecord<G::Action, G::Outcome>> = Vec::new();
    let mut i: usize = 0;
    while i < config.games
        invariant
            players@.len() < u64::MAX,
            i <= config.games,
            records@.len() == i,
            i > 0 ==> state_after::<G, R>(
                rules,
                opening.actions@,
                opening_prefix_len(opening.actions@.len(), config.max_plies),
            ) is Some,
            forall|g: int|
                0 <= g < i ==> is_played::<G, R>(
                    rules,
                    #[trigger] records@[g],
                    g as usize,
                    spec_game_seed(config.seed, g as u64),
                    config.max_plies,
                    opening.actions@,
                ),
            opening_settles::<G, R>(rules, opening.actions@, config.max_plies) ==> forall|g: int|
                0 <= g < i ==> (#[trigger] records@[g]).actions@ == opening.actions@.take(
                    opening_prefix_len(opening.actions@.len(), config.max_plies),
                ),
            stuck == (opening.random_plies == 0 && opening_strands::<G, R>(
                rules,
                seats_of::<G, S>(players@),
                opening.actions@,
                config.max_plies,
            )),
            stuck ==> i == 0,
            forall|g: int|
                0 <= g < i ==> #[trigger] batch_end::<G, R, S>(
                    rules,
                    players@,
                    *config,
                    opening.actions@,
                    opening.random_plies as nat,
                    g,
                ) == (PlayEnd::Done { actions: records@[g].actions@, outcome: records@[g].outcome }),
        decreases config.games - i,
    {
        let seed = game_seed(config.seed, i);
        let ghost before = records@;
        let record = match play_game_with_opening(rules, players, i, seed, config.max_plies, opening) {
            Ok(record) => record,
            Err(e) => {
                proof {
                    let r = Err::<Vec<MatchRecord<G::Action, G::Outcome>>, MatchError>(e);
                    assert forall|h: int| 0 <= h < i implies #[trigger] batch_end::<G, R, S>(
                        rules,
                        players@,
                        *config,
                        opening.actions@,
                        opening.random_plies as nat,
                        h,
                    ) is Done by {}
                    assert(batch_stops_at::<G, R, S, Vec<MatchRecord<G::Action, G::Outcome>>>(
                        rules,
                        players@,
                        *config,
                        opening.actions@,
                        opening.random_plies as nat,
                        i as int,
                        r,
                    ));
                }
                return Err(e);
            },
        };
        records.push(record);
        proof {
            assert forall|g: int| 0 <= g < i + 1 implies #[trigger] batch_end::<G, R, S>(
                rules,
                players@,
                *config,
                opening.actions@,
                opening.random_plies as nat,
                g,
            ) == (PlayEnd::Done { actions: records@[g].actions@, outcome: records@[g].outcome }) by {
                if g < i {
                    assert(records@[g] == before[g]);
                }
            }
        }
        i = i + 1;
    }
    Ok(records)
}

} // verus!
