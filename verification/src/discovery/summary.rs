//! Corpus summaries and consistency: the outcome tallies and distinct-value counts of a corpus,
//! and the check that every game's persisted positions are exactly what replaying its action
//! list through the rules gives.

use vstd::prelude::*;
use vstd::string::*;
use std::collections::HashSet;
use crate::discovery::annotate::bundle_canonical;
use crate::discovery::bundle::GameBundle;
use crate::discovery::config::CorpusError;
use crate::framework::text::{decimal, decimal_string, join_with, joined, text_eq};
use crate::discovery::config::texts;
use crate::framework::traits::{Canonicalize, GameDomain, GamePrimitives, GameRules};
use crate::io::replay::{final_state, replay, replay_refusal, state_after};
use crate::io::schema::{GameRecord, IoError, PositionRecord};

verus! {

/// The images of the permutation carrying `s` onto its representative by the bundle's
/// canonicalizer, or none without one.
pub open spec fn bundle_transform<G: GameDomain, R: GameRules<G>, C: Canonicalize<G>, P>(
    bundle: &GameBundle<G, R, C, P>,
    s: G::State,
) -> Seq<usize> {
    match bundle.canonicalizer {
        Some(c) => c.spec_transform(s),
        None => seq![],
    }
}

/// The positions among the first `n` whose `game_id` is `id`, in file order.
pub open spec fn positions_of<S, A, Q, O>(
    positions: Seq<PositionRecord<S, A, Q, O>>,
    id: Seq<char>,
    n: int,
) -> Seq<PositionRecord<S, A, Q, O>>
    decreases n,
{
    if n <= 0 {
        seq![]
    } else {
        let prev = positions_of(positions, id, n - 1);
        if positions[n - 1].game_id@ == id {
            prev.push(positions[n - 1])
        } else {
            prev
        }
    }
}

/// The first check that position `pos`, found at ply `i` of `game`, fails, in the order: ply,
/// state, chosen action, side to move, legal actions, canonical state and transform, game
/// length, outcome.
pub open spec fn ply_check<G: GameDomain, R: GameRules<G>, C: Canonicalize<G>, P, K>(
    bundle: &GameBundle<G, R, C, P>,
    game: GameRecord<G::State, G::Action, G::Player, G::Outcome, K>,
    pos: PositionRecord<G::State, G::Action, G::Player, G::Outcome>,
    i: int,
) -> Option<Seq<char>> {
    let s = state_after::<G, R>(&bundle.rules, game.actions@, i)->0;
    if pos.ply != i {
        Some("ply"@)
    } else if pos.state != s {
        Some("state"@)
    } else if pos.chosen_action != game.actions@[i] {
        Some("chosen_action"@)
    } else if pos.side_to_move != bundle.rules.spec_player_to_move(s) {
        Some("side_to_move"@)
    } else if pos.legal_actions@ != bundle.rules.spec_legal_actions(s) {
        Some("legal_actions"@)
    } else if pos.canonical_state != bundle_canonical(bundle, s) || pos.canonical_transform@
        != bundle_transform(bundle, s) {
        Some("canonical_state"@)
    } else if pos.game_length != game.actions@.len() {
        Some("game_length"@)
    } else if pos.outcome != game.outcome {
        Some("outcome"@)
    } else {
        None
    }
}

/// The first ply from `i` on whose position fails a check, with the check's name.
pub open spec fn ply_failure_from<G: GameDomain, R: GameRules<G>, C: Canonicalize<G>, P, K>(
    bundle: &GameBundle<G, R, C, P>,
    game: GameRecord<G::State, G::Action, G::Player, G::Outcome, K>,
    group: Seq<PositionRecord<G::State, G::Action, G::Player, G::Outcome>>,
    i: int,
) -> Option<(Seq<char>, int)>
    decreases group.len() - i,
{
    if i < 0 || i >= group.len() {
        None
    } else {
        match ply_check(bundle, game, group[i], i) {
            Some(what) => Some((what, i)),
            None => ply_failure_from(bundle, game, group, i + 1),
        }
    }
}

/// `game {id}: {what} mismatch`.
pub open spec fn game_mismatch_message(id: Seq<char>, what: Seq<char>) -> Seq<char> {
    "game "@ + id + ": "@ + what + " mismatch"@
}

/// `game {id}: {what} mismatch at ply {ply}`.
pub open spec fn ply_mismatch_message(id: Seq<char>, what: Seq<char>, ply: nat) -> Seq<char> {
    game_mismatch_message(id, what) + " at ply "@ + decimal(ply)
}

/// The verdict on one game: `None` when its positions are exactly what replaying its actions
/// gives; `Some(None)` when the rules refuse its actions; otherwise the message naming the first
/// mismatch: no positions, a position count other than the game length, the first failing
/// ply, the final state, the final canonical state, the length.
pub open spec fn game_verdict<G: GameDomain, R: GameRules<G>, C: Canonicalize<G>, P, K>(
    bundle: &GameBundle<G, R, C, P>,
    game: GameRecord<G::State, G::Action, G::Player, G::Outcome, K>,
    positions: Seq<PositionRecord<G::State, G::Action, G::Player, G::Outcome>>,
) -> Option<Option<Seq<char>>> {
    let id = game.game_id@;
    let group = positions_of(positions, id, positions.len() as int);
    let n = game.actions@.len() as int;
    if group.len() == 0 {
        Some(Some(game_mismatch_message(id, "missing positions"@)))
    } else if group.len() != n {
        Some(Some(game_mismatch_message(id, "position count"@)))
    } else if state_after::<G, R>(&bundle.rules, game.actions@, n) is None {
        Some(None)
    } else {
        match ply_failure_from(bundle, game, group, 0) {
            Some((what, i)) => Some(Some(ply_mismatch_message(id, what, i as nat))),
            None => if game.final_state != state_after::<G, R>(&bundle.rules, game.actions@, n)->0 {
                Some(Some(game_mismatch_message(id, "final_state"@)))
            } else if game.final_canonical_state != bundle_canonical(bundle, game.final_state) {
                Some(Some(game_mismatch_message(id, "final_canonical_state"@)))
            } else if game.length != n {
                Some(Some(game_mismatch_message(id, "length"@)))
            } else {
                None
            },
        }
    }
}

/// `e` is the error reported for `game`: the message of its mismatch, or the rules' refusal of
/// its first refused action.
pub open spec fn reports<G: GameDomain, R: GameRules<G>, C: Canonicalize<G>, P, K>(
    e: CorpusError,
    bundle: &GameBundle<G, R, C, P>,
    game: GameRecord<G::State, G::Action, G::Player, G::Outcome, K>,
    positions: Seq<PositionRecord<G::State, G::Action, G::Player, G::Outcome>>,
) -> bool {
    match game_verdict(bundle, game, positions) {
        Some(Some(message)) => e matches CorpusError::Io(IoError::Invalid(m)) && m@ == message,
        Some(None) => e matches CorpusError::Rules(re) && replay_refusal::<G, R>(
            &bundle.rules,
            game.actions@,
            game.actions@.len() as int,
        ) == Some(re.detail()),
        None => false,
    }
}

proof fn lemma_ply_failure_skip<G: GameDomain, R: GameRules<G>, C: Canonicalize<G>, P, K>(
    bundle: &GameBundle<G, R, C, P>,
    game: GameRecord<G::State, G::Action, G::Player, G::Outcome, K>,
    group: Seq<PositionRecord<G::State, G::Action, G::Player, G::Outcome>>,
    k: int,
    i: int,
)
    requires
        0 <= k <= i <= group.len(),
        forall|j: int| k <= j < i ==> (#[trigger] ply_check(bundle, game, group[j], j)) is None,
    ensures
        ply_failure_from(bundle, game, group, k) == ply_failure_from(bundle, game, group, i),
    decreases i - k,
{
    if k < i {
        assert(ply_check(bundle, game, group[k], k) is None);
        lemma_ply_failure_skip(bundle, game, group, k + 1, i);
    }
}

/// The indices of the positions whose `game_id` is `id`, in file order.
fn positions_with_id<S, A, Q, O>(positions: &[PositionRecord<S, A, Q, O>], id: &str) -> (v: Vec<usize>)
    ensures
        v@.len() == positions_of(positions@, id@, positions@.len() as int).len(),
        forall|j: int|
            0 <= j < v@.len() ==> (#[trigger] v@[j]) < positions@.len() && positions@[v@[j] as int]
                == positions_of(positions@, id@, positions@.len() as int)[j],
{
    let mut v: Vec<usize> = Vec::new();
    let mut k: usize = 0;
    while k < positions.len()
        invariant
            k <= positions@.len(),
            v@.len() == positions_of(positions@, id@, k as int).len(),
            forall|j: int|
                0 <= j < v@.len() ==> (#[trigger] v@[j]) < k && positions@[v@[j] as int]
                    == positions_of(positions@, id@, k as int)[j],
        decreases positions@.len() - k,
    {
        if text_eq(positions[k].game_id.as_str(), id) {
            v.push(k);
        }
        k = k + 1;
    }
    v
}

/// Whether two action lists are the same.
fn same_actions<G: GameDomain>(a: &Vec<G::Action>, b: &Vec<G::Action>) -> (r: bool)
    ensures
        r == (a@ == b@),
{
    if a.len() != b.len() {
        return false;
    }
    let mut i: usize = 0;
    while i < a.len()
        invariant
            a@.len() == b@.len(),
            i <= a@.len(),
            forall|j: int| 0 <= j < i ==> a@[j] == b@[j],
        decreases a@.len() - i,
    {
        if !G::same_action(&a[i], &b[i]) {
            return false;
        }
        i = i + 1;
    }
    assert(a@ =~= b@);
    true
}

/// Whether two lists of positions are the same.
fn same_indices(a: &Vec<usize>, b: &Vec<usize>) -> (r: bool)
    ensures
        r == (a@ == b@),
{
    if a.len() != b.len() {
        return false;
    }
    let mut i: usize = 0;
    while i < a.len()
        invariant
            a@.len() == b@.len(),
            i <= a@.len(),
            forall|j: int| 0 <= j < i ==> a@[j] == b@[j],
        decreases a@.len() - i,
    {
        if a[i] != b[i] {
            return false;
        }
        i = i + 1;
    }
    assert(a@ =~= b@);
    true
}

/// Whether two optional outcomes are the same.
fn same_outcome_opt<G: GameDomain>(a: &Option<G::Outcome>, b: &Option<G::Outcome>) -> (r: bool)
    ensures
        r == (*a == *b),
{
    match (a, b) {
        (Some(x), Some(y)) => G::same_outcome(x, y),
        (None, None) => true,
        _ => false,
    }
}

/// The name of the first check that position `pos` at ply `i` fails, if any.
fn check_ply<G: GameDomain, R: GameRules<G>, C: Canonicalize<G>, P, K>(
    bundle: &GameBundle<G, R, C, P>,
    game: &GameRecord<G::State, G::Action, G::Player, G::Outcome, K>,
    pos: &PositionRecord<G::State, G::Action, G::Player, G::Outcome>,
    state_before: &G::State,
    action: &G::Action,
    i: usize,
) -> (r: Option<&'static str>)
    requires
        i < game.actions@.len(),
        *state_before == state_after::<G, R>(&bundle.rules, game.actions@, i as int)->0,
        *action == game.actions@[i as int],
    ensures
        match r {
            Some(what) => ply_check(bundle, *game, *pos, i as int) == Some(what@),
            None => ply_check(bundle, *game, *pos, i as int) is None,
        },
{
    proof {
        reveal_strlit("ply");
        reveal_strlit("state");
        reveal_strlit("chosen_action");
        reveal_strlit("side_to_move");
        reveal_strlit("legal_actions");
        reveal_strlit("canonical_state");
        reveal_strlit("game_length");
        reveal_strlit("outcome");
    }
    if pos.ply != i {
        return Some("ply");
    }
    if !G::same_state(&pos.state, state_before) {
        return Some("state");
    }
    if !G::same_action(&pos.chosen_action, action) {
        return Some("chosen_action");
    }
    let mover = bundle.rules.player_to_move(state_before);
    if !G::same_player(&pos.side_to_move, &mover) {
        return Some("side_to_move");
    }
    let legal = bundle.rules.legal_actions(state_before);
    if !same_actions::<G>(&pos.legal_actions, &legal) {
        return Some("legal_actions");
    }
    let (canonical_state, transform) = bundle.canonicalize(state_before);
    proof {
        if bundle.canonicalizer is None {
            assert(transform@ =~= bundle_transform(bundle, *state_before));
        }
    }
    if !G::same_state(&pos.canonical_state, &canonical_state) || !same_indices(
        &pos.canonical_transform,
        &transform,
    ) {
        return Some("canonical_state");
    }
    if pos.game_length != game.actions.len() {
        return Some("game_length");
    }
    if !same_outcome_opt::<G>(&pos.outcome, &game.outcome) {
        return Some("outcome");
    }
    None
}

/// `game {id}: {what} mismatch`.
fn game_mismatch(id: &str, what: &str) -> (e: CorpusError)
    ensures
        e matches CorpusError::Io(IoError::Invalid(m)) && m@ == game_mismatch_message(id@, what@),
{
    let mut m = String::from_str("game ");
    m.append(id);
    m.append(": ");
    m.append(what);
    m.append(" mismatch");
    proof {
        reveal_strlit("game ");
        reveal_strlit(": ");
        reveal_strlit(" mismatch");
    }
    CorpusError::Io(IoError::Invalid(m))
}

/// `game {id}: {what} mismatch at ply {ply}`.
fn ply_mismatch(id: &str, what: &str, ply: usize) -> (e: CorpusError)
    ensures
        e matches CorpusError::Io(IoError::Invalid(m)) && m@ == ply_mismatch_message(
            id@,
            what@,
            ply as nat,
        ),
{
    let mut m = String::from_str("game ");
    m.append(id);
    m.append(": ");
    m.append(what);
    m.append(" mismatch at ply ");
    let p = decimal_string(ply);
    m.append(p.as_str());
    proof {
        reveal_strlit("game ");
        reveal_strlit(": ");
        reveal_strlit(" mismatch at ply ");
        reveal_strlit(" mismatch");
        reveal_strlit(" at ply ");
        assert(" mismatch at ply "@ =~= " mismatch"@ + " at ply "@);
    }
    CorpusError::Io(IoError::Invalid(m))
}

/// Checks one game against the positions: `Ok` exactly when its verdict is consistent.
fn check_game<G: GameDomain, R: GameRules<G>, C: Canonicalize<G>, P, K>(
    bundle: &GameBundle<G, R, C, P>,
    game: &GameRecord<G::State, G::Action, G::Player, G::Outcome, K>,
    positions: &[PositionRecord<G::State, G::Action, G::Player, G::Outcome>],
) -> (r: Result<(), CorpusError>)
    ensures
        r is Ok <==> game_verdict(bundle, *game, positions@) is None,
        r matches Err(e) ==> reports(e, bundle, *game, positions@),
{
    proof {
        reveal_strlit("missing positions");
        reveal_strlit("position count");
        reveal_strlit("final_state");
        reveal_strlit("final_canonical_state");
        reveal_strlit("length");
    }
    let ghost id = game.game_id@;
    let ghost group = positions_of(positions@, id, positions@.len() as int);
    let indices = positions_with_id(positions, game.game_id.as_str());
    if indices.len() == 0 {
        return Err(game_mismatch(game.game_id.as_str(), "missing positions"));
    }
    if indices.len() != game.actions.len() {
        return Err(game_mismatch(game.game_id.as_str(), "position count"));
    }
    let pairs = match replay::<G, R>(&bundle.rules, game.actions.as_slice()) {
        Ok(pairs) => pairs,
        Err(e) => {
            return Err(CorpusError::Rules(e));
        },
    };
    let n = game.actions.len();
    let mut i: usize = 0;
    while i < n
        invariant
            n == game.actions@.len(),
            indices@.len() == n,
            group.len() == n,
            group == positions_of(positions@, id, positions@.len() as int),
            id == game.game_id@,
            forall|j: int|
                0 <= j < indices@.len() ==> (#[trigger] indices@[j]) < positions@.len()
                    && positions@[indices@[j] as int] == group[j],
            pairs@.len() == n,
            forall|j: int|
                0 <= j < pairs@.len() ==> (#[trigger] pairs@[j]).0 == state_after::<G, R>(
                    &bundle.rules,
                    game.actions@,
                    j,
                )->0 && pairs@[j].1 == game.actions@[j],
            state_after::<G, R>(&bundle.rules, game.actions@, n as int) is Some,
            i <= n,
            forall|j: int| 0 <= j < i ==> (#[trigger] ply_check(bundle, *game, group[j], j)) is None,
        decreases n - i,
    {
        let pos = &positions[indices[i]];
        let pair = &pairs[i];
        match check_ply(bundle, game, pos, &pair.0, &pair.1, i) {
            Some(what) => {
                proof {
                    lemma_ply_failure_skip(bundle, *game, group, 0, i as int);
                }
                return Err(ply_mismatch(game.game_id.as_str(), what, i));
            },
            None => {},
        }
        i = i + 1;
    }
    proof {
        lemma_ply_failure_skip(bundle, *game, group, 0, n as int);
    }
    let last = match final_state::<G, R>(&bundle.rules, game.actions.as_slice()) {
        Ok(s) => s,
        Err(e) => {
            return Err(CorpusError::Rules(e));
        },
    };
    if !G::same_state(&game.final_state, &last) {
        return Err(game_mismatch(game.game_id.as_str(), "final_state"));
    }
    let (final_canonical, _transform) = bundle.canonicalize(&game.final_state);
    if !G::same_state(&game.final_canonical_state, &final_canonical) {
        return Err(game_mismatch(game.game_id.as_str(), "final_canonical_state"));
    }
    if game.length != game.actions.len() {
        return Err(game_mismatch(game.game_id.as_str(), "length"));
    }
    Ok(())
}

/// Checks a corpus for internal consistency: every game's positions (those with its
/// `game_id`, in file order) replay to exactly the persisted states, actions, legal-action
/// lists, canonical forms and outcome, and its final state, final canonical state and length
/// agree with its actions. Returns the number of games verified, or the error of the first
/// game that fails.
pub fn verify_corpus<G: GameDomain, R: GameRules<G>, C: Canonicalize<G>, P, K>(
    bundle: &GameBundle<G, R, C, P>,
    games: &[GameRecord<G::State, G::Action, G::Player, G::Outcome, K>],
    positions: &[PositionRecord<G::State, G::Action, G::Player, G::Outcome>],
) -> (r: Result<usize, CorpusError>)
    ensures
        r is Ok <==> forall|g: int|
            0 <= g < games@.len() ==> (#[trigger] game_verdict(bundle, games@[g], positions@)) is None,
        r matches Ok(n) ==> n == games@.len(),
        r matches Err(e) ==> exists|g: int|
            0 <= g < games@.len() && (forall|h: int|
                0 <= h < g ==> (#[trigger] game_verdict(bundle, games@[h], positions@)) is None)
                && reports(e, bundle, games@[g], positions@),
{
    let mut g: usize = 0;
    while g < games.len()
        invariant
            g <= games@.len(),
            forall|h: int| 0 <= h < g ==> (#[trigger] game_verdict(bundle, games@[h], positions@)) is None,
        decreases games@.len() - g,
    {
        match check_game(bundle, &games[g], positions) {
            Ok(()) => {},
            Err(e) => {
                proof {
                    assert(reports(e, bundle, games@[g as int], positions@));
                }
                return Err(e);
            },
        }
        g = g + 1;
    }
    Ok(games.len())
}

/// The winners named by the first `m` outcomes, in order, one per decisive outcome.
pub open spec fn winners<G: GameDomain>(outs: Seq<Option<G::Outcome>>, m: int) -> Seq<G::Player>
    decreases m,
{
    if m <= 0 {
        seq![]
    } else {
        let prev = winners::<G>(outs, m - 1);
        match outs[m - 1] {
            Some(o) => match G::spec_winner(o) {
                Some(p) => prev.push(p),
                None => prev,
            },
            None => prev,
        }
    }
}

/// How many of the first `m` outcomes are absent (games stopped by a ply cap).
pub open spec fn count_unfinished<O>(outs: Seq<Option<O>>, m: int) -> nat
    decreases m,
{
    if m <= 0 {
        0
    } else {
        count_unfinished(outs, m - 1) + if outs[m - 1] is None {
            1nat
        } else {
            0
        }
    }
}

/// How many of the first `m` outcomes name no winner.
pub open spec fn count_draws<G: GameDomain>(outs: Seq<Option<G::Outcome>>, m: int) -> nat
    decreases m,
{
    if m <= 0 {
        0
    } else {
        count_draws::<G>(outs, m - 1) + match outs[m - 1] {
            Some(o) => if G::spec_winner(o) is None {
                1nat
            } else {
                0
            },
            None => 0,
        }
    }
}

/// How many of the first `m` of `s` equal `x`.
pub open spec fn occurrences<T>(s: Seq<T>, x: T, m: int) -> nat
    decreases m,
{
    if m <= 0 {
        0
    } else {
        occurrences(s, x, m - 1) + if s[m - 1] == x {
            1nat
        } else {
            0
        }
    }
}

/// The distinct values among the first `m` of `s`, in order of first appearance.
pub open spec fn distinct_in_order<T>(s: Seq<T>, m: int) -> Seq<T>
    decreases m,
{
    if m <= 0 {
        seq![]
    } else {
        let prev = distinct_in_order(s, m - 1);
        if prev.contains(s[m - 1]) {
            prev
        } else {
            prev.push(s[m - 1])
        }
    }
}

/// Outcome tally over a set of games: wins per winner (winners ordered by their label), draws,
/// games with no outcome, and the total.
#[derive(Clone, Debug, PartialEq, Eq)]
pub struct OutcomeCounts<P> {
    /// Each winner with its number of wins.
    pub wins: Vec<(P, usize)>,
    /// Outcomes naming no winner.
    pub draws: usize,
    /// Games with no outcome (stopped by a ply cap).
    pub unfinished: usize,
    /// Outcomes tallied.
    pub total: usize,
}

/// Whether player `a`'s label comes before player `b`'s, by code point.
pub open spec fn label_before<G: GameDomain>(a: G::Player, b: G::Player) -> bool {
    text_before_from(G::spec_player_label(a), G::spec_player_label(b), 0)
}

/// Whether some entry of `wins` is `p`'s.
pub open spec fn wins_cover<P>(wins: Seq<(P, usize)>, p: P) -> bool {
    exists|j: int| 0 <= j < wins.len() && wins[j].0 == p
}

/// `c` is the tally of `outs`: one entry per winner, ordered by the winner's label, with its
/// number of wins; the draws; the outcomes missing; and the total.
pub open spec fn tallies<G: GameDomain>(c: OutcomeCounts<G::Player>, outs: Seq<Option<G::Outcome>>) -> bool {
    let n = outs.len() as int;
    let w = winners::<G>(outs, n);
    &&& c.total == n
    &&& c.unfinished == count_unfinished(outs, n)
    &&& c.draws == count_draws::<G>(outs, n)
    &&& forall|j: int|
        0 <= j < c.wins@.len() ==> w.contains((#[trigger] c.wins@[j]).0) && c.wins@[j].1 == occurrences(
            w,
            c.wins@[j].0,
            w.len() as int,
        )
    &&& forall|p: G::Player| #[trigger] w.contains(p) ==> wins_cover(c.wins@, p)
    &&& forall|i: int, j: int|
        0 <= i < j < c.wins@.len() ==> label_before::<G>(#[trigger] c.wins@[i].0, #[trigger] c.wins@[j].0)
}

proof fn lemma_winners_prefix<G: GameDomain>(outs: Seq<Option<G::Outcome>>, x: Option<G::Outcome>, m: int)
    requires
        0 <= m <= outs.len(),
    ensures
        winners::<G>(outs.push(x), m) == winners::<G>(outs, m),
        count_unfinished(outs.push(x), m) == count_unfinished(outs, m),
        count_draws::<G>(outs.push(x), m) == count_draws::<G>(outs, m),
    decreases m,
{
    if m > 0 {
        lemma_winners_prefix::<G>(outs, x, m - 1);
        assert(outs.push(x)[m - 1] == outs[m - 1]);
    }
}

pub(crate) proof fn lemma_occurrences_push<T>(s: Seq<T>, y: T, x: T, m: int)
    requires
        0 <= m <= s.len(),
    ensures
        occurrences(s.push(y), x, m) == occurrences(s, x, m),
    decreases m,
{
    if m > 0 {
        lemma_occurrences_push(s, y, x, m - 1);
        assert(s.push(y)[m - 1] == s[m - 1]);
    }
}

pub(crate) proof fn lemma_occurrences_bound<T>(s: Seq<T>, x: T, m: int)
    requires
        0 <= m,
    ensures
        occurrences(s, x, m) <= m,
    decreases m,
{
    if m > 0 {
        lemma_occurrences_bound(s, x, m - 1);
    }
}

pub(crate) proof fn lemma_distinct_push<T>(s: Seq<T>, y: T, m: int)
    requires
        0 <= m <= s.len(),
    ensures
        distinct_in_order(s.push(y), m) == distinct_in_order(s, m),
    decreases m,
{
    if m > 0 {
        lemma_distinct_push(s, y, m - 1);
        assert(s.push(y)[m - 1] == s[m - 1]);
    }
}

/// The distinct values hold each value of the prefix, and nothing else.
pub(crate) proof fn lemma_distinct_contains<T>(s: Seq<T>, x: T, m: int)
    requires
        0 <= m <= s.len(),
    ensures
        distinct_in_order(s, m).contains(x) <==> s.take(m).contains(x),
        distinct_in_order(s, m).no_duplicates(),
        distinct_in_order(s, m).len() <= m,
    decreases m,
{
    if m > 0 {
        lemma_distinct_contains(s, x, m - 1);
        lemma_distinct_contains(s, s[m - 1], m - 1);
        let prev = distinct_in_order(s, m - 1);
        assert(s.take(m) =~= s.take(m - 1).push(s[m - 1]));
        assert(s.take(m)[m - 1] == s[m - 1]);
        if s.take(m - 1).contains(x) {
            let i = choose|i: int| 0 <= i < m - 1 && #[trigger] s.take(m - 1)[i] == x;
            assert(s.take(m)[i] == x);
        }
        if s.take(m).contains(x) && !s.take(m - 1).contains(x) {
            let i = choose|i: int| 0 <= i < m && #[trigger] s.take(m)[i] == x;
            if i < m - 1 {
                assert(s.take(m - 1)[i] == x);
            }
            assert(x == s[m - 1]);
        }
        if !prev.contains(s[m - 1]) {
            let d = prev.push(s[m - 1]);
            assert(d[prev.len() as int] == s[m - 1]);
            assert forall|i: int, j: int| 0 <= i < d.len() && 0 <= j < d.len() && i != j implies d[i] != d[j] by {
                if i < prev.len() && j < prev.len() {
                    assert(prev[i] != prev[j]);
                } else if i < prev.len() {
                    assert(prev[i] != s[m - 1]);
                } else if j < prev.len() {
                    assert(prev[j] != s[m - 1]);
                }
            }
            if d.contains(x) {
                let i = choose|i: int| 0 <= i < d.len() && d[i] == x;
                if i < prev.len() {
                    assert(prev[i] == x);
                }
            }
            if s.take(m - 1).contains(x) {
                let i = choose|i: int| 0 <= i < prev.len() && prev[i] == x;
                assert(d[i] == x);
            }
        }
    } else {
        assert(s.take(0) =~= Seq::<T>::empty());
    }
}

pub(crate) proof fn lemma_occurrences_absent<T>(s: Seq<T>, x: T, m: int)
    requires
        0 <= m <= s.len(),
        !s.take(m).contains(x),
    ensures
        occurrences(s, x, m) == 0,
    decreases m,
{
    if m > 0 {
        assert(s.take(m)[m - 1] == s[m - 1]);
        assert forall|i: int| 0 <= i < m - 1 implies #[trigger] s.take(m - 1)[i] != x by {
            assert(s.take(m)[i] == s.take(m - 1)[i]);
        }
        lemma_occurrences_absent(s, x, m - 1);
    }
}

proof fn lemma_counts_bound<G: GameDomain>(outs: Seq<Option<G::Outcome>>, m: int)
    requires
        0 <= m,
    ensures
        count_unfinished(outs, m) <= m,
        count_draws::<G>(outs, m) <= m,
        winners::<G>(outs, m).len() <= m,
    decreases m,
{
    if m > 0 {
        lemma_counts_bound::<G>(outs, m - 1);
    }
}

/// Adds one outcome to a tally.
fn tally<G: GameDomain>(counts: &mut OutcomeCounts<G::Player>, outcome: Option<G::Outcome>, Ghost(outs): Ghost<Seq<Option<G::Outcome>>>)
    requires
        tallies::<G>(*old(counts), outs),
        outs.len() < usize::MAX,
    ensures
        tallies::<G>(*final(counts), outs.push(outcome)),
{
    let ghost next = outs.push(outcome);
    let ghost n = outs.len() as int;
    let ghost w = winners::<G>(outs, n);
    proof {
        lemma_winners_prefix::<G>(outs, outcome, n);
        assert(next[n] == outcome);
        lemma_counts_bound::<G>(outs, n);
    }
    counts.total = counts.total + 1;
    match outcome {
        None => {
            counts.unfinished = counts.unfinished + 1;
        },
        Some(o) => match G::winner(&o) {
            None => {
                counts.draws = counts.draws + 1;
            },
            Some(p) => {
                let ghost w2 = w.push(p);
                let ghost before = counts.wins@;
                proof {
                    assert(winners::<G>(next, n + 1) == w2);
                    assert forall|x: G::Player| x != p implies occurrences(w2, x, w2.len() as int) == occurrences(
                        w,
                        x,
                        w.len() as int,
                    ) by {
                        lemma_occurrences_push(w, p, x, w.len() as int);
                    }
                    lemma_occurrences_push(w, p, p, w.len() as int);
                    assert(w2[w.len() as int] == p);
                    assert(occurrences(w2, p, w2.len() as int) == occurrences(w, p, w.len() as int) + 1);
                }
                let label = G::player_label(&p);
                let mut j: usize = 0;
                let mut stop = false;
                while j < counts.wins.len() && !stop
                    invariant
                        counts.wins@ == before,
                        label@ == G::spec_player_label(p),
                        j <= before.len(),
                        forall|k: int| 0 <= k < j ==> before[k].0 != p && !label_before::<G>(p, #[trigger] before[k].0),
                        stop ==> j < before.len() && (before[j as int].0 == p || label_before::<G>(p, before[j as int].0)),
                    decreases before.len() - j + (if stop { 0int } else { 1 }),
                {
                    let other = G::player_label(&counts.wins[j].0);
                    if G::same_player(&counts.wins[j].0, &p) || TableKey::before(&label, &other) {
                        stop = true;
                    } else {
                        j = j + 1;
                    }
                }
                if stop && G::same_player(&counts.wins[j].0, &p) {
                    proof {
                        lemma_occurrences_bound(w, p, w.len() as int);
                    }
                    let (q, c) = counts.wins[j];
                    counts.wins.set(j, (q, c + 1));
                    proof {
                        assert forall|k: int| 0 <= k < counts.wins@.len() implies w2.contains((#[trigger] counts.wins@[k]).0)
                            && counts.wins@[k].1 == occurrences(w2, counts.wins@[k].0, w2.len() as int) by {
                            assert(w.contains(before[k].0));
                            if k != j {
                                assert(counts.wins@[k] == before[k]);
                                if before[k].0 == p {
                                    if k < j {
                                        assert(label_before::<G>(before[k].0, before[j as int].0));
                                    } else {
                                        assert(label_before::<G>(before[j as int].0, before[k].0));
                                    }
                                    lemma_text_irreflexive(G::spec_player_label(p), 0);
                                }
                            }
                            let x = choose|x: int| 0 <= x < w.len() && w[x] == before[k].0;
                            assert(w2[x] == before[k].0);
                        }
                        assert forall|x: G::Player| #[trigger] w2.contains(x) implies wins_cover(counts.wins@, x) by {
                            let y = choose|y: int| 0 <= y < w2.len() && w2[y] == x;
                            if y < w.len() {
                                assert(w[y] == x);
                                assert(w.contains(x));
                                assert(wins_cover(before, x));
                                let z = choose|z: int| 0 <= z < before.len() && before[z].0 == x;
                                assert(counts.wins@[z].0 == x);
                            } else {
                                assert(counts.wins@[j as int].0 == x);
                            }
                        }
                        assert forall|a: int, b: int| 0 <= a < b < counts.wins@.len() implies label_before::<G>(
                            #[trigger] counts.wins@[a].0,
                            #[trigger] counts.wins@[b].0,
                        ) by {
                            assert(label_before::<G>(before[a].0, before[b].0));
                        }
                    }
                } else {
                    proof {
                        assert(!w.contains(p)) by {
                            if w.contains(p) {
                                assert(wins_cover(before, p));
                                let z = choose|z: int| 0 <= z < before.len() && before[z].0 == p;
                                if z >= j {
                                    assert(stop);
                                    assert(label_before::<G>(p, before[j as int].0));
                                    <String as TableKey>::lemma_order(
                                        G::spec_player_label(p),
                                        G::spec_player_label(before[j as int].0),
                                        G::spec_player_label(p),
                                    );
                                    if z > j {
                                        assert(label_before::<G>(before[j as int].0, before[z].0));
                                    }
                                }
                            }
                        }
                        assert(!w.take(w.len() as int).contains(p)) by {
                            assert(w.take(w.len() as int) =~= w);
                        }
                        lemma_occurrences_absent(w, p, w.len() as int);
                    }
                    counts.wins.insert(j, (p, 1));
                    proof {
                        let nw = counts.wins@;
                        assert(nw =~= before.take(j as int).push((p, 1usize)) + before.skip(j as int));
                        assert(nw[j as int] == (p, 1usize));
                        assert forall|k: int| 0 <= k < nw.len() && k != j implies nw[k] == (if k < j {
                            before[k]
                        } else {
                            before[k - 1]
                        }) by {}
                        assert forall|k: int| 0 <= k < nw.len() implies w2.contains((#[trigger] nw[k]).0) && nw[k].1
                            == occurrences(w2, nw[k].0, w2.len() as int) by {
                            if k == j {
                                assert(w2[w.len() as int] == p);
                            } else {
                                let b = if k < j { k } else { k - 1 };
                                assert(nw[k] == before[b]);
                                assert(w.contains(before[b].0));
                                let x = choose|x: int| 0 <= x < w.len() && w[x] == before[b].0;
                                assert(w2[x] == before[b].0);
                                assert(before[b].0 != p);
                            }
                        }
                        assert forall|x: G::Player| #[trigger] w2.contains(x) implies wins_cover(nw, x) by {
                            let y = choose|y: int| 0 <= y < w2.len() && w2[y] == x;
                            if y < w.len() {
                                assert(w[y] == x);
                                assert(w.contains(x));
                                assert(wins_cover(before, x));
                                let z = choose|z: int| 0 <= z < before.len() && before[z].0 == x;
                                if z < j {
                                    assert(nw[z].0 == x);
                                } else {
                                    assert(nw[z + 1].0 == x);
                                }
                            } else {
                                assert(nw[j as int].0 == x);
                            }
                        }
                        assert forall|a: int, b: int| 0 <= a < b < nw.len() implies label_before::<G>(
                            #[trigger] nw[a].0,
                            #[trigger] nw[b].0,
                        ) by {
                            if a == j {
                                let bb = b - 1;
                                assert(nw[b] == before[bb]);
                                assert(stop);
                                assert(before[j as int].0 != p ==> label_before::<G>(p, before[j as int].0));
                                if bb > j {
                                    assert(label_before::<G>(before[j as int].0, before[bb].0));
                                    <String as TableKey>::lemma_order(
                                        G::spec_player_label(p),
                                        G::spec_player_label(before[j as int].0),
                                        G::spec_player_label(before[bb].0),
                                    );
                                }
                            } else if b == j {
                                assert(nw[a] == before[a]);
                                assert(before[a].0 != p && !label_before::<G>(p, before[a].0));
                                G::lemma_label_injective(before[a].0, p);
                                <String as TableKey>::lemma_order(
                                    G::spec_player_label(before[a].0),
                                    G::spec_player_label(p),
                                    G::spec_player_label(p),
                                );
                            } else if a < j && b < j {
                                assert(nw[a] == before[a] && nw[b] == before[b]);
                                assert(label_before::<G>(before[a].0, before[b].0));
                            } else if a < j {
                                assert(nw[a] == before[a] && nw[b] == before[b - 1]);
                                if a < b - 1 {
                                    assert(label_before::<G>(before[a].0, before[b - 1].0));
                                }
                            } else {
                                assert(nw[a] == before[a - 1] && nw[b] == before[b - 1]);
                                assert(label_before::<G>(before[a - 1].0, before[b - 1].0));
                            }
                        }
                    }
                }
            },
        },
    }
}

/// Keys a tally table is keyed by, compared by their views, and ordered.
pub trait TableKey: View + Sized {
    /// Whether the two keys have the same view.
    fn same_key(&self, other: &Self) -> (r: bool)
        ensures
            r == (self@ == other@),
    ;

    /// Whether key `a` comes before key `b`.
    spec fn spec_before(a: Self::V, b: Self::V) -> bool;

    /// The order is strict and total.
    proof fn lemma_order(a: Self::V, b: Self::V, c: Self::V)
        ensures
            !Self::spec_before(a, a),
            Self::spec_before(a, b) && Self::spec_before(b, c) ==> Self::spec_before(a, c),
            a != b ==> Self::spec_before(a, b) || Self::spec_before(b, a),
    ;

    /// Whether this key comes before `other`.
    fn before(&self, other: &Self) -> (r: bool)
        ensures
            r == Self::spec_before(self@, other@),
    ;
}

impl TableKey for usize {
    fn same_key(&self, other: &Self) -> (r: bool) {
        *self == *other
    }

    open spec fn spec_before(a: usize, b: usize) -> bool {
        a < b
    }

    proof fn lemma_order(a: usize, b: usize, c: usize) {
    }

    fn before(&self, other: &Self) -> (r: bool) {
        *self < *other
    }
}

impl TableKey for i8 {
    fn same_key(&self, other: &Self) -> (r: bool) {
        *self == *other
    }

    open spec fn spec_before(a: i8, b: i8) -> bool {
        a < b
    }

    proof fn lemma_order(a: i8, b: i8, c: i8) {
    }

    fn before(&self, other: &Self) -> (r: bool) {
        *self < *other
    }
}

/// Whether text `a` comes before text `b` from position `i` on, comparing characters by code
/// point and a proper prefix first.
pub open spec fn text_before_from(a: Seq<char>, b: Seq<char>, i: int) -> bool
    decreases a.len() - i,
{
    if i < 0 || i >= a.len() {
        0 <= i < b.len()
    } else if i >= b.len() {
        false
    } else if a[i] != b[i] {
        a[i] < b[i]
    } else {
        text_before_from(a, b, i + 1)
    }
}

pub(crate) proof fn lemma_text_irreflexive(a: Seq<char>, i: int)
    ensures
        !text_before_from(a, a, i),
    decreases a.len() - i,
{
    if 0 <= i < a.len() {
        lemma_text_irreflexive(a, i + 1);
    }
}

proof fn lemma_text_transitive(a: Seq<char>, b: Seq<char>, c: Seq<char>, i: int)
    requires
        0 <= i,
        text_before_from(a, b, i),
        text_before_from(b, c, i),
    ensures
        text_before_from(a, c, i),
    decreases a.len() - i,
{
    if i < a.len() && i < b.len() && i < c.len() && a[i] == b[i] && b[i] == c[i] {
        lemma_text_transitive(a, b, c, i + 1);
    }
}

proof fn lemma_text_total(a: Seq<char>, b: Seq<char>, i: int)
    requires
        0 <= i <= a.len(),
        i <= b.len(),
    ensures
        text_before_from(a, b, i) || text_before_from(b, a, i) || (a.len() == b.len() && forall|k: int|
            i <= k < a.len() ==> a[k] == b[k]),
    decreases a.len() - i,
{
    if i < a.len() && i < b.len() {
        if a[i] == b[i] {
            lemma_text_total(a, b, i + 1);
            if a.len() == b.len() && forall|k: int| i + 1 <= k < a.len() ==> a[k] == b[k] {
                assert forall|k: int| i <= k < a.len() implies a[k] == b[k] by {}
            }
        }
    }
}

impl TableKey for String {
    fn same_key(&self, other: &Self) -> (r: bool) {
        text_eq(self.as_str(), other.as_str())
    }

    open spec fn spec_before(a: Seq<char>, b: Seq<char>) -> bool {
        text_before_from(a, b, 0)
    }

    proof fn lemma_order(a: Seq<char>, b: Seq<char>, c: Seq<char>) {
        lemma_text_irreflexive(a, 0);
        if text_before_from(a, b, 0) && text_before_from(b, c, 0) {
            lemma_text_transitive(a, b, c, 0);
        }
        lemma_text_total(a, b, 0);
        if a != b && !text_before_from(a, b, 0) && !text_before_from(b, a, 0) {
            assert(a =~= b);
        }
    }

    fn before(&self, other: &Self) -> (r: bool) {
        let a = self.as_str();
        let b = other.as_str();
        let n = a.unicode_len();
        let m = b.unicode_len();
        let mut i: usize = 0;
        while i < n && i < m
            invariant
                n == a@.len(),
                m == b@.len(),
                i <= n,
                i <= m,
                a@ == self@,
                b@ == other@,
                text_before_from(a@, b@, 0) == text_before_from(a@, b@, i as int),
            decreases n - i,
        {
            let x = a.get_char(i);
            let y = b.get_char(i);
            if x != y {
                return x < y;
            }
            i = i + 1;
        }
        i < m
    }
}

/// The outcomes of those of the first `m` items whose key is `k`, in order.
pub open spec fn select<V, O>(keys: Seq<V>, outs: Seq<Option<O>>, k: V, m: int) -> Seq<Option<O>>
    decreases m,
{
    if m <= 0 {
        seq![]
    } else {
        let prev = select(keys, outs, k, m - 1);
        if keys[m - 1] == k {
            prev.push(outs[m - 1])
        } else {
            prev
        }
    }
}

/// `table` tallies the items by key: one entry per distinct key, in order of first appearance,
/// each with the tally of the outcomes of the items with that key.
pub open spec fn tallies_by_key<G: GameDomain, K: View>(
    table: Seq<(K, OutcomeCounts<G::Player>)>,
    keys: Seq<K::V>,
    outs: Seq<Option<G::Outcome>>,
) -> bool {
    let m = keys.len() as int;
    let d = distinct_in_order(keys, m);
    &&& table.len() == d.len()
    &&& forall|j: int|
        0 <= j < table.len() ==> (#[trigger] table[j]).0@ == d[j] && tallies::<G>(
            table[j].1,
            select(keys, outs, d[j], m),
        )
}

/// `table` counts the items by key: one entry per distinct key, in order of first appearance,
/// each with the number of items with that key.
pub open spec fn counts_by_key(table: Seq<(usize, usize)>, keys: Seq<usize>) -> bool {
    let m = keys.len() as int;
    let d = distinct_in_order(keys, m);
    &&& table.len() == d.len()
    &&& forall|j: int|
        0 <= j < table.len() ==> (#[trigger] table[j]).0 == d[j] && table[j].1 == occurrences(keys, d[j], m)
}

proof fn lemma_select_push<V, O>(keys: Seq<V>, outs: Seq<Option<O>>, k: V, o: Option<O>, x: V, m: int)
    requires
        0 <= m <= keys.len(),
        m <= outs.len(),
    ensures
        select(keys.push(k), outs.push(o), x, m) == select(keys, outs, x, m),
        select(keys, outs, x, m).len() <= m,
    decreases m,
{
    if m > 0 {
        lemma_select_push(keys, outs, k, o, x, m - 1);
        assert(keys.push(k)[m - 1] == keys[m - 1]);
        assert(outs.push(o)[m - 1] == outs[m - 1]);
    }
}

proof fn lemma_select_absent<V, O>(keys: Seq<V>, outs: Seq<Option<O>>, x: V, m: int)
    requires
        0 <= m <= keys.len(),
        !keys.take(m).contains(x),
    ensures
        select(keys, outs, x, m) == Seq::<Option<O>>::empty(),
    decreases m,
{
    if m > 0 {
        assert(keys.take(m)[m - 1] == keys[m - 1]);
        assert forall|i: int| 0 <= i < m - 1 implies #[trigger] keys.take(m - 1)[i] != x by {
            assert(keys.take(m)[i] == keys.take(m - 1)[i]);
        }
        lemma_select_absent(keys, outs, x, m - 1);
    }
}

/// An empty tally.
fn no_outcomes<P>() -> (c: OutcomeCounts<P>)
    ensures
        c.wins@.len() == 0,
        c.draws == 0,
        c.unfinished == 0,
        c.total == 0,
{
    OutcomeCounts { wins: Vec::new(), draws: 0, unfinished: 0, total: 0 }
}

/// Adds one item's outcome to the tally of its key.
fn tally_by_key<G: GameDomain, K: TableKey>(
    table: &mut Vec<(K, OutcomeCounts<G::Player>)>,
    key: K,
    outcome: Option<G::Outcome>,
    Ghost(keys): Ghost<Seq<K::V>>,
    Ghost(outs): Ghost<Seq<Option<G::Outcome>>>,
)
    requires
        tallies_by_key::<G, K>(old(table)@, keys, outs),
        keys.len() == outs.len(),
        keys.len() < usize::MAX,
    ensures
        tallies_by_key::<G, K>(final(table)@, keys.push(key@), outs.push(outcome)),
{
    let ghost m = keys.len() as int;
    let ghost d = distinct_in_order(keys, m);
    let ghost keys2 = keys.push(key@);
    let ghost outs2 = outs.push(outcome);
    proof {
        lemma_distinct_push(keys, key@, m);
        lemma_distinct_contains(keys, key@, m);
        assert(keys2[m] == key@);
        assert(outs2[m] == outcome);
        assert(keys.take(m) =~= keys);
        assert forall|x: K::V| #[trigger] select(keys2, outs2, x, m + 1) == if x == key@ {
            select(keys, outs, x, m).push(outcome)
        } else {
            select(keys, outs, x, m)
        } by {
            lemma_select_push(keys, outs, key@, outcome, x, m);
        }
    }
    let mut j: usize = 0;
    while j < table.len() && !table[j].0.same_key(&key)
        invariant
            j <= table@.len(),
            table@.len() == d.len(),
            forall|k: int| 0 <= k < j ==> d[k] != key@,
            forall|k: int| 0 <= k < table@.len() ==> (#[trigger] table@[k]).0@ == d[k],
        decreases table@.len() - j,
    {
        j = j + 1;
    }
    if j < table.len() {
        let ghost before = table@;
        assert(d[j as int] == key@);
        let (k, mut counts) = table.remove(j);
        proof {
            lemma_select_push(keys, outs, key@, outcome, key@, m);
        }
        tally::<G>(&mut counts, outcome, Ghost(select(keys, outs, key@, m)));
        table.insert(j, (k, counts));
        proof {
            let d2 = distinct_in_order(keys2, m + 1);
            assert(d2 == d);
            assert forall|i: int| 0 <= i < table@.len() implies (#[trigger] table@[i]).0@ == d2[i] && tallies::<G>(
                table@[i].1,
                select(keys2, outs2, d2[i], m + 1),
            ) by {
                if i != j {
                    assert(table@[i] == before[i]);
                    assert(d[i] != d[j as int]);
                }
            }
        }
    } else {
        proof {
            assert forall|k: int| 0 <= k < d.len() implies d[k] != key@ by {}
            assert(!d.contains(key@));
            lemma_select_absent(keys, outs, key@, m);
        }
        let mut counts = no_outcomes();
        proof {
            assert(tallies::<G>(counts, Seq::<Option<G::Outcome>>::empty()));
        }
        tally::<G>(&mut counts, outcome, Ghost(Seq::<Option<G::Outcome>>::empty()));
        let ghost before = table@;
        table.push((key, counts));
        proof {
            let d2 = distinct_in_order(keys2, m + 1);
            assert(d2 == d.push(key@));
            assert(Seq::<Option<G::Outcome>>::empty().push(outcome) == select(keys2, outs2, key@, m + 1));
            assert forall|i: int| 0 <= i < table@.len() implies (#[trigger] table@[i]).0@ == d2[i] && tallies::<G>(
                table@[i].1,
                select(keys2, outs2, d2[i], m + 1),
            ) by {
                if i < before.len() {
                    assert(table@[i] == before[i]);
                }
            }
        }
    }
}

/// Counts one more item under its key.
fn count_by_key(table: &mut Vec<(usize, usize)>, key: usize, Ghost(keys): Ghost<Seq<usize>>)
    requires
        counts_by_key(old(table)@, keys),
        keys.len() < usize::MAX,
    ensures
        counts_by_key(final(table)@, keys.push(key)),
{
    let ghost m = keys.len() as int;
    let ghost d = distinct_in_order(keys, m);
    let ghost keys2 = keys.push(key);
    proof {
        lemma_distinct_push(keys, key, m);
        lemma_distinct_contains(keys, key, m);
        assert(keys2[m] == key);
        assert(keys.take(m) =~= keys);
        assert forall|x: usize| #[trigger] occurrences(keys2, x, m + 1) == occurrences(keys, x, m) + if x == key {
            1nat
        } else {
            0
        } by {
            lemma_occurrences_push(keys, key, x, m);
        }
    }
    let mut j: usize = 0;
    while j < table.len() && table[j].0 != key
        invariant
            j <= table@.len(),
            table@.len() == d.len(),
            forall|k: int| 0 <= k < j ==> d[k] != key,
            forall|k: int| 0 <= k < table@.len() ==> (#[trigger] table@[k]).0 == d[k],
        decreases table@.len() - j,
    {
        j = j + 1;
    }
    if j < table.len() {
        let ghost before = table@;
        assert(d[j as int] == key);
        proof {
            lemma_occurrences_bound(keys, key, m);
        }
        let count = table[j].1;
        table.set(j, (key, count + 1));
        proof {
            let d2 = distinct_in_order(keys2, m + 1);
            assert(d2 == d);
            assert forall|i: int| 0 <= i < table@.len() implies (#[trigger] table@[i]).0 == d2[i] && table@[i].1
                == occurrences(keys2, d2[i], m + 1) by {
                if i != j {
                    assert(table@[i] == before[i]);
                    assert(d[i] != d[j as int]);
                }
            }
        }
    } else {
        proof {
            assert forall|k: int| 0 <= k < d.len() implies d[k] != key by {}
            assert(!d.contains(key));
            lemma_occurrences_absent(keys, key, m);
        }
        let ghost before = table@;
        table.push((key, 1));
        proof {
            let d2 = distinct_in_order(keys2, m + 1);
            assert(d2 == d.push(key));
            assert forall|i: int| 0 <= i < table@.len() implies (#[trigger] table@[i]).0 == d2[i] && table@[i].1
                == occurrences(keys2, d2[i], m + 1) by {
                if i < before.len() {
                    assert(table@[i] == before[i]);
                }
            }
        }
    }
}

/// `r` holds the entries of `t`, ordered by key.
pub open spec fn sorts<K: TableKey, W>(r: Seq<(K, W)>, t: Seq<(K, W)>) -> bool {
    &&& r.len() == t.len()
    &&& forall|x: (K, W)| r.contains(x) <==> t.contains(x)
    &&& forall|i: int, j: int| 0 <= i < j < r.len() ==> K::spec_before(r[i].0@, r[j].0@)
}

/// The entries of `t`, whose keys are distinct, ordered by key.
pub fn sort_table<K: TableKey, W>(t: Vec<(K, W)>) -> (r: Vec<(K, W)>)
    requires
        forall|i: int, j: int| 0 <= i < j < t@.len() ==> t@[i].0@ != t@[j].0@,
    ensures
        sorts(r@, t@),
{
    let ghost orig = t@;
    let mut t = t;
    let mut r: Vec<(K, W)> = Vec::new();
    let ghost mut taken: Seq<(K, W)> = Seq::empty();
    while t.len() > 0
        invariant
            forall|i: int, j: int| 0 <= i < j < orig.len() ==> orig[i].0@ != orig[j].0@,
            orig == taken + t@,
            r@.len() == taken.len(),
            forall|x: (K, W)| r@.contains(x) <==> taken.contains(x),
            forall|i: int, j: int| 0 <= i < j < r@.len() ==> K::spec_before(r@[i].0@, r@[j].0@),
        decreases t@.len(),
    {
        let ghost before_t = t@;
        let x = t.remove(0);
        let ghost tk = taken.len() as int;
        proof {
            assert(orig[tk] == x);
            assert(t@ =~= before_t.skip(1));
        }
        let mut k: usize = 0;
        while k < r.len() && !x.0.before(&r[k].0)
            invariant
                k <= r@.len(),
                forall|i: int| 0 <= i < k ==> !K::spec_before(x.0@, #[trigger] r@[i].0@),
            decreases r@.len() - k,
        {
            k = k + 1;
        }
        let ghost before_r = r@;
        proof {
            assert forall|i: int| 0 <= i < before_r.len() implies #[trigger] before_r[i].0@ != x.0@ by {
                assert(before_r.contains(before_r[i]));
                assert(taken.contains(before_r[i]));
                let z = choose|z: int| 0 <= z < taken.len() && taken[z] == before_r[i];
                assert(orig[z] == taken[z]);
            }
        }
        r.insert(k, x);
        proof {
            let nr = r@;
            assert(nr =~= before_r.take(k as int).push(x) + before_r.skip(k as int));
            assert forall|i: int| 0 <= i < nr.len() && i != k implies nr[i] == (if i < k {
                before_r[i]
            } else {
                before_r[i - 1]
            }) by {}
            assert forall|i: int, j: int| 0 <= i < j < nr.len() implies K::spec_before(nr[i].0@, nr[j].0@) by {
                if i == k {
                    let jj = j - 1;
                    K::lemma_order(x.0@, before_r[k as int].0@, before_r[jj].0@);
                    if jj > k {
                        assert(K::spec_before(before_r[k as int].0@, before_r[jj].0@));
                    }
                } else if j == k {
                    K::lemma_order(before_r[i].0@, x.0@, x.0@);
                } else if i < k && j < k {
                } else if i < k {
                    if i < j - 1 {
                        assert(K::spec_before(before_r[i].0@, before_r[j - 1].0@));
                    } else {
                        K::lemma_order(before_r[i].0@, x.0@, x.0@);
                    }
                } else {
                    assert(K::spec_before(before_r[i - 1].0@, before_r[j - 1].0@));
                }
            }
            let ghost old_taken = taken;
            taken = taken.push(x);
            assert forall|y: (K, W)| nr.contains(y) <==> taken.contains(y) by {
                if nr.contains(y) {
                    let z = choose|z: int| 0 <= z < nr.len() && nr[z] == y;
                    if z == k {
                        assert(taken[tk] == y);
                    } else {
                        let b = if z < k { z } else { z - 1 };
                        assert(nr[z] == before_r[b]);
                        assert(before_r.contains(before_r[b]));
                        assert(old_taken.contains(before_r[b]));
                        let w = choose|w: int| 0 <= w < old_taken.len() && old_taken[w] == before_r[b];
                        assert(taken[w] == old_taken[w]);
                    }
                }
                if taken.contains(y) {
                    let z = choose|z: int| 0 <= z < taken.len() && taken[z] == y;
                    if z == tk {
                        assert(nr[k as int] == y);
                    } else {
                        assert(old_taken[z] == y);
                        assert(old_taken.contains(y));
                        assert(before_r.contains(y));
                        let b = choose|b: int| 0 <= b < before_r.len() && before_r[b] == y;
                        if b < k {
                            assert(nr[b] == before_r[b]);
                        } else {
                            assert(nr[b + 1] == before_r[b]);
                        }
                    }
                }
            }
            assert(orig =~= taken + t@);
        }
    }
    proof {
        assert(taken =~= orig);
    }
    r
}

/// `table` is the keyed tally of the items, one entry per distinct key, ordered by key.
pub open spec fn sorted_tallies<G: GameDomain, K: TableKey>(
    table: Seq<(K, OutcomeCounts<G::Player>)>,
    keys: Seq<K::V>,
    outs: Seq<Option<G::Outcome>>,
) -> bool {
    exists|t: Seq<(K, OutcomeCounts<G::Player>)>| #[trigger] tallies_by_key::<G, K>(t, keys, outs) && sorts(table, t)
}

/// `table` is the keyed count of the items, one entry per distinct key, ordered by key.
pub open spec fn sorted_counts(table: Seq<(usize, usize)>, keys: Seq<usize>) -> bool {
    exists|t: Seq<(usize, usize)>| #[trigger] counts_by_key(t, keys) && sorts(table, t)
}

proof fn lemma_tally_keys_distinct<G: GameDomain, K: TableKey>(
    t: Seq<(K, OutcomeCounts<G::Player>)>,
    keys: Seq<K::V>,
    outs: Seq<Option<G::Outcome>>,
)
    requires
        tallies_by_key::<G, K>(t, keys, outs),
    ensures
        forall|i: int, j: int| 0 <= i < j < t.len() ==> t[i].0@ != t[j].0@,
{
    let d = distinct_in_order(keys, keys.len() as int);
    lemma_distinct_contains(keys, keys[0], keys.len() as int);
    assert forall|i: int, j: int| 0 <= i < j < t.len() implies t[i].0@ != t[j].0@ by {
        assert(t[i].0@ == d[i] && t[j].0@ == d[j]);
    }
}

proof fn lemma_count_keys_distinct(t: Seq<(usize, usize)>, keys: Seq<usize>)
    requires
        counts_by_key(t, keys),
    ensures
        forall|i: int, j: int| 0 <= i < j < t.len() ==> t[i].0@ != t[j].0@,
{
    let d = distinct_in_order(keys, keys.len() as int);
    lemma_distinct_contains(keys, keys[0], keys.len() as int);
    assert forall|i: int, j: int| 0 <= i < j < t.len() implies t[i].0@ != t[j].0@ by {
        assert(t[i].0 == d[i] && t[j].0 == d[j]);
    }
}

/// Sorts a keyed tally by key.
fn sort_tallies<G: GameDomain, K: TableKey>(
    t: Vec<(K, OutcomeCounts<G::Player>)>,
    Ghost(keys): Ghost<Seq<K::V>>,
    Ghost(outs): Ghost<Seq<Option<G::Outcome>>>,
) -> (r: Vec<(K, OutcomeCounts<G::Player>)>)
    requires
        tallies_by_key::<G, K>(t@, keys, outs),
    ensures
        sorted_tallies::<G, K>(r@, keys, outs),
{
    proof {
        lemma_tally_keys_distinct::<G, K>(t@, keys, outs);
    }
    let ghost t0 = t@;
    let r = sort_table(t);
    proof {
        assert(tallies_by_key::<G, K>(t0, keys, outs) && sorts(r@, t0));
    }
    r
}

/// Sorts a keyed count by key.
fn sort_counts(t: Vec<(usize, usize)>, Ghost(keys): Ghost<Seq<usize>>) -> (r: Vec<(usize, usize)>)
    requires
        counts_by_key(t@, keys),
    ensures
        sorted_counts(r@, keys),
{
    proof {
        lemma_count_keys_distinct(t@, keys);
    }
    let ghost t0 = t@;
    let r = sort_table(t);
    proof {
        assert(counts_by_key(t0, keys) && sorts(r@, t0));
    }
    r
}

/// The outcomes of `games`, in order.
pub open spec fn game_outcomes<S, A, P, O, K>(games: Seq<GameRecord<S, A, P, O, K>>) -> Seq<Option<O>> {
    games.map_values(|g: GameRecord<S, A, P, O, K>| g.outcome)
}

/// The pairing of a game's cell: its strategy names joined with ` vs `.
pub open spec fn pairing_key(strategies: Seq<String>) -> Seq<char> {
    joined(texts(strategies), " vs "@)
}

/// The pairing of each game.
pub open spec fn pairing_keys<S, A, P, O, K>(games: Seq<GameRecord<S, A, P, O, K>>) -> Seq<Seq<char>> {
    games.map_values(|g: GameRecord<S, A, P, O, K>| pairing_key(g.cell.strategies@))
}

/// The length of each game.
pub open spec fn game_lengths<S, A, P, O, K>(games: Seq<GameRecord<S, A, P, O, K>>) -> Seq<usize> {
    games.map_values(|g: GameRecord<S, A, P, O, K>| g.length)
}

/// The action sequence of each game.
pub open spec fn game_actions<S, A, P, O, K>(games: Seq<GameRecord<S, A, P, O, K>>) -> Seq<Seq<A>> {
    games.map_values(|g: GameRecord<S, A, P, O, K>| g.actions@)
}

/// The ply of each position.
pub open spec fn position_plies<S, A, P, O>(positions: Seq<PositionRecord<S, A, P, O>>) -> Seq<usize> {
    positions.map_values(|p: PositionRecord<S, A, P, O>| p.ply)
}

/// The outcome recorded on each position.
pub open spec fn position_outcomes<S, A, P, O>(positions: Seq<PositionRecord<S, A, P, O>>) -> Seq<Option<O>> {
    positions.map_values(|p: PositionRecord<S, A, P, O>| p.outcome)
}

/// The states a corpus shows: each game's final state, then each position's state.
pub open spec fn seen_states<S, A, P, O, K>(
    games: Seq<GameRecord<S, A, P, O, K>>,
    positions: Seq<PositionRecord<S, A, P, O>>,
) -> Seq<S> {
    games.map_values(|g: GameRecord<S, A, P, O, K>| g.final_state) + positions.map_values(
        |p: PositionRecord<S, A, P, O>| p.state,
    )
}

/// The canonical states a corpus records: each game's final canonical state, then each
/// position's canonical state.
pub open spec fn seen_canonical_states<S, A, P, O, K>(
    games: Seq<GameRecord<S, A, P, O, K>>,
    positions: Seq<PositionRecord<S, A, P, O>>,
) -> Seq<S> {
    games.map_values(|g: GameRecord<S, A, P, O, K>| g.final_canonical_state) + positions.map_values(
        |p: PositionRecord<S, A, P, O>| p.canonical_state,
    )
}

/// The orbit keys among the first `m` of `orbits` that are present, in order.
pub open spec fn orbit_keys(orbits: Seq<Option<usize>>, m: int) -> Seq<usize>
    decreases m,
{
    if m <= 0 {
        seq![]
    } else {
        match orbits[m - 1] {
            Some(k) => orbit_keys(orbits, m - 1).push(k),
            None => orbit_keys(orbits, m - 1),
        }
    }
}

/// The outcomes of those of the first `m` games that have an orbit key, in order.
pub open spec fn orbit_outcomes<O>(orbits: Seq<Option<usize>>, outs: Seq<Option<O>>, m: int) -> Seq<Option<O>>
    decreases m,
{
    if m <= 0 {
        seq![]
    } else {
        match orbits[m - 1] {
            Some(_) => orbit_outcomes(orbits, outs, m - 1).push(outs[m - 1]),
            None => orbit_outcomes(orbits, outs, m - 1),
        }
    }
}

/// The integer figures of a corpus summary.
pub struct SummaryCounts<P> {
    /// Games tallied.
    pub games: usize,
    /// Positions tallied.
    pub positions: usize,
    /// Distinct game action sequences.
    pub distinct_games: usize,
    /// Distinct raw states seen (game final states and position states).
    pub distinct_positions: usize,
    /// Distinct canonical states seen (game final canonical states and position canonical
    /// states).
    pub distinct_canonical_positions: usize,
    /// Games that ended in a win.
    pub decisive_games: usize,
    /// Outcome tally over every game.
    pub outcomes: OutcomeCounts<P>,
    /// Outcome tally per pairing (strategy names joined with ` vs `), ordered by pairing.
    pub by_pairing: Vec<(String, OutcomeCounts<P>)>,
    /// Number of games per length, ordered by length.
    pub by_length: Vec<(usize, usize)>,
    /// Outcome tally per ply over every position, ordered by ply.
    pub by_ply: Vec<(usize, OutcomeCounts<P>)>,
    /// Outcome tally per symmetry orbit of the first action, ordered by orbit.
    pub by_first_action_orbit: Vec<(usize, OutcomeCounts<P>)>,
}

/// The number of distinct action sequences among `games`.
fn count_distinct_games<G: GameDomain, K>(games: &[GameRecord<G::State, G::Action, G::Player, G::Outcome, K>]) -> (n: usize)
    ensures
        n == distinct_in_order(game_actions(games@), games@.len() as int).len(),
{
    let ghost acts = game_actions(games@);
    let mut reps: Vec<usize> = Vec::new();
    let mut m: usize = 0;
    while m < games.len()
        invariant
            acts == game_actions(games@),
            m <= games@.len(),
            reps@.len() == distinct_in_order(acts, m as int).len(),
            forall|j: int| 0 <= j < reps@.len() ==> (#[trigger] reps@[j]) < m && acts[reps@[j] as int]
                == distinct_in_order(acts, m as int)[j],
        decreases games@.len() - m,
    {
        let ghost d = distinct_in_order(acts, m as int);
        proof {
            lemma_distinct_contains(acts, acts[m as int], m as int);
            lemma_distinct_contains(acts, acts[0], m as int);
        }
        let mut j: usize = 0;
        while j < reps.len() && !same_actions::<G>(&games[reps[j]].actions, &games[m].actions)
            invariant
                acts == game_actions(games@),
                m < games@.len(),
                d == distinct_in_order(acts, m as int),
                reps@.len() == d.len(),
                forall|k: int| 0 <= k < reps@.len() ==> (#[trigger] reps@[k]) < m && acts[reps@[k] as int] == d[k],
                j <= reps@.len(),
                forall|k: int| 0 <= k < j ==> d[k] != acts[m as int],
            decreases reps@.len() - j,
        {
            j = j + 1;
        }
        if j < reps.len() {
            assert(d[j as int] == acts[m as int]);
            assert(d.contains(acts[m as int]));
        } else {
            assert forall|k: int| 0 <= k < d.len() implies d[k] != acts[m as int] by {}
            assert(!d.contains(acts[m as int]));
            reps.push(m);
            assert(distinct_in_order(acts, m + 1) == d.push(acts[m as int]));
        }
        m = m + 1;
    }
    reps.len()
}

/// The number of distinct states among `states`, told apart by the rules' injective key.
fn count_distinct_states<G: GameDomain, R: GameRules<G>>(rules: &R, states: &[G::State]) -> (n: usize)
    ensures
        n == distinct_in_order(states@, states@.len() as int).len(),
{
    broadcast use vstd::std_specs::hash::group_hash_axioms;

    let mut seen: HashSet<u64> = HashSet::new();
    let mut count: usize = 0;
    let mut m: usize = 0;
    while m < states.len()
        invariant
            m <= states@.len(),
            count == distinct_in_order(states@, m as int).len(),
            forall|s: G::State| #[trigger] seen@.contains(rules.spec_key(s)) ==> states@.take(m as int).contains(s),
            forall|i: int| 0 <= i < m ==> seen@.contains(rules.spec_key(#[trigger] states@[i])),
        decreases states@.len() - m,
    {
        let state = states[m];
        let key = rules.state_key(&state);
        proof {
            lemma_distinct_contains(states@, state, m as int);
            assert(states@.take(m + 1) =~= states@.take(m as int).push(state));
        }
        if !seen.contains(&key) {
            proof {
                assert(!states@.take(m as int).contains(state)) by {
                    if states@.take(m as int).contains(state) {
                        let i = choose|i: int| 0 <= i < m && #[trigger] states@.take(m as int)[i] == state;
                        assert(states@[i] == state);
                    }
                }
            }
            seen.insert(key);
            count = count + 1;
            proof {
                assert forall|s: G::State| #[trigger] seen@.contains(rules.spec_key(s)) implies states@.take(m + 1).contains(s) by {
                    if rules.spec_key(s) == key {
                        rules.lemma_key_injective(s, state);
                        assert(states@.take(m + 1)[m as int] == state);
                    } else {
                        let i = choose|i: int| 0 <= i < m && #[trigger] states@.take(m as int)[i] == s;
                        assert(states@.take(m + 1)[i] == s);
                    }
                }
            }
        } else {
            proof {
                assert(states@.take(m as int).contains(state));
                assert forall|s: G::State| #[trigger] seen@.contains(rules.spec_key(s)) implies states@.take(m + 1).contains(s) by {
                    let i = choose|i: int| 0 <= i < m && #[trigger] states@.take(m as int)[i] == s;
                    assert(states@.take(m + 1)[i] == s);
                }
            }
        }
        proof {
            lemma_distinct_contains(states@, state, m as int);
        }
        m = m + 1;
    }
    count
}

proof fn lemma_orbit_lens<O>(orbits: Seq<Option<usize>>, outs: Seq<Option<O>>, m: int)
    requires
        0 <= m,
    ensures
        orbit_keys(orbits, m).len() == orbit_outcomes(orbits, outs, m).len(),
        orbit_keys(orbits, m).len() <= m,
    decreases m,
{
    if m > 0 {
        lemma_orbit_lens(orbits, outs, m - 1);
    }
}

proof fn lemma_winners_take<G: GameDomain>(outs: Seq<Option<G::Outcome>>, m: int)
    requires
        0 <= m <= outs.len(),
    ensures
        winners::<G>(outs.take(m), m) == winners::<G>(outs, m),
    decreases m,
{
    if m > 0 {
        lemma_winners_take_prefix::<G>(outs, m, m - 1);
        lemma_winners_take::<G>(outs, m - 1);
        assert(outs.take(m)[m - 1] == outs[m - 1]);
    }
}

proof fn lemma_winners_take_prefix<G: GameDomain>(outs: Seq<Option<G::Outcome>>, m: int, k: int)
    requires
        0 <= k <= m <= outs.len(),
    ensures
        winners::<G>(outs.take(m), k) == winners::<G>(outs.take(k), k),
    decreases k,
{
    if k > 0 {
        lemma_winners_take_prefix::<G>(outs, m, k - 1);
        lemma_winners_take_prefix::<G>(outs, k, k - 1);
        assert(outs.take(m)[k - 1] == outs[k - 1]);
        assert(outs.take(k)[k - 1] == outs[k - 1]);
    }
}

/// The symmetry orbit of the position of a game's first action, when the game has primitives
/// and the game a first action played at a position.
pub open spec fn first_orbit_of<G: GameDomain, P: GamePrimitives<G>>(
    primitives: Option<P>,
    actions: Seq<G::Action>,
) -> Option<usize> {
    match primitives {
        Some(pr) => if actions.len() > 0 {
            match pr.spec_action_position(actions[0]) {
                Some(p) => if p < pr.spec_orbit_index().len() {
                    Some(pr.spec_orbit_index()[p as int])
                } else {
                    None
                },
                None => None,
            }
        } else {
            None
        },
        None => None,
    }
}

/// The first-action orbit of each game.
pub open spec fn first_orbits_of<G: GameDomain, P: GamePrimitives<G>, K>(
    primitives: Option<P>,
    games: Seq<GameRecord<G::State, G::Action, G::Player, G::Outcome, K>>,
) -> Seq<Option<usize>> {
    Seq::new(games.len(), |g: int| first_orbit_of::<G, P>(primitives, games[g].actions@))
}

/// Every game's first action, where it is played at a position, is played at one the orbit
/// index covers.
pub open spec fn first_positions_in_range<G: GameDomain, P: GamePrimitives<G>, K>(
    primitives: Option<P>,
    games: Seq<GameRecord<G::State, G::Action, G::Player, G::Outcome, K>>,
) -> bool {
    primitives matches Some(pr) ==> forall|g: int|
        0 <= g < games.len() && (#[trigger] games[g]).actions@.len() > 0 ==> (pr.spec_action_position(
            games[g].actions@[0],
        ) matches Some(p) ==> p < pr.spec_orbit_index().len())
}

/// The first-action orbit of each game of `games`.
fn first_action_orbits<G: GameDomain, R: GameRules<G>, C: Canonicalize<G>, P: GamePrimitives<G>, K>(
    bundle: &GameBundle<G, R, C, P>,
    games: &[GameRecord<G::State, G::Action, G::Player, G::Outcome, K>],
) -> (v: Vec<Option<usize>>)
    ensures
        v@ == first_orbits_of(bundle.primitives, games@),
{
    let mut v: Vec<Option<usize>> = Vec::new();
    let mut g: usize = 0;
    match &bundle.primitives {
        Some(pr) => {
            let table = pr.orbit_index();
            while g < games.len()
                invariant
                    bundle.primitives == Some(*pr),
                    table@ == pr.spec_orbit_index(),
                    g <= games@.len(),
                    v@ == first_orbits_of(bundle.primitives, games@).take(g as int),
                decreases games@.len() - g,
            {
                let orbit = if games[g].actions.len() > 0 {
                    match pr.action_position(&games[g].actions[0]) {
                        Some(p) => if p < table.len() {
                            Some(table[p])
                        } else {
                            None
                        },
                        None => None,
                    }
                } else {
                    None
                };
                v.push(orbit);
                g = g + 1;
                proof {
                    assert(v@ =~= first_orbits_of(bundle.primitives, games@).take(g as int));
                }
            }
        },
        None => {
            while g < games.len()
                invariant
                    bundle.primitives is None,
                    g <= games@.len(),
                    v@ == first_orbits_of(bundle.primitives, games@).take(g as int),
                decreases games@.len() - g,
            {
                v.push(None);
                g = g + 1;
                proof {
                    assert(v@ =~= first_orbits_of(bundle.primitives, games@).take(g as int));
                }
            }
        },
    }
    proof {
        assert(v@ =~= first_orbits_of(bundle.primitives, games@));
    }
    v
}

/// Counts a corpus: its games and positions, the outcome tally overall, per pairing, per ply
/// and per symmetry orbit of the first action (where the game has primitives and a first action), the
/// number of games per length, the decisive games, and the distinct action sequences, states and
/// canonical states. Every table is ordered by key, and every tally's winners by their label.
pub fn summary_counts<G: GameDomain, R: GameRules<G>, C: Canonicalize<G>, P: GamePrimitives<G>, K>(
    bundle: &GameBundle<G, R, C, P>,
    games: &[GameRecord<G::State, G::Action, G::Player, G::Outcome, K>],
    positions: &[PositionRecord<G::State, G::Action, G::Player, G::Outcome>],
) -> (c: SummaryCounts<G::Player>)
    requires
        first_positions_in_range(bundle.primitives, games@),
        games@.len() + positions@.len() < usize::MAX,
    ensures
        c.games == games@.len(),
        c.positions == positions@.len(),
        tallies::<G>(c.outcomes, game_outcomes(games@)),
        sorted_tallies::<G, String>(c.by_pairing@, pairing_keys(games@), game_outcomes(games@)),
        sorted_counts(c.by_length@, game_lengths(games@)),
        sorted_tallies::<G, usize>(c.by_ply@, position_plies(positions@), position_outcomes(positions@)),
        sorted_tallies::<G, usize>(
            c.by_first_action_orbit@,
            orbit_keys(first_orbits_of(bundle.primitives, games@), games@.len() as int),
            orbit_outcomes(first_orbits_of(bundle.primitives, games@), game_outcomes(games@), games@.len() as int),
        ),
        c.decisive_games == winners::<G>(game_outcomes(games@), games@.len() as int).len(),
        c.distinct_games == distinct_in_order(game_actions(games@), games@.len() as int).len(),
        c.distinct_positions == distinct_in_order(
            seen_states(games@, positions@),
            seen_states(games@, positions@).len() as int,
        ).len(),
        c.distinct_canonical_positions == distinct_in_order(
            seen_canonical_states(games@, positions@),
            seen_canonical_states(games@, positions@).len() as int,
        ).len(),
{
    let first_orbits = first_action_orbits(bundle, games);
    let ghost outs = game_outcomes(games@);
    let ghost keys = pairing_keys(games@);
    let ghost lens = game_lengths(games@);
    let ghost orbits = first_orbits@;
    let ghost n = games@.len() as int;
    let mut outcomes: OutcomeCounts<G::Player> = no_outcomes();
    let mut by_pairing: Vec<(String, OutcomeCounts<G::Player>)> = Vec::new();
    let mut by_length: Vec<(usize, usize)> = Vec::new();
    let mut by_orbit: Vec<(usize, OutcomeCounts<G::Player>)> = Vec::new();
    let mut decisive: usize = 0;
    proof {
        reveal_strlit(" vs ");
        assert(outs.take(0) =~= Seq::<Option<G::Outcome>>::empty());
        assert(keys.take(0) =~= Seq::<Seq<char>>::empty());
        assert(lens.take(0) =~= Seq::<usize>::empty());
    }
    let mut m: usize = 0;
    while m < games.len()
        invariant
            outs == game_outcomes(games@),
            keys == pairing_keys(games@),
            lens == game_lengths(games@),
            orbits == first_orbits@,
            n == games@.len(),
            orbits.len() == n,
            n + positions@.len() < usize::MAX,
            m <= n,
            tallies::<G>(outcomes, outs.take(m as int)),
            tallies_by_key::<G, String>(by_pairing@, keys.take(m as int), outs.take(m as int)),
            counts_by_key(by_length@, lens.take(m as int)),
            tallies_by_key::<G, usize>(by_orbit@, orbit_keys(orbits, m as int), orbit_outcomes(orbits, outs, m as int)),
            decisive == winners::<G>(outs, m as int).len(),
        decreases n - m,
    {
        let outcome = games[m].outcome;
        proof {
            assert(outcome == outs[m as int]);
            assert(outs.take(m + 1) =~= outs.take(m as int).push(outcome));
            assert(keys.take(m + 1) =~= keys.take(m as int).push(keys[m as int]));
            assert(lens.take(m + 1) =~= lens.take(m as int).push(lens[m as int]));
            lemma_counts_bound::<G>(outs, m as int);
            lemma_orbit_lens(orbits, outs, m as int);
        }
        tally::<G>(&mut outcomes, outcome, Ghost(outs.take(m as int)));
        match outcome {
            Some(o) => {
                if G::winner(&o).is_some() {
                    decisive = decisive + 1;
                }
            },
            None => {},
        }
        let key = join_with(&games[m].cell.strategies, " vs ");
        proof {
            assert(games@[m as int].cell.strategies@.map_values(|p: String| p@) =~= texts(
                games@[m as int].cell.strategies@,
            ));
            assert(key@ == keys[m as int]);
        }
        tally_by_key::<G, String>(&mut by_pairing, key, outcome, Ghost(keys.take(m as int)), Ghost(outs.take(m as int)));
        count_by_key(&mut by_length, games[m].length, Ghost(lens.take(m as int)));
        match first_orbits[m] {
            Some(k) => {
                tally_by_key::<G, usize>(
                    &mut by_orbit,
                    k,
                    outcome,
                    Ghost(orbit_keys(orbits, m as int)),
                    Ghost(orbit_outcomes(orbits, outs, m as int)),
                );
            },
            None => {},
        }
        m = m + 1;
    }
    proof {
        assert(outs.take(n) =~= outs);
        assert(keys.take(n) =~= keys);
        assert(lens.take(n) =~= lens);
    }
    let ghost pouts = position_outcomes(positions@);
    let ghost plies = position_plies(positions@);
    let mut by_ply: Vec<(usize, OutcomeCounts<G::Player>)> = Vec::new();
    proof {
        assert(pouts.take(0) =~= Seq::<Option<G::Outcome>>::empty());
        assert(plies.take(0) =~= Seq::<usize>::empty());
    }
    let mut k: usize = 0;
    while k < positions.len()
        invariant
            pouts == position_outcomes(positions@),
            plies == position_plies(positions@),
            games@.len() + positions@.len() < usize::MAX,
            k <= positions@.len(),
            tallies_by_key::<G, usize>(by_ply@, plies.take(k as int), pouts.take(k as int)),
        decreases positions@.len() - k,
    {
        proof {
            assert(pouts.take(k + 1) =~= pouts.take(k as int).push(pouts[k as int]));
            assert(plies.take(k + 1) =~= plies.take(k as int).push(plies[k as int]));
        }
        tally_by_key::<G, usize>(
            &mut by_ply,
            positions[k].ply,
            positions[k].outcome,
            Ghost(plies.take(k as int)),
            Ghost(pouts.take(k as int)),
        );
        k = k + 1;
    }
    proof {
        assert(pouts.take(positions@.len() as int) =~= pouts);
        assert(plies.take(positions@.len() as int) =~= plies);
    }
    let mut raw: Vec<G::State> = Vec::new();
    let mut canonical: Vec<G::State> = Vec::new();
    let ghost seen = seen_states(games@, positions@);
    let ghost seen_c = seen_canonical_states(games@, positions@);
    let mut i: usize = 0;
    while i < games.len()
        invariant
            seen == seen_states(games@, positions@),
            seen_c == seen_canonical_states(games@, positions@),
            i <= games@.len(),
            raw@ == seen.take(i as int),
            canonical@ == seen_c.take(i as int),
        decreases games@.len() - i,
    {
        raw.push(games[i].final_state);
        canonical.push(games[i].final_canonical_state);
        i = i + 1;
        proof {
            assert(raw@ =~= seen.take(i as int));
            assert(canonical@ =~= seen_c.take(i as int));
        }
    }
    let mut j: usize = 0;
    while j < positions.len()
        invariant
            seen == seen_states(games@, positions@),
            seen_c == seen_canonical_states(games@, positions@),
            j <= positions@.len(),
            raw@ == seen.take(games@.len() + j as int),
            canonical@ == seen_c.take(games@.len() + j as int),
        decreases positions@.len() - j,
    {
        raw.push(positions[j].state);
        canonical.push(positions[j].canonical_state);
        j = j + 1;
        proof {
            assert(raw@ =~= seen.take(games@.len() + j as int));
            assert(canonical@ =~= seen_c.take(games@.len() + j as int));
        }
    }
    proof {
        assert(raw@ =~= seen);
        assert(canonical@ =~= seen_c);
    }
    let distinct_positions = count_distinct_states::<G, R>(&bundle.rules, raw.as_slice());
    let distinct_canonical_positions = count_distinct_states::<G, R>(&bundle.rules, canonical.as_slice());
    let distinct_games = count_distinct_games::<G, K>(games);
    let by_pairing = sort_tallies::<G, String>(by_pairing, Ghost(keys), Ghost(outs));
    let by_length = sort_counts(by_length, Ghost(lens));
    let by_ply = sort_tallies::<G, usize>(by_ply, Ghost(plies), Ghost(pouts));
    let by_orbit = sort_tallies::<G, usize>(
        by_orbit,
        Ghost(orbit_keys(orbits, n)),
        Ghost(orbit_outcomes(orbits, outs, n)),
    );
    SummaryCounts {
        games: games.len(),
        positions: positions.len(),
        distinct_games,
        distinct_positions,
        distinct_canonical_positions,
        decisive_games: decisive,
        outcomes,
        by_pairing,
        by_length,
        by_ply,
        by_first_action_orbit: by_orbit,
    }
}

/// `Σ_{j < k} occurrences(s, d[j], m)`.
pub open spec fn sum_occurrences<T>(s: Seq<T>, d: Seq<T>, m: int, k: int) -> int
    decreases k,
{
    if k <= 0 {
        0
    } else {
        sum_occurrences(s, d, m, k - 1) + occurrences(s, d[k - 1], m)
    }
}

/// Wins summed over the first `k` winners of a tally.
pub open spec fn sum_wins<P>(wins: Seq<(P, usize)>, k: int) -> int
    decreases k,
{
    if k <= 0 {
        0
    } else {
        sum_wins(wins, k - 1) + wins[k - 1].1
    }
}

/// Totals summed over the first `k` entries of a keyed tally.
pub open spec fn sum_totals<K, P>(table: Seq<(K, OutcomeCounts<P>)>, k: int) -> int
    decreases k,
{
    if k <= 0 {
        0
    } else {
        sum_totals(table, k - 1) + table[k - 1].1.total
    }
}

/// Counts summed over the first `k` entries of a keyed count.
pub open spec fn sum_keyed_counts(table: Seq<(usize, usize)>, k: int) -> int
    decreases k,
{
    if k <= 0 {
        0
    } else {
        sum_keyed_counts(table, k - 1) + table[k - 1].1
    }
}

proof fn lemma_sum_occurrences_agree<T>(s: Seq<T>, d: Seq<T>, e: Seq<T>, m: int, k: int)
    requires
        0 <= k <= d.len(),
        k <= e.len(),
        forall|j: int| 0 <= j < k ==> d[j] == e[j],
    ensures
        sum_occurrences(s, d, m, k) == sum_occurrences(s, e, m, k),
    decreases k,
{
    if k > 0 {
        lemma_sum_occurrences_agree(s, d, e, m, k - 1);
    }
}

proof fn lemma_sum_occurrences_step<T>(s: Seq<T>, d: Seq<T>, m: int, k: int)
    requires
        0 <= m < s.len(),
        0 <= k <= d.len(),
        d.no_duplicates(),
    ensures
        sum_occurrences(s, d, m + 1, k) == sum_occurrences(s, d, m, k) + if d.take(k).contains(s[m]) {
            1int
        } else {
            0
        },
    decreases k,
{
    if k > 0 {
        lemma_sum_occurrences_step(s, d, m, k - 1);
        assert(d.take(k) =~= d.take(k - 1).push(d[k - 1]));
        if d.take(k - 1).contains(s[m]) {
            let i = choose|i: int| 0 <= i < k - 1 && #[trigger] d.take(k - 1)[i] == s[m];
            assert(d.take(k)[i] == s[m]);
            assert(d[i] != d[k - 1]);
        }
        if d.take(k).contains(s[m]) && !d.take(k - 1).contains(s[m]) {
            let i = choose|i: int| 0 <= i < k && #[trigger] d.take(k)[i] == s[m];
            if i < k - 1 {
                assert(d.take(k - 1)[i] == s[m]);
            }
        }
        if d[k - 1] == s[m] {
            assert(d.take(k)[k - 1] == s[m]);
        }
    }
}

/// Each value of a prefix is counted once per occurrence: the occurrences of the distinct values
/// add up to the prefix's length.
pub(crate) proof fn lemma_sum_occurrences_total<T>(s: Seq<T>, m: int)
    requires
        0 <= m <= s.len(),
    ensures
        sum_occurrences(s, distinct_in_order(s, m), m, distinct_in_order(s, m).len() as int) == m,
    decreases m,
{
    if m > 0 {
        let x = s[m - 1];
        let d = distinct_in_order(s, m - 1);
        lemma_sum_occurrences_total(s, m - 1);
        lemma_distinct_contains(s, x, m - 1);
        assert(d.take(d.len() as int) =~= d);
        lemma_sum_occurrences_step(s, d, m - 1, d.len() as int);
        if !d.contains(x) {
            let d2 = d.push(x);
            lemma_distinct_contains(s, x, m);
            lemma_sum_occurrences_agree(s, d2, d, m, d.len() as int);
            lemma_occurrences_absent(s, x, m - 1);
        }
    }
}

proof fn lemma_outcome_kinds<G: GameDomain>(outs: Seq<Option<G::Outcome>>, m: int)
    requires
        0 <= m,
    ensures
        winners::<G>(outs, m).len() + count_draws::<G>(outs, m) + count_unfinished(outs, m) == m,
    decreases m,
{
    if m > 0 {
        lemma_outcome_kinds::<G>(outs, m - 1);
    }
}

proof fn lemma_select_len<V, O>(keys: Seq<V>, outs: Seq<Option<O>>, k: V, m: int)
    requires
        0 <= m,
    ensures
        select(keys, outs, k, m).len() == occurrences(keys, k, m),
    decreases m,
{
    if m > 0 {
        lemma_select_len(keys, outs, k, m - 1);
    }
}

/// A tally accounts for every outcome exactly once: its wins, draws and unfinished games add up
/// to its total.
pub proof fn lemma_tally_accounts<G: GameDomain>(c: OutcomeCounts<G::Player>, outs: Seq<Option<G::Outcome>>)
    requires
        tallies::<G>(c, outs),
    ensures
        sum_wins(c.wins@, c.wins@.len() as int) + c.draws + c.unfinished == c.total,
{
    let w = winners::<G>(outs, outs.len() as int);
    let d = c.wins@.map_values(|e: (G::Player, usize)| e.0);
    assert forall|k: int| 0 <= k <= c.wins@.len() implies sum_wins(c.wins@, k) == sum_occurrences(
        w,
        d,
        w.len() as int,
        k,
    ) by {
        lemma_sum_wins_occurrences::<G>(c, outs, k);
    }
    assert forall|a: int, b: int| 0 <= a < d.len() && 0 <= b < d.len() && a != b implies d[a] != d[b] by {
        if a < b {
            assert(label_before::<G>(c.wins@[a].0, c.wins@[b].0));
            lemma_text_irreflexive(G::spec_player_label(c.wins@[a].0), 0);
        } else {
            assert(label_before::<G>(c.wins@[b].0, c.wins@[a].0));
            lemma_text_irreflexive(G::spec_player_label(c.wins@[b].0), 0);
        }
    }
    assert forall|i: int| 0 <= i < w.len() implies d.contains(#[trigger] w[i]) by {
        assert(w.contains(w[i]));
        assert(wins_cover(c.wins@, w[i]));
        let z = choose|z: int| 0 <= z < c.wins@.len() && c.wins@[z].0 == w[i];
        assert(d[z] == w[i]);
    }
    lemma_sum_occurrences_cover(w, d, w.len() as int);
    assert(d.len() == c.wins@.len());
    lemma_outcome_kinds::<G>(outs, outs.len() as int);
}

/// Occurrences counted over distinct values that include every value of a prefix add up to the
/// prefix's length.
proof fn lemma_sum_occurrences_cover<T>(s: Seq<T>, d: Seq<T>, m: int)
    requires
        0 <= m <= s.len(),
        d.no_duplicates(),
        forall|i: int| 0 <= i < m ==> d.contains(#[trigger] s[i]),
    ensures
        sum_occurrences(s, d, m, d.len() as int) == m,
    decreases m,
{
    if m == 0 {
        lemma_sum_occurrences_none(s, d, d.len() as int);
    } else {
        lemma_sum_occurrences_cover(s, d, m - 1);
        lemma_sum_occurrences_step(s, d, m - 1, d.len() as int);
        assert(d.take(d.len() as int) =~= d);
        assert(d.contains(s[m - 1]));
    }
}

proof fn lemma_sum_occurrences_none<T>(s: Seq<T>, d: Seq<T>, k: int)
    requires
        0 <= k,
    ensures
        sum_occurrences(s, d, 0, k) == 0,
    decreases k,
{
    if k > 0 {
        lemma_sum_occurrences_none(s, d, k - 1);
    }
}

proof fn lemma_sum_wins_occurrences<G: GameDomain>(c: OutcomeCounts<G::Player>, outs: Seq<Option<G::Outcome>>, k: int)
    requires
        tallies::<G>(c, outs),
        0 <= k <= c.wins@.len(),
    ensures
        ({
            let w = winners::<G>(outs, outs.len() as int);
            sum_wins(c.wins@, k) == sum_occurrences(w, c.wins@.map_values(|e: (G::Player, usize)| e.0), w.len() as int, k)
        }),
    decreases k,
{
    if k > 0 {
        lemma_sum_wins_occurrences::<G>(c, outs, k - 1);
        assert(c.wins@.map_values(|e: (G::Player, usize)| e.0)[k - 1] == c.wins@[k - 1].0);
        assert(c.wins@[k - 1].1 == occurrences(
            winners::<G>(outs, outs.len() as int),
            c.wins@[k - 1].0,
            winners::<G>(outs, outs.len() as int).len() as int,
        ));
    }
}


proof fn lemma_sum_totals_occurrences<G: GameDomain, K: View>(
    table: Seq<(K, OutcomeCounts<G::Player>)>,
    keys: Seq<K::V>,
    outs: Seq<Option<G::Outcome>>,
    k: int,
)
    requires
        tallies_by_key::<G, K>(table, keys, outs),
        0 <= k <= table.len(),
    ensures
        sum_totals(table, k) == sum_occurrences(keys, distinct_in_order(keys, keys.len() as int), keys.len() as int, k),
    decreases k,
{
    if k > 0 {
        lemma_sum_totals_occurrences::<G, K>(table, keys, outs, k - 1);
        let d = distinct_in_order(keys, keys.len() as int);
        assert(tallies::<G>(table[k - 1].1, select(keys, outs, d[k - 1], keys.len() as int)));
        lemma_select_len(keys, outs, d[k - 1], keys.len() as int);
    }
}

/// A keyed tally accounts for every item exactly once: the totals of its entries add up to the
/// number of items.
pub proof fn lemma_keyed_tally_accounts<G: GameDomain, K: View>(
    table: Seq<(K, OutcomeCounts<G::Player>)>,
    keys: Seq<K::V>,
    outs: Seq<Option<G::Outcome>>,
)
    requires
        tallies_by_key::<G, K>(table, keys, outs),
    ensures
        sum_totals(table, table.len() as int) == keys.len(),
{
    lemma_sum_totals_occurrences::<G, K>(table, keys, outs, table.len() as int);
    lemma_sum_occurrences_total(keys, keys.len() as int);
}

proof fn lemma_sum_keyed_occurrences(table: Seq<(usize, usize)>, keys: Seq<usize>, k: int)
    requires
        counts_by_key(table, keys),
        0 <= k <= table.len(),
    ensures
        sum_keyed_counts(table, k) == sum_occurrences(keys, distinct_in_order(keys, keys.len() as int), keys.len() as int, k),
    decreases k,
{
    if k > 0 {
        lemma_sum_keyed_occurrences(table, keys, k - 1);
    }
}

/// A keyed count accounts for every item exactly once: its counts add up to the number of items.
pub proof fn lemma_keyed_count_accounts(table: Seq<(usize, usize)>, keys: Seq<usize>)
    requires
        counts_by_key(table, keys),
    ensures
        sum_keyed_counts(table, table.len() as int) == keys.len(),
{
    lemma_sum_keyed_occurrences(table, keys, table.len() as int);
    lemma_sum_occurrences_total(keys, keys.len() as int);
}

} // verus!
