//! Expanding a played game into its corpus records: one game record and one position record
//! per ply.

use vstd::prelude::*;
use vstd::string::*;
use crate::discovery::annotate::bundle_canonical;
use crate::discovery::bundle::GameBundle;
use crate::discovery::config::{copy_names, copy_vec, texts, Cell, CorpusError, GenerateConfig, ResolvedConfig};
use crate::discovery::match_engine::{
    all_seated, is_played, opening_count, opening_plies_played, opening_prefix_len, opening_settles, play_games,
    batch_end, opening_mover_label, opening_strands, seats_of, spec_game_seed, strands, MatchConfig, PlayEnd,
};
use crate::discovery::summary::{bundle_transform, game_verdict, ply_failure_from, positions_of};
use crate::framework::text::{decimal, decimal_string};
use crate::framework::traits::{Canonicalize, GameDomain, GameRules, MatchError, MatchRecord, StrategyProvider};
use crate::io::replay::{final_state, replay, replay_refusal, state_after};
use crate::io::schema::{CellKey, GameRecord, PositionRecord, SCHEMA_VERSION};

verus! {

/// `"{cell index}:{game index}"`.
pub open spec fn game_id_text(cell_index: usize, game_index: usize) -> Seq<char> {
    decimal(cell_index as nat) + ":"@ + decimal(game_index as nat)
}

/// The first slot of `players` that holds `p`.
pub open spec fn first_slot<P>(players: Seq<P>, p: P) -> int {
    choose|j: int| 0 <= j < players.len() && players[j] == p && forall|k: int| 0 <= k < j ==> players[k] != p
}

/// The state before ply `i` of `actions`.
pub open spec fn ply_state<G: GameDomain, R: GameRules<G>>(rules: &R, actions: Seq<G::Action>, i: int) -> G::State {
    state_after::<G, R>(rules, actions, i)->0
}

/// Whether ply `i` was a strategy's ply (after the opening's `opening_plies`) and its side to
/// move is none of the bundle's players.
pub open spec fn is_stray_ply<G: GameDomain, R: GameRules<G>, C: Canonicalize<G>, P>(
    bundle: &GameBundle<G, R, C, P>,
    actions: Seq<G::Action>,
    opening_plies: int,
    i: int,
) -> bool {
    &&& opening_plies <= i < actions.len()
    &&& !bundle.players@.contains(bundle.rules.spec_player_to_move(ply_state::<G, R>(&bundle.rules, actions, i)))
}

/// The first stray ply.
pub open spec fn first_stray_ply<G: GameDomain, R: GameRules<G>, C: Canonicalize<G>, P>(
    bundle: &GameBundle<G, R, C, P>,
    actions: Seq<G::Action>,
    opening_plies: int,
) -> int {
    choose|i: int|
        is_stray_ply(bundle, actions, opening_plies, i) && forall|k: int|
            0 <= k < i ==> !is_stray_ply(bundle, actions, opening_plies, k)
}

/// Who chose the action at ply `i`: the fixed opening, the random opening, or the strategy entry
/// of the side to move.
pub open spec fn chosen_by_text<G: GameDomain, R: GameRules<G>, C: Canonicalize<G>, P, K>(
    bundle: &GameBundle<G, R, C, P>,
    cell: &Cell<G::Action, K>,
    actions: Seq<G::Action>,
    opening_plies: int,
    i: int,
) -> Seq<char> {
    if i < cell.opening.actions@.len() {
        "opening"@
    } else if i < opening_plies {
        "random-opening"@
    } else {
        let mover = bundle.rules.spec_player_to_move(ply_state::<G, R>(&bundle.rules, actions, i));
        cell.entries@[first_slot(bundle.players@, mover)].name@
    }
}

/// Whether `a` holds the same key as `b`.
pub open spec fn same_key(a: CellKey, b: CellKey) -> bool {
    &&& a.index == b.index
    &&& texts(a.strategies@) == texts(b.strategies@)
    &&& a.evaluator@ == b.evaluator@
    &&& a.opening@ == b.opening@
    &&& a.random_opening_plies == b.random_opening_plies
}

/// `game` is the record of `record`, played in `cell` of run `run_id`.
pub open spec fn is_game_record<G: GameDomain, R: GameRules<G>, C: Canonicalize<G>, P, K: Clone>(
    game: GameRecord<G::State, G::Action, G::Player, G::Outcome, K>,
    bundle: &GameBundle<G, R, C, P>,
    run_id: Seq<char>,
    cell: &Cell<G::Action, K>,
    record: &MatchRecord<G::Action, G::Outcome>,
) -> bool {
    let n = record.actions@.len();
    let last = ply_state::<G, R>(&bundle.rules, record.actions@, n as int);
    &&& game.schema_version == SCHEMA_VERSION
    &&& game.run_id@ == run_id
    &&& game.game_id@ == game_id_text(cell.key.index, record.game_index)
    &&& same_key(game.cell, cell.key)
    &&& game.game_index == record.game_index
    &&& game.seed == record.seed
    &&& game.players@ == bundle.players@
    &&& game.specs@.len() == cell.entries@.len()
    &&& forall|j: int| 0 <= j < game.specs@.len() ==> cloned(cell.entries@[j].spec, #[trigger] game.specs@[j])
    &&& game.opening_plies == opening_count(n, &cell.opening)
    &&& game.actions@ == record.actions@
    &&& game.outcome == record.outcome
    &&& game.length == n
    &&& game.final_state == last
    &&& game.final_canonical_state == bundle_canonical(bundle, last)
}

/// `pos` is the record of ply `i` of `record`, played in `cell`.
pub open spec fn is_position_record<G: GameDomain, R: GameRules<G>, C: Canonicalize<G>, P, K>(
    pos: PositionRecord<G::State, G::Action, G::Player, G::Outcome>,
    bundle: &GameBundle<G, R, C, P>,
    cell: &Cell<G::Action, K>,
    record: &MatchRecord<G::Action, G::Outcome>,
    i: int,
) -> bool {
    let acts = record.actions@;
    let s = ply_state::<G, R>(&bundle.rules, acts, i);
    &&& pos.schema_version == SCHEMA_VERSION
    &&& pos.game_id@ == game_id_text(cell.key.index, record.game_index)
    &&& pos.ply == i
    &&& pos.side_to_move == bundle.rules.spec_player_to_move(s)
    &&& pos.state == s
    &&& pos.canonical_state == bundle_canonical(bundle, s)
    &&& pos.canonical_transform@ == bundle_transform(bundle, s)
    &&& pos.legal_actions@ == bundle.rules.spec_legal_actions(s)
    &&& pos.chosen_action == acts[i]
    &&& pos.chosen_by@ == chosen_by_text(bundle, cell, acts, opening_count(acts.len(), &cell.opening), i)
    &&& pos.outcome == record.outcome
    &&& pos.game_length == acts.len()
}

/// Every strategy ply of `actions` whose side to move is one of the players falls to a slot
/// that `cell` has an entry for.
pub open spec fn entries_cover<G: GameDomain, R: GameRules<G>, C: Canonicalize<G>, P, K>(
    bundle: &GameBundle<G, R, C, P>,
    cell: &Cell<G::Action, K>,
    actions: Seq<G::Action>,
) -> bool {
    forall|i: int|
        opening_count(actions.len(), &cell.opening) <= i < actions.len() && bundle.players@.contains(
            #[trigger] bundle.rules.spec_player_to_move(ply_state::<G, R>(&bundle.rules, actions, i)),
        ) ==> first_slot(bundle.players@, bundle.rules.spec_player_to_move(ply_state::<G, R>(&bundle.rules, actions, i)))
            < cell.entries@.len()
}

/// A cell with one entry per player covers every game.
proof fn lemma_full_cover<G: GameDomain, R: GameRules<G>, C: Canonicalize<G>, P, K>(
    bundle: &GameBundle<G, R, C, P>,
    cell: &Cell<G::Action, K>,
    actions: Seq<G::Action>,
)
    requires
        cell.entries@.len() == bundle.players@.len(),
    ensures
        entries_cover(bundle, cell, actions),
{
    assert forall|i: int|
        opening_count(actions.len(), &cell.opening) <= i < actions.len() && bundle.players@.contains(
            #[trigger] bundle.rules.spec_player_to_move(ply_state::<G, R>(&bundle.rules, actions, i)),
        ) implies first_slot(bundle.players@, bundle.rules.spec_player_to_move(ply_state::<G, R>(&bundle.rules, actions, i)))
        < cell.entries@.len() by {
        let p = bundle.rules.spec_player_to_move(ply_state::<G, R>(&bundle.rules, actions, i));
        let j = choose|j: int| 0 <= j < bundle.players@.len() && bundle.players@[j] == p;
        lemma_first_slot_exists(bundle.players@, p, j);
    }
}

/// The first slot holding a player that some slot holds exists.
proof fn lemma_first_slot_exists<Q>(players: Seq<Q>, p: Q, j: int)
    requires
        0 <= j < players.len(),
        players[j] == p,
    ensures
        0 <= first_slot(players, p) < players.len(),
        players[first_slot(players, p)] == p,
    decreases j,
{
    if exists|k: int| 0 <= k < j && players[k] == p {
        let k = choose|k: int| 0 <= k < j && players[k] == p;
        lemma_first_slot_exists(players, p, k);
    } else {
        assert(forall|k: int| 0 <= k < j ==> players[k] != p);
    }
}

/// A copy of `key`.
fn copy_key(key: &CellKey) -> (c: CellKey)
    ensures
        same_key(c, *key),
{
    CellKey {
        index: key.index,
        strategies: copy_names(&key.strategies),
        evaluator: key.evaluator.clone(),
        opening: key.opening.clone(),
        random_opening_plies: key.random_opening_plies,
    }
}

/// Expands one played `record` of `cell` into its game record and one position record per ply.
/// Fails with the rules' refusal when the actions do not replay from the initial state, and with
/// a configuration error at the first strategy ply whose side to move is none of the game's
/// players.
pub fn expand_game<G: GameDomain, R: GameRules<G>, C: Canonicalize<G>, P, K: Clone>(
    bundle: &GameBundle<G, R, C, P>,
    run_id: &str,
    cell: &Cell<G::Action, K>,
    record: &MatchRecord<G::Action, G::Outcome>,
) -> (r: Result<
    (GameRecord<G::State, G::Action, G::Player, G::Outcome, K>, Vec<PositionRecord<G::State, G::Action, G::Player, G::Outcome>>),
    CorpusError,
>)
    requires
        entries_cover(bundle, cell, record.actions@),
    ensures
        ({
            let acts = record.actions@;
            let n = acts.len() as int;
            let op = opening_count(acts.len(), &cell.opening);
            &&& r is Ok <==> state_after::<G, R>(&bundle.rules, acts, n) is Some && !exists|i: int|
                is_stray_ply(bundle, acts, op, i)
            &&& state_after::<G, R>(&bundle.rules, acts, n) is None ==> (r matches Err(CorpusError::Rules(e))
                && replay_refusal::<G, R>(&bundle.rules, acts, n) == Some(e.detail()))
            &&& state_after::<G, R>(&bundle.rules, acts, n) is Some ==> (r matches Err(e) ==> (e matches CorpusError::Config(m)
                && m@ == "side to move is not one of the game's players at ply "@ + decimal(
                first_stray_ply(bundle, acts, op) as nat,
            ) + " of game "@ + game_id_text(cell.key.index, record.game_index)))
            &&& r matches Ok((game, positions)) ==> {
                &&& is_game_record(game, bundle, run_id@, cell, record)
                &&& positions@.len() == n
                &&& forall|i: int|
                    0 <= i < n ==> is_position_record(#[trigger] positions@[i], bundle, cell, record, i)
            }
        }),
{
    let ghost acts = record.actions@;
    let rules = &bundle.rules;
    let pairs = match replay(rules, record.actions.as_slice()) {
        Ok(p) => p,
        Err(e) => {
            return Err(CorpusError::Rules(e));
        },
    };
    let last_state = match final_state(rules, record.actions.as_slice()) {
        Ok(s) => s,
        Err(e) => {
            return Err(CorpusError::Rules(e));
        },
    };
    let (final_canonical_state, _) = bundle.canonicalize(&last_state);
    let opening_plies = opening_plies_played(record, &cell.opening);
    let mut game_id = decimal_string(cell.key.index);
    game_id.append(":");
    let index_text = decimal_string(record.game_index);
    game_id.append(index_text.as_str());
    proof {
        reveal_strlit(":");
    }
    let mut specs: Vec<K> = Vec::new();
    let mut j: usize = 0;
    while j < cell.entries.len()
        invariant
            j <= cell.entries@.len(),
            specs@.len() == j,
            forall|k: int| 0 <= k < j ==> cloned(cell.entries@[k].spec, #[trigger] specs@[k]),
        decreases cell.entries@.len() - j,
    {
        specs.push(cell.entries[j].spec.clone());
        j = j + 1;
    }
    let game = GameRecord {
        schema_version: SCHEMA_VERSION,
        run_id: String::from_str(run_id),
        game_id: game_id.clone(),
        cell: copy_key(&cell.key),
        game_index: record.game_index,
        seed: record.seed,
        players: copy_vec(&bundle.players),
        specs,
        opening_plies,
        actions: copy_vec(&record.actions),
        outcome: record.outcome,
        length: record.actions.len(),
        final_state: last_state,
        final_canonical_state,
    };
    let mut positions: Vec<PositionRecord<G::State, G::Action, G::Player, G::Outcome>> = Vec::new();
    let mut i: usize = 0;
    while i < pairs.len()
        invariant
            acts == record.actions@,
            *rules == bundle.rules,
            state_after::<G, R>(rules, acts, acts.len() as int) is Some,
            pairs@.len() == acts.len(),
            forall|k: int|
                0 <= k < pairs@.len() ==> (#[trigger] pairs@[k]).0 == ply_state::<G, R>(rules, acts, k)
                    && pairs@[k].1 == acts[k],
            entries_cover(bundle, cell, record.actions@),
            opening_plies == opening_count(acts.len(), &cell.opening),
            game_id@ == game_id_text(cell.key.index, record.game_index),
            i <= pairs@.len(),
            positions@.len() == i,
            forall|k: int| 0 <= k < i ==> is_position_record(#[trigger] positions@[k], bundle, cell, record, k),
            forall|k: int| 0 <= k < i ==> !is_stray_ply(bundle, acts, opening_plies as int, k),
        decreases pairs@.len() - i,
    {
        let state = pairs[i].0;
        let action = pairs[i].1;
        let side_to_move = rules.player_to_move(&state);
        let (canonical_state, canonical_transform) = bundle.canonicalize(&state);
        let legal_actions = rules.legal_actions(&state);
        proof {
            if bundle.canonicalizer is None {
                assert(canonical_transform@ =~= Seq::<usize>::empty());
            }
        }
        proof {
            reveal_strlit("opening");
            reveal_strlit("random-opening");
        }
        let chosen_by = if i < cell.opening.actions.len() {
            String::from_str("opening")
        } else if i < opening_plies {
            String::from_str("random-opening")
        } else {
            match bundle.player_slot(side_to_move) {
                Some(slot) => {
                    proof {
                        let f = first_slot(bundle.players@, side_to_move);
                        assert(bundle.players@[slot as int] == side_to_move);
                        assert(0 <= f < bundle.players@.len() && bundle.players@[f] == side_to_move
                            && forall|k: int| 0 <= k < f ==> bundle.players@[k] != side_to_move);
                        if f < slot {
                            assert(bundle.players@[f] != side_to_move);
                        } else if f > slot {
                            assert(bundle.players@[slot as int] != side_to_move);
                        }
                    }
                    proof {
                        assert(bundle.players@.contains(side_to_move));
                        assert(side_to_move == bundle.rules.spec_player_to_move(ply_state::<G, R>(rules, acts, i as int)));
                    }
                    cell.entries[slot].name.clone()
                },
                None => {
                    proof {
                        assert(is_stray_ply(bundle, acts, opening_plies as int, i as int));
                        let f = first_stray_ply(bundle, acts, opening_plies as int);
                        assert(is_stray_ply(bundle, acts, opening_plies as int, f) && forall|k: int|
                            0 <= k < f ==> !is_stray_ply(bundle, acts, opening_plies as int, k));
                        if f > i {
                            assert(!is_stray_ply(bundle, acts, opening_plies as int, i as int));
                        }
                        reveal_strlit("side to move is not one of the game's players at ply ");
                        reveal_strlit(" of game ");
                    }
                    let mut m = String::from_str("side to move is not one of the game's players at ply ");
                    let ply_text = decimal_string(i);
                    m.append(ply_text.as_str());
                    m.append(" of game ");
                    m.append(game_id.as_str());
                    return Err(CorpusError::Config(m));
                },
            }
        };
        positions.push(
            PositionRecord {
                schema_version: SCHEMA_VERSION,
                game_id: game_id.clone(),
                ply: i,
                side_to_move,
                state,
                canonical_state,
                canonical_transform,
                legal_actions,
                chosen_action: action,
                chosen_by,
                outcome: record.outcome,
                game_length: record.actions.len(),
            },
        );
        i = i + 1;
    }
    Ok((game, positions))
}

/// Every position of `positions` belongs to game `id`: the positions of `id` among the first
/// `n` are the first `n`.
proof fn lemma_positions_of_all<S, A, Q, O>(positions: Seq<PositionRecord<S, A, Q, O>>, id: Seq<char>, n: int)
    requires
        0 <= n <= positions.len(),
        forall|i: int| 0 <= i < positions.len() ==> (#[trigger] positions[i]).game_id@ == id,
    ensures
        positions_of(positions, id, n) == positions.take(n),
    decreases n,
{
    if n > 0 {
        lemma_positions_of_all(positions, id, n - 1);
        assert(positions.take(n) =~= positions.take(n - 1).push(positions[n - 1]));
    }
}

proof fn lemma_no_ply_failure<G: GameDomain, R: GameRules<G>, C: Canonicalize<G>, P, K: Clone>(
    bundle: &GameBundle<G, R, C, P>,
    run_id: Seq<char>,
    cell: &Cell<G::Action, K>,
    record: &MatchRecord<G::Action, G::Outcome>,
    game: GameRecord<G::State, G::Action, G::Player, G::Outcome, K>,
    positions: Seq<PositionRecord<G::State, G::Action, G::Player, G::Outcome>>,
    i: int,
)
    requires
        is_game_record(game, bundle, run_id, cell, record),
        positions.len() == record.actions@.len(),
        forall|k: int|
            0 <= k < positions.len() ==> is_position_record(#[trigger] positions[k], bundle, cell, record, k),
        0 <= i <= positions.len(),
    ensures
        ply_failure_from(bundle, game, positions, i) is None,
    decreases positions.len() - i,
{
    if i < positions.len() {
        assert(is_position_record(positions[i], bundle, cell, record, i));
        lemma_no_ply_failure(bundle, run_id, cell, record, game, positions, i + 1);
    }
}

/// A game expanded from a played record of at least one ply passes corpus verification: its
/// positions replay to exactly the persisted states, actions, legal actions, canonical forms and
/// outcome, and its final state, final canonical state and length agree with its actions.
pub proof fn lemma_expanded_game_verifies<G: GameDomain, R: GameRules<G>, C: Canonicalize<G>, P, K: Clone>(
    bundle: &GameBundle<G, R, C, P>,
    run_id: Seq<char>,
    cell: &Cell<G::Action, K>,
    record: &MatchRecord<G::Action, G::Outcome>,
    game: GameRecord<G::State, G::Action, G::Player, G::Outcome, K>,
    positions: Seq<PositionRecord<G::State, G::Action, G::Player, G::Outcome>>,
)
    requires
        state_after::<G, R>(&bundle.rules, record.actions@, record.actions@.len() as int) is Some,
        record.actions@.len() >= 1,
        is_game_record(game, bundle, run_id, cell, record),
        positions.len() == record.actions@.len(),
        forall|i: int|
            0 <= i < positions.len() ==> is_position_record(#[trigger] positions[i], bundle, cell, record, i),
    ensures
        game_verdict(bundle, game, positions) is None,
{
    let id = game.game_id@;
    assert forall|i: int| 0 <= i < positions.len() implies (#[trigger] positions[i]).game_id@ == id by {
        assert(is_position_record(positions[i], bundle, cell, record, i));
    }
    lemma_positions_of_all(positions, id, positions.len() as int);
    assert(positions.take(positions.len() as int) =~= positions);
    lemma_no_ply_failure(bundle, run_id, cell, record, game, positions, 0);
}


/// How a sweep's games are played. Games are played in order here; the results do not depend
/// on these settings.
#[derive(Clone, Copy, Debug, PartialEq, Eq, Default)]
pub struct GenerateOptions {
    /// Size of a private pool to play each cell's games on.
    pub threads: Option<usize>,
    /// Play each cell's games one after another; takes precedence over `threads`.
    pub serial: bool,
}

/// `records` is the batch of `cell`: `games` games in order, each seeded from the cell's seed,
/// played from the cell's opening within `max_plies`.
pub open spec fn cell_played<G: GameDomain, R: GameRules<G>, K>(
    rules: &R,
    cell: &Cell<G::Action, K>,
    games: usize,
    max_plies: Option<usize>,
    records: Seq<MatchRecord<G::Action, G::Outcome>>,
) -> bool {
    &&& records.len() == games
    &&& forall|i: int|
        0 <= i < records.len() ==> is_played::<G, R>(
            rules,
            #[trigger] records[i],
            i as usize,
            spec_game_seed(cell.seed, i as u64),
            max_plies,
            cell.opening.actions@,
        )
}

/// The seats a cell's entries fill: the bundle's players, as far as the cell has entries.
pub open spec fn cell_seats<P>(players: Seq<P>, entries: nat) -> Seq<P> {
    if entries < players.len() {
        players.take(entries as int)
    } else {
        players
    }
}

/// The seating of a cell: the bundle's players in turn order, as far as the cell has entries,
/// each with its entry's strategy.
pub open spec fn cell_table<'a, G: GameDomain, S>(
    players: Seq<G::Player>,
    cell: &'a Cell<G::Action, S>,
) -> Seq<(G::Player, &'a S)> {
    Seq::new(cell_seats(players, cell.entries@.len()).len(), |x: int| (players[x], &cell.entries@[x].spec))
}

/// Plays `games` games of one cell, its entries' strategies in the bundle's seats in turn order,
/// seeded from the cell's seed and started from its opening, and returns their records in game
/// order.
pub fn play_cell<G: GameDomain, R: GameRules<G>, C: Canonicalize<G>, P, S: StrategyProvider<G>>(
    bundle: &GameBundle<G, R, C, P>,
    cell: &Cell<G::Action, S>,
    games: usize,
    max_plies: Option<usize>,
    options: &GenerateOptions,
) -> (r: Result<Vec<MatchRecord<G::Action, G::Outcome>>, CorpusError>)
    requires
        bundle.players@.len() < u64::MAX,
    ensures
        (r matches Err(CorpusError::Match(MatchError::Rules(_)))) <==> games > 0 && state_after::<G, R>(
            &bundle.rules,
            cell.opening.actions@,
            opening_prefix_len(cell.opening.actions@.len(), max_plies),
        ) is None,
        r matches Err(e) ==> e is Match,
        r matches Ok(records) ==> cell_played::<G, R, S>(&bundle.rules, cell, games, max_plies, records@),
        games == 0 || opening_settles::<G, R>(&bundle.rules, cell.opening.actions@, max_plies) ==> r is Ok,
        opening_settles::<G, R>(&bundle.rules, cell.opening.actions@, max_plies) ==> (r matches Ok(records)
            ==> forall|i: int|
            0 <= i < records@.len() ==> (#[trigger] records@[i]).actions@ == cell.opening.actions@.take(
                opening_prefix_len(cell.opening.actions@.len(), max_plies),
            )),
        r matches Err(CorpusError::Match(MatchError::MissingProvider(m))) ==> strands::<G, R>(
            &bundle.rules,
            cell_seats(bundle.players@, cell.entries@.len()),
            cell.opening.actions@,
            max_plies,
            m@,
        ),
        all_seated::<G, R>(&bundle.rules, cell_seats(bundle.players@, cell.entries@.len())) ==> !(r is Err
            && r->Err_0 is Match && r->Err_0->Match_0 is MissingProvider),
        games > 0 && cell.opening.random_plies == 0 && opening_strands::<G, R>(
            &bundle.rules,
            cell_seats(bundle.players@, cell.entries@.len()),
            cell.opening.actions@,
            max_plies,
        ) ==> (r matches Err(CorpusError::Match(MatchError::MissingProvider(m))) && m@ == opening_mover_label::<
            G,
            R,
        >(&bundle.rules, cell.opening.actions@, max_plies)),
        r matches Ok(records) ==> forall|i: int|
            0 <= i < records@.len() ==> #[trigger] batch_end::<G, R, S>(
                &bundle.rules,
                cell_table::<G, S>(bundle.players@, cell),
                MatchConfig { games, seed: cell.seed, max_plies },
                cell.opening.actions@,
                cell.opening.random_plies as nat,
                i,
            ) == (PlayEnd::Done { actions: records@[i].actions@, outcome: records@[i].outcome }),
{
    let mut players: Vec<(G::Player, &S)> = Vec::new();
    let mut slot: usize = 0;
    while slot < bundle.players.len() && slot < cell.entries.len()
        invariant
            slot <= bundle.players@.len(),
            slot <= cell.entries@.len(),
            players@.len() == slot,
            forall|j: int| 0 <= j < slot ==> (#[trigger] players@[j]).0 == bundle.players@[j],
            players@ == cell_table::<G, S>(bundle.players@, cell).take(slot as int),
        decreases bundle.players@.len() - slot,
    {
        players.push((bundle.players[slot], &cell.entries[slot].spec));
        slot = slot + 1;
        proof {
            assert(players@ =~= cell_table::<G, S>(bundle.players@, cell).take(slot as int));
        }
    }
    proof {
        assert(seats_of::<G, S>(players@) =~= cell_seats(bundle.players@, cell.entries@.len()));
        assert(players@ =~= cell_table::<G, S>(bundle.players@, cell));
    }
    let config = MatchConfig { games, seed: cell.seed, max_plies };
    match play_games(&bundle.rules, &config, players.as_slice(), &cell.opening) {
        Ok(records) => Ok(records),
        Err(e) => Err(CorpusError::Match(e)),
    }
}

/// `pair` is the game record and position records that `record` of `cell` expands into.
pub open spec fn expanded_as<G: GameDomain, R: GameRules<G>, C: Canonicalize<G>, P, K: Clone>(
    bundle: &GameBundle<G, R, C, P>,
    run_id: Seq<char>,
    cell: &Cell<G::Action, K>,
    record: MatchRecord<G::Action, G::Outcome>,
    pair: (GameRecord<G::State, G::Action, G::Player, G::Outcome, K>, Vec<PositionRecord<G::State, G::Action, G::Player, G::Outcome>>),
) -> bool {
    &&& is_game_record(pair.0, bundle, run_id, cell, &record)
    &&& pair.1@.len() == record.actions@.len()
    &&& forall|i: int| 0 <= i < pair.1@.len() ==> is_position_record(#[trigger] pair.1@[i], bundle, cell, &record, i)
}

/// `records` are the games of `cell` played by its seating: game `i` is what the cell's
/// strategies, created with game `i`'s per-player seeds, play from the cell's opening.
pub open spec fn cell_games<G: GameDomain, R: GameRules<G>, S: StrategyProvider<G>>(
    rules: &R,
    players: Seq<G::Player>,
    cell: &Cell<G::Action, S>,
    games: usize,
    max_plies: Option<usize>,
    records: Seq<MatchRecord<G::Action, G::Outcome>>,
) -> bool {
    forall|i: int|
        0 <= i < records.len() ==> #[trigger] batch_end::<G, R, S>(
            rules,
            cell_table::<G, S>(players, cell),
            MatchConfig { games, seed: cell.seed, max_plies },
            cell.opening.actions@,
            cell.opening.random_plies as nat,
            i,
        ) == (PlayEnd::Done { actions: records[i].actions@, outcome: records[i].outcome })
}

/// `out` expands, in game order, the batch of `cell` its strategies play per `games` and
/// `max_plies`.
pub open spec fn cell_generated<G: GameDomain, R: GameRules<G>, C: Canonicalize<G>, P, S: StrategyProvider<G> + Clone>(
    bundle: &GameBundle<G, R, C, P>,
    run_id: Seq<char>,
    cell: &Cell<G::Action, S>,
    games: usize,
    max_plies: Option<usize>,
    out: Seq<(GameRecord<G::State, G::Action, G::Player, G::Outcome, S>, Vec<PositionRecord<G::State, G::Action, G::Player, G::Outcome>>)>,
) -> bool {
    exists|records: Seq<MatchRecord<G::Action, G::Outcome>>|
        #[trigger] cell_played::<G, R, S>(&bundle.rules, cell, games, max_plies, records) && cell_games::<G, R, S>(
            &bundle.rules,
            bundle.players@,
            cell,
            games,
            max_plies,
            records,
        ) && out.len() == records.len() && forall|g: int|
            0 <= g < out.len() ==> expanded_as(bundle, run_id, cell, records[g], #[trigger] out[g])
}

/// No cell of `resolved` leaves a ply for a strategy: each plays no game, or its opening settles
/// its games.
pub open spec fn sweep_settles<G: GameDomain, R: GameRules<G>, K>(rules: &R, resolved: &ResolvedConfig<G::Action, K>) -> bool {
    forall|c: int|
        0 <= c < resolved.cells@.len() ==> resolved.config.games_per_cell == 0 || opening_settles::<G, R>(
            rules,
            (#[trigger] resolved.cells@[c]).opening.actions@,
            resolved.config.max_plies,
        )
}

/// A game that played exactly its cell's capped opening has no strategy ply, so nothing stops
/// its expansion.
proof fn lemma_settled_expands<G: GameDomain, R: GameRules<G>, C: Canonicalize<G>, P, K>(
    bundle: &GameBundle<G, R, C, P>,
    cell: &Cell<G::Action, K>,
    record: MatchRecord<G::Action, G::Outcome>,
    g: usize,
    max_plies: Option<usize>,
)
    requires
        is_played::<G, R>(&bundle.rules, record, g, spec_game_seed(cell.seed, g as u64), max_plies, cell.opening.actions@),
        record.actions@ == cell.opening.actions@.take(opening_prefix_len(cell.opening.actions@.len(), max_plies)),
    ensures
        state_after::<G, R>(&bundle.rules, record.actions@, record.actions@.len() as int) is Some,
        !exists|i: int| is_stray_ply(bundle, record.actions@, opening_count(record.actions@.len(), &cell.opening), i),
{
    let acts = record.actions@;
    assert(opening_count(acts.len(), &cell.opening) == acts.len());
}

/// Plays every cell of `resolved` in order and expands each played game into its game record
/// and position records, one list per cell, in game order.
#[verifier::rlimit(60)]
pub fn play_sweep<G: GameDomain, R: GameRules<G>, C: Canonicalize<G>, P, S: StrategyProvider<G> + Clone>(
    bundle: &GameBundle<G, R, C, P>,
    resolved: &ResolvedConfig<G::Action, S>,
    run_id: &str,
    options: &GenerateOptions,
) -> (r: Result<
    Vec<Vec<(GameRecord<G::State, G::Action, G::Player, G::Outcome, S>, Vec<PositionRecord<G::State, G::Action, G::Player, G::Outcome>>)>>,
    CorpusError,
>)
    requires
        bundle.players@.len() < u64::MAX,
        forall|c: int|
            0 <= c < resolved.cells@.len() ==> (#[trigger] resolved.cells@[c]).entries@.len() == bundle.players@.len(),
    ensures
        r matches Err(e) ==> e is Match || e is Rules || e is Config,
        sweep_settles::<G, R, S>(&bundle.rules, resolved) ==> r is Ok,
        r matches Ok(out) ==> out@.len() == resolved.cells@.len() && forall|c: int|
            0 <= c < out@.len() ==> cell_generated(
                bundle,
                run_id@,
                &resolved.cells@[c],
                resolved.config.games_per_cell,
                resolved.config.max_plies,
                (#[trigger] out@[c])@,
            ),
{
    let ghost settled = sweep_settles::<G, R, S>(&bundle.rules, resolved);
    let mut out: Vec<Vec<(GameRecord<G::State, G::Action, G::Player, G::Outcome, S>, Vec<PositionRecord<G::State, G::Action, G::Player, G::Outcome>>)>> = Vec::new();
    let mut c: usize = 0;
    while c < resolved.cells.len()
        invariant
            bundle.players@.len() < u64::MAX,
            forall|x: int|
                0 <= x < resolved.cells@.len() ==> (#[trigger] resolved.cells@[x]).entries@.len() == bundle.players@.len(),
            c <= resolved.cells@.len(),
            out@.len() == c,
            sweep_settles::<G, R, S>(&bundle.rules, resolved) == settled,
            forall|x: int|
                0 <= x < c ==> cell_generated(
                    bundle,
                    run_id@,
                    &resolved.cells@[x],
                    resolved.config.games_per_cell,
                    resolved.config.max_plies,
                    (#[trigger] out@[x])@,
                ),
        decreases resolved.cells@.len() - c,
    {
        let cell = &resolved.cells[c];
        let records = play_cell(bundle, cell, resolved.config.games_per_cell, resolved.config.max_plies, options)?;
        let ghost fixed = cell.opening.actions@;
        let ghost k = opening_prefix_len(fixed.len(), resolved.config.max_plies);
        let ghost cell_settles = settled && resolved.config.games_per_cell > 0;
        proof {
            if cell_settles {
                assert(opening_settles::<G, R>(&bundle.rules, resolved.cells@[c as int].opening.actions@, resolved.config.max_plies));
            }
        }
        let mut expanded: Vec<(GameRecord<G::State, G::Action, G::Player, G::Outcome, S>, Vec<PositionRecord<G::State, G::Action, G::Player, G::Outcome>>)> = Vec::new();
        let mut g: usize = 0;
        while g < records.len()
            invariant
                cell.entries@.len() == bundle.players@.len(),
                g <= records@.len(),
                expanded@.len() == g,
                forall|y: int| 0 <= y < g ==> expanded_as(bundle, run_id@, cell, records@[y], #[trigger] expanded@[y]),
                cell_played::<G, R, S>(&bundle.rules, cell, resolved.config.games_per_cell, resolved.config.max_plies, records@),
                cell_games::<G, R, S>(
                    &bundle.rules,
                    bundle.players@,
                    cell,
                    resolved.config.games_per_cell,
                    resolved.config.max_plies,
                    records@,
                ),
                fixed == cell.opening.actions@,
                k == opening_prefix_len(fixed.len(), resolved.config.max_plies),
                cell_settles ==> forall|y: int| 0 <= y < records@.len() ==> (#[trigger] records@[y]).actions@ == fixed.take(k),
                cell_settles == (settled && resolved.config.games_per_cell > 0),
                sweep_settles::<G, R, S>(&bundle.rules, resolved) == settled,
            decreases records@.len() - g,
        {
            proof {
                if cell_settles {
                    lemma_settled_expands(bundle, cell, records@[g as int], g as usize, resolved.config.max_plies);
                }
            }
            proof {
                lemma_full_cover(bundle, cell, records@[g as int].actions@);
            }
            let pair = expand_game(bundle, run_id, cell, &records[g])?;
            expanded.push(pair);
            g = g + 1;
        }
        proof {
            assert(cell_played::<G, R, S>(&bundle.rules, cell, resolved.config.games_per_cell, resolved.config.max_plies, records@));
            assert(cell_games::<G, R, S>(
                &bundle.rules,
                bundle.players@,
                cell,
                resolved.config.games_per_cell,
                resolved.config.max_plies,
                records@,
            ));
            assert(cell_generated(bundle, run_id@, cell, resolved.config.games_per_cell, resolved.config.max_plies, expanded@));
        }
        out.push(expanded);
        c = c + 1;
    }
    Ok(out)
}

/// Name of the crate that produces runs.
pub const NAME: &'static str = "strategy-discovery";

/// Version of the crate that produces runs.
pub const VERSION: &'static str = "0.1.0";

/// Manifest of one generation run.
#[derive(Clone, Debug, PartialEq)]
pub struct RunMetadata<A, P, K> {
    /// Schema version this manifest was written under.
    pub schema_version: u32,
    /// Identifier of this run, equal to `config_hash`.
    pub run_id: String,
    /// Content hash of the resolved config.
    pub config_hash: String,
    /// Name of the crate that produced this run.
    pub crate_name: String,
    /// Version of the crate that produced this run.
    pub crate_version: String,
    /// Game name this run was generated for.
    pub game: String,
    /// Players in turn order.
    pub players: Vec<P>,
    /// The resolved config this run was generated from.
    pub config: GenerateConfig<A, K>,
    /// Every cell enumerated from the config, in sweep order.
    pub cells: Vec<CellKey>,
    /// Total number of games written across all cells.
    pub games: usize,
    /// Total number of positions written across all cells.
    pub positions: usize,
}

/// The manifest of a run `run_id` of `resolved` for `bundle`'s game that wrote `games` games and
/// `positions` positions.
pub fn run_metadata<G: GameDomain, R: GameRules<G>, C: Canonicalize<G>, P, K>(
    bundle: &GameBundle<G, R, C, P>,
    resolved: ResolvedConfig<G::Action, K>,
    run_id: &str,
    games: usize,
    positions: usize,
) -> (m: RunMetadata<G::Action, G::Player, K>)
    ensures
        m.schema_version == SCHEMA_VERSION,
        m.run_id@ == run_id@,
        m.config_hash@ == run_id@,
        m.crate_name@ == NAME@,
        m.crate_version@ == VERSION@,
        m.game@ == bundle.name@,
        m.players@ == bundle.players@,
        m.config == resolved.config,
        m.cells@.len() == resolved.cells@.len(),
        forall|i: int| 0 <= i < m.cells@.len() ==> same_key(#[trigger] m.cells@[i], resolved.cells@[i].key),
        m.games == games,
        m.positions == positions,
{
    let mut cells: Vec<CellKey> = Vec::new();
    let mut i: usize = 0;
    while i < resolved.cells.len()
        invariant
            i <= resolved.cells@.len(),
            cells@.len() == i,
            forall|j: int| 0 <= j < i ==> same_key(#[trigger] cells@[j], resolved.cells@[j].key),
        decreases resolved.cells@.len() - i,
    {
        cells.push(copy_key(&resolved.cells[i].key));
        i = i + 1;
    }
    RunMetadata {
        schema_version: SCHEMA_VERSION,
        run_id: String::from_str(run_id),
        config_hash: String::from_str(run_id),
        crate_name: String::from_str(NAME),
        crate_version: String::from_str(VERSION),
        game: bundle.name.clone(),
        players: copy_vec(&bundle.players),
        config: resolved.config,
        cells,
        games,
        positions,
    }
}

} // verus!
