use strategy_discovery::discovery::summary::{summary_counts, OutcomeCounts};
use strategy_discovery::framework::traits::{GamePrimitives, GameRules};
use strategy_discovery::games::tictactoe::corpus::TicTacToeBundle;
use strategy_discovery::games::tictactoe::primitives::TicTacToePrimitives;
use strategy_discovery::games::tictactoe::{game_bundle, Board, Move, Outcome, Player};
use strategy_discovery::io::schema::{CellKey, GameRecord, PositionRecord, SCHEMA_VERSION};
use strategy_discovery::io::{final_state, replay};

type Game = GameRecord<Board, Move, Player, Outcome, String>;
type Pos = PositionRecord<Board, Move, Player, Outcome>;

fn make_game(
    bundle: &TicTacToeBundle,
    game_id: &str,
    strategies: [&str; 2],
    actions: &[Move],
    outcome: Option<Outcome>,
) -> (Game, Vec<Pos>) {
    let pairs = replay(&bundle.rules, actions).unwrap();
    let final_state_value = final_state(&bundle.rules, actions).unwrap();
    let final_canonical_state = bundle.canonicalize(&final_state_value).0;
    let positions: Vec<Pos> = pairs
        .iter()
        .enumerate()
        .map(|(ply, (state, action))| {
            let (canonical_state, canonical_transform) = bundle.canonicalize(state);
            PositionRecord {
                schema_version: SCHEMA_VERSION,
                game_id: game_id.to_string(),
                ply,
                side_to_move: bundle.rules.player_to_move(state),
                state: *state,
                canonical_state,
                canonical_transform,
                legal_actions: bundle.rules.legal_actions(state),
                chosen_action: *action,
                chosen_by: "test".to_string(),
                outcome,
                game_length: actions.len(),
            }
        })
        .collect();
    let game = GameRecord {
        schema_version: SCHEMA_VERSION,
        run_id: "r".to_string(),
        game_id: game_id.to_string(),
        cell: CellKey {
            index: 0,
            strategies: strategies.iter().map(|s| s.to_string()).collect(),
            evaluator: "default".to_string(),
            opening: "none".to_string(),
            random_opening_plies: 0,
        },
        game_index: 0,
        seed: 0,
        players: bundle.players.clone(),
        specs: vec![],
        opening_plies: 0,
        actions: actions.to_vec(),
        outcome,
        length: actions.len(),
        final_state: final_state_value,
        final_canonical_state,
    };
    (game, positions)
}

/// The symmetry orbit of each game's first action, orbits numbered in order of their least cell.
fn first_orbits(games: &[Game]) -> Vec<Option<usize>> {
    let orbits = TicTacToePrimitives.symmetry_group().orbits();
    games
        .iter()
        .map(|g| {
            g.actions
                .first()
                .and_then(|a| orbits.iter().position(|orbit| orbit.contains(&a.0)))
        })
        .collect()
}

fn moves(cells: &[usize]) -> Vec<Move> {
    cells.iter().map(|&c| Move(c)).collect()
}

const WIN: [usize; 5] = [0, 3, 1, 4, 2];
const DRAW: [usize; 9] = [0, 1, 2, 4, 3, 5, 7, 6, 8];

fn two_games() -> (TicTacToeBundle, Vec<Game>, Vec<Pos>) {
    let bundle = game_bundle();
    let (win_game, win_positions) = make_game(&bundle, "0:0", ["a", "b"], &moves(&WIN), Some(Outcome::Win(Player::X)));
    let (draw_game, draw_positions) = make_game(&bundle, "0:1", ["a", "b"], &moves(&DRAW), Some(Outcome::Draw));
    let games = vec![win_game, draw_game];
    let mut positions = win_positions;
    positions.extend(draw_positions);
    (bundle, games, positions)
}

#[test]
fn summarize_tallies_outcomes_and_pairings() {
    let (bundle, games, positions) = two_games();
    let summary = summary_counts(&bundle, &games, &positions);

    assert_eq!(summary.games, 2);
    assert_eq!(summary.distinct_games, 2);
    assert_eq!(summary.decisive_games, 1);
    assert_eq!(summary.outcomes.wins, vec![(Player::X, 1)]);
    assert_eq!(summary.outcomes.draws, 1);
    assert_eq!(summary.outcomes.total, 2);

    let pairing_keys: Vec<&str> = summary.by_pairing.iter().map(|(k, _)| k.as_str()).collect();
    assert_eq!(pairing_keys, vec!["a vs b"]);

    assert!(summary.by_length.iter().any(|(k, _)| *k == 5));
    assert!(summary.by_length.iter().any(|(k, _)| *k == 9));

    assert_eq!(summary.by_first_action_orbit.len(), 1);
    assert_eq!(summary.by_first_action_orbit[0].0, 0);
    assert_eq!(summary.by_first_action_orbit[0].1.total, 2);

    assert_eq!(summary.positions, 14);
}

#[test]
fn summary_counts_are_exact() {
    let (bundle, games, positions) = two_games();
    let summary = summary_counts(&bundle, &games, &positions);

    let both = OutcomeCounts { wins: vec![(Player::X, 1)], draws: 1, unfinished: 0, total: 2 };
    assert_eq!(summary.by_pairing, vec![("a vs b".to_string(), both.clone())]);
    assert_eq!(summary.by_length, vec![(5, 1), (9, 1)]);
    assert_eq!(summary.by_ply.len(), 9);
    let plies: Vec<usize> = summary.by_ply.iter().map(|(k, _)| *k).collect();
    assert_eq!(plies, (0..9).collect::<Vec<_>>());
    assert_eq!(summary.by_ply[0].1, both);
    assert_eq!(summary.by_ply[4].1, both);
    assert_eq!(summary.by_ply[5].1, OutcomeCounts { wins: vec![], draws: 1, unfinished: 0, total: 1 });
    // The empty board and the lone corner X appear in both games.
    assert_eq!(summary.distinct_positions, 14);
    // X in a corner with O on an adjacent edge appears twice, reflected.
    assert_eq!(summary.distinct_canonical_positions, 13);
}

#[test]
fn repeated_games_count_once_as_distinct() {
    let bundle = game_bundle();
    let mut games = Vec::new();
    let mut positions = Vec::new();
    for i in 0..3 {
        let (game, game_positions) = make_game(&bundle, &format!("0:{i}"), ["a", "b"], &moves(&DRAW), Some(Outcome::Draw));
        games.push(game);
        positions.extend(game_positions);
    }
    let summary = summary_counts(&bundle, &games, &positions);
    assert_eq!(summary.games, 3);
    assert_eq!(summary.distinct_games, 1);
    assert_eq!(summary.decisive_games, 0);
    assert_eq!(summary.distinct_positions, 10);
    assert_eq!(summary.by_length, vec![(9, 3)]);
    assert_eq!(summary.outcomes, OutcomeCounts { wins: vec![], draws: 3, unfinished: 0, total: 3 });
}

#[test]
fn unfinished_games_and_pairings_are_kept_apart() {
    let bundle = game_bundle();
    let (a, pa) = make_game(&bundle, "0:0", ["a", "b"], &moves(&[4, 0]), None);
    let (b, pb) = make_game(&bundle, "1:0", ["b", "a"], &moves(&[1, 3, 4, 5, 7]), Some(Outcome::Win(Player::X)));
    let (c, pc) = make_game(&bundle, "1:1", ["b", "a"], &moves(&[0, 4, 1, 2, 8, 6]), Some(Outcome::Win(Player::O)));
    let games = vec![a, b, c];
    let mut positions = pa;
    positions.extend(pb);
    positions.extend(pc);
    assert_eq!(first_orbits(&games), vec![Some(2), Some(1), Some(0)]);
    let summary = summary_counts(&bundle, &games, &positions);

    assert_eq!(summary.outcomes.wins, vec![(Player::O, 1), (Player::X, 1)]);
    assert_eq!(summary.outcomes.unfinished, 1);
    assert_eq!(summary.decisive_games, 2);
    assert_eq!(
        summary.by_pairing,
        vec![
            ("a vs b".to_string(), OutcomeCounts { wins: vec![], draws: 0, unfinished: 1, total: 1 }),
            (
                "b vs a".to_string(),
                OutcomeCounts { wins: vec![(Player::O, 1), (Player::X, 1)], draws: 0, unfinished: 0, total: 2 }
            ),
        ]
    );
    let orbit_keys: Vec<usize> = summary.by_first_action_orbit.iter().map(|(k, _)| *k).collect();
    assert_eq!(orbit_keys, vec![0, 1, 2]);
    assert_eq!(summary.by_length, vec![(2, 1), (5, 1), (6, 1)]);
}

#[test]
fn first_action_orbits_are_corner_edge_and_centre() {
    assert_eq!(TicTacToePrimitives.orbit_index(), vec![0, 1, 0, 1, 2, 1, 0, 1, 0]);
}

#[test]
fn games_without_an_orbit_are_left_out_of_the_orbit_tally() {
    let bundle = game_bundle();
    let (empty, _) = make_game(&bundle, "0:2", ["a", "b"], &[], None);
    let (draw, draw_positions) = make_game(&bundle, "0:1", ["a", "b"], &moves(&DRAW), Some(Outcome::Draw));
    let games = vec![empty, draw];
    let summary = summary_counts(&bundle, &games, &draw_positions);
    assert_eq!(summary.by_first_action_orbit.len(), 1);
    assert_eq!(summary.by_first_action_orbit[0].1, OutcomeCounts { wins: vec![], draws: 1, unfinished: 0, total: 1 });
}

#[test]
fn empty_corpus_counts_nothing() {
    let bundle = game_bundle();
    let summary = summary_counts::<_, _, _, _, String>(&bundle, &[], &[]);
    assert_eq!(summary.games, 0);
    assert_eq!(summary.distinct_positions, 0);
    assert_eq!(summary.outcomes, OutcomeCounts { wins: vec![], draws: 0, unfinished: 0, total: 0 });
    assert!(summary.by_pairing.is_empty());
}

#[test]
fn tallies_account_for_every_game_once() {
    let bundle = game_bundle();
    let (a, pa) = make_game(&bundle, "0:0", ["a", "b"], &moves(&[4, 0]), None);
    let (b, pb) = make_game(&bundle, "1:0", ["b", "a"], &moves(&[1, 3, 4, 5, 7]), Some(Outcome::Win(Player::X)));
    let (c, pc) = make_game(&bundle, "1:1", ["b", "a"], &moves(&DRAW), Some(Outcome::Draw));
    let games = vec![a, b, c];
    let mut positions = pa;
    positions.extend(pb);
    positions.extend(pc);
    let summary = summary_counts(&bundle, &games, &positions);

    let o = &summary.outcomes;
    assert_eq!(o.wins.iter().map(|(_, n)| n).sum::<usize>() + o.draws + o.unfinished, o.total);
    assert_eq!(summary.by_pairing.iter().map(|(_, c)| c.total).sum::<usize>(), summary.games);
    assert_eq!(summary.by_ply.iter().map(|(_, c)| c.total).sum::<usize>(), summary.positions);
    assert_eq!(summary.by_length.iter().map(|(_, n)| n).sum::<usize>(), summary.games);
}
