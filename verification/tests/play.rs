use rand::seq::IndexedRandom;
use rand::SeedableRng;
use rand_chacha::ChaCha8Rng;
use strategy_discovery::discovery::match_engine::{
    game_seed, opening_plies_played, play_game, play_game_with_opening, play_games, player_seed, MatchConfig, Opening,
};
use strategy_discovery::framework::traits::{GameRules, MatchError, MatchRecord, Strategy, StrategyError, StrategyProvider};
use strategy_discovery::games::tictactoe::{Board, Move, Outcome, Player, TicTacToe, TicTacToeRules};

/// The test strategies: always the first legal action, always the last, a seeded uniform draw,
/// an out-of-range action, and a failure.
#[derive(Clone, Copy)]
enum Provider {
    FirstLegal,
    LastLegal,
    SeededRandom,
    Illegal,
    Failing,
}

use Provider::{Failing, FirstLegal, Illegal, LastLegal, SeededRandom};

struct Built {
    provider: Provider,
    rng: ChaCha8Rng,
}

impl Strategy<TicTacToe> for Built {
    fn spec_choice(&self, state: Board) -> Result<Move, StrategyError> {
        let mut copy = Built { provider: self.provider, rng: self.rng.clone() };
        copy.pick(&state, &TicTacToeRules.legal_actions(&state))
    }

    fn spec_after(&self, state: Board) -> Self {
        let mut copy = Built { provider: self.provider, rng: self.rng.clone() };
        let _ = copy.pick(&state, &TicTacToeRules.legal_actions(&state));
        copy
    }

    fn pick(&mut self, _state: &Board, legal: &[Move]) -> Result<Move, StrategyError> {
        match self.provider {
            FirstLegal => Ok(legal[0]),
            LastLegal => Ok(legal[legal.len() - 1]),
            SeededRandom => Ok(*legal.choose(&mut self.rng).expect("legal is nonempty")),
            Illegal => Ok(Move(9)),
            Failing => Err(StrategyError::Other("boom".into())),
        }
    }
}

impl StrategyProvider<TicTacToe> for Provider {
    type Built = Built;

    fn kind(&self) -> &str {
        match self {
            FirstLegal => "first",
            LastLegal => "last",
            SeededRandom => "seeded-random",
            Illegal => "illegal",
            Failing => "failing",
        }
    }

    fn spec_create(&self, seed: u64) -> Built {
        self.create(seed)
    }

    fn create(&self, seed: u64) -> Built {
        Built { provider: *self, rng: ChaCha8Rng::seed_from_u64(seed) }
    }
}

fn config(games: usize, seed: u64, max_plies: Option<usize>) -> MatchConfig {
    MatchConfig { games, seed, max_plies }
}

fn run(config: &MatchConfig, players: &[(Player, &Provider)]) -> Result<Vec<MatchRecord<Move, Outcome>>, MatchError> {
    play_games(&TicTacToeRules, config, players, &Opening::default())
}

#[test]
fn first_legal_self_play_is_deterministic() {
    let records = run(&config(1, 0, None), &[(Player::X, &FirstLegal), (Player::O, &FirstLegal)]).unwrap();
    assert_eq!(records.len(), 1);
    let record = &records[0];
    assert_eq!(record.game_index, 0);
    assert_eq!(record.seed, game_seed(0, 0));
    assert_eq!(record.actions, vec![Move(0), Move(1), Move(2), Move(3), Move(4), Move(5), Move(6)]);
    assert_eq!(record.outcome, Some(Outcome::Win(Player::X)));
}

#[test]
fn records_are_in_game_index_order_with_derived_seeds() {
    let players: &[(Player, &Provider)] = &[(Player::X, &SeededRandom), (Player::O, &SeededRandom)];
    let records = run(&config(16, 42, None), players).unwrap();
    assert_eq!(records.len(), 16);
    for (i, record) in records.iter().enumerate() {
        assert_eq!(record.game_index, i);
        assert_eq!(record.seed, game_seed(42, i));
    }
}

#[test]
fn max_plies_yields_none_outcome() {
    let players: &[(Player, &Provider)] = &[(Player::X, &FirstLegal), (Player::O, &FirstLegal)];
    let record = &run(&config(1, 0, Some(3)), players).unwrap()[0];
    assert_eq!(record.actions.len(), 3);
    assert_eq!(record.outcome, None);

    let record = &run(&config(1, 0, Some(9)), players).unwrap()[0];
    assert!(record.outcome.is_some());
}

#[test]
fn max_plies_zero_records_no_actions() {
    let players: &[(Player, &Provider)] = &[(Player::X, &FirstLegal), (Player::O, &FirstLegal)];
    let record = &run(&config(1, 0, Some(0)), players).unwrap()[0];
    assert!(record.actions.is_empty());
    assert_eq!(record.outcome, None);
}

#[test]
fn missing_provider_is_error() {
    let err = run(&config(1, 0, None), &[(Player::X, &FirstLegal)]).unwrap_err();
    assert_eq!(err, MatchError::MissingProvider("O".to_string()));
}

#[test]
fn duplicate_player_first_slot_wins() {
    let duplicate_players: &[(Player, &Provider)] =
        &[(Player::X, &FirstLegal), (Player::X, &LastLegal), (Player::O, &LastLegal)];
    let with_duplicate = run(&config(1, 0, None), duplicate_players).unwrap();
    let plain_players: &[(Player, &Provider)] = &[(Player::X, &FirstLegal), (Player::O, &LastLegal)];
    let without_duplicate = run(&config(1, 0, None), plain_players).unwrap();
    assert_eq!(with_duplicate[0].actions, without_duplicate[0].actions);
}

#[test]
fn illegal_action_is_strategy_error() {
    let err = run(&config(1, 0, None), &[(Player::X, &Illegal), (Player::O, &FirstLegal)]).unwrap_err();
    match err {
        MatchError::Strategy(StrategyError::Other(m)) => {
            assert!(m.contains("illegal action"));
            assert!(m.contains("`illegal`"));
        }
        other => panic!("expected MatchError::Strategy(StrategyError::Other(_)), got {other:?}"),
    }
}

#[test]
fn strategy_error_propagates() {
    let players: &[(Player, &Provider)] = &[(Player::X, &Failing), (Player::O, &FirstLegal)];
    let err = run(&config(1, 0, None), players).unwrap_err();
    assert_eq!(err, MatchError::Strategy(StrategyError::Other("boom".to_string())));
}

#[test]
fn player_seeds_differ_per_slot() {
    assert_ne!(player_seed(game_seed(0, 0), 0), player_seed(game_seed(0, 0), 1));
    let random_record = &run(&config(1, 0, None), &[(Player::X, &SeededRandom), (Player::O, &SeededRandom)]).unwrap()[0];
    let deterministic_record = &run(&config(1, 0, None), &[(Player::X, &FirstLegal), (Player::O, &FirstLegal)]).unwrap()[0];
    assert_ne!(random_record.actions, deterministic_record.actions);
}

#[test]
fn play_game_equals_play_game_with_default_opening() {
    let rules = TicTacToeRules;
    let players: &[(Player, &Provider)] = &[(Player::X, &SeededRandom), (Player::O, &SeededRandom)];
    for game_seed in [0u64, 1, 42, 0xBDD732262FEB6E95] {
        let plain = play_game(&rules, players, 0, game_seed, None).unwrap();
        let with_opening = play_game_with_opening(&rules, players, 0, game_seed, None, &Opening::default()).unwrap();
        assert_eq!(plain, with_opening);
    }
}

#[test]
fn fixed_opening_prefix_is_played_verbatim() {
    let rules = TicTacToeRules;
    let players: &[(Player, &Provider)] = &[(Player::X, &FirstLegal), (Player::O, &FirstLegal)];
    let opening = Opening { actions: vec![Move(4), Move(0)], random_plies: 0 };
    let record = play_game_with_opening(&rules, players, 0, 0, None, &opening).unwrap();
    assert_eq!(&record.actions[..2], &[Move(4), Move(0)]);
    assert_eq!(record.actions[2], Move(1));
    assert!(record.outcome.is_some());
    assert_eq!(opening_plies_played(&record, &opening), 2);
}

#[test]
fn illegal_opening_prefix_is_a_rules_error() {
    let rules = TicTacToeRules;
    let players: &[(Player, &Provider)] = &[(Player::X, &FirstLegal), (Player::O, &FirstLegal)];
    let opening = Opening { actions: vec![Move(4), Move(4)], random_plies: 0 };
    let err = play_game_with_opening(&rules, players, 0, 0, None, &opening).unwrap_err();
    assert!(matches!(err, MatchError::Rules(_)));

    let opening = Opening { actions: vec![Move(9)], random_plies: 0 };
    let err = play_game_with_opening(&rules, players, 0, 0, None, &opening).unwrap_err();
    assert!(matches!(err, MatchError::Rules(_)));
}

#[test]
fn max_plies_counts_opening_plies() {
    let rules = TicTacToeRules;
    let players: &[(Player, &Provider)] = &[(Player::X, &FirstLegal), (Player::O, &FirstLegal)];
    let opening = Opening { actions: vec![Move(4), Move(0), Move(1)], random_plies: 0 };
    let record = play_game_with_opening(&rules, players, 0, 0, Some(2), &opening).unwrap();
    assert_eq!(record.actions, vec![Move(4), Move(0)]);
    assert_eq!(record.outcome, None);
    assert_eq!(opening_plies_played(&record, &opening), 2);
}

#[test]
fn random_opening_plies_are_seed_reproducible_and_vary_across_seeds() {
    let rules = TicTacToeRules;
    let players: &[(Player, &Provider)] = &[(Player::X, &FirstLegal), (Player::O, &FirstLegal)];
    let opening = Opening { actions: vec![], random_plies: 2 };

    let mut first_moves = std::collections::HashSet::new();
    for game_seed in 0u64..16 {
        let a = play_game_with_opening(&rules, players, 0, game_seed, None, &opening).unwrap();
        let b = play_game_with_opening(&rules, players, 0, game_seed, None, &opening).unwrap();
        assert_eq!(a, b);
        assert_eq!(opening_plies_played(&a, &opening), 2);
        assert!(a.actions.len() >= 2);
        first_moves.insert(a.actions[0]);
    }
    assert!(first_moves.len() >= 2);

    let no_random_opening = Opening { actions: vec![], random_plies: 0 };
    for game_seed in 0u64..16 {
        let record = play_game_with_opening(&rules, players, 0, game_seed, None, &no_random_opening).unwrap();
        assert_eq!(record.actions[0], Move(0));
    }
}

#[test]
fn random_opening_stops_at_terminal() {
    let rules = TicTacToeRules;
    let players: &[(Player, &Provider)] = &[(Player::X, &FirstLegal), (Player::O, &FirstLegal)];
    let opening = Opening { actions: vec![Move(0), Move(3), Move(1), Move(4), Move(2)], random_plies: 3 };
    let record = play_game_with_opening(&rules, players, 0, 0, None, &opening).unwrap();
    assert_eq!(record.actions.len(), 5);
    assert_eq!(record.outcome, Some(Outcome::Win(Player::X)));
    assert_eq!(opening_plies_played(&record, &opening), 5);
}

#[test]
fn random_opening_plies_respect_the_cap() {
    let rules = TicTacToeRules;
    let players: &[(Player, &Provider)] = &[(Player::X, &FirstLegal), (Player::O, &FirstLegal)];
    let opening = Opening { actions: vec![Move(4)], random_plies: 5 };
    let record = play_game_with_opening(&rules, players, 3, 11, Some(3), &opening).unwrap();
    assert_eq!(record.actions.len(), 3);
    assert_eq!(record.actions[0], Move(4));
    assert_eq!(record.outcome, None);
    assert_eq!(record.game_index, 3);
    assert_eq!(record.seed, 11);
}

#[test]
fn batches_stop_at_the_first_error() {
    let players: &[(Player, &Provider)] = &[(Player::X, &FirstLegal), (Player::O, &FirstLegal)];
    let opening = Opening { actions: vec![Move(4), Move(4)], random_plies: 0 };
    let err = play_games(&TicTacToeRules, &config(3, 0, None), players, &opening).unwrap_err();
    assert!(matches!(err, MatchError::Rules(_)));
    assert_eq!(play_games(&TicTacToeRules, &config(0, 0, None), players, &opening).unwrap(), vec![]);
}

#[test]
fn a_settled_opening_needs_no_strategy() {
    // Nobody plays O, but the forced opening ends the game before O would move.
    let opening = Opening { actions: vec![Move(0), Move(3), Move(1), Move(4), Move(2)], random_plies: 0 };
    let record = play_game_with_opening(&TicTacToeRules, &[(Player::X, &Failing)], 0, 1, None, &opening).unwrap();
    assert_eq!(record.actions, opening.actions);
    assert_eq!(record.outcome, Some(Outcome::Win(Player::X)));
    // The cap reached inside the opening settles it too.
    let nobody: &[(Player, &Provider)] = &[];
    let capped = play_game_with_opening(&TicTacToeRules, nobody, 0, 1, Some(2), &opening).unwrap();
    assert_eq!(capped.actions, vec![Move(0), Move(3)]);
    assert_eq!(capped.outcome, None);
}

#[test]
fn random_opening_draws_one_seeded_stream_in_order() {
    let rules = TicTacToeRules;
    let players: &[(Player, &Provider)] = &[(Player::X, &FirstLegal), (Player::O, &FirstLegal)];
    let opening = Opening { actions: vec![], random_plies: 6 };
    for game_seed in 0u64..8 {
        let record = play_game_with_opening(&rules, players, 0, game_seed, None, &opening).unwrap();
        let mut rng = ChaCha8Rng::seed_from_u64(strategy_discovery::discovery::match_engine::opening_seed(game_seed));
        let mut board = Board::empty();
        for ply in 0..6 {
            let legal = TicTacToeRules.legal_actions(&board);
            if legal.is_empty() {
                break;
            }
            let action = *legal.choose(&mut rng).unwrap();
            assert_eq!(record.actions[ply], action);
            board = TicTacToeRules.apply(&board, &action).unwrap();
        }
    }
}

#[test]
fn each_seat_plays_its_strategy_seeded_with_its_player_seed() {
    let rules = TicTacToeRules;
    let players: &[(Player, &Provider)] = &[(Player::X, &SeededRandom), (Player::O, &FirstLegal)];
    let record = play_game_with_opening(&rules, players, 0, 42, None, &Opening { actions: vec![], random_plies: 0 }).unwrap();
    let mut x = SeededRandom.create(player_seed(42, 0));
    let mut board = Board::empty();
    for (ply, action) in record.actions.iter().enumerate() {
        let legal = TicTacToeRules.legal_actions(&board);
        let expected = if ply % 2 == 0 { x.pick(&board, &legal).unwrap() } else { legal[0] };
        assert_eq!(*action, expected);
        board = TicTacToeRules.apply(&board, action).unwrap();
    }
}
