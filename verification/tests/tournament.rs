use rand::seq::IndexedRandom;
use rand::SeedableRng;
use rand_chacha::ChaCha8Rng;
use strategy_discovery::discovery::annotate::DEFAULT_SOLVER_LIMIT;
use strategy_discovery::discovery::config::{cell_seed, CorpusError, RosterEntry};
use strategy_discovery::discovery::match_engine::{play_games, MatchConfig, Opening};
use strategy_discovery::discovery::solver::ExhaustiveSolver;
use strategy_discovery::discovery::tournament::{
    default_reference, run_tournament, run_tournament_detailed, tally_records, Roster, Tally, TournamentConfig,
};
use strategy_discovery::framework::traits::{GameRules, MatchRecord, Strategy, StrategyError, StrategyProvider};
use strategy_discovery::games::tictactoe::{Board, Move, Outcome, Player, TicTacToe, TicTacToeRules};

/// The test strategies: a seeded uniform draw, the first legal action, and perfect play (the
/// first optimal action by exhaustive search).
#[derive(Clone, Copy, Debug, PartialEq)]
enum Provider {
    Random,
    First,
    Perfect,
}

struct Built {
    provider: Provider,
    rng: ChaCha8Rng,
    solver: ExhaustiveSolver<TicTacToe, TicTacToeRules>,
}

impl Strategy<TicTacToe> for Built {
    fn spec_choice(&self, state: Board) -> Result<Move, StrategyError> {
        let mut copy = Built { provider: self.provider, rng: self.rng.clone(), solver: ExhaustiveSolver::new(TicTacToeRules, DEFAULT_SOLVER_LIMIT) };
        copy.pick(&state, &TicTacToeRules.legal_actions(&state))
    }

    fn spec_after(&self, state: Board) -> Self {
        let mut copy = Built { provider: self.provider, rng: self.rng.clone(), solver: ExhaustiveSolver::new(TicTacToeRules, DEFAULT_SOLVER_LIMIT) };
        let _ = copy.pick(&state, &TicTacToeRules.legal_actions(&state));
        copy
    }

    fn pick(&mut self, state: &Board, legal: &[Move]) -> Result<Move, StrategyError> {
        match self.provider {
            Provider::Random => Ok(*legal.choose(&mut self.rng).expect("legal is nonempty")),
            Provider::First => Ok(legal[0]),
            Provider::Perfect => {
                let solved = self.solver.solve(state).map_err(|e| StrategyError::Other(e.to_string()))?;
                Ok(solved.optimal[0])
            }
        }
    }
}

impl StrategyProvider<TicTacToe> for Provider {
    type Built = Built;

    fn kind(&self) -> &str {
        match self {
            Provider::Random => "random",
            Provider::First => "first",
            Provider::Perfect => "perfect",
        }
    }

    fn spec_create(&self, seed: u64) -> Built {
        self.create(seed)
    }

    fn create(&self, seed: u64) -> Built {
        Built {
            provider: *self,
            rng: ChaCha8Rng::seed_from_u64(seed),
            solver: ExhaustiveSolver::new(TicTacToeRules, DEFAULT_SOLVER_LIMIT),
        }
    }
}

fn entry(name: &str, provider: Provider) -> RosterEntry<Provider> {
    RosterEntry { name: name.to_string(), spec: provider }
}

fn tiny_roster() -> Roster<Provider> {
    Roster {
        name: "tiny".to_string(),
        version: 1,
        entries: vec![entry("random", Provider::Random), entry("first", Provider::First), entry("perfect", Provider::Perfect)],
    }
}

fn config(games_per_pairing: usize, seed: u64) -> TournamentConfig {
    TournamentConfig {
        games_per_pairing,
        seed,
        max_plies: None,
        reference: "perfect".to_string(),
        threads: None,
        serial: true,
    }
}

const PLAYERS: [Player; 2] = [Player::X, Player::O];

#[test]
fn perfect_never_loses_to_tiny_roster() {
    let roster = tiny_roster();
    let under_test = roster.get("perfect").unwrap().clone();
    let result = run_tournament(&TicTacToeRules, &PLAYERS, &under_test, &roster, &config(2, 0)).unwrap();

    assert_eq!(result.roster_id, "tiny-v1");
    assert_eq!(result.reference, "perfect");
    assert_eq!(result.games_per_pairing, 2);
    assert_eq!(result.seed, 0);

    let names: Vec<&str> = result.opponents.iter().map(|o| o.opponent.as_str()).collect();
    assert_eq!(names, vec!["random", "first", "perfect"]);

    for opponent in &result.opponents {
        assert_eq!(opponent.by_seat.len(), 2);
        let seats: Vec<usize> = opponent.by_seat.iter().map(|p| p.seat).collect();
        assert_eq!(seats, vec![0, 1]);
        let players: Vec<&str> = opponent.by_seat.iter().map(|p| p.player.as_str()).collect();
        assert_eq!(players, vec!["X", "O"]);

        for pairing in &opponent.by_seat {
            assert_eq!(pairing.opponent, opponent.opponent);
            assert_eq!(pairing.tally.games, 2);
            assert_eq!(pairing.tally.losses, 0);
        }

        assert_eq!(opponent.tally.games, 4);
        assert_eq!(opponent.tally.losses, 0);
    }

    assert_eq!(result.totals.games, 12);
    assert_eq!(result.totals.losses, 0);
}

#[test]
fn random_never_beats_perfect() {
    let roster = tiny_roster();
    let under_test = roster.get("random").unwrap().clone();
    let result = run_tournament(&TicTacToeRules, &PLAYERS, &under_test, &roster, &config(4, 20260822)).unwrap();

    let perfect = result.opponents.iter().find(|o| o.opponent == "perfect").unwrap();
    assert_eq!(perfect.tally.games, 8);
    assert_eq!(perfect.tally.wins, 0);
    assert_eq!(perfect.tally.draws + perfect.tally.losses, 8);
    assert_eq!(perfect.tally.unfinished, 0);
}

#[test]
fn first_legal_loses_to_perfect_from_both_seats() {
    let roster = tiny_roster();
    let under_test = roster.get("first").unwrap().clone();
    let result = run_tournament(&TicTacToeRules, &PLAYERS, &under_test, &roster, &config(1, 3)).unwrap();

    let perfect = result.opponents.iter().find(|o| o.opponent == "perfect").unwrap();
    assert_eq!(perfect.tally, Tally { games: 2, wins: 0, draws: 0, losses: 2, unfinished: 0 });
    let mirror = result.opponents.iter().find(|o| o.opponent == "first").unwrap();
    // First-legal self-play: X takes 0, 2, 4, 6 and completes the 2-4-6 diagonal.
    assert_eq!(mirror.by_seat[0].tally.wins, 1);
    assert_eq!(mirror.by_seat[1].tally.losses, 1);
}

#[test]
fn serial_threads_and_pool_agree() {
    let roster = tiny_roster();
    let under_test = roster.get("first").unwrap().clone();
    let serial_cfg = config(2, 1);
    let threads_cfg = TournamentConfig { serial: false, threads: Some(2), ..config(2, 1) };
    let pool_cfg = TournamentConfig { serial: false, threads: None, ..config(2, 1) };

    let serial = run_tournament(&TicTacToeRules, &PLAYERS, &under_test, &roster, &serial_cfg).unwrap();
    let threads = run_tournament(&TicTacToeRules, &PLAYERS, &under_test, &roster, &threads_cfg).unwrap();
    let pool = run_tournament(&TicTacToeRules, &PLAYERS, &under_test, &roster, &pool_cfg).unwrap();

    assert_eq!(serial, threads);
    assert_eq!(serial, pool);
}

#[test]
fn unknown_reference_is_a_config_error() {
    let roster = tiny_roster();
    let under_test = roster.get("perfect").unwrap().clone();
    let cfg = TournamentConfig { reference: "nope".to_string(), ..config(2, 0) };

    let err = run_tournament(&TicTacToeRules, &PLAYERS, &under_test, &roster, &cfg).unwrap_err();
    assert!(matches!(err, CorpusError::Config(ref msg) if msg.contains("unknown reference `nope`")));
    assert_eq!(
        err,
        CorpusError::Config("unknown reference `nope`; roster `tiny-v1` entries: random, first, perfect".to_string())
    );
}

#[test]
fn default_reference_is_the_last_entry() {
    let roster = tiny_roster();
    assert_eq!(default_reference(&roster).unwrap(), "perfect");

    let empty: Roster<Provider> = Roster { name: "empty".to_string(), version: 1, entries: vec![] };
    assert!(matches!(default_reference(&empty), Err(CorpusError::Config(_))));
    assert_eq!(default_reference(&empty), Err(CorpusError::Config("roster has no entries".to_string())));
}

#[test]
fn unfinished_games_are_never_losses() {
    let roster = tiny_roster();
    let under_test = roster.get("perfect").unwrap().clone();
    let cfg = TournamentConfig { max_plies: Some(1), ..config(1, 0) };

    let run = run_tournament_detailed(&TicTacToeRules, &PLAYERS, &under_test, &roster, &cfg).unwrap();

    for opponent in &run.result.opponents {
        for pairing in &opponent.by_seat {
            assert_eq!(pairing.tally.unfinished, 1);
            assert_eq!(pairing.tally.losses, 0);
        }
    }
    assert_eq!(run.result.totals.unfinished, 6);
    assert_eq!(run.result.totals.games, 6);
    assert_eq!(run.plies, 6);
}

#[test]
fn pairing_batches_are_seeded_by_pairing_index() {
    let roster = tiny_roster();
    let under_test = roster.get("random").unwrap().clone();
    let cfg = config(5, 77);
    let result = run_tournament(&TicTacToeRules, &PLAYERS, &under_test, &roster, &cfg).unwrap();

    // Opponent 0 ("random"), seat 1: pairing index 1; replay its batch directly.
    let players: [(Player, &Provider); 2] = [(Player::X, &Provider::Random), (Player::O, &Provider::Random)];
    let batch = MatchConfig { games: 5, seed: cell_seed(77, 1), max_plies: None };
    let records = play_games(&TicTacToeRules, &batch, &players, &Opening::default()).unwrap();
    assert_eq!(result.opponents[0].by_seat[1].tally, tally_records::<TicTacToe>(&records, &Player::O));

    // The opponent tally sums its seats, and the totals sum the opponents.
    for opponent in &result.opponents {
        let wins: usize = opponent.by_seat.iter().map(|p| p.tally.wins).sum();
        let draws: usize = opponent.by_seat.iter().map(|p| p.tally.draws).sum();
        let losses: usize = opponent.by_seat.iter().map(|p| p.tally.losses).sum();
        assert_eq!((opponent.tally.wins, opponent.tally.draws, opponent.tally.losses), (wins, draws, losses));
    }
    let games: usize = result.opponents.iter().map(|o| o.tally.games).sum();
    assert_eq!(result.totals.games, games);
    assert_eq!(games, 3 * 2 * 5);
}

fn record(outcome: Option<Outcome>, plies: usize) -> MatchRecord<Move, Outcome> {
    MatchRecord { game_index: 0, seed: 0, actions: (0..plies).map(Move).collect(), outcome }
}

#[test]
fn tally_counts_each_result_once() {
    let records = vec![
        record(Some(Outcome::Win(Player::X)), 5),
        record(Some(Outcome::Win(Player::O)), 6),
        record(Some(Outcome::Draw), 9),
        record(None, 2),
        record(Some(Outcome::Win(Player::X)), 7),
    ];
    assert_eq!(
        tally_records::<TicTacToe>(&records, &Player::X),
        Tally { games: 5, wins: 2, draws: 1, losses: 1, unfinished: 1 }
    );
    assert_eq!(
        tally_records::<TicTacToe>(&records, &Player::O),
        Tally { games: 5, wins: 1, draws: 1, losses: 2, unfinished: 1 }
    );
    assert_eq!(tally_records::<TicTacToe>(&[], &Player::O), Tally { games: 0, wins: 0, draws: 0, losses: 0, unfinished: 0 });
}

#[test]
fn tally_from_counts_sums_games() {
    assert_eq!(Tally::from_counts(3, 2, 1, 4), Tally { games: 10, wins: 3, draws: 2, losses: 1, unfinished: 4 });
}

#[test]
fn roster_id_and_lookup() {
    let roster = tiny_roster();
    assert_eq!(roster.id(), "tiny-v1");
    assert_eq!(Roster::<Provider> { name: "ttt-benchmark".to_string(), version: 12, entries: vec![] }.id(), "ttt-benchmark-v12");
    assert_eq!(roster.get("first").unwrap().spec, Provider::First);
    assert!(roster.get("depth-9").is_none());
}

#[test]
fn no_strategy_moves_when_every_game_is_capped_at_once() {
    // A cap of zero plies: every game is unfinished before any strategy is asked.
    let roster = tiny_roster();
    let under_test = roster.get("perfect").unwrap().clone();
    let cfg = TournamentConfig { max_plies: Some(0), ..config(2, 0) };
    let run = run_tournament_detailed(&TicTacToeRules, &PLAYERS, &under_test, &roster, &cfg).unwrap();
    assert_eq!(run.result.totals.unfinished, 12);
    assert_eq!(run.plies, 0);
    let empty = TournamentConfig { games_per_pairing: 0, ..config(0, 0) };
    assert_eq!(run_tournament(&TicTacToeRules, &PLAYERS, &under_test, &roster, &empty).unwrap().totals.games, 0);
}
