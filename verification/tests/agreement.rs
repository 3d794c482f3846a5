use std::collections::BTreeMap;

use strategy_discovery::discovery::agreement::{agreement_tallies, AgreementCounts};
use strategy_discovery::discovery::annotate::{annotate_states, DEFAULT_SOLVER_LIMIT};
use strategy_discovery::discovery::config::CorpusError;
use strategy_discovery::discovery::evaluate::{measure_agreement, AgreementOutcome, SIGNATURE_SAMPLE};
use strategy_discovery::discovery::solver::{reachable_states, ExhaustiveSolver};
use strategy_discovery::framework::traits::{GameRules, Strategy, StrategyError, StrategyProvider};
use strategy_discovery::games::tictactoe::{game_bundle, Board, Move, Outcome, Player, TicTacToe, TicTacToeRules};
use strategy_discovery::io::schema::{AnnotationRecord, PositionRecord, SCHEMA_VERSION};

type Annotation = AnnotationRecord<Board, Move, Player>;
type Position = PositionRecord<Board, Move, Player, Outcome>;

/// Annotations of the given boards, by exhaustive search.
fn annotate(boards: &[Board]) -> Vec<Annotation> {
    let bundle = game_bundle();
    let mut solver = ExhaustiveSolver::new(TicTacToeRules, DEFAULT_SOLVER_LIMIT);
    let engine = vec![None; boards.len()];
    annotate_states(&bundle, boards, &engine, &mut solver).unwrap()
}

fn position(board: &str, ply: usize, chosen: usize, chosen_by: &str) -> Position {
    let state = Board::parse(board).unwrap();
    let rules = TicTacToeRules;
    Position {
        schema_version: SCHEMA_VERSION,
        game_id: "g".to_string(),
        ply,
        side_to_move: rules.player_to_move(&state),
        state,
        canonical_state: state,
        canonical_transform: vec![],
        legal_actions: rules.legal_actions(&state),
        chosen_action: Move(chosen),
        chosen_by: chosen_by.to_string(),
        outcome: None,
        game_length: 9,
    }
}

fn counts(positions: usize, agreeing: usize) -> AgreementCounts {
    AgreementCounts { positions, agreeing }
}

#[test]
fn agreement_is_tallied_by_strategy_ply_and_overall() {
    let boards: Vec<Board> = ["XX.OO....", "X........", "........."].iter().map(|b| Board::parse(b).unwrap()).collect();
    let annotations = annotate(&boards);
    let positions = vec![
        // X to move can win at 2: optimal.
        position("XX.OO....", 4, 2, "perfect"),
        // Not winning at once from a won position is not optimal.
        position("XX.OO....", 4, 8, "random"),
        // O must take the centre after a corner opening.
        position("X........", 1, 4, "perfect"),
        position("X........", 1, 1, "random"),
        // Every opening move holds the draw.
        position(".........", 0, 7, "random"),
    ];

    let tallies = agreement_tallies::<TicTacToe, TicTacToeRules>(&TicTacToeRules, &positions, &annotations, "runs/x").unwrap();

    assert_eq!(tallies.overall, counts(5, 3));
    assert_eq!(tallies.by_strategy, vec![("perfect".to_string(), counts(2, 2)), ("random".to_string(), counts(3, 1))]);
    assert_eq!(tallies.by_ply, vec![(4, counts(2, 1)), (1, counts(2, 1)), (0, counts(1, 1))]);
}

#[test]
fn agreement_without_annotations_is_a_precondition_error() {
    let annotations = annotate(&[Board::parse("X........").unwrap()]);
    let positions = vec![position("X........", 1, 4, "perfect"), position("XO.......", 2, 4, "perfect")];

    let err = agreement_tallies::<TicTacToe, TicTacToeRules>(&TicTacToeRules, &positions, &annotations, "runs/small").unwrap_err();
    assert_eq!(
        err,
        CorpusError::Precondition(
            "annotations.jsonl does not cover every position of runs/small; re-run `annotate --corpus runs/small`"
                .to_string()
        )
    );
    assert!(agreement_tallies::<TicTacToe, TicTacToeRules>(&TicTacToeRules, &[], &[], "d").is_ok());
}

#[test]
fn the_last_annotation_of_a_state_is_the_one_used() {
    let board = Board::parse("XX.OO....").unwrap();
    let mut annotations = annotate(&[board, board]);
    // The earlier record claims every move is optimal; the later, true one wins.
    annotations[0].optimal_actions = vec![Move(2), Move(5), Move(6), Move(7), Move(8)];
    let positions = vec![position("XX.OO....", 4, 8, "random")];
    let tallies = agreement_tallies::<TicTacToe, TicTacToeRules>(&TicTacToeRules, &positions, &annotations, "d").unwrap();
    assert_eq!(tallies.overall, counts(1, 0));
}

/// Strategies for the agreement pass: perfect play, the first legal action, and a failure.
#[derive(Clone, Copy)]
enum Provider {
    Perfect,
    First,
    Failing,
}

struct Built {
    provider: Provider,
    solver: ExhaustiveSolver<TicTacToe, TicTacToeRules>,
}

impl Strategy<TicTacToe> for Built {
    fn spec_choice(&self, state: Board) -> Result<Move, StrategyError> {
        let mut copy = Built { provider: self.provider, solver: ExhaustiveSolver::new(TicTacToeRules, DEFAULT_SOLVER_LIMIT) };
        copy.pick(&state, &TicTacToeRules.legal_actions(&state))
    }

    fn spec_after(&self, state: Board) -> Self {
        let mut copy = Built { provider: self.provider, solver: ExhaustiveSolver::new(TicTacToeRules, DEFAULT_SOLVER_LIMIT) };
        let _ = copy.pick(&state, &TicTacToeRules.legal_actions(&state));
        copy
    }

    fn pick(&mut self, state: &Board, legal: &[Move]) -> Result<Move, StrategyError> {
        match self.provider {
            Provider::Perfect => {
                let solved = self.solver.solve(state).map_err(|e| StrategyError::Other(e.to_string()))?;
                Ok(solved.optimal[0])
            }
            Provider::First => Ok(legal[0]),
            Provider::Failing => Err(StrategyError::Other("boom".to_string())),
        }
    }
}

impl StrategyProvider<TicTacToe> for Provider {
    type Built = Built;

    fn kind(&self) -> &str {
        match self {
            Provider::Perfect => "perfect",
            Provider::First => "first",
            Provider::Failing => "failing",
        }
    }

    fn spec_create(&self, seed: u64) -> Built {
        self.create(seed)
    }

    fn create(&self, _seed: u64) -> Built {
        Built { provider: *self, solver: ExhaustiveSolver::new(TicTacToeRules, DEFAULT_SOLVER_LIMIT) }
    }
}

fn all_annotations() -> Vec<Annotation> {
    let states = reachable_states(&TicTacToeRules, DEFAULT_SOLVER_LIMIT).unwrap();
    annotate(&states)
}

fn by_value(outcome: &AgreementOutcome<Move>) -> BTreeMap<i8, AgreementCounts> {
    outcome.summary.by_value.iter().copied().collect()
}

#[test]
fn perfect_agrees_fully_and_first_legal_does_not() {
    let annotations = all_annotations();
    let nonterminal = annotations.iter().filter(|a| !a.terminal).count();
    assert_eq!(nonterminal, 4520);

    let perfect = measure_agreement(&TicTacToeRules, &Provider::Perfect, &annotations, 0).unwrap();
    assert_eq!(perfect.summary.positions, 4520);
    assert_eq!(perfect.summary.agreeing, 4520);
    let values = by_value(&perfect);
    assert_eq!(values.keys().copied().collect::<Vec<i8>>(), vec![-1, 0, 1]);
    assert_eq!(values.values().map(|c| c.positions).sum::<usize>(), 4520);
    for (value, c) in &values {
        assert_eq!(c.agreeing, c.positions, "value {value}");
        let expected = annotations.iter().filter(|a| !a.terminal && a.value == *value).count();
        assert_eq!(c.positions, expected);
    }

    let first = measure_agreement(&TicTacToeRules, &Provider::First, &annotations, 0).unwrap();
    assert_eq!(first.summary.positions, 4520);
    let expected = annotations.iter().filter(|a| !a.terminal && a.optimal_actions.contains(&TicTacToeRules.legal_actions(&a.state)[0])).count();
    assert_eq!(first.summary.agreeing, expected);
    assert!(first.summary.agreeing < 4520);
    assert_eq!(by_value(&first).values().map(|c| c.agreeing).sum::<usize>(), expected);
}

#[test]
fn signature_is_deterministic_and_sized() {
    let annotations = all_annotations();
    let a = measure_agreement(&TicTacToeRules, &Provider::First, &annotations, 0).unwrap();
    let b = measure_agreement(&TicTacToeRules, &Provider::First, &annotations, 0).unwrap();
    assert_eq!(a, b);
    assert_eq!(a.sample.actions.len(), SIGNATURE_SAMPLE);
    assert_eq!(a.sample.stride, 4520 / 256);

    // The sample holds every stride-th choice of the non-terminal positions.
    let nonterminal: Vec<&Annotation> = annotations.iter().filter(|a| !a.terminal).collect();
    for (j, action) in a.sample.actions.iter().enumerate() {
        let state = &nonterminal[j * a.sample.stride].state;
        assert_eq!(*action, TicTacToeRules.legal_actions(state)[0]);
    }
}

#[test]
fn small_sets_sample_every_position() {
    let annotations = annotate(&[Board::parse("XX.OO....").unwrap(), Board::parse("XXXOO....").unwrap(), Board::parse("X........").unwrap()]);
    let out = measure_agreement(&TicTacToeRules, &Provider::First, &annotations, 9).unwrap();
    assert_eq!(out.summary.positions, 2);
    assert_eq!(out.sample.stride, 1);
    assert_eq!(out.sample.actions, vec![Move(2), Move(1)]);
    assert_eq!(out.summary.agreeing, 1);
    assert_eq!(out.summary.by_value, vec![(1, counts(1, 1)), (0, counts(1, 0))]);

    let empty = measure_agreement(&TicTacToeRules, &Provider::First, &[], 9).unwrap();
    assert_eq!(empty.summary.positions, 0);
    assert!(empty.sample.actions.is_empty());
    assert!(empty.summary.by_value.is_empty());
}

#[test]
fn a_failing_strategy_stops_the_pass() {
    let annotations = annotate(&[Board::parse("X........").unwrap()]);
    let err = measure_agreement(&TicTacToeRules, &Provider::Failing, &annotations, 0).unwrap_err();
    assert_eq!(err, CorpusError::Strategy(StrategyError::Other("boom".to_string())));
}
