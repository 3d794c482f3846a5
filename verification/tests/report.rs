use strategy_discovery::discovery::report::{render_summary_section, SummaryCells};
use strategy_discovery::discovery::summary::{OutcomeCounts, SummaryCounts};
use strategy_discovery::games::tictactoe::{Player, TicTacToe};

fn counts(wins: Vec<(Player, usize)>, draws: usize, unfinished: usize) -> OutcomeCounts<Player> {
    let total = wins.iter().map(|w| w.1).sum::<usize>() + draws + unfinished;
    OutcomeCounts { wins, draws, unfinished, total }
}

#[test]
fn summary_section_renders_every_table() {
    let c = SummaryCounts {
        games: 3,
        positions: 20,
        distinct_games: 2,
        distinct_positions: 15,
        distinct_canonical_positions: 9,
        decisive_games: 2,
        outcomes: counts(vec![(Player::X, 2)], 1, 0),
        by_pairing: vec![("a vs b".to_string(), counts(vec![(Player::X, 2)], 1, 0))],
        by_length: vec![(7, 2), (9, 1)],
        by_ply: vec![(0, counts(vec![], 0, 0))],
        by_first_action_orbit: vec![(4, counts(vec![(Player::O, 1), (Player::X, 1)], 0, 0))],
    };
    let cells = SummaryCells {
        run_id: "-".to_string(),
        game: "tictactoe".to_string(),
        known_canonical_positions: "765".to_string(),
        distinct_game_fraction: "0.667".to_string(),
        canonical_coverage: "0.012".to_string(),
        decisive_fraction: "0.667".to_string(),
        coverage_check: "0.012 | 0.500 | no".to_string(),
        decisive_check: "0.667 | 0.200 | yes".to_string(),
        distinct_check: "0.667 | 0.500 | yes".to_string(),
        diversity_pass: "no".to_string(),
        diversity_failures: vec!["canonical_coverage 0.01 < 0.50".to_string()],
    };
    let s = render_summary_section::<TicTacToe>(&c, &cells);
    let expected = "## Summary\n\n\
| metric | value |\n| --- | --- |\n| run_id | - |\n| game | tictactoe |\n| games | 3 |\n| positions | 20 |\n\
| distinct_games | 2 |\n| distinct_game_fraction | 0.667 |\n| distinct_positions | 15 |\n\
| distinct_canonical_positions | 9 |\n| known_canonical_positions | 765 |\n| canonical_coverage | 0.012 |\n\
| decisive_games | 2 |\n| decisive_fraction | 0.667 |\n\n\
### Diversity\n\n\
| metric | value | threshold | pass |\n| --- | --- | --- | --- |\n| canonical_coverage | 0.012 | 0.500 | no |\n\
| decisive_fraction | 0.667 | 0.200 | yes |\n| distinct_game_fraction | 0.667 | 0.500 | yes |\n\n\
Diversity pass: no\n\n\
- canonical_coverage 0.01 < 0.50\n\n\
### Outcomes\n\n\
| outcome | games |\n| --- | --- |\n| win X | 2 |\n| draw | 1 |\n| unfinished | 0 |\n| total | 3 |\n\n\
### By pairing\n\n\
| pairing | wins | draws | unfinished | total |\n| --- | --- | --- | --- | --- |\n| a vs b | X=2 | 1 | 0 | 3 |\n\n\
### By length\n\n\
| length | games |\n| --- | --- |\n| 7 | 2 |\n| 9 | 1 |\n\n\
### By ply\n\n\
| ply | wins | draws | unfinished | total |\n| --- | --- | --- | --- | --- |\n| 0 | - | 0 | 0 | 0 |\n\n\
### By first-action orbit\n\n\
| orbit | wins | draws | unfinished | total |\n| --- | --- | --- | --- | --- |\n| 4 | O=1, X=1 | 0 | 0 | 2 |\n";
    assert_eq!(s, expected);
    assert!(s.starts_with("## Summary\n\n"));
    assert!(!s.ends_with("\n\n"));
}
