use strategy_discovery::games::tictactoe::roster::{benchmark_roster, BenchmarkSpec, TieBreak};
use strategy_discovery::games::tictactoe::{Board, Player};

#[test]
fn benchmark_roster_has_seven_entries_in_order() {
    let roster = benchmark_roster();
    let names: Vec<&str> = roster.entries.iter().map(|e| e.name.as_str()).collect();
    assert_eq!(names, vec!["random", "depth-1", "depth-2", "depth-3", "depth-4", "depth-6", "perfect"]);
    assert_eq!(roster.id(), "ttt-benchmark-v1");
    assert_eq!(roster.version, 1);
    assert_eq!(roster.entries[0].spec, BenchmarkSpec::Random);
    assert_eq!(roster.entries[6].spec, BenchmarkSpec::Minimax { depth: 9, tie_break: TieBreak::SeededUniform });
}

#[test]
fn default_board_is_empty() {
    assert_eq!(Board::default(), Board::empty());
    assert_eq!(Board::default().to_move(), Player::X);
}

#[test]
fn benchmark_roster_specs_are_seeded_uniform_minimax() {
    let roster = benchmark_roster();
    assert_eq!(roster.entries[0].spec, BenchmarkSpec::Random);
    let expected_depths: [u32; 6] = [1, 2, 3, 4, 6, 9];
    for (entry, depth) in roster.entries[1..].iter().zip(expected_depths) {
        assert_eq!(entry.spec, BenchmarkSpec::Minimax { depth, tie_break: TieBreak::SeededUniform });
    }
}
