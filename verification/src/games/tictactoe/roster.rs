//! The tic-tac-toe benchmark opponent population.

use vstd::prelude::*;
use vstd::string::*;
use crate::discovery::config::{entry_names, RosterEntry};
use crate::discovery::tournament::Roster;

verus! {

/// How a minimax entry chooses among equally good actions: the engine's first, or uniformly
/// at random with the strategy's seed.
#[derive(Clone, Copy, Debug, PartialEq, Eq)]
pub enum TieBreak {
    /// The first the engine finds.
    Engine,
    /// Uniformly at random, seeded.
    SeededUniform,
}

/// How a benchmark entry plays: uniformly at random, or by minimax search to a depth.
#[derive(Clone, Copy, Debug, PartialEq, Eq)]
pub enum BenchmarkSpec {
    /// A uniformly random legal action.
    Random,
    /// Minimax search to `depth` plies, breaking ties between equally good actions as
    /// `tie_break` says.
    Minimax { depth: u32, tie_break: TieBreak },
}

/// A named benchmark entry.
fn benchmark_entry(name: &str, spec: BenchmarkSpec) -> (e: RosterEntry<BenchmarkSpec>)
    ensures
        e.name@ == name@,
        e.spec == spec,
{
    RosterEntry { name: String::from_str(name), spec }
}

/// Whether `r` is `ttt-benchmark-v1`: a `random` baseline, minimax entries `depth-1` through
/// `depth-4` and `depth-6`, then `perfect` (depth 9).
pub open spec fn is_benchmark_roster(r: Roster<BenchmarkSpec>) -> bool {
    &&& r.spec_id() == "ttt-benchmark-v1"@
    &&& r.version == 1
    &&& r.entries@.len() == 7
    &&& entry_names(r.entries@) == seq![
        "random"@,
        "depth-1"@,
        "depth-2"@,
        "depth-3"@,
        "depth-4"@,
        "depth-6"@,
        "perfect"@,
    ]
    &&& r.entries@[0].spec == BenchmarkSpec::Random
    &&& r.entries@[1].spec == (BenchmarkSpec::Minimax { depth: 1, tie_break: TieBreak::SeededUniform })
    &&& r.entries@[2].spec == (BenchmarkSpec::Minimax { depth: 2, tie_break: TieBreak::SeededUniform })
    &&& r.entries@[3].spec == (BenchmarkSpec::Minimax { depth: 3, tie_break: TieBreak::SeededUniform })
    &&& r.entries@[4].spec == (BenchmarkSpec::Minimax { depth: 4, tie_break: TieBreak::SeededUniform })
    &&& r.entries@[5].spec == (BenchmarkSpec::Minimax { depth: 6, tie_break: TieBreak::SeededUniform })
    &&& r.entries@[6].spec == (BenchmarkSpec::Minimax { depth: 9, tie_break: TieBreak::SeededUniform })
}

/// The versioned tic-tac-toe benchmark population, `ttt-benchmark-v1`: a `random` baseline,
/// minimax entries `depth-1` through `depth-4` and `depth-6`, then `perfect` (depth 9), every
/// minimax entry breaking ties uniformly at random with its seed. These
/// are also the game's default strategies.
pub fn benchmark_roster() -> (r: Roster<BenchmarkSpec>)
    ensures
        is_benchmark_roster(r),
{
    proof {
        reveal_strlit("ttt-benchmark");
        reveal_strlit("-v");
        assert(crate::framework::text::decimal(1) == seq!['1']);
    }
    let entries = vec![
        benchmark_entry("random", BenchmarkSpec::Random),
        benchmark_entry("depth-1", BenchmarkSpec::Minimax { depth: 1, tie_break: TieBreak::SeededUniform }),
        benchmark_entry("depth-2", BenchmarkSpec::Minimax { depth: 2, tie_break: TieBreak::SeededUniform }),
        benchmark_entry("depth-3", BenchmarkSpec::Minimax { depth: 3, tie_break: TieBreak::SeededUniform }),
        benchmark_entry("depth-4", BenchmarkSpec::Minimax { depth: 4, tie_break: TieBreak::SeededUniform }),
        benchmark_entry("depth-6", BenchmarkSpec::Minimax { depth: 6, tie_break: TieBreak::SeededUniform }),
        benchmark_entry("perfect", BenchmarkSpec::Minimax { depth: 9, tie_break: TieBreak::SeededUniform }),
    ];
    let r = Roster { name: String::from_str("ttt-benchmark"), version: 1, entries };
    proof {
        assert(entry_names(r.entries@) =~= seq![
            "random"@,
            "depth-1"@,
            "depth-2"@,
            "depth-3"@,
            "depth-4"@,
            "depth-6"@,
            "perfect"@,
        ]);
        assert(r.spec_id() =~= "ttt-benchmark-v1"@) by {
            reveal_strlit("ttt-benchmark-v1");
        }
    }
    r
}

} // verus!
