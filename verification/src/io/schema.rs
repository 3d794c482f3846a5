//! The versioned record schema of corpus files: file names, the schema version and its check,
//! and the plain records that the corpus stages persist.

use vstd::prelude::*;
use vstd::string::*;
use crate::framework::text::{decimal, decimal_string};
use crate::framework::traits::GameDomain;

verus! {

/// Schema version stamped on every record and document this build writes and reads.
pub const SCHEMA_VERSION: u32 = 1;

/// File name for a run's top-level configuration/manifest document.
pub const RUN_FILE: &'static str = "run.json";

/// File name for the per-game JSONL corpus file.
pub const GAMES_FILE: &'static str = "games.jsonl";

/// File name for the per-position JSONL corpus file.
pub const POSITIONS_FILE: &'static str = "positions.jsonl";

/// File name for the per-position annotation JSONL file.
pub const ANNOTATIONS_FILE: &'static str = "annotations.jsonl";

/// File name for the annotation stage's configuration document.
pub const ANNOTATE_FILE: &'static str = "annotate.json";

/// File name for a run's summary document.
pub const SUMMARY_FILE: &'static str = "summary.json";

/// File name for the analyze stage's manifest document.
pub const ANALYZE_FILE: &'static str = "analyze.json";

/// File name for the `evaluate` stage's evaluation document.
pub const EVALUATION_FILE: &'static str = "evaluation.json";

/// File name for a strategy archive's index document.
pub const ARCHIVE_FILE: &'static str = "archive.json";

/// File name for a strategy archive's per-entry JSONL file (append order = `sequence`).
pub const ARCHIVE_ENTRIES_FILE: &'static str = "entries.jsonl";

/// File name for the `dataset` analyzer's per-row JSONL output.
pub const DATASET_FILE: &'static str = "dataset.jsonl";

/// File name for the `dataset` analyzer's manifest document.
pub const DATASET_MANIFEST_FILE: &'static str = "dataset.json";

/// File name for the `mine` analyzer's mining report.
pub const HEURISTICS_FILE: &'static str = "heuristics.json";

/// File name for the `discover` stage's manifest document.
pub const DISCOVER_FILE: &'static str = "discover.json";

/// Miner engine value selecting the in-crate deterministic CART engine (the default).
pub const MINE_ENGINE_CART: &'static str = "cart";

/// Miner engine value selecting the opt-in `linfa-trees` engine.
pub const MINE_ENGINE_LINFA_TREES: &'static str = "linfa-trees";

/// Errors about the content of corpus files that the library itself detects.
#[derive(Clone, Debug, PartialEq, Eq)]
pub enum IoError {
    /// A record or document carries a `schema_version` other than the one this build reads.
    SchemaVersion {
        /// File involved.
        path: String,
        /// Version this build reads.
        expected: u32,
        /// Version found in the file.
        found: u32,
    },
    /// A required file is absent.
    Missing {
        /// The absent file.
        path: String,
    },
    /// Any other invalid content.
    Invalid(String),
}

impl IoError {
    /// The error's message, as the corpus stages report it.
    pub open spec fn spec_message(&self) -> Seq<char> {
        match self {
            IoError::SchemaVersion { path, expected, found } => path@ + ": schema_version "@
                + decimal(*found as nat) + " does not match expected "@ + decimal(
                *expected as nat,
            ),
            IoError::Missing { path } => path@ + ": missing"@,
            IoError::Invalid(message) => message@,
        }
    }

    /// The error's message: `"{path}: schema_version {found} does not match expected
    /// {expected}"`, `"{path}: missing"`, or the invalid-content message itself.
    pub fn to_string(&self) -> (s: String)
        ensures
            s@ == self.spec_message(),
    {
        match self {
            IoError::SchemaVersion { path, expected, found } => {
                let mut s = path.clone();
                s.append(": schema_version ");
                let f = decimal_string(*found as usize);
                s.append(f.as_str());
                s.append(" does not match expected ");
                let e = decimal_string(*expected as usize);
                s.append(e.as_str());
                proof {
                    reveal_strlit(": schema_version ");
                    reveal_strlit(" does not match expected ");
                }
                s
            },
            IoError::Missing { path } => {
                let mut s = path.clone();
                s.append(": missing");
                proof {
                    reveal_strlit(": missing");
                }
                s
            },
            IoError::Invalid(message) => message.clone(),
        }
    }
}

/// Checks a record's or document's `schema_version` against [`SCHEMA_VERSION`]: `Ok` exactly
/// when they are equal, else a [`IoError::SchemaVersion`] naming `path`.
pub fn check_schema_version(path: &str, found: u32) -> (r: Result<(), IoError>)
    ensures
        r is Ok <==> found == SCHEMA_VERSION,
        r matches Err(e) ==> e matches IoError::SchemaVersion { path: p, expected, found: f } && p@
            == path@ && expected == SCHEMA_VERSION && f == found,
{
    if found == SCHEMA_VERSION {
        Ok(())
    } else {
        Err(IoError::SchemaVersion { path: String::from_str(path), expected: SCHEMA_VERSION, found })
    }
}

/// Games whose state, action, player and outcome types the corpus stages persist.
pub trait CorpusGame: GameDomain {

}

impl<G: GameDomain> CorpusGame for G {

}

/// One sweep cell: a strategy pairing, evaluator variant, opening and random-opening plies.
#[derive(Clone, Debug, PartialEq, Eq)]
pub struct CellKey {
    /// Index of this cell within the sweep, used to build `game_id`.
    pub index: usize,
    /// Strategy entry names, aligned to turn order.
    pub strategies: Vec<String>,
    /// Evaluator variant name used by this cell.
    pub evaluator: String,
    /// Opening name used by this cell.
    pub opening: String,
    /// Number of random-opening plies played after the fixed opening.
    pub random_opening_plies: u32,
}

/// One played game: the full action sequence and its outcome, keyed by cell and index within
/// it. `K` is the type of the strategy specs the players were built from.
#[derive(Clone, Debug, PartialEq)]
pub struct GameRecord<S, A, P, O, K> {
    /// Schema version this record was written under.
    pub schema_version: u32,
    /// Identifier of the run that produced this record.
    pub run_id: String,
    /// `"{cell index}:{game index}"`.
    pub game_id: String,
    /// Sweep cell this game belongs to.
    pub cell: CellKey,
    /// Index of this game within its cell.
    pub game_index: usize,
    /// Per-game seed.
    pub seed: u64,
    /// Players in turn order.
    pub players: Vec<P>,
    /// Strategy specs, aligned to `players`.
    pub specs: Vec<K>,
    /// Plies played by the opening (fixed plies plus random-opening plies).
    pub opening_plies: usize,
    /// Full action sequence of the game.
    pub actions: Vec<A>,
    /// Terminal outcome; `None` iff the game was aborted by a ply cap.
    pub outcome: Option<O>,
    /// `actions.len()`.
    pub length: usize,
    /// State after the last action.
    pub final_state: S,
    /// Canonical representative of `final_state`.
    pub final_canonical_state: S,
}

/// One position within a game: the state before a chosen action, its legal actions, and the
/// action actually taken.
#[derive(Clone, Debug, PartialEq)]
pub struct PositionRecord<S, A, P, O> {
    /// Schema version this record was written under.
    pub schema_version: u32,
    /// `game_id` of the game this position belongs to.
    pub game_id: String,
    /// 0-based index into the game's actions; `state` is the position before `chosen_action`.
    pub ply: usize,
    /// Player to move at this position.
    pub side_to_move: P,
    /// Raw game state.
    pub state: S,
    /// Canonical representative of `state`; equals `state` when the game has no canonicalizer.
    pub canonical_state: S,
    /// Images of the permutation mapping `state` to `canonical_state`; empty means none.
    pub canonical_transform: Vec<usize>,
    /// The legal actions at `state`, in rules order.
    pub legal_actions: Vec<A>,
    /// The action actually chosen at this position.
    pub chosen_action: A,
    /// `"opening"`, `"random-opening"`, or the strategy entry name of the side to move.
    pub chosen_by: String,
    /// The game's outcome, denormalized onto every position.
    pub outcome: Option<O>,
    /// Length of the game this position belongs to, in plies.
    pub game_length: usize,
}

/// Solver ground truth for one position, keyed by the raw (not canonical) state.
#[derive(Clone, Debug, PartialEq)]
pub struct AnnotationRecord<S, A, P> {
    /// Schema version this record was written under.
    pub schema_version: u32,
    /// The key: raw (not canonical) state.
    pub state: S,
    /// Canonical representative of `state`.
    pub canonical_state: S,
    /// Player to move at this position.
    pub side_to_move: P,
    /// Whether `state` is terminal.
    pub terminal: bool,
    /// Value from the side-to-move's perspective: `1` win, `0` draw, `-1` loss.
    pub value: i8,
    /// Every legal action achieving `value`, in legal order; empty iff terminal.
    pub optimal_actions: Vec<A>,
    /// Search engine's choice; `None` iff terminal.
    pub engine_action: Option<A>,
    /// `Some(optimal_actions.contains(engine_action))` iff non-terminal.
    pub engine_agrees: Option<bool>,
}

/// Win/draw/loss counts of the rows reaching a rule, from the mover's perspective.
#[derive(Clone, Copy, Debug, PartialEq, Eq, Default)]
pub struct OutcomeTally {
    /// Rows with value `1`.
    pub win: usize,
    /// Rows with value `0`.
    pub draw: usize,
    /// Rows with value `-1`.
    pub loss: usize,
}

/// Provenance of the annotation set an evaluation used.
#[derive(Clone, Debug, PartialEq, Eq)]
pub struct AnnotationSource {
    /// Annotation mode by its serialized name (`corpus` or `exhaustive`).
    pub mode: String,
    /// Corpus run id (`None` for exhaustive annotation).
    pub run_id: Option<String>,
    /// Number of annotation records read.
    pub records: usize,
}

/// Configuration an evaluation ran with.
#[derive(Clone, Debug, PartialEq, Eq)]
pub struct EvaluationConfig {
    /// Evaluator name used to build every strategy.
    pub evaluator: String,
    /// Games per (opponent, seat) pairing.
    pub games_per_pairing: usize,
    /// Master seed.
    pub seed: u64,
    /// Ply cap per game, if any.
    pub max_plies: Option<usize>,
    /// Reference roster entry name.
    pub reference: String,
    /// Annotation set used for agreement, if any.
    pub annotations: Option<AnnotationSource>,
}

/// One line of a strategy archive's index.
#[derive(Clone, Debug, PartialEq, Eq)]
pub struct ArchiveIndexEntry {
    /// Entry identity (hash of game, spec and evaluation id).
    pub entry_id: String,
    /// Strategy entry name.
    pub name: String,
    /// Strategy kind.
    pub kind: String,
    /// 0-based append order.
    pub sequence: usize,
}

/// A strategy archive's index document.
#[derive(Clone, Debug, PartialEq, Eq)]
pub struct ArchiveIndex {
    /// Schema version this document was written under.
    pub schema_version: u32,
    /// Game every entry belongs to.
    pub game: String,
    /// Entries in append order.
    pub entries: Vec<ArchiveIndexEntry>,
}

/// Engine and tree limits of one mined candidate, as recorded in provenance.
#[derive(Clone, Debug, PartialEq, Eq)]
pub struct CandidateParams {
    /// Induction engine.
    pub engine: String,
    /// Depth limit (`0` = unlimited).
    pub max_depth: usize,
    /// Minimum rows per leaf.
    pub min_leaf: usize,
}

} // verus!
