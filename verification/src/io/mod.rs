//! Persistence-facing logic: replay of action lists, content hashes and the record schema.

pub mod hash;
pub mod replay;
pub mod schema;

pub use hash::{content_hash, fnv1a64, hex16};
pub use replay::{final_state, replay};
pub use schema::{
    check_schema_version, AnnotationRecord, AnnotationSource, ArchiveIndex, ArchiveIndexEntry,
    CandidateParams, CellKey, CorpusGame, EvaluationConfig, GameRecord, IoError, OutcomeTally, PositionRecord,
    ANALYZE_FILE, ANNOTATE_FILE, ANNOTATIONS_FILE, ARCHIVE_ENTRIES_FILE, ARCHIVE_FILE, DATASET_FILE,
    DATASET_MANIFEST_FILE, DISCOVER_FILE, EVALUATION_FILE, GAMES_FILE, HEURISTICS_FILE,
    MINE_ENGINE_CART, MINE_ENGINE_LINFA_TREES, POSITIONS_FILE, RUN_FILE, SCHEMA_VERSION, SUMMARY_FILE,
};
