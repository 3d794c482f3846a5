//! Loading a corpus for analysis: the run header, games and positions, schema-checked and
//! matched against the game bundle.

use vstd::prelude::*;
use vstd::string::*;
use crate::discovery::bundle::GameBundle;
use crate::discovery::config::{
    config_error, earlier_has, first_some, lemma_first_some_skip, names_contain, reports_config, texts,
    CorpusError,
};
use crate::framework::text::{join_with, joined, text_eq};
use crate::framework::traits::{Canonicalize, GameDomain, GameRules};
use crate::io::schema::{
    check_schema_version, AnnotationRecord, GameRecord, IoError, PositionRecord, SCHEMA_VERSION,
};

verus! {

/// The fields of a run's header that analysis needs.
#[derive(Debug, Clone, PartialEq, Eq)]
pub struct RunHeader {
    /// Schema version the header was written under.
    pub schema_version: u32,
    /// Game name the run was generated for.
    pub game: String,
    /// Identifier of the run.
    pub run_id: String,
}

/// A corpus run's header plus its games and positions, schema-checked.
pub struct LoadedCorpus<S, A, P, O, K> {
    /// The run's header.
    pub header: RunHeader,
    /// Every game in the corpus, in file order.
    pub games: Vec<GameRecord<S, A, P, O, K>>,
    /// Every position in the corpus, in file order.
    pub positions: Vec<PositionRecord<S, A, P, O>>,
}

/// `e` is the schema-version error for `path` and the version `found`.
pub open spec fn is_schema_error(e: CorpusError, path: Seq<char>, found: u32) -> bool {
    e matches CorpusError::Io(IoError::SchemaVersion { path: p, expected, found: f }) && p@ == path
        && expected == SCHEMA_VERSION && f == found
}

/// `corpus game `{game}` does not match bundle `{bundle}``.
pub open spec fn game_mismatch_text(game: Seq<char>, bundle: Seq<char>) -> Seq<char> {
    "corpus game `"@ + game + "` does not match bundle `"@ + bundle + "`"@
}

/// Checks that every version in `versions` is [`SCHEMA_VERSION`]; else the error for the first
/// that is not, naming `path`.
fn check_versions(versions: &Vec<u32>, path: &str) -> (r: Result<(), CorpusError>)
    ensures
        r is Ok <==> forall|k: int| 0 <= k < versions@.len() ==> versions@[k] == SCHEMA_VERSION,
        r matches Err(e) ==> exists|k: int|
            0 <= k < versions@.len() && versions@[k] != SCHEMA_VERSION && (forall|j: int|
                0 <= j < k ==> versions@[j] == SCHEMA_VERSION) && is_schema_error(e, path@, versions@[k]),
{
    let mut k: usize = 0;
    while k < versions.len()
        invariant
            k <= versions@.len(),
            forall|j: int| 0 <= j < k ==> versions@[j] == SCHEMA_VERSION,
        decreases versions@.len() - k,
    {
        match check_schema_version(path, versions[k]) {
            Ok(()) => {},
            Err(e) => {
                return Err(CorpusError::Io(e));
            },
        }
        k = k + 1;
    }
    Ok(())
}

/// The schema versions of `games`.
pub open spec fn game_versions<S, A, P, O, K>(games: Seq<GameRecord<S, A, P, O, K>>) -> Seq<u32> {
    games.map_values(|g: GameRecord<S, A, P, O, K>| g.schema_version)
}

/// The schema versions of `positions`.
pub open spec fn position_versions<S, A, P, O>(positions: Seq<PositionRecord<S, A, P, O>>) -> Seq<u32> {
    positions.map_values(|p: PositionRecord<S, A, P, O>| p.schema_version)
}

/// The schema versions of `records`.
pub open spec fn annotation_versions<S, A, P>(records: Seq<AnnotationRecord<S, A, P>>) -> Seq<u32> {
    records.map_values(|r: AnnotationRecord<S, A, P>| r.schema_version)
}

/// Every version is the schema version this build reads.
pub open spec fn all_current(versions: Seq<u32>) -> bool {
    forall|k: int| 0 <= k < versions.len() ==> versions[k] == SCHEMA_VERSION
}

/// `e` is the error for the first version in `versions` other than the schema version,
/// naming `path`.
pub open spec fn first_version_error(e: CorpusError, versions: Seq<u32>, path: Seq<char>) -> bool {
    exists|k: int|
        0 <= k < versions.len() && versions[k] != SCHEMA_VERSION && (forall|j: int|
            0 <= j < k ==> versions[j] == SCHEMA_VERSION) && is_schema_error(e, path, versions[k])
}

/// Schema-checks a corpus run read from disk: the header's version (at `run_path`), its game
/// against `bundle.name`, then every game's version (at `games_path`) and every position's
/// version (at `positions_path`), in that order; the first failure is the error.
pub fn load_corpus<G: GameDomain, R: GameRules<G>, C: Canonicalize<G>, P, K>(
    bundle: &GameBundle<G, R, C, P>,
    header: RunHeader,
    games: Vec<GameRecord<G::State, G::Action, G::Player, G::Outcome, K>>,
    positions: Vec<PositionRecord<G::State, G::Action, G::Player, G::Outcome>>,
    run_path: &str,
    games_path: &str,
    positions_path: &str,
) -> (r: Result<LoadedCorpus<G::State, G::Action, G::Player, G::Outcome, K>, CorpusError>)
    ensures
        r is Ok <==> header.schema_version == SCHEMA_VERSION && header.game@ == bundle.name@
            && all_current(game_versions(games@)) && all_current(position_versions(positions@)),
        r matches Ok(c) ==> c.header == header && c.games@ == games@ && c.positions@ == positions@,
        r matches Err(e) ==> {
            if header.schema_version != SCHEMA_VERSION {
                is_schema_error(e, run_path@, header.schema_version)
            } else if header.game@ != bundle.name@ {
                e matches CorpusError::Config(m) && m@ == game_mismatch_text(
                    header.game@,
                    bundle.name@,
                )
            } else if !all_current(game_versions(games@)) {
                first_version_error(e, game_versions(games@), games_path@)
            } else {
                first_version_error(e, position_versions(positions@), positions_path@)
            }
        },
{
    match check_schema_version(run_path, header.schema_version) {
        Ok(()) => {},
        Err(e) => {
            return Err(CorpusError::Io(e));
        },
    }
    if !text_eq(header.game.as_str(), bundle.name.as_str()) {
        let mut m = String::from_str("corpus game `");
        m.append(header.game.as_str());
        m.append("` does not match bundle `");
        m.append(bundle.name.as_str());
        m.append("`");
        proof {
            reveal_strlit("corpus game `");
            reveal_strlit("` does not match bundle `");
            reveal_strlit("`");
        }
        return Err(CorpusError::Config(m));
    }
    let mut versions: Vec<u32> = Vec::new();
    let mut k: usize = 0;
    while k < games.len()
        invariant
            k <= games@.len(),
            versions@ == game_versions(games@).take(k as int),
        decreases games@.len() - k,
    {
        versions.push(games[k].schema_version);
        k = k + 1;
        assert(versions@ =~= game_versions(games@).take(k as int));
    }
    assert(versions@ =~= game_versions(games@));
    match check_versions(&versions, games_path) {
        Ok(()) => {},
        Err(e) => {
            return Err(e);
        },
    }
    let mut pversions: Vec<u32> = Vec::new();
    let mut k: usize = 0;
    while k < positions.len()
        invariant
            k <= positions@.len(),
            pversions@ == position_versions(positions@).take(k as int),
        decreases positions@.len() - k,
    {
        pversions.push(positions[k].schema_version);
        k = k + 1;
        assert(pversions@ =~= position_versions(positions@).take(k as int));
    }
    assert(pversions@ =~= position_versions(positions@));
    match check_versions(&pversions, positions_path) {
        Ok(()) => {},
        Err(e) => {
            return Err(e);
        },
    }
    Ok(LoadedCorpus { header, games, positions })
}

/// Schema-checks annotation records read from `path`: `Ok` exactly when every record carries
/// the schema version this build reads, else the error for the first that does not.
pub fn check_annotations<S, A, Q>(records: &[AnnotationRecord<S, A, Q>], path: &str) -> (r: Result<
    (),
    CorpusError,
>)
    ensures
        r is Ok <==> all_current(annotation_versions(records@)),
        r matches Err(e) ==> first_version_error(e, annotation_versions(records@), path@),
{
    let mut versions: Vec<u32> = Vec::new();
    let mut k: usize = 0;
    while k < records.len()
        invariant
            k <= records@.len(),
            versions@ == annotation_versions(records@).take(k as int),
        decreases records@.len() - k,
    {
        versions.push(records[k].schema_version);
        k = k + 1;
        assert(versions@ =~= annotation_versions(records@).take(k as int));
    }
    assert(versions@ =~= annotation_versions(records@));
    check_versions(&versions, path)
}

/// The error for absent annotations: `{path} not found; run `annotate --corpus {dir}` first`.
pub fn missing_annotations(path: &str, corpus_dir: &str) -> (e: CorpusError)
    ensures
        e matches CorpusError::Precondition(m) && m@ == path@ + " not found; run `annotate --corpus "@
            + corpus_dir@ + "` first"@,
{
    let mut m = String::from_str(path);
    m.append(" not found; run `annotate --corpus ");
    m.append(corpus_dir);
    m.append("` first");
    proof {
        reveal_strlit(" not found; run `annotate --corpus ");
        reveal_strlit("` first");
    }
    CorpusError::Precondition(m)
}

/// The list of known analyzers in a message: the registered names joined with `, `.
pub open spec fn known_list(known: Seq<Seq<char>>) -> Seq<char> {
    joined(known, ", "@)
}

/// The check of requested analyzer `i`: listed once, and registered.
pub open spec fn analyzer_check(known: Seq<Seq<char>>, analyzers: Seq<Seq<char>>, i: int) -> Option<Seq<char>> {
    if analyzers.take(i).contains(analyzers[i]) {
        Some("analyzer `"@ + analyzers[i] + "` is listed more than once; list each analyzer once"@)
    } else if !known.contains(analyzers[i]) {
        Some("unknown analyzer `"@ + analyzers[i] + "`; known analyzers: "@ + known_list(known))
    } else {
        None
    }
}

/// The first problem with a requested analyzer list, against the registered names `known`.
pub open spec fn analyzers_error(known: Seq<Seq<char>>, analyzers: Seq<Seq<char>>) -> Option<Seq<char>> {
    if analyzers.len() == 0 {
        Some("no analyzers requested; known analyzers: "@ + known_list(known))
    } else {
        first_some(|i: int| analyzer_check(known, analyzers, i), 0, analyzers.len() as int)
    }
}

/// Checks the requested `analyzers` against `known`, the registry's names in its order: rejects
/// an empty list, a name listed more than once, and a name not registered, in list order.
pub fn validate_analyzers(known: &[String], analyzers: &[String]) -> (r: Result<(), CorpusError>)
    ensures
        r is Err <==> analyzers_error(texts(known@), texts(analyzers@)) is Some,
        r matches Err(e) ==> reports_config(e, analyzers_error(texts(known@), texts(analyzers@))->0),
{
    let ghost kn = texts(known@);
    let ghost an = texts(analyzers@);
    let names = join_with(known, ", ");
    proof {
        assert(known@.map_values(|p: String| p@) =~= kn);
        reveal_strlit(", ");
        reveal_strlit("no analyzers requested; known analyzers: ");
        reveal_strlit("analyzer `");
        reveal_strlit("` is listed more than once; list each analyzer once");
        reveal_strlit("unknown analyzer `");
        reveal_strlit("`; known analyzers: ");
    }
    if analyzers.len() == 0 {
        let mut m = String::from_str("no analyzers requested; known analyzers: ");
        m.append(names.as_str());
        return Err(config_error(m));
    }
    let ghost f = |i: int| analyzer_check(kn, an, i);
    let mut i: usize = 0;
    while i < analyzers.len()
        invariant
            kn == texts(known@),
            an == texts(analyzers@),
            names@ == known_list(kn),
            f == (|i: int| analyzer_check(kn, an, i)),
            i <= analyzers@.len(),
            forall|j: int| 0 <= j < i ==> (#[trigger] f(j)) is None,
        decreases analyzers@.len() - i,
    {
        proof {
            lemma_first_some_skip(f, 0, i as int, analyzers@.len() as int);
        }
        if earlier_has(analyzers, i) {
            let mut m = String::from_str("analyzer `");
            m.append(analyzers[i].as_str());
            m.append("` is listed more than once; list each analyzer once");
            return Err(config_error(m));
        }
        if !names_contain(known, analyzers[i].as_str()) {
            let mut m = String::from_str("unknown analyzer `");
            m.append(analyzers[i].as_str());
            m.append("`; known analyzers: ");
            m.append(names.as_str());
            return Err(config_error(m));
        }
        i = i + 1;
    }
    proof {
        lemma_first_some_skip(f, 0, analyzers@.len() as int, analyzers@.len() as int);
    }
    Ok(())
}

} // verus!
