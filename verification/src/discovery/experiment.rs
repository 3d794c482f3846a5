//! Validation of an experiment document: its header against the game bundle, its sweep, and its
//! `[analyze]` list against the analyzer registry and the `[annotate]` switch.

use vstd::prelude::*;
use vstd::string::*;
use crate::discovery::analyze::known_list;
use crate::discovery::bundle::GameBundle;
use crate::discovery::config::{
    config_error, earlier_has, effective_strategies, first_some, lemma_first_some_skip, reports_config,
    resolve, resolve_error, texts, CorpusError, GenerateConfig, RosterEntry,
};
use crate::framework::text::{decimal, decimal_string, join_with, text_eq};
use crate::framework::traits::{Canonicalize, GameDomain, GameRules};
use crate::io::schema::SCHEMA_VERSION;

verus! {

/// The first problem with an experiment's header: its schema version, its name, its game
/// against the bundle's, and a thread count of zero.
pub open spec fn experiment_header_error(
    schema_version: u32,
    name: Seq<char>,
    game: Seq<char>,
    bundle_name: Seq<char>,
    threads: Option<usize>,
) -> Option<Seq<char>> {
    if schema_version != SCHEMA_VERSION {
        Some("schema_version "@ + decimal(schema_version as nat) + " is not the supported 1"@)
    } else if name.len() == 0 {
        Some("name must not be empty"@)
    } else if game != bundle_name {
        Some("game `"@ + game + "` does not match bundle `"@ + bundle_name + "`"@)
    } else if threads == Some(0usize) {
        Some("[generate] threads must be >= 1, got 0"@)
    } else {
        None
    }
}

/// Checks an experiment's header, before its sweep is loaded.
pub fn check_experiment_header(
    schema_version: u32,
    name: &str,
    game: &str,
    bundle_name: &str,
    threads: Option<usize>,
) -> (r: Result<(), CorpusError>)
    ensures
        r is Err <==> experiment_header_error(schema_version, name@, game@, bundle_name@, threads) is Some,
        r matches Err(e) ==> reports_config(
            e,
            experiment_header_error(schema_version, name@, game@, bundle_name@, threads)->0,
        ),
{
    proof {
        reveal_strlit("schema_version ");
        reveal_strlit(" is not the supported 1");
        reveal_strlit("name must not be empty");
        reveal_strlit("game `");
        reveal_strlit("` does not match bundle `");
        reveal_strlit("`");
        reveal_strlit("[generate] threads must be >= 1, got 0");
    }
    if schema_version != SCHEMA_VERSION {
        let mut m = String::from_str("schema_version ");
        let v = decimal_string(schema_version as usize);
        m.append(v.as_str());
        m.append(" is not the supported 1");
        return Err(config_error(m));
    }
    if name.unicode_len() == 0 {
        return Err(config_error(String::from_str("name must not be empty")));
    }
    if !text_eq(game, bundle_name) {
        let mut m = String::from_str("game `");
        m.append(game);
        m.append("` does not match bundle `");
        m.append(bundle_name);
        m.append("`");
        return Err(config_error(m));
    }
    if threads == Some(0usize) {
        return Err(config_error(String::from_str("[generate] threads must be >= 1, got 0")));
    }
    Ok(())
}

/// Index of the first of `names` equal to `name`.
pub open spec fn first_index(names: Seq<Seq<char>>, name: Seq<char>) -> int {
    choose|j: int| 0 <= j < names.len() && names[j] == name && forall|k: int| 0 <= k < j ==> names[k] != name
}

/// The first of `names` equal to `name`, if any.
fn lookup(names: &[String], name: &str) -> (r: Option<usize>)
    ensures
        r is None <==> !texts(names@).contains(name@),
        r matches Some(j) ==> j == first_index(texts(names@), name@) && j < names@.len(),
{
    let ghost ns = texts(names@);
    let mut j: usize = 0;
    while j < names.len()
        invariant
            ns == texts(names@),
            j <= names@.len(),
            forall|k: int| 0 <= k < j ==> ns[k] != name@,
        decreases names@.len() - j,
    {
        if text_eq(names[j].as_str(), name) {
            proof {
                let f = first_index(ns, name@);
                assert(ns[j as int] == name@);
                assert(0 <= f < ns.len() && ns[f] == name@ && forall|k: int| 0 <= k < f ==> ns[k] != name@);
                if f < j {
                    assert(ns[f] != name@);
                } else if f > j {
                    assert(ns[j as int] != name@);
                }
            }
            return Some(j);
        }
        j = j + 1;
    }
    proof {
        assert forall|k: int| 0 <= k < ns.len() implies ns[k] != name@ by {}
    }
    None
}

/// The check of listed analyzer `i` of an experiment: listed once, registered, and given the
/// annotations it requires.
pub open spec fn experiment_analyzer_check(
    known: Seq<Seq<char>>,
    needs: Seq<bool>,
    analyzers: Seq<Seq<char>>,
    annotate: bool,
    i: int,
) -> Option<Seq<char>> {
    let a = analyzers[i];
    if analyzers.take(i).contains(a) {
        Some("[analyze] analyzers lists `"@ + a + "` more than once"@)
    } else if !known.contains(a) {
        Some("unknown analyzer `"@ + a + "` in [analyze] analyzers; known analyzers: "@ + known_list(known))
    } else if needs[first_index(known, a)] && !annotate {
        Some("analyzer `"@ + a + "` requires annotations; set [annotate] enabled = true or drop it"@)
    } else {
        None
    }
}

/// The first problem with an experiment's `[analyze] analyzers`, against the registered names
/// `known`, which require annotations where `needs` says so.
pub open spec fn experiment_analyzers_error(
    known: Seq<Seq<char>>,
    needs: Seq<bool>,
    analyzers: Seq<Seq<char>>,
    annotate: bool,
) -> Option<Seq<char>> {
    if analyzers.len() == 0 {
        Some("[analyze] analyzers must name at least one analyzer; known analyzers: "@ + known_list(known))
    } else {
        first_some(
            |i: int| experiment_analyzer_check(known, needs, analyzers, annotate, i),
            0,
            analyzers.len() as int,
        )
    }
}

/// Checks an experiment's `[analyze] analyzers` list in order.
fn check_experiment_analyzers(
    known: &[String],
    requires_annotations: &[bool],
    analyzers: &[String],
    annotate_enabled: bool,
) -> (r: Result<(), CorpusError>)
    requires
        requires_annotations@.len() == known@.len(),
    ensures
        r is Err <==> experiment_analyzers_error(
            texts(known@),
            requires_annotations@,
            texts(analyzers@),
            annotate_enabled,
        ) is Some,
        r matches Err(e) ==> reports_config(
            e,
            experiment_analyzers_error(texts(known@), requires_annotations@, texts(analyzers@), annotate_enabled)->0,
        ),
{
    let ghost kn = texts(known@);
    let ghost an = texts(analyzers@);
    let ghost rq = requires_annotations@;
    let names = join_with(known, ", ");
    proof {
        assert(known@.map_values(|p: String| p@) =~= kn);
        reveal_strlit(", ");
        reveal_strlit("[analyze] analyzers must name at least one analyzer; known analyzers: ");
        reveal_strlit("[analyze] analyzers lists `");
        reveal_strlit("` more than once");
        reveal_strlit("unknown analyzer `");
        reveal_strlit("` in [analyze] analyzers; known analyzers: ");
        reveal_strlit("analyzer `");
        reveal_strlit("` requires annotations; set [annotate] enabled = true or drop it");
    }
    if analyzers.len() == 0 {
        let mut m = String::from_str("[analyze] analyzers must name at least one analyzer; known analyzers: ");
        m.append(names.as_str());
        return Err(config_error(m));
    }
    let ghost f = |i: int| experiment_analyzer_check(kn, rq, an, annotate_enabled, i);
    let mut i: usize = 0;
    while i < analyzers.len()
        invariant
            kn == texts(known@),
            an == texts(analyzers@),
            rq == requires_annotations@,
            rq.len() == kn.len(),
            names@ == known_list(kn),
            f == (|i: int| experiment_analyzer_check(kn, rq, an, annotate_enabled, i)),
            i <= analyzers@.len(),
            forall|j: int| 0 <= j < i ==> (#[trigger] f(j)) is None,
        decreases analyzers@.len() - i,
    {
        proof {
            lemma_first_some_skip(f, 0, i as int, analyzers@.len() as int);
        }
        if earlier_has(analyzers, i) {
            let mut m = String::from_str("[analyze] analyzers lists `");
            m.append(analyzers[i].as_str());
            m.append("` more than once");
            return Err(config_error(m));
        }
        match lookup(known, analyzers[i].as_str()) {
            None => {
                let mut m = String::from_str("unknown analyzer `");
                m.append(analyzers[i].as_str());
                m.append("` in [analyze] analyzers; known analyzers: ");
                m.append(names.as_str());
                return Err(config_error(m));
            },
            Some(j) => {
                if requires_annotations[j] && !annotate_enabled {
                    let mut m = String::from_str("analyzer `");
                    m.append(analyzers[i].as_str());
                    m.append("` requires annotations; set [annotate] enabled = true or drop it");
                    return Err(config_error(m));
                }
            },
        }
        i = i + 1;
    }
    proof {
        lemma_first_some_skip(f, 0, analyzers@.len() as int, analyzers@.len() as int);
    }
    Ok(())
}

/// The first problem with an experiment once its header passed and its sweep is loaded: the
/// sweep's game, the sweep itself (as `resolve` judges it), then the `[analyze]` list.
pub open spec fn experiment_plan_error<G: GameDomain, R: GameRules<G>, C: Canonicalize<G>, P, K>(
    game: Seq<char>,
    sweep: GenerateConfig<G::Action, K>,
    bundle: &GameBundle<G, R, C, P>,
    defaults: Seq<RosterEntry<K>>,
    build: Seq<Option<String>>,
    known: Seq<Seq<char>>,
    needs: Seq<bool>,
    analyzers: Seq<Seq<char>>,
    annotate: bool,
) -> Option<Seq<char>> {
    if sweep.game@ != game {
        Some("game `"@ + game + "` does not match the sweep's game `"@ + sweep.game@ + "`"@)
    } else if resolve_error(sweep, bundle, defaults, build) is Some {
        resolve_error(sweep, bundle, defaults, build)
    } else {
        experiment_analyzers_error(known, needs, analyzers, annotate)
    }
}

/// Checks the rest of an experiment against `bundle` and the analyzer registry, whose names in
/// registry order are `known` and which require annotations where `requires_annotations` says so:
/// the loaded `sweep` must be for the experiment's `game` and must resolve (with the default
/// strategies and per-strategy build errors that `resolve` takes), and every listed analyzer
/// must be listed once, registered, and given annotations when it requires them.
pub fn check_experiment_plan<G: GameDomain, R: GameRules<G>, C: Canonicalize<G>, P, K: Clone>(
    game: &str,
    sweep: GenerateConfig<G::Action, K>,
    bundle: &GameBundle<G, R, C, P>,
    default_strategies: &[RosterEntry<K>],
    build_errors: &[Option<String>],
    known: &[String],
    requires_annotations: &[bool],
    analyzers: &[String],
    annotate_enabled: bool,
) -> (r: Result<(), CorpusError>)
    requires
        build_errors@.len() == effective_strategies(sweep.strategies@, default_strategies@).len(),
        requires_annotations@.len() == known@.len(),
    ensures
        r is Err <==> experiment_plan_error(
            game@,
            sweep,
            bundle,
            default_strategies@,
            build_errors@,
            texts(known@),
            requires_annotations@,
            texts(analyzers@),
            annotate_enabled,
        ) is Some,
        r matches Err(e) ==> reports_config(
            e,
            experiment_plan_error(
                game@,
                sweep,
                bundle,
                default_strategies@,
                build_errors@,
                texts(known@),
                requires_annotations@,
                texts(analyzers@),
                annotate_enabled,
            )->0,
        ),
{
    proof {
        reveal_strlit("game `");
        reveal_strlit("` does not match the sweep's game `");
        reveal_strlit("`");
    }
    if !text_eq(sweep.game.as_str(), game) {
        let mut m = String::from_str("game `");
        m.append(game);
        m.append("` does not match the sweep's game `");
        m.append(sweep.game.as_str());
        m.append("`");
        return Err(config_error(m));
    }
    match resolve(sweep, bundle, default_strategies, build_errors) {
        Err(e) => {
            return Err(e);
        },
        Ok(_) => {},
    }
    check_experiment_analyzers(known, requires_annotations, analyzers, annotate_enabled)
}

} // verus!
