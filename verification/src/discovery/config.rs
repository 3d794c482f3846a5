//! Sweep configuration for corpus generation: per-cell seeds, named openings and opponent
//! pairings, and the errors of the corpus stages.

use vstd::prelude::*;
use vstd::string::*;
use vstd::wrapping::u64_specs::wrapping_mul;
use crate::discovery::bundle::{evaluator_error, GameBundle};
use crate::discovery::match_engine::{spec_splitmix64, splitmix64, Opening};
use crate::framework::text::{decimal, decimal_string, join_with, joined, text_eq};
use crate::framework::traits::{Canonicalize, GameDomain, GameRules};
use crate::io::replay::{replay, replay_refusal};
use crate::io::schema::{CellKey, SCHEMA_VERSION};
use crate::discovery::solver::SolverError;
use crate::framework::traits::{MatchError, RulesError, StrategyError};
use crate::io::schema::IoError;

verus! {

/// Salt mixed into the master seed to derive per-cell seeds.
pub const CELL_SEED_SALT: u64 = 0x5851F42D4C957F2D;

/// Multiplier applied to the cell index when deriving per-cell seeds.
pub const CELL_SEED_MUL: u64 = 0xD1B54A32D192ED03;

/// `splitmix64(master ^ CELL_SEED_SALT ^ cell_index * CELL_SEED_MUL)`, the product taken
/// modulo `2^64`.
pub open spec fn spec_cell_seed(master: u64, cell_index: u64) -> u64 {
    spec_splitmix64(master ^ CELL_SEED_SALT ^ wrapping_mul(cell_index, CELL_SEED_MUL))
}

/// Per-cell master seed, derived from a sweep's master seed and the cell's index.
pub fn cell_seed(master: u64, cell_index: usize) -> (s: u64)
    ensures
        s == spec_cell_seed(master, cell_index as u64),
{
    splitmix64(master ^ CELL_SEED_SALT ^ (cell_index as u64).wrapping_mul(CELL_SEED_MUL))
}

/// Strategy names aligned to a game's players, naming one opposing pairing.
#[derive(Clone, Debug, PartialEq, Eq)]
pub struct Pairing(pub Vec<String>);

/// A named fixed opening: an action prefix applied verbatim before strategies take over.
#[derive(Clone, Debug, PartialEq, Eq)]
pub struct NamedOpening<A> {
    /// Name this opening is referenced by from a sweep cell.
    pub name: String,
    /// Actions applied verbatim from the initial state.
    pub actions: Vec<A>,
}

/// The texts of a sequence of strings.
pub open spec fn texts(v: Seq<String>) -> Seq<Seq<char>> {
    v.map_values(|s: String| s@)
}

/// The name texts of each pairing.
pub open spec fn pairing_texts(ps: Seq<Pairing>) -> Seq<Seq<Seq<char>>> {
    ps.map_values(|p: Pairing| texts(p.0@))
}

/// Every ordered tuple of `names`, `slots` long: the earliest slot varies slowest and the
/// latest fastest.
pub open spec fn spec_all_pairings(names: Seq<Seq<char>>, slots: nat) -> Seq<Seq<Seq<char>>>
    decreases slots,
{
    if slots == 0 {
        seq![seq![]]
    } else {
        let prev = spec_all_pairings(names, (slots - 1) as nat);
        Seq::new(
            prev.len() * names.len(),
            |k: int| prev[k / names.len() as int].push(names[k % names.len() as int]),
        )
    }
}

/// There are `names.len()^slots` pairings, each `slots` long, each name drawn from `names`.
pub proof fn lemma_all_pairings_shape(names: Seq<Seq<char>>, slots: nat)
    ensures
        spec_all_pairings(names, slots).len() == crate::framework::symmetry::pow_nat(
            names.len(),
            slots,
        ),
        forall|k: int|
            0 <= k < spec_all_pairings(names, slots).len() ==> {
                &&& (#[trigger] spec_all_pairings(names, slots)[k]).len() == slots
                &&& forall|i: int|
                    0 <= i < slots ==> names.contains(spec_all_pairings(names, slots)[k][i])
            },
    decreases slots,
{
    if slots > 0 {
        let m = (slots - 1) as nat;
        lemma_all_pairings_shape(names, m);
        let prev = spec_all_pairings(names, m);
        let n = names.len() as int;
        assert(prev.len() * n == crate::framework::symmetry::pow_nat(names.len(), slots)) by (nonlinear_arith)
            requires
                prev.len() == crate::framework::symmetry::pow_nat(names.len(), m),
                crate::framework::symmetry::pow_nat(names.len(), slots) == names.len()
                    * crate::framework::symmetry::pow_nat(names.len(), m),
                n == names.len(),
        ;
        let all = spec_all_pairings(names, slots);
        assert forall|k: int| 0 <= k < all.len() implies {
            &&& (#[trigger] all[k]).len() == slots
            &&& forall|i: int| 0 <= i < slots ==> names.contains(all[k][i])
        } by {
            assert(n > 0) by (nonlinear_arith)
                requires
                    0 <= k < prev.len() * n,
            ;
            vstd::arithmetic::div_mod::lemma_div_pos_is_pos(k, n);
            assert(0 <= k / n < prev.len()) by (nonlinear_arith)
                requires
                    0 <= k < prev.len() * n,
                    n > 0,
            ;
            assert(0 <= k % n < n) by (nonlinear_arith)
                requires
                    n > 0,
            ;
            let q = k / n;
            assert(all[k] == prev[q].push(names[k % n]));
            assert forall|i: int| 0 <= i < slots implies names.contains(all[k][i]) by {
                if i < m {
                    assert(all[k][i] == prev[q][i]);
                } else {
                    assert(all[k][i] == names[k % n]);
                }
            }
        }
    }
}

/// `prefix` followed by `name`.
fn extended(prefix: &Pairing, name: &String) -> (p: Pairing)
    ensures
        texts(p.0@) == texts(prefix.0@).push(name@),
{
    let mut v: Vec<String> = Vec::new();
    let mut i: usize = 0;
    while i < prefix.0.len()
        invariant
            i <= prefix.0@.len(),
            v@.len() == i,
            texts(v@) == texts(prefix.0@).take(i as int),
        decreases prefix.0@.len() - i,
    {
        let s = prefix.0[i].clone();
        proof {
            assert(s@ == prefix.0@[i as int]@);
        }
        let ghost old_v = v@;
        v.push(s);
        proof {
            assert(v@ == old_v.push(s));
            assert forall|j: int| 0 <= j < i + 1 implies #[trigger] texts(v@)[j] == texts(prefix.0@).take(i + 1)[j] by {
                if j < i {
                    assert(texts(old_v)[j] == texts(prefix.0@).take(i as int)[j]);
                }
            }
            assert(texts(v@) =~= texts(prefix.0@).take(i + 1));
        }
        i = i + 1;
    }
    let last = name.clone();
    let ghost old_v = v@;
    v.push(last);
    proof {
        assert(texts(old_v) =~= texts(prefix.0@).take(prefix.0@.len() as int));
        assert forall|j: int| 0 <= j < v@.len() implies #[trigger] texts(v@)[j] == texts(prefix.0@).push(name@)[j] by {
            if j < old_v.len() {
                assert(texts(old_v)[j] == texts(prefix.0@)[j]);
            }
        }
        assert(texts(v@) =~= texts(prefix.0@).push(name@));
    }
    Pairing(v)
}

/// Ordered tuples of `names`, `slots` long: `names` crossed with itself `slots` times, the
/// earliest slot varying slowest and the latest slot varying fastest.
pub fn all_pairings(names: &[String], slots: usize) -> (r: Vec<Pairing>)
    ensures
        pairing_texts(r@) == spec_all_pairings(texts(names@), slots as nat),
{
    let ghost nm = texts(names@);
    let n = names.len();
    let mut acc: Vec<Pairing> = Vec::new();
    acc.push(Pairing(Vec::new()));
    proof {
        assert(texts(acc@[0].0@) =~= seq![]);
        assert(pairing_texts(acc@) =~= spec_all_pairings(nm, 0));
    }
    let mut s: usize = 0;
    while s < slots
        invariant
            nm == texts(names@),
            n == names@.len(),
            s <= slots,
            pairing_texts(acc@) == spec_all_pairings(nm, s as nat),
        decreases slots - s,
    {
        let ghost prev = spec_all_pairings(nm, s as nat);
        let mut next: Vec<Pairing> = Vec::new();
        let mut pi: usize = 0;
        while pi < acc.len()
            invariant
                nm == texts(names@),
                n == names@.len(),
                prev == pairing_texts(acc@),
                pi <= acc@.len(),
                next@.len() == pi * n,
                forall|k: int|
                    0 <= k < next@.len() ==> texts((#[trigger] next@[k]).0@) == prev[k / n as int].push(
                        nm[k % n as int],
                    ),
            decreases acc@.len() - pi,
        {
            let mut ni: usize = 0;
            while ni < n
                invariant
                    nm == texts(names@),
                    n == names@.len(),
                    prev == pairing_texts(acc@),
                    pi < acc@.len(),
                    ni <= n,
                    next@.len() == pi * n + ni,
                    forall|k: int|
                        0 <= k < next@.len() ==> texts((#[trigger] next@[k]).0@) == prev[k / n as int].push(
                            nm[k % n as int],
                        ),
                decreases n - ni,
            {
                let p = extended(&acc[pi], &names[ni]);
                proof {
                    let k = pi * n + ni;
                    vstd::arithmetic::div_mod::lemma_fundamental_div_mod_converse(
                        k as int,
                        n as int,
                        pi as int,
                        ni as int,
                    );
                    assert(texts(acc@[pi as int].0@) == prev[pi as int]);
                }
                next.push(p);
                ni = ni + 1;
            }
            proof {
                assert((pi + 1) * n == pi * n + n) by (nonlinear_arith);
            }
            pi = pi + 1;
        }
        proof {
            assert(pairing_texts(next@) =~= spec_all_pairings(nm, (s + 1) as nat));
        }
        acc = next;
        s = s + 1;
    }
    acc
}

/// Errors from the corpus pipeline stages that the library itself reports.
#[derive(Clone, Debug, PartialEq, Eq)]
pub enum CorpusError {
    /// A sweep configuration is invalid.
    Config(String),
    /// A required input is absent; the message names the missing file and the stage to run first.
    Precondition(String),
    /// A match failed to play out.
    Match(MatchError),
    /// A strategy could not be built or failed to choose an action.
    Strategy(StrategyError),
    /// A file's content is invalid.
    Io(IoError),
    /// The rules rejected an action or state.
    Rules(RulesError),
    /// The exhaustive solver's state-space limit was exceeded.
    Solver(SolverError),
}

/// A named strategy spec; `K` is the type of the specs strategies are built from.
#[derive(Clone, Debug, PartialEq)]
pub struct RosterEntry<K> {
    /// Name the entry is referenced by.
    pub name: String,
    /// The strategy spec.
    pub spec: K,
}

/// Human-authored sweep configuration. Every `Vec` field may be empty, meaning "derive from
/// the game bundle", which `resolve` fills in.
#[derive(Clone, Debug, PartialEq)]
pub struct GenerateConfig<A, K> {
    /// Schema version this config was authored against.
    pub schema_version: u32,
    /// Game name; must equal the target game bundle's name.
    pub game: String,
    /// Master seed the per-cell and per-game seeds are derived from.
    pub seed: u64,
    /// Number of games played per enumerated cell; must be `> 0`.
    pub games_per_cell: usize,
    /// Optional cap on plies per game.
    pub max_plies: Option<usize>,
    /// Named strategy specs; empty means the game's default strategies.
    pub strategies: Vec<RosterEntry<K>>,
    /// Opponent pairings by strategy name; empty means all ordered tuples of the strategies.
    pub pairings: Vec<Pairing>,
    /// Evaluator names; empty means the bundle's default evaluator.
    pub evaluators: Vec<String>,
    /// Named openings; empty means a single no-op opening named `none`.
    pub openings: Vec<NamedOpening<A>>,
    /// Random-opening-ply counts, crossed with the openings; empty means `[0]`.
    pub random_opening_plies: Vec<u32>,
}

/// One enumerated sweep cell: a strategy pairing, evaluator and opening, with its seed.
#[derive(Clone, Debug, PartialEq)]
pub struct Cell<A, K> {
    /// Identifying key for this cell.
    pub key: CellKey,
    /// The strategy entries of the pairing, aligned to the game's players.
    pub entries: Vec<RosterEntry<K>>,
    /// Forced opening this cell's games start from.
    pub opening: Opening<A>,
    /// Master seed for this cell.
    pub seed: u64,
}

/// A configuration with defaults filled in, plus its enumerated cells.
#[derive(Clone, Debug, PartialEq)]
pub struct ResolvedConfig<A, K> {
    /// The configuration, defaults filled in.
    pub config: GenerateConfig<A, K>,
    /// Every cell enumerated from `config`.
    pub cells: Vec<Cell<A, K>>,
}

/// The names of a sequence of roster entries.
pub open spec fn entry_names<K>(v: Seq<RosterEntry<K>>) -> Seq<Seq<char>> {
    v.map_values(|e: RosterEntry<K>| e.name@)
}

/// The names of a sequence of named openings.
pub open spec fn opening_names<A>(v: Seq<NamedOpening<A>>) -> Seq<Seq<char>> {
    v.map_values(|o: NamedOpening<A>| o.name@)
}

/// The first `f(i)` that is `Some`, for `i` from `i` up to `n`.
pub open spec fn first_some(f: spec_fn(int) -> Option<Seq<char>>, i: int, n: int) -> Option<Seq<char>>
    decreases n - i,
{
    if i >= n {
        None
    } else if f(i) is Some {
        f(i)
    } else {
        first_some(f, i + 1, n)
    }
}

pub(crate) proof fn lemma_first_some_skip(f: spec_fn(int) -> Option<Seq<char>>, k: int, i: int, n: int)
    requires
        k <= i <= n,
        forall|j: int| k <= j < i ==> (#[trigger] f(j)) is None,
    ensures
        first_some(f, k, n) == first_some(f, i, n),
    decreases i - k,
{
    if k < i {
        lemma_first_some_skip(f, k + 1, i, n);
    }
}

/// Rust's `Debug` rendering of a list of strings.
pub uninterp spec fn debug_list(names: Seq<Seq<char>>) -> Seq<char>;

/// `format!("{:?}", names)`: Rust's `Debug` rendering of a list of strings. The result is
/// named: it is a function of the names alone, whose escaping rules are not restated here.
#[verifier::external_body]
fn debug_names(names: &[String]) -> (s: String)
    ensures
        s@ == debug_list(texts(names@)),
{
    format!("{:?}", names)
}

/// The first configuration error before the strategies are checked: the schema version, the
/// game name, the number of games per cell.
pub open spec fn header_error<A, K>(config: GenerateConfig<A, K>, bundle_name: Seq<char>) -> Option<Seq<char>> {
    if config.schema_version != SCHEMA_VERSION {
        Some("schema_version "@ + decimal(config.schema_version as nat) + " is not the supported 1"@)
    } else if config.game@ != bundle_name {
        Some("game `"@ + config.game@ + "` does not match bundle `"@ + bundle_name + "`"@)
    } else if config.games_per_cell == 0 {
        Some("games_per_cell must be > 0"@)
    } else {
        None
    }
}

/// The check of strategy `i`: a name, not used by an earlier entry, whose spec builds.
pub open spec fn strategy_check(names: Seq<Seq<char>>, build: Seq<Option<Seq<char>>>, i: int) -> Option<Seq<char>> {
    if names[i].len() == 0 {
        Some("strategy name must not be empty"@)
    } else if names.take(i).contains(names[i]) {
        Some("duplicate strategy name `"@ + names[i] + "`"@)
    } else {
        match build[i] {
            Some(err) => Some("strategy `"@ + names[i] + "`: "@ + err),
            None => None,
        }
    }
}

/// The check of name `j` of pairing `p`: a strategy name.
pub open spec fn pairing_name_check(p: Seq<Seq<char>>, names: Seq<Seq<char>>, j: int) -> Option<Seq<char>> {
    if names.contains(p[j]) {
        None
    } else {
        Some("pairing "@ + debug_list(p) + " names unknown strategy `"@ + p[j] + "`"@)
    }
}

/// The check of a pairing: one name per player, each a strategy name.
pub open spec fn pairing_check(p: Seq<Seq<char>>, names: Seq<Seq<char>>, slots: nat) -> Option<Seq<char>> {
    if p.len() != slots {
        Some(
            "pairing "@ + debug_list(p) + " must name "@ + decimal(slots) + " strategies (one per player)"@,
        )
    } else {
        first_some(|j: int| pairing_name_check(p, names, j), 0, p.len() as int)
    }
}

/// The text of a rules refusal: `illegal action: {message}`, or `the game is already over`.
pub open spec fn refusal_text(detail: Option<Seq<char>>) -> Seq<char> {
    match detail {
        Some(m) => "illegal action: "@ + m,
        None => "the game is already over"@,
    }
}

/// The check of opening `i`: a name, not used by an earlier opening, whose actions the rules
/// accept from the initial state.
pub open spec fn opening_check<G: GameDomain, R: GameRules<G>>(
    rules: &R,
    names: Seq<Seq<char>>,
    actions: Seq<G::Action>,
    i: int,
) -> Option<Seq<char>> {
    if names[i].len() == 0 {
        Some("opening name must not be empty"@)
    } else if names.take(i).contains(names[i]) {
        Some("duplicate opening name `"@ + names[i] + "`"@)
    } else {
        match replay_refusal::<G, R>(rules, actions, actions.len() as int) {
            Some(detail) => Some(
                "opening `"@ + names[i] + "` is not a legal action sequence: "@ + refusal_text(detail),
            ),
            None => None,
        }
    }
}

/// The check of random-opening-ply count `i`: not an earlier count.
pub open spec fn plies_check(plies: Seq<u32>, i: int) -> Option<Seq<char>> {
    if plies.take(i).contains(plies[i]) {
        Some("duplicate random_opening_plies value "@ + decimal(plies[i] as nat))
    } else {
        None
    }
}

/// Whether `names[..i]` holds `names[i]`.
pub(crate) fn earlier_has(names: &[String], i: usize) -> (r: bool)
    requires
        i < names@.len(),
    ensures
        r == texts(names@).take(i as int).contains(names@[i as int]@),
{
    let mut j: usize = 0;
    while j < i
        invariant
            i < names@.len(),
            j <= i,
            forall|k: int| 0 <= k < j ==> names@[k]@ != names@[i as int]@,
        decreases i - j,
    {
        if text_eq(names[j].as_str(), names[i].as_str()) {
            proof {
                assert(texts(names@).take(i as int)[j as int] == names@[i as int]@);
            }
            return true;
        }
        j = j + 1;
    }
    proof {
        assert forall|k: int| 0 <= k < i implies texts(names@).take(i as int)[k] != names@[i as int]@ by {}
    }
    false
}

/// Whether `names` holds `name`.
pub(crate) fn names_contain(names: &[String], name: &str) -> (r: bool)
    ensures
        r == texts(names@).contains(name@),
{
    let mut j: usize = 0;
    while j < names.len()
        invariant
            j <= names@.len(),
            forall|k: int| 0 <= k < j ==> names@[k]@ != name@,
        decreases names@.len() - j,
    {
        if text_eq(names[j].as_str(), name) {
            proof {
                assert(texts(names@)[j as int] == name@);
            }
            return true;
        }
        j = j + 1;
    }
    proof {
        assert forall|k: int| 0 <= k < texts(names@).len() implies texts(names@)[k] != name@ by {}
    }
    false
}

/// A configuration error with message `m`.
pub(crate) fn config_error(m: String) -> (e: CorpusError)
    ensures
        e matches CorpusError::Config(msg) && msg@ == m@,
{
    CorpusError::Config(m)
}

/// `e` reports the configuration error `m`.
pub open spec fn reports_config(e: CorpusError, m: Seq<char>) -> bool {
    e matches CorpusError::Config(msg) && msg@ == m
}

/// Checks the strategy entries, named `names`, whose specs fail to build with `build[i]`.
fn check_strategies(names: &[String], build: &[Option<String>]) -> (r: Result<(), CorpusError>)
    requires
        build@.len() == names@.len(),
    ensures
        match first_some(
            |i: int| strategy_check(texts(names@), build@.map_values(|b: Option<String>| match b {
                Some(s) => Some(s@),
                None => None,
            }), i),
            0,
            names@.len() as int,
        ) {
            None => r is Ok,
            Some(m) => r matches Err(e) && reports_config(e, m),
        },
{
    let ghost nm = texts(names@);
    let ghost bv = build@.map_values(|b: Option<String>| match b {
        Some(s) => Some(s@),
        None => None,
    });
    let ghost f = |i: int| strategy_check(nm, bv, i);
    let mut i: usize = 0;
    while i < names.len()
        invariant
            nm == texts(names@),
            build@.len() == names@.len(),
            bv == build@.map_values(|b: Option<String>| match b {
                Some(s) => Some(s@),
                None => None,
            }),
            f == (|i: int| strategy_check(nm, bv, i)),
            i <= names@.len(),
            forall|j: int| 0 <= j < i ==> (#[trigger] f(j)) is None,
        decreases names@.len() - i,
    {
        proof {
            lemma_first_some_skip(f, 0, i as int, names@.len() as int);
            reveal_strlit("strategy name must not be empty");
            reveal_strlit("duplicate strategy name `");
            reveal_strlit("`");
            reveal_strlit("strategy `");
            reveal_strlit("`: ");
        }
        if names[i].as_str().unicode_len() == 0 {
            return Err(config_error(String::from_str("strategy name must not be empty")));
        }
        if earlier_has(names, i) {
            let mut m = String::from_str("duplicate strategy name `");
            m.append(names[i].as_str());
            m.append("`");
            return Err(config_error(m));
        }
        match &build[i] {
            Some(err) => {
                let mut m = String::from_str("strategy `");
                m.append(names[i].as_str());
                m.append("`: ");
                m.append(err.as_str());
                return Err(config_error(m));
            },
            None => {},
        }
        i = i + 1;
    }
    proof {
        lemma_first_some_skip(f, 0, names@.len() as int, names@.len() as int);
    }
    Ok(())
}

/// Checks every pairing: one name per player (`slots`), each among `names`.
fn check_pairings(pairings: &[Pairing], names: &[String], slots: usize) -> (r: Result<(), CorpusError>)
    ensures
        match first_some(
            |i: int| pairing_check(pairing_texts(pairings@)[i], texts(names@), slots as nat),
            0,
            pairings@.len() as int,
        ) {
            None => r is Ok,
            Some(m) => r matches Err(e) && reports_config(e, m),
        },
{
    let ghost f = |i: int| pairing_check(pairing_texts(pairings@)[i], texts(names@), slots as nat);
    let mut i: usize = 0;
    while i < pairings.len()
        invariant
            f == (|i: int| pairing_check(pairing_texts(pairings@)[i], texts(names@), slots as nat)),
            i <= pairings@.len(),
            forall|j: int| 0 <= j < i ==> (#[trigger] f(j)) is None,
        decreases pairings@.len() - i,
    {
        proof {
            lemma_first_some_skip(f, 0, i as int, pairings@.len() as int);
            reveal_strlit("pairing ");
            reveal_strlit(" must name ");
            reveal_strlit(" strategies (one per player)");
            reveal_strlit(" names unknown strategy `");
            reveal_strlit("`");
        }
        let pairing = &pairings[i];
        let ghost p = pairing_texts(pairings@)[i as int];
        assert(p == texts(pairing.0@));
        if pairing.0.len() != slots {
            let mut m = String::from_str("pairing ");
            let d = debug_names(pairing.0.as_slice());
            m.append(d.as_str());
            m.append(" must name ");
            let n = decimal_string(slots);
            m.append(n.as_str());
            m.append(" strategies (one per player)");
            return Err(config_error(m));
        }
        let ghost g = |j: int| pairing_name_check(p, texts(names@), j);
        let mut j: usize = 0;
        while j < pairing.0.len()
            invariant
                p == texts(pairing.0@),
                g == (|j: int| pairing_name_check(p, texts(names@), j)),
                f == (|i: int| pairing_check(pairing_texts(pairings@)[i], texts(names@), slots as nat)),
                i < pairings@.len(),
                *pairing == pairings@[i as int],
                p == pairing_texts(pairings@)[i as int],
                pairing.0@.len() == slots,
                first_some(f, 0, pairings@.len() as int) == first_some(f, i as int, pairings@.len() as int),
                j <= pairing.0@.len(),
                forall|k: int| 0 <= k < j ==> (#[trigger] g(k)) is None,
            decreases pairing.0@.len() - j,
        {
            proof {
                lemma_first_some_skip(g, 0, j as int, pairing.0@.len() as int);
            }
            if !names_contain(names, pairing.0[j].as_str()) {
                proof {
                    assert(g(j as int) is Some);
                    assert(first_some(g, j as int, pairing.0@.len() as int) == g(j as int));
                    assert(g =~= (|j: int| pairing_name_check(p, texts(names@), j)));
                    assert(f(i as int) == first_some(g, 0, p.len() as int));
                }
                let mut m = String::from_str("pairing ");
                let d = debug_names(pairing.0.as_slice());
                m.append(d.as_str());
                m.append(" names unknown strategy `");
                m.append(pairing.0[j].as_str());
                m.append("`");
                return Err(config_error(m));
            }
            j = j + 1;
        }
        proof {
            lemma_first_some_skip(g, 0, pairing.0@.len() as int, pairing.0@.len() as int);
            assert(g =~= (|j: int| pairing_name_check(p, texts(names@), j)));
            assert(f(i as int) == first_some(g, 0, p.len() as int));
        }
        i = i + 1;
    }
    proof {
        lemma_first_some_skip(f, 0, pairings@.len() as int, pairings@.len() as int);
    }
    Ok(())
}

/// Checks that every name in `evaluators` is one of the bundle's evaluators.
fn check_evaluators<G: GameDomain, R: GameRules<G>, C: Canonicalize<G>, P>(
    bundle: &GameBundle<G, R, C, P>,
    evaluators: &[String],
) -> (r: Result<(), CorpusError>)
    ensures
        match first_some(
            |i: int| evaluator_error(texts(bundle.evaluators@), texts(evaluators@)[i]),
            0,
            evaluators@.len() as int,
        ) {
            None => r is Ok,
            Some(m) => r matches Err(e) && reports_config(e, m),
        },
{
    let ghost f = |i: int| evaluator_error(texts(bundle.evaluators@), texts(evaluators@)[i]);
    let mut i: usize = 0;
    while i < evaluators.len()
        invariant
            f == (|i: int| evaluator_error(texts(bundle.evaluators@), texts(evaluators@)[i])),
            i <= evaluators@.len(),
            forall|j: int| 0 <= j < i ==> (#[trigger] f(j)) is None,
        decreases evaluators@.len() - i,
    {
        proof {
            lemma_first_some_skip(f, 0, i as int, evaluators@.len() as int);
        }
        match bundle.check_evaluator(evaluators[i].as_str()) {
            Ok(()) => {},
            Err(e) => {
                return Err(e);
            },
        }
        i = i + 1;
    }
    proof {
        lemma_first_some_skip(f, 0, evaluators@.len() as int, evaluators@.len() as int);
    }
    Ok(())
}

/// The action lists of a sequence of named openings.
pub open spec fn opening_actions<A>(v: Seq<NamedOpening<A>>) -> Seq<Seq<A>> {
    v.map_values(|o: NamedOpening<A>| o.actions@)
}

/// Checks every opening: a name, not used by an earlier opening, whose actions the rules accept.
fn check_openings<G: GameDomain, R: GameRules<G>>(rules: &R, openings: &[NamedOpening<G::Action>]) -> (r:
    Result<(), CorpusError>)
    ensures
        match first_some(
            |i: int| opening_check::<G, R>(
                rules,
                opening_names(openings@),
                opening_actions(openings@)[i],
                i,
            ),
            0,
            openings@.len() as int,
        ) {
            None => r is Ok,
            Some(m) => r matches Err(e) && reports_config(e, m),
        },
{
    let ghost f = |i: int| opening_check::<G, R>(rules, opening_names(openings@), opening_actions(openings@)[i], i);
    let mut names: Vec<String> = Vec::new();
    let mut k: usize = 0;
    while k < openings.len()
        invariant
            k <= openings@.len(),
            texts(names@) == opening_names(openings@).take(k as int),
        decreases openings@.len() - k,
    {
        let name = openings[k].name.clone();
        let ghost before = names@;
        names.push(name);
        proof {
            assert(texts(names@) =~= texts(before).push(openings@[k as int].name@));
            assert(opening_names(openings@).take(k + 1) =~= opening_names(openings@).take(k as int).push(
                openings@[k as int].name@,
            ));
        }
        k = k + 1;
    }
    assert(opening_names(openings@).take(openings@.len() as int) =~= opening_names(openings@));
    let mut i: usize = 0;
    while i < openings.len()
        invariant
            f == (|i: int| opening_check::<G, R>(rules, opening_names(openings@), opening_actions(openings@)[i], i)),
            texts(names@) == opening_names(openings@),
            names@.len() == openings@.len(),
            i <= openings@.len(),
            forall|j: int| 0 <= j < i ==> (#[trigger] f(j)) is None,
        decreases openings@.len() - i,
    {
        proof {
            lemma_first_some_skip(f, 0, i as int, openings@.len() as int);
            reveal_strlit("opening name must not be empty");
            reveal_strlit("duplicate opening name `");
            reveal_strlit("`");
            reveal_strlit("opening `");
            reveal_strlit("` is not a legal action sequence: ");
        }
        if openings[i].name.as_str().unicode_len() == 0 {
            return Err(config_error(String::from_str("opening name must not be empty")));
        }
        if earlier_has(names.as_slice(), i) {
            let mut m = String::from_str("duplicate opening name `");
            m.append(openings[i].name.as_str());
            m.append("`");
            return Err(config_error(m));
        }
        match replay::<G, R>(rules, openings[i].actions.as_slice()) {
            Ok(_) => {
                proof {
                    assert(opening_actions(openings@)[i as int] == openings@[i as int].actions@);
                }
            },
            Err(err) => {
                let mut m = String::from_str("opening `");
                m.append(openings[i].name.as_str());
                m.append("` is not a legal action sequence: ");
                let t = err.to_string();
                m.append(t.as_str());
                proof {
                    assert(opening_actions(openings@)[i as int] == openings@[i as int].actions@);
                }
                return Err(config_error(m));
            },
        }
        i = i + 1;
    }
    proof {
        lemma_first_some_skip(f, 0, openings@.len() as int, openings@.len() as int);
    }
    Ok(())
}

/// Whether `plies[..i]` holds `plies[i]`.
fn earlier_plies(plies: &[u32], i: usize) -> (r: bool)
    requires
        i < plies@.len(),
    ensures
        r == plies@.take(i as int).contains(plies@[i as int]),
{
    let mut j: usize = 0;
    while j < i
        invariant
            i < plies@.len(),
            j <= i,
            forall|k: int| 0 <= k < j ==> plies@[k] != plies@[i as int],
        decreases i - j,
    {
        if plies[j] == plies[i] {
            proof {
                assert(plies@.take(i as int)[j as int] == plies@[i as int]);
            }
            return true;
        }
        j = j + 1;
    }
    false
}

/// Checks that no random-opening-ply count repeats an earlier one.
fn check_plies(plies: &[u32]) -> (r: Result<(), CorpusError>)
    ensures
        match first_some(|i: int| plies_check(plies@, i), 0, plies@.len() as int) {
            None => r is Ok,
            Some(m) => r matches Err(e) && reports_config(e, m),
        },
{
    let ghost f = |i: int| plies_check(plies@, i);
    let mut i: usize = 0;
    while i < plies.len()
        invariant
            f == (|i: int| plies_check(plies@, i)),
            i <= plies@.len(),
            forall|j: int| 0 <= j < i ==> (#[trigger] f(j)) is None,
        decreases plies@.len() - i,
    {
        proof {
            lemma_first_some_skip(f, 0, i as int, plies@.len() as int);
            reveal_strlit("duplicate random_opening_plies value ");
        }
        if earlier_plies(plies, i) {
            let mut m = String::from_str("duplicate random_opening_plies value ");
            let d = decimal_string(plies[i] as usize);
            m.append(d.as_str());
            return Err(config_error(m));
        }
        i = i + 1;
    }
    proof {
        lemma_first_some_skip(f, 0, plies@.len() as int, plies@.len() as int);
    }
    Ok(())
}

/// The first index of `strategies` whose name is `name`.
pub open spec fn first_named<K>(strategies: Seq<RosterEntry<K>>, name: Seq<char>) -> int {
    choose|k: int|
        0 <= k < strategies.len() && strategies[k].name@ == name && forall|j: int|
            0 <= j < k ==> strategies[j].name@ != name
}

/// `entries` are the strategies named by `pairing`, in order, each a clone of the first
/// strategy of that name.
pub open spec fn entries_of<K: Clone>(
    entries: Seq<RosterEntry<K>>,
    pairing: Seq<Seq<char>>,
    strategies: Seq<RosterEntry<K>>,
) -> bool {
    &&& entry_names(entries) == pairing
    &&& forall|j: int|
        0 <= j < entries.len() ==> cloned(
            strategies[first_named(strategies, pairing[j])].spec,
            #[trigger] entries[j].spec,
        )
}

/// A clone of `e`.
fn clone_entry<K: Clone>(e: &RosterEntry<K>) -> (r: RosterEntry<K>)
    ensures
        r.name@ == e.name@,
        cloned(e.spec, r.spec),
{
    RosterEntry { name: e.name.clone(), spec: e.spec.clone() }
}

/// The first index of `strategies` whose name is `name`.
fn find_named<K>(strategies: &[RosterEntry<K>], name: &str) -> (k: usize)
    requires
        entry_names(strategies@).contains(name@),
    ensures
        k == first_named(strategies@, name@),
        k < strategies@.len(),
        strategies@[k as int].name@ == name@,
{
    let mut k: usize = 0;
    while k < strategies.len()
        invariant
            entry_names(strategies@).contains(name@),
            k <= strategies@.len(),
            forall|i: int| 0 <= i < k ==> strategies@[i].name@ != name@,
        decreases strategies@.len() - k,
    {
        if text_eq(strategies[k].name.as_str(), name) {
            proof {
                let f = first_named(strategies@, name@);
                assert(0 <= f < strategies@.len() && strategies@[f].name@ == name@ && forall|i: int|
                    0 <= i < f ==> strategies@[i].name@ != name@);
                if f < k {
                    assert(false);
                }
                if k < f {
                    assert(strategies@[k as int].name@ != name@);
                }
            }
            return k;
        }
        k = k + 1;
    }
    proof {
        let i = choose|i: int| 0 <= i < entry_names(strategies@).len() && entry_names(strategies@)[i] == name@;
        assert(strategies@[i].name@ == name@);
    }
    0
}

/// The strategies named by `pairing`, in order, each cloned from the first strategy of that
/// name.
#[verifier::rlimit(40)]
fn entries_for<K: Clone>(pairing: &Pairing, strategies: &[RosterEntry<K>]) -> (v: Vec<RosterEntry<K>>)
    requires
        forall|j: int| 0 <= j < pairing.0@.len() ==> entry_names(strategies@).contains(#[trigger] pairing.0@[j]@),
    ensures
        entries_of(v@, texts(pairing.0@), strategies@),
{
    let mut v: Vec<RosterEntry<K>> = Vec::new();
    proof {
        assert(entry_names(v@) =~= texts(pairing.0@).take(0));
    }
    let mut j: usize = 0;
    while j < pairing.0.len()
        invariant
            forall|j: int| 0 <= j < pairing.0@.len() ==> entry_names(strategies@).contains(#[trigger] pairing.0@[j]@),
            j <= pairing.0@.len(),
            entries_of(v@, texts(pairing.0@).take(j as int), strategies@),
        decreases pairing.0@.len() - j,
    {
        let k = find_named(strategies, pairing.0[j].as_str());
        let ghost before = v@;
        let e = clone_entry(&strategies[k]);
        v.push(e);
        proof {
            assert(entry_names(v@) =~= entry_names(before).push(pairing.0@[j as int]@));
            assert(texts(pairing.0@).take(j + 1) =~= texts(pairing.0@).take(j as int).push(pairing.0@[j as int]@));
            assert forall|i: int| 0 <= i < v@.len() implies cloned(
                strategies@[first_named(strategies@, texts(pairing.0@).take(j + 1)[i])].spec,
                #[trigger] v@[i].spec,
            ) by {
                if i < j {
                    assert(v@[i] == before[i]);
                    assert(texts(pairing.0@).take(j + 1)[i] == texts(pairing.0@).take(j as int)[i]);
                }
            }
        }
        j = j + 1;
    }
    assert(texts(pairing.0@).take(pairing.0@.len() as int) =~= texts(pairing.0@));
    v
}

/// Position of the cell for pairing `p`, evaluator `e`, opening `o` and ply count `r`, with
/// `ne` evaluators, `no` openings and `nr` ply counts: ply counts vary fastest, pairings slowest.
pub open spec fn cell_index(p: int, e: int, o: int, r: int, ne: int, no: int, nr: int) -> int {
    ((p * ne + e) * no + o) * nr + r
}

/// `cell` is cell `idx` of the sweep over `pairings`, `evaluators`, the openings named `onames`
/// with actions `oactions`, and `plies`, with ply counts varying fastest and pairings slowest:
/// its key names them, its entries are the strategies of its pairing, and its seed derives from
/// Cells are numbered pairing slowest, then evaluator, then opening, then random-opening plies
/// fastest: cell `((a·|E| + b)·|O| + c)·|R| + d` is the one of pairing `a`, evaluator `b`,
/// opening `c` and ply count `d`, as `is_cell` reads its index.
pub proof fn lemma_cell_position(a: int, b: int, c: int, d: int, ne: int, no: int, nr: int)
    requires
        0 <= a,
        0 <= b < ne,
        0 <= c < no,
        0 <= d < nr,
    ensures
        ({
            let idx = ((a * ne + b) * no + c) * nr + d;
            &&& idx % nr == d
            &&& (idx / nr) % no == c
            &&& (idx / nr / no) % ne == b
            &&& idx / nr / no / ne == a
        }),
{
    let x2 = a * ne + b;
    let x1 = x2 * no + c;
    let idx = x1 * nr + d;
    vstd::arithmetic::div_mod::lemma_fundamental_div_mod_converse(idx, nr, x1, d);
    vstd::arithmetic::div_mod::lemma_fundamental_div_mod_converse(x1, no, x2, c);
    vstd::arithmetic::div_mod::lemma_fundamental_div_mod_converse(x2, ne, a, b);
}

/// `master` and `idx`.
pub open spec fn is_cell<A, K: Clone>(
    cell: Cell<A, K>,
    idx: int,
    pairings: Seq<Seq<Seq<char>>>,
    evaluators: Seq<Seq<char>>,
    onames: Seq<Seq<char>>,
    oactions: Seq<Seq<A>>,
    plies: Seq<u32>,
    strategies: Seq<RosterEntry<K>>,
    master: u64,
) -> bool {
    let nr = plies.len() as int;
    let no = onames.len() as int;
    let ne = evaluators.len() as int;
    let r = idx % nr;
    let o = (idx / nr) % no;
    let e = (idx / nr / no) % ne;
    let p = idx / nr / no / ne;
    &&& cell.key.index == idx
    &&& texts(cell.key.strategies@) == pairings[p]
    &&& cell.key.evaluator@ == evaluators[e]
    &&& cell.key.opening@ == onames[o]
    &&& cell.key.random_opening_plies == plies[r]
    &&& entries_of(cell.entries@, pairings[p], strategies)
    &&& cell.opening.actions@ == oactions[o]
    &&& cell.opening.random_plies == plies[r]
    &&& cell.seed == spec_cell_seed(master, idx as u64)
}

/// A copy of `v`.
pub(crate) fn copy_vec<A: Copy>(v: &Vec<A>) -> (r: Vec<A>)
    ensures
        r@ == v@,
{
    let mut r: Vec<A> = Vec::new();
    let mut i: usize = 0;
    while i < v.len()
        invariant
            i <= v@.len(),
            r@ == v@.take(i as int),
        decreases v@.len() - i,
    {
        r.push(v[i]);
        i = i + 1;
        assert(r@ =~= v@.take(i as int));
    }
    assert(v@.take(v@.len() as int) =~= v@);
    r
}

/// A copy of the names in `v`.
pub(crate) fn copy_names(v: &Vec<String>) -> (r: Vec<String>)
    ensures
        texts(r@) == texts(v@),
{
    let mut r: Vec<String> = Vec::new();
    let mut i: usize = 0;
    while i < v.len()
        invariant
            i <= v@.len(),
            r@.len() == i,
            texts(r@) == texts(v@).take(i as int),
        decreases v@.len() - i,
    {
        let s = v[i].clone();
        let ghost before = r@;
        r.push(s);
        proof {
            assert(texts(r@) =~= texts(before).push(v@[i as int]@));
            assert(texts(v@).take(i + 1) =~= texts(v@).take(i as int).push(v@[i as int]@));
        }
        i = i + 1;
    }
    assert(texts(v@).take(v@.len() as int) =~= texts(v@));
    r
}

/// Enumerates the sweep cells, ply counts varying fastest, then openings, then evaluators, then
/// pairings.
fn enumerate_cells<A: Copy, K: Clone>(
    pairings: &[Pairing],
    evaluators: &[String],
    openings: &[NamedOpening<A>],
    plies: &[u32],
    strategies: &[RosterEntry<K>],
    master: u64,
) -> (cells: Vec<Cell<A, K>>)
    requires
        forall|p: int, j: int|
            0 <= p < pairings@.len() && 0 <= j < pairings@[p].0@.len() ==> entry_names(
                strategies@,
            ).contains(#[trigger] pairings@[p].0@[j]@),
    ensures
        cells@.len() == pairings@.len() * evaluators@.len() * openings@.len() * plies@.len(),
        forall|k: int|
            0 <= k < cells@.len() ==> #[trigger] is_cell(
                cells@[k],
                k,
                pairing_texts(pairings@),
                texts(evaluators@),
                opening_names(openings@),
                opening_actions(openings@),
                plies@,
                strategies@,
                master,
            ),
{
    let ghost pt = pairing_texts(pairings@);
    let ghost et = texts(evaluators@);
    let ghost on = opening_names(openings@);
    let ghost oa = opening_actions(openings@);
    let ghost st = strategies@;
    let np = pairings.len();
    let ne = evaluators.len();
    let no = openings.len();
    let nr = plies.len();
    let mut cells: Vec<Cell<A, K>> = Vec::new();
    proof {
        assert(((0 * ne + 0) * no + 0) * nr + 0 == 0) by (nonlinear_arith);
    }
    let mut p: usize = 0;
    while p < np
        invariant
            pt == pairing_texts(pairings@),
            et == texts(evaluators@),
            on == opening_names(openings@),
            oa == opening_actions(openings@),
            st == strategies@,
            np == pairings@.len(),
            ne == evaluators@.len(),
            no == openings@.len(),
            nr == plies@.len(),
            forall|p: int, j: int|
                0 <= p < pairings@.len() && 0 <= j < pairings@[p].0@.len() ==> entry_names(
                    strategies@,
                ).contains(#[trigger] pairings@[p].0@[j]@),
            p <= np,
            cells@.len() == cell_index(p as int, 0, 0, 0, ne as int, no as int, nr as int),
            forall|k: int|
                0 <= k < cells@.len() ==> #[trigger] is_cell(cells@[k], k, pt, et, on, oa, plies@, st, master),
        decreases np - p,
    {
        let mut e: usize = 0;
        while e < ne
            invariant
                pt == pairing_texts(pairings@),
                et == texts(evaluators@),
                on == opening_names(openings@),
                oa == opening_actions(openings@),
                st == strategies@,
                np == pairings@.len(),
                ne == evaluators@.len(),
                no == openings@.len(),
                nr == plies@.len(),
                forall|p: int, j: int|
                    0 <= p < pairings@.len() && 0 <= j < pairings@[p].0@.len() ==> entry_names(
                        strategies@,
                    ).contains(#[trigger] pairings@[p].0@[j]@),
                p < np,
                e <= ne,
                cells@.len() == cell_index(p as int, e as int, 0, 0, ne as int, no as int, nr as int),
                forall|k: int|
                    0 <= k < cells@.len() ==> #[trigger] is_cell(cells@[k], k, pt, et, on, oa, plies@, st, master),
            decreases ne - e,
        {
            let mut o: usize = 0;
            while o < no
                invariant
                    pt == pairing_texts(pairings@),
                    et == texts(evaluators@),
                    on == opening_names(openings@),
                    oa == opening_actions(openings@),
                    st == strategies@,
                    np == pairings@.len(),
                    ne == evaluators@.len(),
                    no == openings@.len(),
                    nr == plies@.len(),
                    forall|p: int, j: int|
                        0 <= p < pairings@.len() && 0 <= j < pairings@[p].0@.len() ==> entry_names(
                            strategies@,
                        ).contains(#[trigger] pairings@[p].0@[j]@),
                    p < np,
                    e < ne,
                    o <= no,
                    cells@.len() == cell_index(p as int, e as int, o as int, 0, ne as int, no as int, nr as int),
                    forall|k: int|
                        0 <= k < cells@.len() ==> #[trigger] is_cell(cells@[k], k, pt, et, on, oa, plies@, st, master),
                decreases no - o,
            {
                let mut r: usize = 0;
                while r < nr
                    invariant
                        pt == pairing_texts(pairings@),
                        et == texts(evaluators@),
                        on == opening_names(openings@),
                        oa == opening_actions(openings@),
                        st == strategies@,
                        np == pairings@.len(),
                        ne == evaluators@.len(),
                        no == openings@.len(),
                        nr == plies@.len(),
                        forall|p: int, j: int|
                            0 <= p < pairings@.len() && 0 <= j < pairings@[p].0@.len() ==> entry_names(
                                strategies@,
                            ).contains(#[trigger] pairings@[p].0@[j]@),
                        p < np,
                        e < ne,
                        o < no,
                        r <= nr,
                        cells@.len() == cell_index(p as int, e as int, o as int, r as int, ne as int, no as int, nr as int),
                        forall|k: int|
                            0 <= k < cells@.len() ==> #[trigger] is_cell(cells@[k], k, pt, et, on, oa, plies@, st, master),
                    decreases nr - r,
                {
                    let idx = cells.len();
                    let pairing = &pairings[p];
                    let entries = entries_for(pairing, strategies);
                    let key = CellKey {
                        index: idx,
                        strategies: copy_names(&pairing.0),
                        evaluator: evaluators[e].clone(),
                        opening: openings[o].name.clone(),
                        random_opening_plies: plies[r],
                    };
                    let cell = Cell {
                        key,
                        entries,
                        opening: Opening { actions: copy_vec(&openings[o].actions), random_plies: plies[r] },
                        seed: cell_seed(master, idx),
                    };
                    proof {
                        let x = (p * ne + e) * no + o;
                        let y = p * ne + e;
                        assert(idx == x * nr + r);
                        vstd::arithmetic::div_mod::lemma_fundamental_div_mod_converse(
                            idx as int,
                            nr as int,
                            x as int,
                            r as int,
                        );
                        vstd::arithmetic::div_mod::lemma_fundamental_div_mod_converse(
                            x as int,
                            no as int,
                            y as int,
                            o as int,
                        );
                        vstd::arithmetic::div_mod::lemma_fundamental_div_mod_converse(
                            y as int,
                            ne as int,
                            p as int,
                            e as int,
                        );
                        assert(pt[p as int] == texts(pairing.0@));
                        assert(is_cell(cell, idx as int, pt, et, on, oa, plies@, st, master));
                    }
                    let ghost before = cells@;
                    cells.push(cell);
                    proof {
                        assert forall|k: int| 0 <= k < cells@.len() implies #[trigger] is_cell(
                            cells@[k],
                            k,
                            pt,
                            et,
                            on,
                            oa,
                            plies@,
                            st,
                            master,
                        ) by {
                            if k < before.len() {
                                assert(cells@[k] == before[k]);
                            }
                        }
                    }
                    r = r + 1;
                }
                proof {
                    let x = (p * ne + e) * no + o;
                    assert(x * nr + nr == (x + 1) * nr) by (nonlinear_arith);
                }
                o = o + 1;
            }
            proof {
                let y = p * ne + e;
                assert((y * no + no) * nr == ((y + 1) * no) * nr) by (nonlinear_arith);
            }
            e = e + 1;
        }
        proof {
            assert(((p * ne + ne) * no) * nr == (((p + 1) * ne) * no) * nr) by (nonlinear_arith);
        }
        p = p + 1;
    }
    proof {
        assert(((np * ne + 0) * no + 0) * nr + 0 == np * ne * no * nr) by (nonlinear_arith);
    }
    cells
}

proof fn lemma_first_some_none(f: spec_fn(int) -> Option<Seq<char>>, i: int, n: int)
    requires
        first_some(f, i, n) is None,
    ensures
        forall|j: int| i <= j < n ==> (#[trigger] f(j)) is None,
    decreases n - i,
{
    if i < n {
        lemma_first_some_none(f, i + 1, n);
    }
}

/// The strategies in effect: the configured ones, or the defaults when none are configured.
pub open spec fn effective_strategies<K>(
    configured: Seq<RosterEntry<K>>,
    defaults: Seq<RosterEntry<K>>,
) -> Seq<RosterEntry<K>> {
    if configured.len() == 0 {
        defaults
    } else {
        configured
    }
}

/// The pairings in effect: the configured ones, or every ordered tuple of `names`, one name per
/// player, when none are configured.
pub open spec fn effective_pairings(configured: Seq<Pairing>, names: Seq<Seq<char>>, slots: nat) -> Seq<
    Seq<Seq<char>>,
> {
    if configured.len() == 0 {
        spec_all_pairings(names, slots)
    } else {
        pairing_texts(configured)
    }
}

/// The evaluators in effect: the configured ones, or the default evaluator alone.
pub open spec fn effective_evaluators(configured: Seq<String>, default: Seq<char>) -> Seq<Seq<char>> {
    if configured.len() == 0 {
        seq![default]
    } else {
        texts(configured)
    }
}

/// The opening names in effect: the configured ones, or a single opening named `none`.
pub open spec fn effective_opening_names<A>(configured: Seq<NamedOpening<A>>) -> Seq<Seq<char>> {
    if configured.len() == 0 {
        seq!["none"@]
    } else {
        opening_names(configured)
    }
}

/// The opening action lists in effect: the configured ones, or a single empty one.
pub open spec fn effective_opening_actions<A>(configured: Seq<NamedOpening<A>>) -> Seq<Seq<A>> {
    if configured.len() == 0 {
        seq![seq![]]
    } else {
        opening_actions(configured)
    }
}

/// The random-opening-ply counts in effect: the configured ones, or `[0]`.
pub open spec fn effective_plies(configured: Seq<u32>) -> Seq<u32> {
    if configured.len() == 0 {
        seq![0u32]
    } else {
        configured
    }
}

/// The texts of the strategy build errors.
pub open spec fn build_texts(build: Seq<Option<String>>) -> Seq<Option<Seq<char>>> {
    build.map_values(|b: Option<String>| match b {
        Some(s) => Some(s@),
        None => None,
    })
}

/// The first error of a sweep configuration against `bundle`, with `build[i]` the error of
/// building the spec of strategy `i` in effect: the header checks, the default evaluator, then
/// each strategy, pairing, evaluator, opening and random-opening-ply count in effect.
pub open spec fn resolve_error<G: GameDomain, R: GameRules<G>, C: Canonicalize<G>, P, K>(
    config: GenerateConfig<G::Action, K>,
    bundle: &GameBundle<G, R, C, P>,
    defaults: Seq<RosterEntry<K>>,
    build: Seq<Option<String>>,
) -> Option<Seq<char>> {
    let known = texts(bundle.evaluators@);
    let names = entry_names(effective_strategies(config.strategies@, defaults));
    let slots = bundle.players@.len();
    let ps = effective_pairings(config.pairings@, names, slots);
    let evs = effective_evaluators(config.evaluators@, bundle.default_evaluator@);
    let onames = effective_opening_names(config.openings@);
    let oactions = effective_opening_actions(config.openings@);
    let plies = effective_plies(config.random_opening_plies@);
    let header = header_error(config, bundle.name@);
    let default_eval = evaluator_error(known, bundle.default_evaluator@);
    let strategies = first_some(|i: int| strategy_check(names, build_texts(build), i), 0, names.len() as int);
    let pairings = first_some(|i: int| pairing_check(ps[i], names, slots), 0, ps.len() as int);
    let evaluators = first_some(|i: int| evaluator_error(known, evs[i]), 0, evs.len() as int);
    let openings = first_some(
        |i: int| opening_check::<G, R>(&bundle.rules, onames, oactions[i], i),
        0,
        onames.len() as int,
    );
    let repeats = first_some(|i: int| plies_check(plies, i), 0, plies.len() as int);
    if header is Some {
        header
    } else if default_eval is Some {
        default_eval
    } else if strategies is Some {
        strategies
    } else if pairings is Some {
        pairings
    } else if evaluators is Some {
        evaluators
    } else if openings is Some {
        openings
    } else {
        repeats
    }
}

/// Clones of `entries`.
fn clone_entries<K: Clone>(entries: &[RosterEntry<K>]) -> (v: Vec<RosterEntry<K>>)
    ensures
        v@.len() == entries@.len(),
        forall|i: int|
            0 <= i < v@.len() ==> (#[trigger] v@[i]).name@ == entries@[i].name@ && cloned(
                entries@[i].spec,
                v@[i].spec,
            ),
{
    let mut v: Vec<RosterEntry<K>> = Vec::new();
    let mut i: usize = 0;
    while i < entries.len()
        invariant
            i <= entries@.len(),
            v@.len() == i,
            forall|j: int|
                0 <= j < i ==> (#[trigger] v@[j]).name@ == entries@[j].name@ && cloned(
                    entries@[j].spec,
                    v@[j].spec,
                ),
        decreases entries@.len() - i,
    {
        let e = clone_entry(&entries[i]);
        v.push(e);
        i = i + 1;
    }
    v
}

/// The names of `entries`.
fn names_of<K>(entries: &[RosterEntry<K>]) -> (v: Vec<String>)
    ensures
        texts(v@) == entry_names(entries@),
{
    let mut v: Vec<String> = Vec::new();
    let mut i: usize = 0;
    while i < entries.len()
        invariant
            i <= entries@.len(),
            v@.len() == i,
            texts(v@) == entry_names(entries@).take(i as int),
        decreases entries@.len() - i,
    {
        let s = entries[i].name.clone();
        let ghost before = v@;
        v.push(s);
        proof {
            assert(texts(v@) =~= texts(before).push(entries@[i as int].name@));
            assert(entry_names(entries@).take(i + 1) =~= entry_names(entries@).take(i as int).push(
                entries@[i as int].name@,
            ));
        }
        i = i + 1;
    }
    assert(entry_names(entries@).take(entries@.len() as int) =~= entry_names(entries@));
    v
}

/// Fills the configuration's defaults from the game (`default_strategies`, every ordered tuple
/// of strategies as pairings, the bundle's default evaluator, a single no-op opening named
/// `none`, `[0]` random-opening plies), validates it, and enumerates its cells, ply counts
/// varying fastest and pairings slowest, each seeded with `cell_seed(seed, index)`.
/// `build_errors[i]` is the error of building the spec of strategy `i` in effect, if any.
/// Fails with the first configuration error, in the order `resolve_error` lists them.
pub fn resolve<G: GameDomain, R: GameRules<G>, C: Canonicalize<G>, P, K: Clone>(
    config: GenerateConfig<G::Action, K>,
    bundle: &GameBundle<G, R, C, P>,
    default_strategies: &[RosterEntry<K>],
    build_errors: &[Option<String>],
) -> (r: Result<ResolvedConfig<G::Action, K>, CorpusError>)
    requires
        build_errors@.len() == effective_strategies(config.strategies@, default_strategies@).len(),
    ensures
        r is Err <==> resolve_error(config, bundle, default_strategies@, build_errors@) is Some,
        r matches Err(e) ==> reports_config(
            e,
            resolve_error(config, bundle, default_strategies@, build_errors@)->0,
        ),
        r matches Ok(res) ==> {
            let names = entry_names(effective_strategies(config.strategies@, default_strategies@));
            let ps = effective_pairings(config.pairings@, names, bundle.players@.len());
            let evs = effective_evaluators(config.evaluators@, bundle.default_evaluator@);
            let onames = effective_opening_names(config.openings@);
            let oactions = effective_opening_actions(config.openings@);
            let plies = effective_plies(config.random_opening_plies@);
            &&& res.config.schema_version == config.schema_version
            &&& res.config.game@ == config.game@
            &&& res.config.seed == config.seed
            &&& res.config.games_per_cell == config.games_per_cell
            &&& res.config.max_plies == config.max_plies
            &&& entry_names(res.config.strategies@) == names
            &&& (config.strategies@.len() > 0 ==> res.config.strategies@ == config.strategies@)
            &&& (config.strategies@.len() == 0 ==> forall|i: int|
                0 <= i < res.config.strategies@.len() ==> cloned(
                    default_strategies@[i].spec,
                    #[trigger] res.config.strategies@[i].spec,
                ))
            &&& pairing_texts(res.config.pairings@) == ps
            &&& texts(res.config.evaluators@) == evs
            &&& opening_names(res.config.openings@) == onames
            &&& opening_actions(res.config.openings@) == oactions
            &&& res.config.random_opening_plies@ == plies
            &&& res.cells@.len() == ps.len() * evs.len() * onames.len() * plies.len()
            &&& forall|k: int|
                0 <= k < res.cells@.len() ==> #[trigger] is_cell(
                    res.cells@[k],
                    k,
                    ps,
                    evs,
                    onames,
                    oactions,
                    plies,
                    res.config.strategies@,
                    config.seed,
                )
        },
{
    let ghost input = config;
    proof {
        reveal_strlit("schema_version ");
        reveal_strlit(" is not the supported 1");
        reveal_strlit("game `");
        reveal_strlit("` does not match bundle `");
        reveal_strlit("`");
        reveal_strlit("games_per_cell must be > 0");
        reveal_strlit("none");
    }
    if config.schema_version != SCHEMA_VERSION {
        let mut m = String::from_str("schema_version ");
        let v = decimal_string(config.schema_version as usize);
        m.append(v.as_str());
        m.append(" is not the supported 1");
        return Err(config_error(m));
    }
    if !text_eq(config.game.as_str(), bundle.name.as_str()) {
        let mut m = String::from_str("game `");
        m.append(config.game.as_str());
        m.append("` does not match bundle `");
        m.append(bundle.name.as_str());
        m.append("`");
        return Err(config_error(m));
    }
    if config.games_per_cell == 0 {
        return Err(config_error(String::from_str("games_per_cell must be > 0")));
    }
    let mut config = config;
    if config.strategies.len() == 0 {
        config.strategies = clone_entries(default_strategies);
    }
    let names = names_of(config.strategies.as_slice());
    if config.pairings.len() == 0 {
        config.pairings = all_pairings(names.as_slice(), bundle.players.len());
    }
    if config.evaluators.len() == 0 {
        config.evaluators = vec![bundle.default_evaluator.clone()];
    }
    if config.openings.len() == 0 {
        config.openings = vec![NamedOpening { name: String::from_str("none"), actions: Vec::new() }];
    }
    if config.random_opening_plies.len() == 0 {
        config.random_opening_plies = vec![0];
    }
    proof {
        assert(texts(config.evaluators@) =~= effective_evaluators(input.evaluators@, bundle.default_evaluator@));
        assert(opening_names(config.openings@) =~= effective_opening_names(input.openings@));
        assert(opening_actions(config.openings@) =~= effective_opening_actions(input.openings@));
        assert(config.random_opening_plies@ =~= effective_plies(input.random_opening_plies@));
        assert(entry_names(config.strategies@) =~= entry_names(
            effective_strategies(input.strategies@, default_strategies@),
        ));
    }
    match bundle.check_evaluator(bundle.default_evaluator.as_str()) {
        Ok(()) => {},
        Err(e) => {
            return Err(e);
        },
    }
    match check_strategies(names.as_slice(), build_errors) {
        Ok(()) => {},
        Err(e) => {
            return Err(e);
        },
    }
    match check_pairings(config.pairings.as_slice(), names.as_slice(), bundle.players.len()) {
        Ok(()) => {},
        Err(e) => {
            return Err(e);
        },
    }
    match check_evaluators(bundle, config.evaluators.as_slice()) {
        Ok(()) => {},
        Err(e) => {
            return Err(e);
        },
    }
    match check_openings::<G, R>(&bundle.rules, config.openings.as_slice()) {
        Ok(()) => {},
        Err(e) => {
            return Err(e);
        },
    }
    match check_plies(config.random_opening_plies.as_slice()) {
        Ok(()) => {},
        Err(e) => {
            return Err(e);
        },
    }
    proof {
        let ps = pairing_texts(config.pairings@);
        let nm = texts(names@);
        let slots = bundle.players@.len();
        let f = |i: int| pairing_check(ps[i], nm, slots);
        lemma_first_some_none(f, 0, ps.len() as int);
        assert forall|p: int, j: int|
            0 <= p < config.pairings@.len() && 0 <= j < config.pairings@[p].0@.len() implies entry_names(
                config.strategies@,
            ).contains(#[trigger] config.pairings@[p].0@[j]@) by {
            let pp = ps[p];
            assert(f(p) is None);
            assert(pp == texts(config.pairings@[p].0@));
            let g = |j: int| pairing_name_check(pp, nm, j);
            assert(g =~= (|j: int| pairing_name_check(pp, nm, j)));
            lemma_first_some_none(g, 0, pp.len() as int);
            assert(g(j) is None);
        }
    }
    let cells = enumerate_cells(
        config.pairings.as_slice(),
        config.evaluators.as_slice(),
        config.openings.as_slice(),
        config.random_opening_plies.as_slice(),
        config.strategies.as_slice(),
        config.seed,
    );
    Ok(ResolvedConfig { config, cells })
}

/// `spelled` is `config` with its defaults written out: the same header, and as its lists the
/// lists in effect for `config`.
pub open spec fn spells_out<G: GameDomain, R: GameRules<G>, C: Canonicalize<G>, P, K>(
    spelled: GenerateConfig<G::Action, K>,
    config: GenerateConfig<G::Action, K>,
    bundle: &GameBundle<G, R, C, P>,
    defaults: Seq<RosterEntry<K>>,
) -> bool {
    let names = entry_names(effective_strategies(config.strategies@, defaults));
    &&& spelled.schema_version == config.schema_version
    &&& spelled.game@ == config.game@
    &&& spelled.seed == config.seed
    &&& spelled.games_per_cell == config.games_per_cell
    &&& spelled.max_plies == config.max_plies
    &&& spelled.strategies@ == effective_strategies(config.strategies@, defaults)
    &&& pairing_texts(spelled.pairings@) == effective_pairings(config.pairings@, names, bundle.players@.len())
    &&& texts(spelled.evaluators@) == effective_evaluators(config.evaluators@, bundle.default_evaluator@)
    &&& opening_names(spelled.openings@) == effective_opening_names(config.openings@)
    &&& opening_actions(spelled.openings@) == effective_opening_actions(config.openings@)
    &&& spelled.random_opening_plies@ == effective_plies(config.random_opening_plies@)
}

/// A configuration with its defaults spelled out resolves exactly like one that leaves them out:
/// the same strategies, pairings, evaluators, openings and ply counts are in effect, and the same
/// configuration error, if any, is found.
pub proof fn lemma_spelled_out_defaults<G: GameDomain, R: GameRules<G>, C: Canonicalize<G>, P, K>(
    spelled: GenerateConfig<G::Action, K>,
    config: GenerateConfig<G::Action, K>,
    bundle: &GameBundle<G, R, C, P>,
    defaults: Seq<RosterEntry<K>>,
    build: Seq<Option<String>>,
)
    requires
        spells_out(spelled, config, bundle, defaults),
    ensures
        effective_strategies(spelled.strategies@, defaults) == effective_strategies(config.strategies@, defaults),
        effective_pairings(
            spelled.pairings@,
            entry_names(effective_strategies(spelled.strategies@, defaults)),
            bundle.players@.len(),
        ) == effective_pairings(
            config.pairings@,
            entry_names(effective_strategies(config.strategies@, defaults)),
            bundle.players@.len(),
        ),
        effective_evaluators(spelled.evaluators@, bundle.default_evaluator@) == effective_evaluators(
            config.evaluators@,
            bundle.default_evaluator@,
        ),
        effective_opening_names(spelled.openings@) == effective_opening_names(config.openings@),
        effective_opening_actions(spelled.openings@) == effective_opening_actions(config.openings@),
        effective_plies(spelled.random_opening_plies@) == effective_plies(config.random_opening_plies@),
        resolve_error(spelled, bundle, defaults, build) == resolve_error(config, bundle, defaults, build),
{
    let names = entry_names(effective_strategies(config.strategies@, defaults));
    if spelled.pairings@.len() == 0 {
        assert(pairing_texts(spelled.pairings@).len() == 0);
    }
    if spelled.evaluators@.len() == 0 {
        assert(texts(spelled.evaluators@).len() == 0);
    }
    if spelled.openings@.len() == 0 {
        assert(opening_names(spelled.openings@).len() == 0);
    }
}

} // verus!
