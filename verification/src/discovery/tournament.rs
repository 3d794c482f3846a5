//! Tournaments: a strategy under test plays every roster entry from every seat, and its wins,
//! draws, losses and unfinished games are tallied against the seat it held. A game stopped by
//! the ply cap is unfinished, never a loss.

use vstd::prelude::*;
use vstd::string::*;
use crate::discovery::config::{
    cell_seed, config_error, entry_names, names_contain, reports_config, spec_cell_seed, texts, CorpusError,
    RosterEntry,
};
use crate::discovery::match_engine::{
    batch_end, is_played, opening_settles, play_games, spec_game_seed, MatchConfig, Opening, PlayEnd,
};
use crate::framework::text::{decimal, decimal_string, join_with, joined, text_eq};
use crate::framework::traits::{GameDomain, GameRules, MatchError, MatchRecord, StrategyProvider};

verus! {

/// Knobs for one tournament of a strategy under test against a roster.
#[derive(Clone, Debug, PartialEq)]
pub struct TournamentConfig {
    /// Games played per (opponent, seat) pairing.
    pub games_per_pairing: usize,
    /// Master seed; pairing `i` plays with batch seed `cell_seed(seed, i)`.
    pub seed: u64,
    /// Ply cap per game (`outcome: None` when hit); `None` = unlimited.
    pub max_plies: Option<usize>,
    /// Roster entry name the headline loss rate is measured against; must name a roster entry.
    pub reference: String,
    /// Size of a private pool to play on; the results do not depend on it.
    pub threads: Option<usize>,
    /// Play every game in order; the results do not depend on it.
    pub serial: bool,
}

/// A versioned population of named strategies; `K` is what an entry's strategy is given as.
#[derive(Clone, Debug, PartialEq)]
pub struct Roster<K> {
    /// Name of the population.
    pub name: String,
    /// Version, bumped whenever the entries change.
    pub version: u32,
    /// The entries, in order.
    pub entries: Vec<RosterEntry<K>>,
}

impl<K> Roster<K> {
    /// `{name}-v{version}`.
    pub open spec fn spec_id(&self) -> Seq<char> {
        self.name@ + "-v"@ + decimal(self.version as nat)
    }

    /// `{name}-v{version}`, the identifier results are recorded under.
    pub fn id(&self) -> (s: String)
        ensures
            s@ == self.spec_id(),
    {
        proof {
            reveal_strlit("-v");
        }
        let mut s = self.name.clone();
        s.append("-v");
        let v = decimal_string(self.version as usize);
        s.append(v.as_str());
        s
    }

    /// The first entry named `name`, if any.
    pub fn get(&self, name: &str) -> (r: Option<&RosterEntry<K>>)
        ensures
            r is None <==> !entry_names(self.entries@).contains(name@),
            r matches Some(e) ==> exists|i: int|
                0 <= i < self.entries@.len() && self.entries@[i] == *e && e.name@ == name@ && forall|j: int|
                    0 <= j < i ==> #[trigger] self.entries@[j].name@ != name@,
    {
        let mut i: usize = 0;
        while i < self.entries.len()
            invariant
                i <= self.entries@.len(),
                forall|j: int| 0 <= j < i ==> #[trigger] self.entries@[j].name@ != name@,
            decreases self.entries@.len() - i,
        {
            if text_eq(self.entries[i].name.as_str(), name) {
                proof {
                    assert(entry_names(self.entries@)[i as int] == name@);
                }
                return Some(&self.entries[i]);
            }
            i = i + 1;
        }
        proof {
            if entry_names(self.entries@).contains(name@) {
                let k = choose|k: int| 0 <= k < entry_names(self.entries@).len() && entry_names(self.entries@)[k] == name@;
                assert(self.entries@[k].name@ == name@);
            }
        }
        None
    }
}

/// Games counted by their result for the strategy under test.
#[derive(Clone, Copy, Debug, PartialEq, Eq)]
pub struct Tally {
    /// Games played: `wins + draws + losses + unfinished`.
    pub games: usize,
    /// Games the strategy under test won.
    pub wins: usize,
    /// Drawn games.
    pub draws: usize,
    /// Games the strategy under test lost.
    pub losses: usize,
    /// Games stopped by the ply cap; never counted as losses.
    pub unfinished: usize,
}

impl Tally {
    /// The four counts: wins, draws, losses, unfinished.
    pub open spec fn counts(self) -> (nat, nat, nat, nat) {
        (self.wins as nat, self.draws as nat, self.losses as nat, self.unfinished as nat)
    }

    /// `games` is the sum of the four counts.
    pub open spec fn adds_up(self) -> bool {
        self.games == self.wins + self.draws + self.losses + self.unfinished
    }

    /// The tally of the given counts; `games` is their sum.
    pub fn from_counts(wins: usize, draws: usize, losses: usize, unfinished: usize) -> (t: Tally)
        requires
            wins + draws + losses + unfinished <= usize::MAX,
        ensures
            t.counts() == (wins as nat, draws as nat, losses as nat, unfinished as nat),
            t.adds_up(),
    {
        Tally { games: wins + draws + losses + unfinished, wins, draws, losses, unfinished }
    }
}

/// A finished game that `p` won.
pub open spec fn won_by<G: GameDomain>(p: G::Player) -> spec_fn(MatchRecord<G::Action, G::Outcome>) -> bool {
    |r: MatchRecord<G::Action, G::Outcome>| (r.outcome matches Some(o) && G::spec_winner(o) == Some(p))
}

/// A finished game that nobody won.
pub open spec fn drawn<G: GameDomain>() -> spec_fn(MatchRecord<G::Action, G::Outcome>) -> bool {
    |r: MatchRecord<G::Action, G::Outcome>| (r.outcome matches Some(o) && G::spec_winner(o) is None)
}

/// A finished game won by someone other than `p`.
pub open spec fn lost_by<G: GameDomain>(p: G::Player) -> spec_fn(MatchRecord<G::Action, G::Outcome>) -> bool {
    |r: MatchRecord<G::Action, G::Outcome>|
        (r.outcome matches Some(o) && G::spec_winner(o) matches Some(w) && w != p)
}

/// A game the ply cap stopped before it ended.
pub open spec fn cut_short<G: GameDomain>() -> spec_fn(MatchRecord<G::Action, G::Outcome>) -> bool {
    |r: MatchRecord<G::Action, G::Outcome>| r.outcome is None
}

/// `t` counts `records` from the side of `p`.
pub open spec fn tallies<G: GameDomain>(
    t: Tally,
    records: Seq<MatchRecord<G::Action, G::Outcome>>,
    p: G::Player,
) -> bool {
    &&& t.games == records.len()
    &&& t.wins == records.filter(won_by::<G>(p)).len()
    &&& t.draws == records.filter(drawn::<G>()).len()
    &&& t.losses == records.filter(lost_by::<G>(p)).len()
    &&& t.unfinished == records.filter(cut_short::<G>()).len()
}

/// Each of `records` falls in exactly one of the four counts.
proof fn lemma_tally_push<G: GameDomain>(
    records: Seq<MatchRecord<G::Action, G::Outcome>>,
    r: MatchRecord<G::Action, G::Outcome>,
    p: G::Player,
)
    ensures
        records.push(r).filter(won_by::<G>(p)).len() == records.filter(won_by::<G>(p)).len() + (
        if won_by::<G>(p)(r) {
            1int
        } else {
            0int
        }),
        records.push(r).filter(drawn::<G>()).len() == records.filter(drawn::<G>()).len() + (if drawn::<G>()(
            r,
        ) {
            1int
        } else {
            0int
        }),
        records.push(r).filter(lost_by::<G>(p)).len() == records.filter(lost_by::<G>(p)).len() + (
        if lost_by::<G>(p)(r) {
            1int
        } else {
            0int
        }),
        records.push(r).filter(cut_short::<G>()).len() == records.filter(cut_short::<G>()).len() + (
        if cut_short::<G>()(r) {
            1int
        } else {
            0int
        }),
        won_by::<G>(p)(r) || drawn::<G>()(r) || lost_by::<G>(p)(r) || cut_short::<G>()(r),
        (won_by::<G>(p)(r) as int) + (drawn::<G>()(r) as int) + (lost_by::<G>(p)(r) as int) + (
        cut_short::<G>()(r) as int) == 1,
{
    records.lemma_filter_len_push(won_by::<G>(p), r);
    records.lemma_filter_len_push(drawn::<G>(), r);
    records.lemma_filter_len_push(lost_by::<G>(p), r);
    records.lemma_filter_len_push(cut_short::<G>(), r);
}

/// Every game counts once: the four counts of a tally of any games add up to the number of
/// games.
pub proof fn lemma_tally_adds_up<G: GameDomain>(
    t: Tally,
    records: Seq<MatchRecord<G::Action, G::Outcome>>,
    p: G::Player,
)
    requires
        tallies::<G>(t, records, p),
    ensures
        t.adds_up(),
{
    lemma_counts_add_up::<G>(records, p);
}

/// The four filtered counts of `records` add up to its length.
proof fn lemma_counts_add_up<G: GameDomain>(records: Seq<MatchRecord<G::Action, G::Outcome>>, p: G::Player)
    ensures
        records.filter(won_by::<G>(p)).len() + records.filter(drawn::<G>()).len() + records.filter(
            lost_by::<G>(p),
        ).len() + records.filter(cut_short::<G>()).len() == records.len(),
    decreases records.len(),
{
    if records.len() == 0 {
        reveal(Seq::filter);
    } else {
        let rest = records.drop_last();
        lemma_counts_add_up::<G>(rest, p);
        lemma_tally_push::<G>(rest, records.last(), p);
        assert(rest.push(records.last()) =~= records);
    }
}

/// Tallies `records` from the side of `player`.
pub fn tally_records<G: GameDomain>(records: &[MatchRecord<G::Action, G::Outcome>], player: &G::Player) -> (t:
    Tally)
    ensures
        tallies::<G>(t, records@, *player),
        t.adds_up(),
{
    let mut wins: usize = 0;
    let mut draws: usize = 0;
    let mut losses: usize = 0;
    let mut unfinished: usize = 0;
    let mut j: usize = 0;
    while j < records.len()
        invariant
            j <= records@.len(),
            wins == records@.take(j as int).filter(won_by::<G>(*player)).len(),
            draws == records@.take(j as int).filter(drawn::<G>()).len(),
            losses == records@.take(j as int).filter(lost_by::<G>(*player)).len(),
            unfinished == records@.take(j as int).filter(cut_short::<G>()).len(),
            wins + draws + losses + unfinished == j,
        decreases records@.len() - j,
    {
        let ghost seen = records@.take(j as int);
        let r = &records[j];
        proof {
            lemma_tally_push::<G>(seen, *r, *player);
            assert(seen.push(*r) =~= records@.take(j + 1));
        }
        match &r.outcome {
            None => {
                unfinished = unfinished + 1;
            },
            Some(outcome) => match G::winner(outcome) {
                None => {
                    draws = draws + 1;
                },
                Some(w) => {
                    if G::same_player(&w, player) {
                        wins = wins + 1;
                    } else {
                        losses = losses + 1;
                    }
                },
            },
        }
        j = j + 1;
    }
    proof {
        assert(records@.take(j as int) =~= records@);
    }
    Tally { games: j, wins, draws, losses, unfinished }
}

/// Results of the strategy under test against one roster opponent from one seat.
#[derive(Clone, Debug, PartialEq)]
pub struct PairingResult {
    /// Roster entry name of the opponent.
    pub opponent: String,
    /// Seat the strategy under test held.
    pub seat: usize,
    /// The label of the seat's player.
    pub player: String,
    /// Counts for this pairing.
    pub tally: Tally,
}

/// Results of the strategy under test against one roster opponent over every seat.
#[derive(Clone, Debug, PartialEq)]
pub struct OpponentResult {
    /// Roster entry name of the opponent.
    pub opponent: String,
    /// Counts summed over `by_seat`.
    pub tally: Tally,
    /// Per-seat results, in seat order.
    pub by_seat: Vec<PairingResult>,
}

/// Full tournament of one strategy under test against a roster.
#[derive(Clone, Debug, PartialEq)]
pub struct TournamentResult {
    /// Identifier of the roster played.
    pub roster_id: String,
    /// Roster entry name the headline loss rate is measured against.
    pub reference: String,
    /// Games played per (opponent, seat) pairing.
    pub games_per_pairing: usize,
    /// Master seed of the tournament.
    pub seed: u64,
    /// Per-opponent results, in roster order.
    pub opponents: Vec<OpponentResult>,
    /// Counts over every pairing.
    pub totals: Tally,
}

/// A tournament result plus the number of plies played over every game.
#[derive(Clone, Debug, PartialEq)]
pub struct TournamentRun {
    /// The result.
    pub result: TournamentResult,
    /// Plies played over every game of every pairing, saturating at `usize::MAX`.
    pub plies: usize,
}

/// The batch of pairing (`opponent`, `seat`) among `seats` seats: `games_per_pairing` games
/// seeded from `cell_seed(seed, opponent * seats + seat)`.
pub open spec fn pairing_batch(config: TournamentConfig, seats: int, opponent: int, seat: int) -> MatchConfig {
    MatchConfig {
        games: config.games_per_pairing,
        seed: spec_cell_seed(config.seed, (opponent * seats + seat) as u64),
        max_plies: config.max_plies,
    }
}

/// `records` is `batch` played under `rules` from the initial state: one game per index, in
/// order, each with its derived seed.
pub open spec fn batch_played<G: GameDomain, R: GameRules<G>>(
    rules: &R,
    batch: MatchConfig,
    records: Seq<MatchRecord<G::Action, G::Outcome>>,
) -> bool {
    &&& records.len() == batch.games
    &&& forall|g: int|
        0 <= g < records.len() ==> is_played::<G, R>(
            rules,
            #[trigger] records[g],
            g as usize,
            spec_game_seed(batch.seed, g as u64),
            batch.max_plies,
            Seq::empty(),
        )
}

/// The seating of pairing seat `seat`: the strategy under test in that seat, `opponent` in
/// every other.
pub open spec fn pairing_table<'a, G: GameDomain, S>(
    players: Seq<G::Player>,
    under_test: &'a S,
    opponent: &'a S,
    seat: int,
) -> Seq<(G::Player, &'a S)> {
    Seq::new(players.len(), |x: int| (players[x], if x == seat { under_test } else { opponent }))
}

/// `records` are the games of `batch` played with the seating `table`: game `g` is what the
/// seated strategies, created with game `g`'s per-player seeds, play from the initial state.
pub open spec fn batch_games<G: GameDomain, R: GameRules<G>, S: StrategyProvider<G>>(
    rules: &R,
    table: Seq<(G::Player, &S)>,
    batch: MatchConfig,
    records: Seq<MatchRecord<G::Action, G::Outcome>>,
) -> bool {
    &&& records.len() == batch.games
    &&& forall|g: int|
        0 <= g < records.len() ==> #[trigger] batch_end::<G, R, S>(rules, table, batch, Seq::empty(), 0, g) == (
        PlayEnd::Done { actions: records[g].actions@, outcome: records[g].outcome })
}

/// Plies over `records`.
pub open spec fn total_plies<A, O>(records: Seq<MatchRecord<A, O>>) -> nat
    decreases records.len(),
{
    if records.len() == 0 {
        0
    } else {
        total_plies(records.drop_last()) + records.last().actions@.len()
    }
}

/// Plies over the batches of `rows`.
pub open spec fn row_plies<A, O>(rows: Seq<Seq<MatchRecord<A, O>>>) -> nat
    decreases rows.len(),
{
    if rows.len() == 0 {
        0
    } else {
        row_plies(rows.drop_last()) + total_plies(rows.last())
    }
}

/// Plies over the batches of every row of `games`.
pub open spec fn all_plies<A, O>(games: Seq<Seq<Seq<MatchRecord<A, O>>>>) -> nat
    decreases games.len(),
{
    if games.len() == 0 {
        0
    } else {
        all_plies(games.drop_last()) + row_plies(games.last())
    }
}

/// `n`, or `usize::MAX` when `n` exceeds it.
pub open spec fn saturated(n: int) -> int {
    if n <= usize::MAX {
        n
    } else {
        usize::MAX as int
    }
}

/// The counts of `ts`, summed.
pub open spec fn summed(ts: Seq<Tally>) -> (nat, nat, nat, nat)
    decreases ts.len(),
{
    if ts.len() == 0 {
        (0, 0, 0, 0)
    } else {
        let rest = summed(ts.drop_last());
        let t = ts.last();
        (
            (rest.0 + t.wins) as nat,
            (rest.1 + t.draws) as nat,
            (rest.2 + t.losses) as nat,
            (rest.3 + t.unfinished) as nat,
        )
    }
}

/// The tallies of per-seat results.
pub open spec fn seat_tallies(ps: Seq<PairingResult>) -> Seq<Tally> {
    ps.map_values(|p: PairingResult| p.tally)
}

/// The tallies of per-opponent results.
pub open spec fn opponent_tallies(os: Seq<OpponentResult>) -> Seq<Tally> {
    os.map_values(|o: OpponentResult| o.tally)
}

/// `p` is the result of pairing (`i`, `s`) against the entry named `name`, whose batch played
/// `records`: the strategy under test in seat `s`, `opponent` in every other.
pub open spec fn pairing_played_out<G: GameDomain, R: GameRules<G>, S: StrategyProvider<G>>(
    rules: &R,
    players: Seq<G::Player>,
    under_test: &S,
    opponent: &S,
    config: TournamentConfig,
    i: int,
    s: int,
    name: Seq<char>,
    p: PairingResult,
    records: Seq<MatchRecord<G::Action, G::Outcome>>,
) -> bool {
    &&& p.opponent@ == name
    &&& p.seat == s
    &&& p.player@ == G::spec_player_label(players[s])
    &&& batch_played::<G, R>(rules, pairing_batch(config, players.len() as int, i, s), records)
    &&& batch_games::<G, R, S>(
        rules,
        pairing_table::<G, S>(players, under_test, opponent, s),
        pairing_batch(config, players.len() as int, i, s),
        records,
    )
    &&& tallies::<G>(p.tally, records, players[s])
}

/// `o` is the result against roster entry `i`, seat `s` having played the batch `rows[s]`.
pub open spec fn opponent_played_out<G: GameDomain, R: GameRules<G>, S: StrategyProvider<G>>(
    rules: &R,
    players: Seq<G::Player>,
    under_test: &S,
    roster: Seq<RosterEntry<S>>,
    config: TournamentConfig,
    i: int,
    o: OpponentResult,
    rows: Seq<Seq<MatchRecord<G::Action, G::Outcome>>>,
) -> bool {
    &&& o.opponent@ == roster[i].name@
    &&& o.by_seat@.len() == players.len()
    &&& rows.len() == players.len()
    &&& forall|s: int|
        0 <= s < players.len() ==> pairing_played_out::<G, R, S>(
            rules,
            players,
            under_test,
            &roster[i].spec,
            config,
            i,
            s,
            roster[i].name@,
            #[trigger] o.by_seat@[s],
            rows[s],
        )
    &&& o.tally.counts() == summed(seat_tallies(o.by_seat@))
    &&& o.tally.adds_up()
}

/// `run` is the tournament against `roster` whose pairing (`i`, `s`) played the batch
/// `games[i][s]`.
pub open spec fn played_out<G: GameDomain, R: GameRules<G>, S: StrategyProvider<G>>(
    rules: &R,
    players: Seq<G::Player>,
    under_test: &S,
    roster: Seq<RosterEntry<S>>,
    roster_id: Seq<char>,
    config: TournamentConfig,
    run: TournamentRun,
    games: Seq<Seq<Seq<MatchRecord<G::Action, G::Outcome>>>>,
) -> bool {
    let result = run.result;
    &&& result.roster_id@ == roster_id
    &&& result.reference@ == config.reference@
    &&& result.games_per_pairing == config.games_per_pairing
    &&& result.seed == config.seed
    &&& result.opponents@.len() == roster.len()
    &&& games.len() == roster.len()
    &&& forall|i: int|
        0 <= i < roster.len() ==> opponent_played_out::<G, R, S>(
            rules,
            players,
            under_test,
            roster,
            config,
            i,
            #[trigger] result.opponents@[i],
            games[i],
        )
    &&& result.totals.counts() == summed(opponent_tallies(result.opponents@))
    &&& result.totals.adds_up()
    &&& run.plies == saturated(all_plies(games) as int)
}

/// Some batches played by every pairing give `run`.
pub open spec fn tournament_witnessed<G: GameDomain, R: GameRules<G>, S: StrategyProvider<G>>(
    rules: &R,
    players: Seq<G::Player>,
    under_test: &S,
    roster: Seq<RosterEntry<S>>,
    roster_id: Seq<char>,
    config: TournamentConfig,
    run: TournamentRun,
) -> bool {
    exists|games: Seq<Seq<Seq<MatchRecord<G::Action, G::Outcome>>>>|
        #[trigger] played_out::<G, R, S>(rules, players, under_test, roster, roster_id, config, run, games)
}

/// Some tournament run whose result is `result` is witnessed.
pub open spec fn result_witnessed<G: GameDomain, R: GameRules<G>, S: StrategyProvider<G>>(
    rules: &R,
    players: Seq<G::Player>,
    under_test: &S,
    roster: Seq<RosterEntry<S>>,
    roster_id: Seq<char>,
    config: TournamentConfig,
    result: TournamentResult,
) -> bool {
    exists|run: TournamentRun|
        run.result == result && #[trigger] tournament_witnessed::<G, R, S>(
            rules,
            players,
            under_test,
            roster,
            roster_id,
            config,
            run,
        )
}

/// `unknown reference `{reference}`; roster `{roster_id}` entries: {names joined by ", "}`.
pub open spec fn unknown_reference_message(
    reference: Seq<char>,
    roster_id: Seq<char>,
    names: Seq<Seq<char>>,
) -> Seq<char> {
    "unknown reference `"@ + reference + "`; roster `"@ + roster_id + "` entries: "@ + joined(names, ", "@)
}

/// Plies over `records`, saturating at `usize::MAX`.
fn batch_plies<A, O>(records: &[MatchRecord<A, O>]) -> (n: usize)
    ensures
        n == saturated(total_plies(records@) as int),
{
    let mut n: usize = 0;
    let mut j: usize = 0;
    while j < records.len()
        invariant
            j <= records@.len(),
            n == saturated(total_plies(records@.take(j as int)) as int),
        decreases records@.len() - j,
    {
        proof {
            assert(records@.take(j + 1).drop_last() =~= records@.take(j as int));
        }
        n = n.saturating_add(records[j].actions.len());
        j = j + 1;
    }
    proof {
        assert(records@.take(j as int) =~= records@);
    }
    n
}

/// Plays the batch of one pairing, the strategy under test in `seat` and `opponent` in every
/// other seat, and tallies it from `seat`.
fn play_pairing<G: GameDomain, R: GameRules<G>, S: StrategyProvider<G>>(
    rules: &R,
    players: &[G::Player],
    under_test: &S,
    opponent: &S,
    seat: usize,
    batch: &MatchConfig,
) -> (r: Result<(Tally, usize), MatchError>)
    requires
        players@.len() < u64::MAX,
        seat < players@.len(),
    ensures
        r matches Err(e) ==> !(e is Rules),
        batch.games == 0 || opening_settles::<G, R>(rules, Seq::empty(), batch.max_plies) ==> r is Ok,
        r matches Ok(res) ==> exists|records: Seq<MatchRecord<G::Action, G::Outcome>>|
            #[trigger] batch_played::<G, R>(rules, *batch, records) && batch_games::<G, R, S>(
                rules,
                pairing_table::<G, S>(players@, under_test, opponent, seat as int),
                *batch,
                records,
            ) && tallies::<G>(res.0, records, players@[seat as int]) && res.1 == saturated(
                total_plies(records) as int,
            ),
{
    let mut table: Vec<(G::Player, &S)> = Vec::new();
    let mut slot: usize = 0;
    while slot < players.len()
        invariant
            slot <= players@.len(),
            table@ == pairing_table::<G, S>(players@, under_test, opponent, seat as int).take(slot as int),
        decreases players@.len() - slot,
    {
        if slot == seat {
            table.push((players[slot], under_test));
        } else {
            table.push((players[slot], opponent));
        }
        slot = slot + 1;
        proof {
            assert(table@ =~= pairing_table::<G, S>(players@, under_test, opponent, seat as int).take(slot as int));
        }
    }
    proof {
        assert(table@ =~= pairing_table::<G, S>(players@, under_test, opponent, seat as int));
    }
    let opening: Opening<G::Action> = Opening::default();
    proof {
        assert(opening.actions@ =~= Seq::<G::Action>::empty());
    }
    let records = play_games(rules, batch, table.as_slice(), &opening)?;
    let t = tally_records::<G>(records.as_slice(), &players[seat]);
    let n = batch_plies(records.as_slice());
    proof {
        assert(batch_played::<G, R>(rules, *batch, records@));
        assert(batch_games::<G, R, S>(
            rules,
            pairing_table::<G, S>(players@, under_test, opponent, seat as int),
            *batch,
            records@,
        ));
    }
    Ok((t, n))
}

/// Some batches played by the seats against roster entry `i` give `o`, over `plies` plies
/// (saturating).
pub open spec fn opponent_witnessed<G: GameDomain, R: GameRules<G>, S: StrategyProvider<G>>(
    rules: &R,
    players: Seq<G::Player>,
    under_test: &S,
    roster: Seq<RosterEntry<S>>,
    config: TournamentConfig,
    i: int,
    o: OpponentResult,
    plies: usize,
) -> bool {
    exists|rows: Seq<Seq<MatchRecord<G::Action, G::Outcome>>>|
        #[trigger] opponent_played_out::<G, R, S>(rules, players, under_test, roster, config, i, o, rows) && plies
            == saturated(row_plies(rows) as int)
}

/// Index bounds of pairing (`i`, `s`) and of the counts summed up to it.
proof fn lemma_pairing_bounds(n: int, seats: int, gpp: int, i: int, s: int)
    by (nonlinear_arith)
    requires
        0 <= i < n,
        0 <= s < seats,
        0 <= gpp,
        n * seats <= usize::MAX,
        n * seats * gpp <= usize::MAX,
    ensures
        0 <= i * seats + s < n * seats,
        s * gpp + gpp <= seats * gpp,
        i * seats * gpp + seats * gpp <= n * seats * gpp,
        (i + 1) * seats * gpp == i * seats * gpp + seats * gpp,
        (s + 1) * gpp == s * gpp + gpp,
{
}

/// One row of pairings holds no more games than the whole tournament.
proof fn lemma_row_bound(n: int, seats: int, gpp: int)
    by (nonlinear_arith)
    requires
        1 <= n,
        0 <= seats,
        0 <= gpp,
    ensures
        seats * gpp <= n * seats * gpp,
{
}

/// Summing one more tally adds its counts.
proof fn lemma_summed_push(ts: Seq<Tally>, t: Tally)
    ensures
        summed(ts.push(t)) == (
            (summed(ts).0 + t.wins) as nat,
            (summed(ts).1 + t.draws) as nat,
            (summed(ts).2 + t.losses) as nat,
            (summed(ts).3 + t.unfinished) as nat,
        ),
{
    assert(ts.push(t).drop_last() =~= ts);
}

/// Plays every seat against roster entry `i` and sums the seats' tallies.
fn play_opponent<G: GameDomain, R: GameRules<G>, S: StrategyProvider<G>>(
    rules: &R,
    players: &[G::Player],
    under_test: &S,
    roster: &[RosterEntry<S>],
    i: usize,
    config: &TournamentConfig,
) -> (r: Result<(OpponentResult, usize), MatchError>)
    requires
        players@.len() < u64::MAX,
        i < roster@.len(),
        roster@.len() * players@.len() <= usize::MAX,
        roster@.len() * players@.len() * config.games_per_pairing <= usize::MAX,
    ensures
        r matches Err(e) ==> !(e is Rules),
        config.games_per_pairing == 0 || opening_settles::<G, R>(rules, Seq::empty(), config.max_plies) ==> r is Ok,
        r matches Ok(res) ==> res.0.tally.games == players@.len() * config.games_per_pairing,
        r matches Ok(res) ==> opponent_witnessed::<G, R, S>(rules, players@, under_test, roster@, *config, i as int, res.0, res.1),
{
    let seats = players.len();
    let gpp = config.games_per_pairing;
    let mut by_seat: Vec<PairingResult> = Vec::new();
    let mut wins: usize = 0;
    let mut draws: usize = 0;
    let mut losses: usize = 0;
    let mut unfinished: usize = 0;
    let mut plies: usize = 0;
    let ghost mut rows: Seq<Seq<MatchRecord<G::Action, G::Outcome>>> = Seq::empty();
    let mut s: usize = 0;
    while s < seats
        invariant
            players@.len() < u64::MAX,
            i < roster@.len(),
            roster@.len() * players@.len() <= usize::MAX,
            roster@.len() * players@.len() * config.games_per_pairing <= usize::MAX,
            seats == players@.len(),
            gpp == config.games_per_pairing,
            s <= seats,
            by_seat@.len() == s,
            rows.len() == s,
            forall|x: int|
                0 <= x < s ==> pairing_played_out::<G, R, S>(
                    rules,
                    players@,
                    under_test,
                    &roster@[i as int].spec,
                    *config,
                    i as int,
                    x,
                    roster@[i as int].name@,
                    #[trigger] by_seat@[x],
                    rows[x],
                ),
            (wins as nat, draws as nat, losses as nat, unfinished as nat) == summed(seat_tallies(by_seat@)),
            wins + draws + losses + unfinished == s * gpp,
            plies == saturated(row_plies(rows) as int),
        decreases seats - s,
    {
        proof {
            lemma_pairing_bounds(roster@.len() as int, seats as int, gpp as int, i as int, s as int);
        }
        let index = i * seats + s;
        let batch = MatchConfig { games: gpp, seed: cell_seed(config.seed, index), max_plies: config.max_plies };
        let (t, n) = play_pairing(rules, players, under_test, &roster[i].spec, s, &batch)?;
        let ghost records = choose|records: Seq<MatchRecord<G::Action, G::Outcome>>|
            batch_played::<G, R>(rules, batch, records) && batch_games::<G, R, S>(
                rules,
                pairing_table::<G, S>(players@, under_test, &roster@[i as int].spec, s as int),
                batch,
                records,
            ) && tallies::<G>(t, records, players@[s as int]) && n == saturated(total_plies(records) as int);
        proof {
            lemma_tally_adds_up::<G>(t, records, players@[s as int]);
            assert(batch == pairing_batch(*config, seats as int, i as int, s as int));
        }
        let player = G::player_label(&players[s]);
        let pairing = PairingResult { opponent: roster[i].name.clone(), seat: s, player, tally: t };
        proof {
            assert(seat_tallies(by_seat@.push(pairing)) =~= seat_tallies(by_seat@).push(t));
            lemma_summed_push(seat_tallies(by_seat@), t);
            assert(rows.push(records).drop_last() =~= rows);
        }
        by_seat.push(pairing);
        wins = wins + t.wins;
        draws = draws + t.draws;
        losses = losses + t.losses;
        unfinished = unfinished + t.unfinished;
        plies = plies.saturating_add(n);
        proof {
            rows = rows.push(records);
        }
        s = s + 1;
    }
    proof {
        lemma_row_bound(roster@.len() as int, seats as int, gpp as int);
    }
    let tally = Tally::from_counts(wins, draws, losses, unfinished);
    let result = OpponentResult { opponent: roster[i].name.clone(), tally, by_seat };
    let res = (result, plies);
    proof {
        assert(opponent_played_out::<G, R, S>(rules, players@, under_test, roster@, *config, i as int, res.0, rows));
        assert(res.1 == saturated(row_plies(rows) as int));
        assert(opponent_witnessed::<G, R, S>(rules, players@, under_test, roster@, *config, i as int, res.0, res.1));
    }
    Ok(res)
}

/// Plays a tournament of `under_test` against every entry of `roster`, whose specs are the
/// entries' strategies, and tallies it.
///
/// The reference must name a roster entry. Then, for every entry `i` (roster order) and every
/// seat `s` of `players`, one batch of `games_per_pairing` games is played with the strategy
/// under test in seat `s` and the entry's strategy in every other seat, seeded with
/// `cell_seed(seed, i * players.len() + s)`. A game whose `outcome` is `None` (stopped by
/// `max_plies`) is unfinished; otherwise a draw when nobody won, a win when `players[s]` won,
/// and a loss when anybody else did. The first failing game stops the tournament.
pub fn run_tournament_detailed<G: GameDomain, R: GameRules<G>, S: StrategyProvider<G>>(
    rules: &R,
    players: &[G::Player],
    under_test: &RosterEntry<S>,
    roster: &Roster<S>,
    config: &TournamentConfig,
) -> (r: Result<TournamentRun, CorpusError>)
    requires
        players@.len() < u64::MAX,
        roster.entries@.len() * players@.len() <= usize::MAX,
        roster.entries@.len() * players@.len() * config.games_per_pairing <= usize::MAX,
    ensures
        (r matches Err(CorpusError::Config(_))) <==> !entry_names(roster.entries@).contains(config.reference@),
        r matches Err(CorpusError::Config(m)) ==> m@ == unknown_reference_message(
            config.reference@,
            roster.spec_id(),
            entry_names(roster.entries@),
        ),
        r matches Err(e) ==> e is Config || (e matches CorpusError::Match(m) && !(m is Rules)),
        entry_names(roster.entries@).contains(config.reference@) && (config.games_per_pairing == 0
            || opening_settles::<G, R>(rules, Seq::empty(), config.max_plies)) ==> r is Ok,
        r matches Ok(run) ==> tournament_witnessed::<G, R, S>(
            rules,
            players@,
            &under_test.spec,
            roster.entries@,
            roster.spec_id(),
            *config,
            run,
        ),
{
    let entries = roster.entries.as_slice();
    let mut names: Vec<String> = Vec::new();
    let mut k: usize = 0;
    while k < entries.len()
        invariant
            entries@ == roster.entries@,
            k <= roster.entries@.len(),
            texts(names@) =~= entry_names(roster.entries@.take(k as int)),
        decreases roster.entries@.len() - k,
    {
        proof {
            assert(entry_names(roster.entries@.take(k + 1)) =~= entry_names(roster.entries@.take(k as int)).push(roster.entries@[k as int].name@));
        }
        names.push(entries[k].name.clone());
        proof {
            assert(texts(names@) =~= entry_names(roster.entries@.take(k as int)).push(roster.entries@[k as int].name@));
        }
        k = k + 1;
    }
    proof {
        assert(roster.entries@.take(k as int) =~= roster.entries@);
    }
    if !names_contain(names.as_slice(), config.reference.as_str()) {
        let listed = join_with(names.as_slice(), ", ");
        proof {
            assert(names@.map_values(|p: String| p@) =~= texts(names@));
            reveal_strlit(", ");
            reveal_strlit("unknown reference `");
            reveal_strlit("`; roster `");
            reveal_strlit("` entries: ");
        }
        let mut m = String::from_str("unknown reference `");
        m.append(config.reference.as_str());
        m.append("`; roster `");
        let id = roster.id();
        m.append(id.as_str());
        m.append("` entries: ");
        m.append(listed.as_str());
        return Err(config_error(m));
    }
    let seats = players.len();
    let gpp = config.games_per_pairing;
    let mut opponents: Vec<OpponentResult> = Vec::new();
    let mut wins: usize = 0;
    let mut draws: usize = 0;
    let mut losses: usize = 0;
    let mut unfinished: usize = 0;
    let mut plies: usize = 0;
    let ghost mut games: Seq<Seq<Seq<MatchRecord<G::Action, G::Outcome>>>> = Seq::empty();
    let mut i: usize = 0;
    proof {
        assert(i * seats * gpp == 0) by (nonlinear_arith)
            requires
                i == 0,
        ;
    }
    while i < entries.len()
        invariant
            entries@ == roster.entries@,
            entry_names(roster.entries@).contains(config.reference@),
            players@.len() < u64::MAX,
            roster.entries@.len() * players@.len() <= usize::MAX,
            roster.entries@.len() * players@.len() * config.games_per_pairing <= usize::MAX,
            seats == players@.len(),
            gpp == config.games_per_pairing,
            i <= roster.entries@.len(),
            opponents@.len() == i,
            games.len() == i,
            forall|x: int|
                0 <= x < i ==> opponent_played_out::<G, R, S>(
                    rules,
                    players@,
                    &under_test.spec,
                    roster.entries@,
                    *config,
                    x,
                    #[trigger] opponents@[x],
                    games[x],
                ),
            (wins as nat, draws as nat, losses as nat, unfinished as nat) == summed(opponent_tallies(opponents@)),
            wins + draws + losses + unfinished == i * seats * gpp,
            plies == saturated(all_plies(games) as int),
        decreases roster.entries@.len() - i,
    {
        proof {
            if seats > 0 {
                lemma_pairing_bounds(roster.entries@.len() as int, seats as int, gpp as int, i as int, 0);
            } else {
                assert(i * seats * gpp == 0) by (nonlinear_arith)
                    requires
                        seats == 0,
                ;
                assert((i + 1) * seats * gpp == 0) by (nonlinear_arith)
                    requires
                        seats == 0,
                ;
            }
        }
        let (opponent, opponent_plies) = match play_opponent(rules, players, &under_test.spec, entries, i, config) {
            Ok(res) => res,
            Err(e) => {
                return Err(CorpusError::Match(e));
            },
        };
        let ghost rows = choose|rows: Seq<Seq<MatchRecord<G::Action, G::Outcome>>>|
            #[trigger] opponent_played_out::<G, R, S>(rules, players@, &under_test.spec, roster.entries@, *config, i as int, opponent, rows)
                && opponent_plies == saturated(row_plies(rows) as int);
        let t = opponent.tally;
        proof {
            assert(opponent_tallies(opponents@.push(opponent)) =~= opponent_tallies(opponents@).push(t));
            lemma_summed_push(opponent_tallies(opponents@), t);
            assert(games.push(rows).drop_last() =~= games);
        }
        opponents.push(opponent);
        wins = wins + t.wins;
        draws = draws + t.draws;
        losses = losses + t.losses;
        unfinished = unfinished + t.unfinished;
        plies = plies.saturating_add(opponent_plies);
        proof {
            games = games.push(rows);
        }
        i = i + 1;
    }
    let totals = Tally::from_counts(wins, draws, losses, unfinished);
    let result = TournamentResult {
        roster_id: roster.id(),
        reference: config.reference.clone(),
        games_per_pairing: gpp,
        seed: config.seed,
        opponents,
        totals,
    };
    let run = TournamentRun { result, plies };
    proof {
        assert(played_out::<G, R, S>(rules, players@, &under_test.spec, roster.entries@, roster.spec_id(), *config, run, games));
    }
    Ok(run)
}

/// [`run_tournament_detailed`], without the ply count.
pub fn run_tournament<G: GameDomain, R: GameRules<G>, S: StrategyProvider<G>>(
    rules: &R,
    players: &[G::Player],
    under_test: &RosterEntry<S>,
    roster: &Roster<S>,
    config: &TournamentConfig,
) -> (r: Result<TournamentResult, CorpusError>)
    requires
        players@.len() < u64::MAX,
        roster.entries@.len() * players@.len() <= usize::MAX,
        roster.entries@.len() * players@.len() * config.games_per_pairing <= usize::MAX,
    ensures
        (r matches Err(CorpusError::Config(_))) <==> !entry_names(roster.entries@).contains(config.reference@),
        r matches Err(CorpusError::Config(m)) ==> m@ == unknown_reference_message(
            config.reference@,
            roster.spec_id(),
            entry_names(roster.entries@),
        ),
        r matches Err(e) ==> e is Config || (e matches CorpusError::Match(m) && !(m is Rules)),
        entry_names(roster.entries@).contains(config.reference@) && (config.games_per_pairing == 0
            || opening_settles::<G, R>(rules, Seq::empty(), config.max_plies)) ==> r is Ok,
        r matches Ok(result) ==> result_witnessed::<G, R, S>(
            rules,
            players@,
            &under_test.spec,
            roster.entries@,
            roster.spec_id(),
            *config,
            result,
        ),
{
    match run_tournament_detailed(rules, players, under_test, roster, config) {
        Ok(run) => Ok(run.result),
        Err(e) => Err(e),
    }
}

/// A game stopped by the ply cap is tallied as unfinished, never as a loss: when every game of
/// a batch was cut short, its tally is all unfinished.
pub proof fn lemma_cut_short_never_lost<G: GameDomain>(
    t: Tally,
    records: Seq<MatchRecord<G::Action, G::Outcome>>,
    p: G::Player,
)
    requires
        tallies::<G>(t, records, p),
        forall|g: int| 0 <= g < records.len() ==> (#[trigger] records[g]).outcome is None,
    ensures
        t.losses == 0,
        t.wins == 0,
        t.draws == 0,
        t.unfinished == t.games,
{
    lemma_all_cut_short::<G>(records, p);
}

/// Filtering games that were all cut short.
proof fn lemma_all_cut_short<G: GameDomain>(records: Seq<MatchRecord<G::Action, G::Outcome>>, p: G::Player)
    requires
        forall|g: int| 0 <= g < records.len() ==> (#[trigger] records[g]).outcome is None,
    ensures
        records.filter(won_by::<G>(p)).len() == 0,
        records.filter(drawn::<G>()).len() == 0,
        records.filter(lost_by::<G>(p)).len() == 0,
        records.filter(cut_short::<G>()).len() == records.len(),
    decreases records.len(),
{
    if records.len() == 0 {
        reveal(Seq::filter);
    } else {
        let rest = records.drop_last();
        assert forall|g: int| 0 <= g < rest.len() implies (#[trigger] rest[g]).outcome is None by {
            assert(rest[g] == records[g]);
        }
        lemma_all_cut_short::<G>(rest, p);
        lemma_tally_push::<G>(rest, records.last(), p);
        assert(rest.push(records.last()) =~= records);
        assert(records.last() == records[records.len() - 1]);
    }
}

/// The games counted by tallies that each count `g` games.
proof fn lemma_summed_games(ts: Seq<Tally>, g: int)
    requires
        forall|k: int| 0 <= k < ts.len() ==> (#[trigger] ts[k]).adds_up() && ts[k].games == g,
    ensures
        summed(ts).0 + summed(ts).1 + summed(ts).2 + summed(ts).3 == ts.len() * g,
    decreases ts.len(),
{
    if ts.len() > 0 {
        let rest = ts.drop_last();
        assert forall|k: int| 0 <= k < rest.len() implies (#[trigger] rest[k]).adds_up() && rest[k].games == g by {
            assert(rest[k] == ts[k]);
        }
        lemma_summed_games(rest, g);
        assert(ts.last() == ts[ts.len() - 1]);
        assert(rest.len() * g + g == ts.len() * g) by (nonlinear_arith)
            requires
                rest.len() + 1 == ts.len(),
        ;
    }
}

/// Every pairing plays `games_per_pairing` games: a tournament's totals count
/// `roster.len() * players.len() * games_per_pairing` games, and each opponent's
/// `players.len() * games_per_pairing`.
pub proof fn lemma_tournament_games<G: GameDomain, R: GameRules<G>, S: StrategyProvider<G>>(
    rules: &R,
    players: Seq<G::Player>,
    under_test: &S,
    roster: Seq<RosterEntry<S>>,
    roster_id: Seq<char>,
    config: TournamentConfig,
    run: TournamentRun,
    games: Seq<Seq<Seq<MatchRecord<G::Action, G::Outcome>>>>,
)
    requires
        played_out::<G, R, S>(rules, players, under_test, roster, roster_id, config, run, games),
    ensures
        run.result.totals.games == roster.len() * players.len() * config.games_per_pairing,
        forall|i: int|
            0 <= i < roster.len() ==> (#[trigger] run.result.opponents@[i]).tally.games == players.len()
                * config.games_per_pairing,
{
    let gpp = config.games_per_pairing as int;
    let os = run.result.opponents@;
    assert forall|i: int| 0 <= i < roster.len() implies (#[trigger] os[i]).tally.games == players.len() * gpp by {
        let o = os[i];
        assert(opponent_played_out::<G, R, S>(rules, players, under_test, roster, config, i, o, games[i]));
        let ts = seat_tallies(o.by_seat@);
        assert forall|k: int| 0 <= k < ts.len() implies (#[trigger] ts[k]).adds_up() && ts[k].games == gpp by {
            assert(pairing_played_out::<G, R, S>(
                rules,
                players,
                under_test,
                &roster[i].spec,
                config,
                i,
                k,
                roster[i].name@,
                o.by_seat@[k],
                games[i][k],
            ));
            lemma_tally_adds_up::<G>(ts[k], games[i][k], players[k]);
        }
        lemma_summed_games(ts, gpp);
    }
    let ts = opponent_tallies(os);
    assert forall|k: int| 0 <= k < ts.len() implies (#[trigger] ts[k]).adds_up() && ts[k].games == players.len()
        * gpp by {
        assert(opponent_played_out::<G, R, S>(rules, players, under_test, roster, config, k, os[k], games[k]));
    }
    lemma_summed_games(ts, players.len() * gpp);
    assert(roster.len() * (players.len() * gpp) == roster.len() * players.len() * gpp) by (nonlinear_arith);
}

/// Name of the last roster entry, the default reference. An empty roster has none.
pub fn default_reference<K>(roster: &Roster<K>) -> (r: Result<String, CorpusError>)
    ensures
        r is Ok <==> roster.entries@.len() > 0,
        r matches Ok(name) ==> name@ == roster.entries@.last().name@,
        r matches Err(e) ==> reports_config(e, "roster has no entries"@),
{
    proof {
        reveal_strlit("roster has no entries");
    }
    if roster.entries.len() == 0 {
        return Err(config_error(String::from_str("roster has no entries")));
    }
    Ok(roster.entries[roster.entries.len() - 1].name.clone())
}

} // verus!
